use mencius::client::choose_key_and_server;
use mencius::kv::execute_op;
use mencius::store::table_new;

#[test]
fn read_answers_the_last_write() {
    let mut t = table_new();
    assert_eq!(execute_op(&mut t, &String::from("k"), &String::from("v1")), "Put ok");
    assert_eq!(execute_op(&mut t, &String::from("k"), &String::from("v2")), "Put ok");
    assert_eq!(execute_op(&mut t, &String::from("k"), &String::new()), "v2");
    assert_eq!(execute_op(&mut t, &String::from("k"), &String::new()), "v2");
}

#[test]
fn writes_to_distinct_keys_commute() {
    let mut t1 = table_new();
    let mut t2 = table_new();
    execute_op(&mut t1, &String::from("a"), &String::from("1"));
    execute_op(&mut t1, &String::from("b"), &String::from("2"));
    execute_op(&mut t2, &String::from("b"), &String::from("2"));
    execute_op(&mut t2, &String::from("a"), &String::from("1"));
    for k in ["a", "b"] {
        assert_eq!(
            execute_op(&mut t1, &String::from(k), &String::new()),
            execute_op(&mut t2, &String::from(k), &String::new())
        );
    }
}

#[test]
fn client_choices_stay_in_range() {
    for _ in 0..200 {
        let (key, server) = choose_key_and_server(10, 3);
        assert!(key < 10);
        assert!(server < 3);
    }
    assert_eq!(choose_key_and_server(1, 1), (0, 0));
}
