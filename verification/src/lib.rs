pub mod store;
pub mod kv;
pub mod mencius;
pub mod paxos;
pub mod client;
pub mod worker;
