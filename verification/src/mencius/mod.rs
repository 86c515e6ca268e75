pub mod request;
pub mod trace;
pub mod log;
pub mod execute;
pub mod service;
