pub mod request;
pub mod log;
pub mod execute;
pub mod service;
