pub mod hashmap;
pub mod kvstore;
pub mod log_storage;
