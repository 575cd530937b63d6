pub mod byte_text;
pub mod data_store;
pub mod decimal;
pub mod resp;
pub mod resp_laws;
pub mod operations;
pub mod store_laws;
pub mod command_laws;
