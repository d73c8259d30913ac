pub mod access;
pub mod config;
pub mod deep;
pub mod discovery;
pub mod docker;
pub mod hive;
pub mod json;
pub mod load;
pub mod logging;
pub mod multipart;
pub mod order;
pub mod table;
pub mod text;
