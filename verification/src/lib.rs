pub mod avro;
pub mod bundle;
pub mod chunks;
pub mod digest;
pub mod errors;
pub mod json_array;
pub mod metadata;
pub mod reader;
