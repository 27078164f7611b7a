pub mod byte_stream;
pub mod codec;
pub mod data_type;
pub mod errors;
pub mod floats;
pub mod frame;
pub mod json;
pub mod key_record;
pub mod keys_table;
pub mod keys_table_utils;
pub mod laws;
pub mod le;
pub mod text;

pub use byte_stream::ByteStream;
pub use errors::CodecError;
pub use frame::{decode, encode, Config};
pub use json::JsonValue;
pub use keys_table::{GlobalKeysTable, KeysTables, LocalKeysTable, MAX_TABLE_SIZE};
pub use keys_table_utils::{
    global_table_from_json, global_table_from_json_limited, global_table_from_keys,
};
