//! FIX message processing: framing a byte stream into checksum-verified
//! messages, tokenising a message into its fields, reading field values,
//! reading QuickFIX XML data dictionaries, and generating typed message
//! wrappers from a dictionary.
//!
//! What each operation returns is stated over the bytes it reads, and the
//! laws that span calls (garbles always make progress, frames are
//! self-delimiting, chunked delivery yields the same frames as whole
//! delivery, a tokenised message's fields tile its frame, a stream loses no
//! byte) are proved in `framing_laws`, `tokenizer` and `stream`.
#![allow(unused_imports)]

pub mod buffers;
pub mod bytes_spec;
pub mod codegen;
pub mod dictionary;
pub mod framing;
pub mod framing_laws;
pub mod length_tags;
pub mod message;
pub mod quickfix;
pub mod scanner;
pub mod stream;
pub mod text;
pub mod tokenizer;
pub mod value;

pub use codegen::{generate, snake_case};
pub use dictionary::{Category, DataType, Dictionary, EnumValue, Field, FieldRef, Message, Protocol, Version};
pub use message::{MALFORMED_TAG, RawMessage};
pub use stream::MessageStream;
pub use tokenizer::{TokenizeError, Tokenizer};
pub use value::InvalidValue;
