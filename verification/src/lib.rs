//! A decoder for a line-oriented, type-tagged wire format: a complete buffer
//! goes in, a typed value tree comes out.
//!
//! [`parse_message`] decodes a buffer that holds exactly one value,
//! [`parse_value`] one value at the start of a buffer.  What either accepts
//! and yields is stated by the functions of [`grammar`] on byte sequences,
//! and [`laws`] holds what follows for every buffer.
//!
//! ```
//! use tinyresp::{parse_message, Value};
//!
//! let message = "*2\r\n$5\r\nhello\r\n$5\r\nworld\r\n";
//! let (rest, value) = parse_message(message).unwrap();
//! assert_eq!(rest, "");
//! assert_eq!(
//!     value,
//!     Value::Array(vec![Value::BulkString("hello"), Value::BulkString("world")])
//! );
//! ```
//!
//! Lengths count bytes.  Values nest as deep as the input does, and each
//! level of nesting takes a level of the call stack.

pub mod decode;
pub mod double;
pub mod error;
pub mod grammar;
pub mod keyed;
pub mod laws;
pub mod order;
pub mod order_laws;
pub mod relations;
pub mod scan;
pub mod set;
pub mod text;
pub mod value;

pub use decode::{parse, parse_message, parse_value};
pub use error::{ErrorKind, ParseError};
pub use keyed::{StringMap, ToHashMapError};
pub use order::Sign;
pub use set::ValueSet;
pub use value::{Tree, Value};
