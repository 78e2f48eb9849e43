//! Parsers for binary containers whose records point at one another by byte
//! offsets into one shared buffer.
//!
//! A parser is any function from a byte slice to an [`IResult`]: on success the
//! unread rest of the slice and a value, on failure a [`ParseError`]. The
//! combinators here build such parsers out of others: they follow an offset
//! into the buffer and come back ([`at_offset`], [`offset_then`]), follow a
//! table of offsets ([`offset_table`], [`count_then_offset`]), read text up to
//! a NUL ([`string`]) and repeat a parser up to a sentinel ([`many_until`]).
//!
//! In contracts a parser stands as the relation between an input and the
//! outcomes it may have there ([`parser::Outcomes`]). Each combinator comes
//! with a function from the relations of its parts to its own, and is proved
//! to return nothing outside it ([`parser::refines`]). The parsers handed to a
//! combinator must accept every input ([`parser::total`]): a parser rejects
//! what it cannot read by failing.

pub mod error;
pub mod global;
pub mod number;
pub mod offset;
pub mod parser;
pub mod repeat;
pub mod table;
pub mod terminator;
pub mod text;
pub mod traits;
pub mod trusted;

pub use error::{ErrorKind, ParseError};
pub use global::ParsingContext;
pub use number::{i32, u16, u32, u32_usize, usize, Endianness};
pub use offset::{at_offset, offset_read_then, offset_then};
pub use parser::IResult;
pub use repeat::{many_until, many_until_nth};
pub use table::{count_then_offset, offset_read_table, offset_table};
pub use text::{offset_read_string, offset_string, string};
pub use traits::{Parse, ParseContext, ParseEndian};
