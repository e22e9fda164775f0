//! A verified reader and writer for DER, the distinguished encoding of ASN.1.

pub mod bit_string;
pub mod choice;
pub mod chrono_time;
pub mod convert;
pub mod element;
pub mod error;
pub mod forms;
pub mod integer;
pub mod laws;
pub mod object_identifier;
pub mod parser;
pub mod printable_string;
pub mod sequence;
pub mod tagging;
pub mod time;
pub mod time_forms;
pub mod utc_time;
pub mod utf8;
pub mod writer;

pub use crate::bit_string::BitString;
pub use crate::choice::{Choice1, Choice2, Choice3};
pub use crate::element::{Asn1Element, SimpleAsn1Element};
pub use crate::error::{ParseError, ParseResult};
pub use crate::object_identifier::ObjectIdentifier;
pub use crate::parser::{parse, Parser};
pub use crate::printable_string::PrintableString;
pub use crate::sequence::{Contents, Sequence, SequenceBody};
pub use crate::tagging::{Explicit, Implicit};
pub use crate::time::DateTime;
pub use crate::utc_time::UtcTime;
pub use crate::writer::Writer;
