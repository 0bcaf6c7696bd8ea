//! Binary codec for a closed catalogue of device commands.
//!
//! A command is a name, a numeric identifier, a type tag and an ordered list
//! of typed fields. A [`Catalogue`] maps identifiers to payload shapes and
//! fixes the header: which of identifier and type tag lead an encoded
//! command, and in which order. A [`Command`] holds the field values;
//! encoding writes header and payload, decoding dispatches on the
//! identifier and reads the fields in declaration order.
//!
//! All integers travel at a fixed width, least significant byte first.
//!
//! The modules, leaves first: [`wire`] (integers as bytes), [`reader`] (the
//! cursor that decoders read from), [`integer`] (typed integers),
//! [`bitenum`] (bitmask flag sets), [`address`] (the tagged address),
//! [`field`] (field codecs), [`header`], [`command`] and [`catalogue`].

pub mod address;
pub mod bitenum;
pub mod catalogue;
pub mod command;
pub mod error;
pub mod field;
pub mod header;
pub mod integer;
pub mod reader;
pub mod wire;

pub use crate::address::{AddrMode, AddrModeAddress};
pub use crate::bitenum::{BitEnum, BitEnumTrait, FlagTable};
pub use crate::catalogue::Catalogue;
pub use crate::command::{Command, CommandDescriptor};
pub use crate::error::{
    CommandError, ConfigurationConflict, FieldError, UnrecognizedBit, ValueMismatch,
};
pub use crate::field::{FieldKind, FieldValue};
pub use crate::header::{HeaderOrder, HeaderPolicy};
pub use crate::integer::{IntKind, IntValue};
pub use crate::reader::ByteReader;
pub use crate::wire::Width;
