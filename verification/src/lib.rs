//! A codec for the Distinguished Encoding Rules (DER) of ASN.1.
//!
//! The crate has three layers: the length codec, the tag-length-value object
//! model, and the typed conversions between DER objects and native values.
//! Every function carries a contract over a mathematical model of the wire
//! format. The contracts are proved, with one exception: what the UTF-8 check
//! of the standard library returns is taken on trust, and the conversion of
//! strings rests on it.

pub mod error;
pub mod big_endian;
pub mod der_length;
pub mod der;
pub mod types;
pub mod laws;
pub mod traits;
pub mod typed;
pub mod map;

pub use crate::der::{DerLength, DerObject, DerTag, DerValue};
pub use crate::error::Asn1DerError;
pub use crate::traits::{FromDerEncoded, IntoDerEncoded};
pub use crate::typed::FromDer;
pub use crate::types::integer::U128Ext;
pub use crate::types::{FromDerObject, IntoDerObject};
