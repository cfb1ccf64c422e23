//! Encoding of measurements into the line protocol of a time-series store.
//!
//! A [`measurement::Measurement`] is a key with tags, typed fields and an
//! optional timestamp. The [`serializer::line::LineSerializer`] turns it into
//! one line of bytes:
//!
//! ```text
//! key,tag=value,tag=value field=value,field=value timestamp
//! ```
//!
//! The encoder only computes bytes; sending them is left to its caller.
//! Every line is stated as a function of what the measurement holds
//! ([`serializer::line::line`]), and the encoder is proved to return exactly
//! that line: escaped as [`escape`] describes, with tags and fields in the
//! order that [`order`] defines, numbers in the decimal text of [`decimal`],
//! and the whole valid UTF-8 ([`text`]).

pub mod decimal;
pub mod escape;
pub mod measurement;
pub mod order;
pub mod serializer;
pub mod text;
