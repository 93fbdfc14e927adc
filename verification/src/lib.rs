//! Decoder for Key-Length-Value (KLV) byte streams whose Length fields use
//! ISO/IEC 8825-1 Basic Encoding Rules (BER), with support for decoding the
//! Value of a record as a local set of Tag-Length-Value (TLV) elements whose
//! tags use BER-OID continuation-bit encoding.

pub mod ber;
pub mod error;
pub mod local_set;
pub mod parser;
