//! Compact storage for arbitrarily large numbers and for Unicode text.
//!
//! - Linked Bytes: unsigned integers of any size as little-endian base-128 digits, each
//!   byte carrying a continuation bit ([`LBNum`]), and text stored as one such digit run
//!   per codepoint ([`LBString`]).
//! - Head Byte: signed decimal numbers as a header byte, an optional exponent byte and
//!   big-endian coefficient bytes ([`HBNum`]).
//!
//! Every number is kept in canonical form; the module `value` states what a digit sequence
//! means and proves the facts the arithmetic rests on.
pub mod convert;
pub mod division;
pub mod headbyte;
pub mod lbnum;
pub mod lbstring;
pub mod linkedbyte;
pub mod multiply;
pub mod numref;
pub mod radix;
pub mod sequence;
pub mod traits;
pub mod value;

pub use convert::TryFromIntError;
pub use division::gcd;
pub use headbyte::{Exponent, HBNum, HeadByte, InvalidExponentError, Sign};
pub use lbnum::LBNum;
pub use lbstring::{LBCharsIter, LBString};
pub use linkedbyte::LinkedByte;
pub use numref::LBNumRef;
pub use sequence::{InvalidLBSequence, LBSequence};
pub use traits::{AddAssignAt, AddAt, DivRem, DivRemAssign, Gcd, Sealed};
