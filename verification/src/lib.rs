//! Core of a unit-aware exact-precision calculator.
//!
//! The library evaluates arithmetic on quantities that carry physical
//! units (such as "1 kg + 12 g"), keeping results exact wherever the
//! arithmetic permits.  It offers:
//!
//! - an exact scalar type (a rational number, optionally complex, tagged
//!   with an approximation flag and a preferred display base),
//! - a dimensional unit system (base units, named scaled units, compound
//!   units, and unit-carrying values with conversion between compatible
//!   units),
//! - a lexer that turns calculator input into tokens, building numeric
//!   literals digit by digit in arbitrary bases, and
//! - a cooperative-cancellation scheme threaded through every loop that
//!   is not trivially bounded.

use vstd::prelude::*;

mod error;
mod exact;
mod interrupt;
mod lexer;
mod rational;
mod unit;

pub use error::CalcError;
pub use error::IntErr;
pub use exact::Base;
pub use exact::ExactValue;
pub use interrupt::Always;
pub use interrupt::Interrupt;
pub use interrupt::Never;
pub use lexer::lex;
pub use lexer::Symbol;
pub use lexer::Token;
pub use lexer::is_valid_in_ident;
pub use lexer::is_valid_in_ident_char;
pub use unit::BaseUnit;
pub use unit::Unit;
pub use unit::NamedUnit;
pub use unit::UnitExponent;
pub use unit::UnitValue;

verus! {

use vstd::string::StringExecFns;

/// Returns the current version of the library.
pub fn get_version() -> (r: String)
    ensures
        r@ == "0.1.4"@,
{
    String::from_str("0.1.4")
}

/// Returns the extended version of the library, which includes the
/// release date in addition to the semver number.
pub fn get_extended_version() -> (r: String)
    ensures
        r@ == "0.1.4 (2020-09-15)"@,
{
    String::from_str("0.1.4 (2020-09-15)")
}

} // verus!
