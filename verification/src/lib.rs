//! Deterministic school grades across scales, plus the modified Bavarian
//! formula for foreign-to-German conversion.
//!
//! Grades are held as integer thousandths (`6.0` is `6000`), so every
//! division and truncation runs on integers and no binary-float drift can
//! flip a truncation boundary. German grades come back in tenths (the
//! formula truncates to one decimal), foreign grades in hundredths (the
//! inverse truncates to two decimals). `convert` pivots through the German
//! scale and is a documented approximation.
//!
//! Same input always yields the same output: no models, no I/O. No words or
//! labels are produced; tone belongs to applications.
//!
//! - [`table`]: the grading scales and the queries on them;
//! - [`bavarian`]: the formula and its inverse;
//! - [`numeral`]: reading and writing grade numerals;
//! - [`ascii`]: case folding of scale IDs.
pub mod ascii;
pub mod bavarian;
pub mod numeral;
pub mod table;

pub use bavarian::{bavarian_from_de, bavarian_to_de};
pub use numeral::{format_grade, parse_grade, Numeral};
pub use table::{available_scales, convert, from_de, is_pass, is_supported, scale, to_de, Scale};
