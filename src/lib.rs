//! American Soundex: a four-symbol phonetic code for a name.

pub mod class;
pub mod encode;
pub mod runs;

pub use class::american_soundex_code;
pub use encode::american_soundex;
