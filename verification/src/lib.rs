//! Conversion of arbitrary Unicode text into constrained ASCII identifier
//! strings ("slugs"), in a strict and a lenient variant. Non-ASCII
//! characters are approximated through a transliteration table; the
//! resulting bytes run through a stateful collapsing filter that keeps
//! separators single and away from the ends.

pub mod ascii;
pub mod lenient;
pub mod strict;
pub mod translit;

pub use lenient::slugify_normal;
pub use strict::slugify;
