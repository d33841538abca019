//! Stable keyed-list layout: ten labelled fields, two swap buttons, and a
//! rendering plan whose structural order never changes while the fields move.

pub mod fields;
pub mod list;
pub mod props;
pub mod style;
