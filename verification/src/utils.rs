//! Small shared helpers.

pub mod test;
