//! Paths to the fixture files that the test suite reads.

use vstd::prelude::*;

verus! {

/// The path of a fixture file, relative to the crate root.
pub fn get_test_data_file_path(relative_path: &str) -> (r: String)
    ensures
        r@ == "tests/data/"@ + relative_path@,
{
    let mut s = String::from_str("tests/data/");
    s.append(relative_path);
    s
}

} // verus!
