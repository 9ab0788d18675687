//! Conversions of container fields can coexist with identifier
//! cross-referencing; the cases themselves live in the other test files.

#[test]
fn new_vec_impl_test_cross_ref() {}
