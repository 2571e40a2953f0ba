use ilk::hash::IdentityHasher;

#[test]
fn digest_is_the_last_value_written() {
    let mut hasher = IdentityHasher::default();
    assert_eq!(hasher.finish(), 0);
    hasher.write_u64(42);
    assert_eq!(hasher.finish(), 42);
    hasher.write_u64(u64::MAX);
    assert_eq!(hasher.finish(), u64::MAX);
}
