use hashtable::digest::{compute_bucket_index, compute_hash};

#[test]
fn bucket_index_is_digest_mod_len() {
    assert_eq!(compute_bucket_index(37, 16), 5);
    assert_eq!(compute_bucket_index(16, 16), 0);
    assert_eq!(compute_bucket_index(u64::MAX, 16), 15);
    assert_eq!(compute_bucket_index(u64::MAX, 1), 0);
    assert_eq!(compute_bucket_index(100, 33), 1);
}

#[test]
fn hash_is_deterministic_and_depends_on_key() {
    assert_eq!(compute_hash("key1"), compute_hash("key1"));
    assert_eq!(compute_hash(""), compute_hash(""));
    assert_ne!(compute_hash("key1"), compute_hash("key2"));
    assert_ne!(compute_hash(""), compute_hash("a"));
}
