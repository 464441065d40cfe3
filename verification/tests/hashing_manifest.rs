use rustsync::hashing::{manifest_file_name, manifest_name_for_hash, ContentHasher};

#[test]
fn streaming_digest_equals_one_shot_hash() {
    let data: Vec<u8> = (0..20000u32).map(|i| (i * 31 % 251) as u8).collect();
    let mut h = ContentHasher::new();
    for chunk in data.chunks(8192) {
        h.update(chunk);
    }
    assert_eq!(h.digest(), xxhash_rust::xxh3::xxh3_64(&data));
}

#[test]
fn digest_depends_on_content() {
    let mut a = ContentHasher::new();
    a.update(b"hello");
    let mut b = ContentHasher::new();
    b.update(b"hellp");
    assert_ne!(a.digest(), b.digest());
    let empty = ContentHasher::new();
    assert_eq!(empty.digest(), xxhash_rust::xxh3::xxh3_64(b""));
}

#[test]
fn manifest_names() {
    assert_eq!(manifest_name_for_hash(0), "0.manifest");
    assert_eq!(manifest_name_for_hash(255), "ff.manifest");
    assert_eq!(manifest_name_for_hash(0x1234abcd), "1234abcd.manifest");
    assert_eq!(manifest_name_for_hash(u64::MAX), "ffffffffffffffff.manifest");
    let expected = format!("{:x}.manifest", xxhash_rust::xxh3::xxh3_64(b"/src:/dst"));
    assert_eq!(manifest_file_name("/src", "/dst"), expected);
    assert_ne!(manifest_file_name("/src", "/dst"), manifest_file_name("/dst", "/src"));
}
