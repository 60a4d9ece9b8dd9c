use diffie::digest::{compute_blake3, compute_md5, compute_sha256, hash_file, FileHasher};
use diffie::node::{hash_directory, FileNode};
use diffie::path::FilePath;
use diffie::xattrs::{get_lsm_context, get_xattrs_hash, get_xattrs_keys, sorted_order};

fn node(hash: u64) -> FileNode {
    FileNode {
        hash,
        size: 1,
        is_dir: false,
        uid: 0,
        gid: 0,
        mode: 0,
        mtime: 0,
        atime: 0,
        ctime: 0,
        nlink: 1,
        xattrs_hash: 0,
        lsm_context: None,
        flags: 0,
    }
}

#[test]
fn sha256_of_abc() {
    assert_eq!(
        compute_sha256(b"abc"),
        "ba7816bf8f01cfea414140de5dae2223b00361a396177a9cb410ff61f20015ad"
    );
}

#[test]
fn md5_of_abc() {
    assert_eq!(compute_md5(b"abc"), "900150983cd24fb0d6963f7d28e17f72");
}

#[test]
fn blake3_of_abc() {
    assert_eq!(
        compute_blake3(b"abc"),
        "6437b3ac38465133ffb63b75273a8db548c558465d79db03fd359c6cd5bd9d85"
    );
}

#[test]
fn xxh3_of_nothing() {
    assert_eq!(hash_file(b""), 0x2d06800538d394c2);
    assert_eq!(FileHasher::new().digest(), 0x2d06800538d394c2);
}

#[test]
fn xxh3_piece_by_piece_is_that_of_the_whole() {
    let data: Vec<u8> = (0..100_000u32).map(|i| (i % 251) as u8).collect();
    let mut hasher = FileHasher::new();
    for piece in data.chunks(65536) {
        hasher.update(piece);
    }
    assert_eq!(hasher.digest(), hash_file(&data));
    assert_eq!(hash_file(&data), xxhash_rust::xxh3::xxh3_64(&data));
}

#[test]
fn directory_checksum_is_over_checksums_and_paths() {
    let a = FilePath::from_text("/d/a");
    let b = FilePath::from_text("/d/b");
    let (x, y) = (node(1), node(0x0102030405060708));
    let mut bytes = Vec::new();
    bytes.extend_from_slice(&1u64.to_le_bytes());
    bytes.extend_from_slice(b"/d/a");
    bytes.extend_from_slice(&0x0102030405060708u64.to_le_bytes());
    bytes.extend_from_slice(b"/d/b");
    assert_eq!(
        hash_directory(&vec![(&a, &x), (&b, &y)]),
        xxhash_rust::xxh3::xxh3_64(&bytes)
    );
}

#[test]
fn directory_checksum_follows_the_checksum_of_an_entry() {
    let a = FilePath::from_text("/d/a");
    assert_ne!(hash_directory(&vec![(&a, &node(1))]), hash_directory(&vec![(&a, &node(2))]));
}

#[test]
fn xattrs_are_hashed_in_the_order_of_their_names() {
    let names = vec![b"user.b".to_vec(), b"user.a".to_vec(), b"user.c".to_vec()];
    let values = vec![Some(b"2".to_vec()), Some(b"1".to_vec()), None];
    let wanted = xxhash_rust::xxh3::xxh3_64(b"user.a1user.b2");
    assert_eq!(get_xattrs_hash(&names, &values), wanted);
    let turned = vec![b"user.c".to_vec(), b"user.a".to_vec(), b"user.b".to_vec()];
    let values = vec![None, Some(b"1".to_vec()), Some(b"2".to_vec())];
    assert_eq!(get_xattrs_hash(&turned, &values), wanted);
    assert_eq!(get_xattrs_hash(&Vec::new(), &Vec::new()), 0x2d06800538d394c2);
}

#[test]
fn xattr_keys_are_sorted_text() {
    let names = vec![b"user.z".to_vec(), b"user.a\xff".to_vec(), b"security.x".to_vec()];
    assert_eq!(get_xattrs_keys(&names), vec!["security.x", "user.a\u{fffd}", "user.z"]);
    assert!(get_xattrs_keys(&Vec::new()).is_empty());
}

#[test]
fn order_of_keys() {
    let keys = vec![b"b".to_vec(), b"".to_vec(), b"ab".to_vec(), b"a".to_vec()];
    assert_eq!(sorted_order(&keys), vec![1, 3, 2, 0]);
}

#[test]
fn security_context_ends_at_the_first_zero() {
    let selinux = Some(b"system_u:object_r:etc_t:s0\0rest".to_vec());
    assert_eq!(get_lsm_context(&selinux, &None).as_deref(), Some("system_u:object_r:etc_t:s0"));
    assert_eq!(
        get_lsm_context(&None, &Some(b"profile (enforce)".to_vec())).as_deref(),
        Some("profile (enforce)")
    );
    assert_eq!(get_lsm_context(&None, &None), None);
}

#[test]
fn security_context_that_is_no_text_is_passed_over() {
    let bad = Some(vec![0xff, 0xfe]);
    assert_eq!(get_lsm_context(&bad, &Some(b"p".to_vec())).as_deref(), Some("p"));
    assert_eq!(get_lsm_context(&bad, &bad), None);
    assert_eq!(get_lsm_context(&Some(b"s".to_vec()), &Some(b"p".to_vec())).as_deref(), Some("s"));
}
