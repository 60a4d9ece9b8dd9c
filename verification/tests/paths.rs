use diffie::order::Order;
use diffie::path::{is_under_any, FilePath};
use diffie::path_map::PathMap;
use std::path::{Path, PathBuf};

const TEXTS: [&str; 24] = [
    "", "/", "//", ".", "..", "a", "a/", "/a", "/a/b", "/a//b/", "/a/./b", "/a/../b", "./a",
    "../a", "a/b/c", "/etc", "/etc/passwd", "/etcetera", "/usr/bin", "/usr/sbin", "/a.b", "/a/b.c",
    "/a/..", "/.",
];

#[test]
fn starts_with_is_by_component() {
    let dev = FilePath::from_text("/dev");
    assert!(!FilePath::from_text("/develop").starts_with(&dev));
    assert!(FilePath::from_text("/dev/null").starts_with(&dev));
    assert!(dev.starts_with(&dev));
}

#[test]
fn depth_counts_components() {
    for text in TEXTS {
        let path = FilePath::from_text(text);
        assert_eq!(path.depth(), Path::new(text).components().count(), "{:?}", text);
    }
}

#[test]
fn parent_is_that_of_std() {
    for text in TEXTS {
        let mine = FilePath::from_text(text).parent().map(|p| p.to_string_lossy());
        let theirs = Path::new(text).parent().map(|p| p.to_string_lossy().into_owned());
        assert_eq!(mine, theirs, "{:?}", text);
    }
}

#[test]
fn file_name_is_that_of_std() {
    for text in TEXTS {
        let path = FilePath::from_text(text);
        let theirs = Path::new(text).file_name().map(|n| n.as_encoded_bytes());
        assert_eq!(path.file_name(), theirs, "{:?}", text);
    }
}

#[test]
fn order_and_equality_are_those_of_std() {
    for a in TEXTS {
        for b in TEXTS {
            let x = FilePath::from_text(a);
            let y = FilePath::from_text(b);
            let wanted = match PathBuf::from(a).cmp(&PathBuf::from(b)) {
                std::cmp::Ordering::Less => Order::Less,
                std::cmp::Ordering::Equal => Order::Equal,
                std::cmp::Ordering::Greater => Order::Greater,
            };
            assert_eq!(x.compare(&y), wanted, "{:?} {:?}", a, b);
            assert_eq!(x.same(&y), Path::new(a) == Path::new(b), "{:?} {:?}", a, b);
            assert_eq!(
                x.starts_with(&y),
                Path::new(a).starts_with(Path::new(b)),
                "{:?} {:?}",
                a,
                b
            );
            assert_eq!(
                x.is_child_of(&y),
                Path::new(a).parent() == Some(Path::new(b)),
                "{:?} {:?}",
                a,
                b
            );
        }
    }
}

#[test]
fn join_is_that_of_std() {
    for dir in TEXTS {
        for name in ["x", "/x", "a/b", ""] {
            let mine = FilePath::from_text(dir).join(name.as_bytes());
            let theirs = Path::new(dir).join(name);
            assert_eq!(mine.to_string_lossy(), theirs.to_string_lossy(), "{:?} {:?}", dir, name);
        }
    }
}

#[test]
fn bytes_that_are_no_text_are_kept_and_shown_lossily() {
    let path = FilePath::from_bytes(vec![b'/', b'a', 0xff, b'b']);
    assert_eq!(path.as_bytes(), &[b'/', b'a', 0xff, b'b']);
    assert_eq!(path.to_string_lossy(), "/a\u{fffd}b");
}

#[test]
fn under_any_of_several() {
    let dirs = vec![FilePath::from_text("/proc"), FilePath::from_text("/dev")];
    assert!(is_under_any(&FilePath::from_text("/dev/null"), &dirs));
    assert!(is_under_any(&FilePath::from_text("/proc"), &dirs));
    assert!(!is_under_any(&FilePath::from_text("/develop"), &dirs));
    assert!(!is_under_any(&FilePath::from_text("/dev"), &Vec::new()));
}

#[test]
fn a_map_keeps_path_order_and_the_first_text() {
    let mut map: PathMap<u32> = PathMap::new();
    for (text, n) in [("/b", 2), ("/a/x", 3), ("/a", 1), ("/c", 4)] {
        map.insert(FilePath::from_text(text), n);
    }
    map.insert(FilePath::from_text("/a//x"), 30);
    let mut seen = Vec::new();
    for i in 0..map.len() {
        seen.push((map.path_at(i).to_string_lossy(), *map.value_at(i)));
    }
    let wanted = [("/a", 1), ("/a/x", 30), ("/b", 2), ("/c", 4)];
    assert_eq!(seen.len(), wanted.len());
    for i in 0..wanted.len() {
        assert_eq!((seen[i].0.as_str(), seen[i].1), wanted[i]);
    }
    assert_eq!(map.get(&FilePath::from_text("/a/./x")), Some(&30));
    assert_eq!(map.remove(&FilePath::from_text("/b")), Some(2));
    assert_eq!(map.remove(&FilePath::from_text("/b")), None);
    assert!(!map.contains(&FilePath::from_text("/b")));
    assert_eq!(map.lower_bound(&FilePath::from_text("/b")), 2);
    assert_eq!(map.clone().len(), 3);
    assert_eq!(
        map.stored_path(&FilePath::from_text("/a/x/")).map(|p| p.to_string_lossy()),
        Some("/a/x".to_string())
    );
}
