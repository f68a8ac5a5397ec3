use backrub::dedup::{path_is_under, DedupTree};
use backrub::order::{bytes_less, words_equal, words_less};
use backrub::path_order::{key_of_path, path_less};
use std::path::Path;
use backrub::{convert_32u8_to_4u64, convert_4u64_to_32u8};
use std::io;

fn content_hash(content: &[u8]) -> [u64; 4] {
    let mut hasher = blake3::Hasher::new_derive_key("foobar");
    hasher.update(content);
    convert_32u8_to_4u64(hasher.finalize().as_bytes())
}

fn scanned(dir: &str) -> Vec<(String, Result<[u64; 4], io::Error>)> {
    vec![
        (format!("{}/foo.txt", dir), Ok(content_hash(b"Hello, world!"))),
        (format!("{}/bar.txt", dir), Ok(content_hash(b"Hello, world!"))),
        (format!("{}/baz", dir), Ok(content_hash(&[0xab, 0xcd, 0x12, 0x43]))),
    ]
}

#[test]
fn find_duplicates() {
    let mut tree = DedupTree::new();
    tree.update("/tmp/dir", scanned("/tmp/dir"));
    assert_eq!(tree.len_paths(), 3);
    assert_eq!(tree.len_unique(), 2);
}

#[test]
fn duplicates_are_grouped_by_hash() {
    let mut tree = DedupTree::new();
    assert!(tree.update("/tmp/dir", scanned("/tmp/dir")).is_none());
    assert_eq!(
        tree.get_duplicates(),
        vec![vec!["/tmp/dir/bar.txt", "/tmp/dir/foo.txt"]]
    );
    assert!(tree.check());
}

#[test]
fn groups_come_in_the_order_of_their_hashes() {
    let mut tree = DedupTree::new();
    tree.update_entry(String::from("/z/1"), [5, 0, 0, 0]);
    tree.update_entry(String::from("/a/1"), [5, 0, 0, 0]);
    tree.update_entry(String::from("/m/1"), [5, 0, 0, 0]);
    tree.update_entry(String::from("/b"), [1, 9, 9, 9]);
    tree.update_entry(String::from("/c"), [1, 9, 9, 9]);
    tree.update_entry(String::from("/single"), [3, 0, 0, 0]);
    tree.update_entry(String::from("/x"), [1, 0, 0, 7]);
    tree.update_entry(String::from("/y"), [1, 0, 0, 7]);
    tree.update_entry(String::from("/last"), [u64::MAX, 0, 0, 0]);
    assert_eq!(tree.len_paths(), 9);
    assert_eq!(tree.len_unique(), 5);
    assert_eq!(
        tree.get_duplicates(),
        vec![vec!["/x", "/y"], vec!["/b", "/c"], vec!["/a/1", "/m/1", "/z/1"]]
    );
}

#[test]
fn empty_tree() {
    let mut tree = DedupTree::new();
    assert_eq!(tree.len_paths(), 0);
    assert_eq!(tree.len_unique(), 0);
    assert!(tree.get_duplicates().is_empty());
    assert!(tree.entries().is_empty());
    assert!(!tree.delete_file("/nothing"));
    assert!(!tree.delete_dir("/"));
    assert!(tree.check());
    assert_eq!(tree, DedupTree::default());
}

#[test]
fn path_gets_a_new_hash() {
    let mut tree = DedupTree::new();
    tree.update_entry(String::from("/a"), [1, 1, 1, 1]);
    tree.update_entry(String::from("/b"), [1, 1, 1, 1]);
    assert_eq!(tree.get_duplicates().len(), 1);
    tree.update_entry(String::from("/b"), [2, 2, 2, 2]);
    assert_eq!(tree.len_paths(), 2);
    assert_eq!(tree.len_unique(), 2);
    assert!(tree.get_duplicates().is_empty());
    assert_eq!(
        tree.entries(),
        vec![(String::from("/a"), [1, 1, 1, 1]), (String::from("/b"), [2, 2, 2, 2])]
    );
}

#[test]
fn entries_are_kept_in_the_order_of_their_paths() {
    let mut tree = DedupTree::new();
    for path in ["/b", "/a/z", "/a", "/c", "/a/b", "/ab", "/a.b"] {
        tree.update_entry(String::from(path), [path.len() as u64, 0, 0, 0]);
    }
    let paths: Vec<String> = tree.entries().into_iter().map(|(p, _)| p).collect();
    assert_eq!(paths, vec!["/a", "/a.b", "/a/b", "/a/z", "/ab", "/b", "/c"]);
    let again = DedupTree::from_entries(tree.entries());
    assert_eq!(again, tree);
    let doubled = DedupTree::from_entries(vec![
        (String::from("/x"), [1, 0, 0, 0]),
        (String::from("/x"), [2, 0, 0, 0]),
    ]);
    assert_eq!(doubled.entries(), vec![(String::from("/x"), [2, 0, 0, 0])]);
}

#[test]
fn files_and_directories_are_forgotten() {
    let mut tree = DedupTree::new();
    for path in ["/a/1", "/a/2", "/a/sub/3", "/ab/4", "/b/5", "/a"] {
        tree.update_entry(String::from(path), [7, 7, 7, 7]);
    }
    assert!(tree.delete_file("/b/5"));
    assert!(!tree.delete_file("/b/5"));
    assert!(!tree.delete_file("/b"));
    assert_eq!(tree.len_paths(), 5);
    assert!(tree.delete_dir("/a"));
    let paths: Vec<String> = tree.entries().into_iter().map(|(p, _)| p).collect();
    assert_eq!(paths, vec!["/ab/4"]);
    assert!(!tree.delete_dir("/a"));
    assert!(tree.delete_dir("/"));
    assert_eq!(tree.len_paths(), 0);
}

#[test]
fn paths_under_a_directory() {
    assert!(path_is_under("/a/b", "/a"));
    assert!(path_is_under("/a/b/c", "/a"));
    assert!(path_is_under("/a", "/a"));
    assert!(path_is_under("/a/b", "/a/"));
    assert!(path_is_under("/a/b", "/"));
    assert!(path_is_under("/", "/"));
    assert!(path_is_under("/a", ""));
    assert!(!path_is_under("/ab", "/a"));
    assert!(!path_is_under("/a", "/a/b"));
    assert!(!path_is_under("/b/a", "/a"));
    assert!(!path_is_under("a", "/a"));
}

#[test]
fn scan_updates_cleans_up_and_reports() {
    let mut tree = DedupTree::new();
    tree.update_entry(String::from("/dir/old"), [1, 0, 0, 0]);
    tree.update_entry(String::from("/dir/kept"), [2, 0, 0, 0]);
    tree.update_entry(String::from("/dir/unreadable"), [3, 0, 0, 0]);
    tree.update_entry(String::from("/other/file"), [4, 0, 0, 0]);
    let errors = tree
        .update(
            "/dir",
            vec![
                (String::from("/dir/kept"), Ok([20, 0, 0, 0])),
                (String::from("/dir/unreadable"), Err(io::Error::new(io::ErrorKind::PermissionDenied, "no"))),
                (String::from("/dir/new"), Ok([5, 0, 0, 0])),
                (String::from("/dir/broken"), Err(io::Error::new(io::ErrorKind::NotFound, "gone"))),
            ],
        )
        .unwrap();
    assert_eq!(errors.len(), 2);
    let listed: Vec<(String, io::ErrorKind)> =
        errors.iter().map(|(p, e)| (p.display().to_string(), e.kind())).collect();
    assert_eq!(
        listed,
        vec![
            (String::from("/dir/unreadable"), io::ErrorKind::PermissionDenied),
            (String::from("/dir/broken"), io::ErrorKind::NotFound),
        ]
    );
    assert_eq!(
        tree.entries(),
        vec![
            (String::from("/dir/kept"), [20, 0, 0, 0]),
            (String::from("/dir/new"), [5, 0, 0, 0]),
            (String::from("/dir/unreadable"), [3, 0, 0, 0]),
            (String::from("/other/file"), [4, 0, 0, 0]),
        ]
    );
}

#[test]
fn orders_of_bytes_and_words() {
    assert!(bytes_less(b"", b"a"));
    assert!(!bytes_less(b"", b""));
    assert!(!bytes_less(b"a", b""));
    assert!(bytes_less(b"a", b"ab"));
    assert!(bytes_less(b"ab", b"b"));
    assert!(!bytes_less(b"b", b"ab"));
    assert!(bytes_less(b"a\x00", b"a\x01"));
    assert!(!bytes_less(b"abc", b"abc"));
    assert!(bytes_less(&[0x7f], &[0x80]));
    assert!(words_less(&[0, 0, 0, 0], &[0, 0, 0, 1]));
    assert!(words_less(&[0, 9, 9, 9], &[1, 0, 0, 0]));
    assert!(words_less(&[1, 2, 3, 4], &[1, 2, 4, 0]));
    assert!(!words_less(&[1, 2, 3, 4], &[1, 2, 3, 4]));
    assert!(!words_less(&[2, 0, 0, 0], &[1, 9, 9, 9]));
    assert!(words_equal(&[1, 2, 3, 4], &[1, 2, 3, 4]));
    assert!(!words_equal(&[1, 2, 3, 4], &[1, 2, 3, 5]));
}

#[test]
fn bytes_and_words() {
    let mut bytes = [0u8; 32];
    for (i, b) in bytes.iter_mut().enumerate() {
        *b = i as u8 + 1;
    }
    let words = convert_32u8_to_4u64(&bytes);
    assert_eq!(
        words,
        [0x0807060504030201, 0x100f0e0d0c0b0a09, 0x1817161514131211, 0x201f1e1d1c1b1a19]
    );
    assert_eq!(convert_4u64_to_32u8(&words), bytes);
    assert_eq!(convert_4u64_to_32u8(&[1, 0, 0, u64::MAX])[0], 1);
    assert_eq!(convert_4u64_to_32u8(&[1, 0, 0, u64::MAX])[24..], [0xffu8; 8]);
    assert_eq!(convert_32u8_to_4u64(&[0u8; 32]), [0u64; 4]);
}

#[test]
fn paths_of_a_group_come_in_the_order_of_their_components() {
    let mut tree = DedupTree::new();
    for path in ["/d/a.b", "/d/a/b", "/d/a", "/d/a!", "/d/a/b/c", "/d.e/a", "/d/", "/c/z"] {
        tree.update_entry(String::from(path), [7, 7, 7, 7]);
    }
    let groups = tree.get_duplicates();
    assert_eq!(
        groups,
        vec![vec!["/c/z", "/d/", "/d/a", "/d/a/b", "/d/a/b/c", "/d/a!", "/d/a.b", "/d.e/a"]]
    );
    // the order of the paths as the standard library has it
    let mut expected: Vec<&Path> = groups[0].iter().map(|p| Path::new(*p)).collect();
    expected.sort();
    assert_eq!(groups[0].iter().map(|p| Path::new(*p)).collect::<Vec<_>>(), expected);
    // the entries themselves are kept in the order of their bytes
    let kept: Vec<String> = tree.entries().into_iter().map(|(p, _)| p).collect();
    assert_eq!(kept, vec!["/c/z", "/d.e/a", "/d/", "/d/a", "/d/a!", "/d/a.b", "/d/a/b", "/d/a/b/c"]);
}

#[test]
fn key_of_a_path_holds_its_components() {
    assert_eq!(key_of_path(b""), Vec::<u8>::new());
    assert_eq!(key_of_path(b"/"), vec![0, 1]);
    assert_eq!(key_of_path(b"."), vec![0, 2]);
    assert_eq!(key_of_path(b".."), vec![0, 3]);
    assert_eq!(key_of_path(b"a"), vec![0, 4, b'a']);
    // a dot is below the separator and is raised by one; letters stay
    assert_eq!(
        key_of_path(b"/d/a.b"),
        vec![0, 1, 0, 4, b'd', 0, 4, b'a', b'.' + 1, b'b']
    );
    assert_eq!(key_of_path(b"/d/a/b"), vec![0, 1, 0, 4, b'd', 0, 4, b'a', 0, 4, b'b']);
    // separators that meet, a separator at the end and a dot on the way make no component
    assert_eq!(key_of_path(b"//d//./a/b/./"), key_of_path(b"/d/a/b"));
    assert_eq!(key_of_path(b"./a/../b"), vec![0, 2, 0, 4, b'a', 0, 3, 0, 4, b'b']);
    assert_eq!(key_of_path(b"a/."), vec![0, 4, b'a']);
    assert_eq!(key_of_path(b"..."), vec![0, 4, b'.' + 1, b'.' + 1, b'.' + 1]);
    assert_eq!(key_of_path(&[0u8, 46, 47, 48, 255]), vec![0, 4, 1, 47, 0, 4, 48, 255]);
}

#[test]
fn order_of_paths_is_the_order_of_their_components() {
    let mut paths: Vec<String> = [
        "", "/", ".", "..", "a", "/a", "./a", "../a", "a/b", "a.b", "a!b", "a/", "a//b", "a/./b",
        "/d/a.b", "/d/a/b", "/d/a", "/d/ab", "/d/a/", "/..", "/.", "...", ".a", "a/..", "a/.",
        "\u{1}", "a\u{1}", "a\u{0}b", "é", "a/é", "~", "a~", "//", "/./.", "b", "B",
    ]
    .iter()
    .map(|p| p.to_string())
    .collect();
    // and paths made of a few characters in every mix
    let letters = ['/', '.', 'a', '!', '0'];
    let mut state: u64 = 17;
    for _ in 0..300 {
        let mut path = String::new();
        state = state.wrapping_mul(6364136223846793005).wrapping_add(1442695040888963407);
        let len = (state >> 60) as usize % 7;
        for _ in 0..len {
            state = state.wrapping_mul(6364136223846793005).wrapping_add(1442695040888963407);
            path.push(letters[(state >> 33) as usize % letters.len()]);
        }
        paths.push(path);
    }
    for a in &paths {
        for b in &paths {
            let (pa, pb) = (Path::new(a), Path::new(b));
            let expected = if pa != pb { pa < pb } else { a.as_bytes() < b.as_bytes() };
            assert_eq!(path_less(a, b), expected, "{:?} before {:?}", a, b);
            assert_eq!(pa == pb, key_of_path(a.as_bytes()) == key_of_path(b.as_bytes()));
        }
    }
}
