use elio::ids::{list_ids, parse_ids, same_ids, sorted_ids};
use elio::order::{compare_bytes, compare_numbers, same_bytes, stable_sort, Order};
use elio::path::FilePath;
use elio::path_set::PathSet;
use elio::platform::Platform;
use elio::text::{
    chars_of, parse_u32, push_decimal, read_u32, same_text, text_of, with_forward_slashes,
    NumberFault,
};
use std::path::Path;

const SAMPLES: [&str; 24] = [
    "", "/", "//", ".", "..", "a", "/a", "a/", "/a/", "a/b", "/a/b", "a//b", "./a", "a/.", "a/./b",
    "/.", "/..", "../a", "a/..", "/a/b/c", "//a//b//", "a/b.txt", ".hidden", "/./a",
];

fn text(path: &Path) -> String {
    path.to_str().unwrap().to_string()
}

#[test]
fn paths_agree_with_std() {
    for sample in SAMPLES {
        let mine = FilePath::from_text(sample);
        let std = Path::new(sample);
        assert_eq!(mine.is_absolute(), std.is_absolute(), "{sample:?}");
        assert_eq!(
            mine.file_name_text(),
            std.file_name().map(|name| name.to_str().unwrap().to_string()),
            "{sample:?}"
        );
        assert_eq!(
            mine.parent().map(|parent| parent.display(Platform::Linux)),
            std.parent().map(text),
            "{sample:?}"
        );
        assert_eq!(
            mine.ancestors()
                .iter()
                .map(|path| path.display(Platform::Linux))
                .collect::<Vec<_>>(),
            std.ancestors().map(text).collect::<Vec<_>>(),
            "{sample:?}"
        );
    }
}

#[test]
fn pairs_of_paths_agree_with_std() {
    for left in SAMPLES {
        for right in SAMPLES {
            let (a, b) = (FilePath::from_text(left), FilePath::from_text(right));
            let (x, y) = (Path::new(left), Path::new(right));
            assert_eq!(a.same_path(&b), x == y, "{left:?} {right:?}");
            assert_eq!(a.compare(&b) == Order::Less, x < y, "{left:?} {right:?}");
            assert_eq!(a.compare(&b) == Order::Greater, x > y, "{left:?} {right:?}");
            assert_eq!(
                a.strip_prefix(&b).map(|rest| rest.display(Platform::Linux)),
                x.strip_prefix(y).ok().map(text),
                "{left:?} {right:?}"
            );
            assert_eq!(
                a.join(right.as_bytes()).display(Platform::Linux),
                text(&x.join(y)),
                "{left:?} {right:?}"
            );
        }
    }
}

#[test]
fn paths_are_shown_as_the_platform_writes_them() {
    let path = FilePath::from_text("C:/Users/paco");
    assert_eq!(path.display(Platform::Windows), "C:\\Users\\paco");
    assert_eq!(path.display(Platform::Linux), "C:/Users/paco");
    let path = FilePath::from_text("//?/C:/a");
    assert_eq!(path.display(Platform::Windows), "\\\\?\\C:\\a");
}

#[test]
fn half_a_surrogate_pair_is_shown_as_one_replacement() {
    let path = FilePath::from_bytes(b"fo\xed\xa0\x80o/x".to_vec());
    assert_eq!(path.display(Platform::Windows), "fo\u{fffd}o\\x");
    let path = FilePath::from_bytes(b"\xed\x9f\xbf".to_vec());
    assert_eq!(path.display(Platform::Windows), "\u{d7ff}");
}

#[test]
fn odd_bytes_are_shown_as_replacements() {
    let path = FilePath::from_bytes(b"/a\xffb".to_vec());
    assert_eq!(path.display(Platform::Linux), "/a\u{fffd}b");
    assert_eq!(path.file_name(), Some(b"a\xffb".to_vec()));
    assert_eq!(path.file_name_text(), None);
}

#[test]
fn path_sets_go_by_parts_and_come_out_sorted() {
    let mut set = PathSet::new();
    assert!(set.is_empty());
    assert!(set.insert(&FilePath::from_text("/b")));
    assert!(set.insert(&FilePath::from_text("/a/c")));
    assert!(!set.insert(&FilePath::from_text("/a//c/")));
    assert!(set.contains(&FilePath::from_text("//b")));
    assert_eq!(set.len(), 2);
    let sorted: Vec<String> = set.to_sorted().iter().map(|path| path.display(Platform::Linux)).collect();
    assert_eq!(sorted, vec!["/a/c", "/b"]);
    assert!(set.remove(&FilePath::from_text("/b/")));
    assert!(!set.remove(&FilePath::from_text("/b")));
    set.clear();
    assert!(set.is_empty());
}

#[test]
fn numbers_are_read_like_std_reads_them() {
    for sample in [
        "", "0", "7", "+7", "-7", "007", "+", "-", "4294967295", "4294967296", "99999999999", "1a",
        "99999999999x", "4294967295x", "x99999999999", " 1", "1 ", "\u{661}",
    ] {
        assert_eq!(parse_u32(sample), sample.parse::<u32>().ok(), "{sample:?}");
        assert_eq!(
            read_u32(sample).map_err(|fault| fault.message().to_string()),
            sample.parse::<u32>().map_err(|error| error.to_string()),
            "{sample:?}"
        );
    }
    for n in [0u32, 9, 10, 4294967295] {
        let mut out = String::from("n");
        push_decimal(&mut out, n);
        assert_eq!(out, format!("n{n}"));
    }
}

#[test]
fn ids_are_listed_and_read_back() {
    let ids = vec![1000, 0, 27];
    assert_eq!(list_ids(&ids), "1000,0,27");
    assert_eq!(parse_ids("1000,0,27"), Ok(ids));
    assert_eq!(list_ids(&Vec::new()), "");
    assert_eq!(parse_ids(""), Err(NumberFault::Empty));
    assert_eq!(sorted_ids(vec![3, 1, 3, 2]), vec![1, 2, 3]);
    assert!(same_ids(vec![1, 2, 2], vec![2, 1]));
    assert!(!same_ids(vec![1], vec![1, 2]));
}

#[test]
fn texts_are_taken_apart_and_put_together() {
    assert_eq!(chars_of("h\u{e9}"), vec!['h', '\u{e9}']);
    assert_eq!(text_of(&['a', 'b']), "ab");
    assert_eq!(with_forward_slashes("a\\b/c"), "a/b/c");
    assert!(same_text("x", "x"));
    assert!(!same_text("x", "y"));
    assert_eq!(elio::text::concat("ab", "c"), "abc");
}

#[test]
fn orders_agree_with_std() {
    assert_eq!(compare_bytes(b"a", b"ab"), Order::Less);
    assert_eq!(compare_bytes(b"b", b"ab"), Order::Greater);
    assert_eq!(compare_bytes(b"", b""), Order::Equal);
    assert!(same_bytes(b"ab", b"ab"));
    assert!(!same_bytes(b"ab", b"a"));
    assert_eq!(compare_numbers(1, 2), Order::Less);
    assert_eq!(stable_sort(vec![3u32, 1, 2, 1]), vec![1, 1, 2, 3]);
}
