//! The scan: names, patterns, times, order, and the records of a bulk scan.

use tzip::bulk_walker::{child_prefix, parse_batch, read_record};
use tzip::dostime::{civil_from_days, unix_to_dos};
use tzip::names::sorted_names;
use tzip::path::{
    components, directory, extension, file_name, join, path_key, relative, same_path,
};
use tzip::sort::{key_less, sort_by_key, unkeyed, Keyed};
use tzip::walker::{
    archive_name, base_name, build_item, entry_name, glob_match, is_excluded, root_file_name, walk,
    WalkOpts,
};

fn strings(v: &[&str]) -> Vec<String> {
    v.iter().map(|s| s.to_string()).collect()
}

#[test]
fn patterns() {
    let cases = [
        ("", "", true),
        ("", "a", false),
        ("*", "", true),
        ("*", "a/b", true),
        ("*.log", "x.log", true),
        ("*.log", "dir/x.log", true),
        ("*.log", "x.log.gz", false),
        ("a?c", "abc", true),
        ("a?c", "ac", false),
        ("a*b*c", "a--b--c", true),
        ("a*b*c", "a--c--b", false),
        ("**", "x", true),
        ("corpus/*", "corpus/a.txt", true),
        ("?", "é", true),
        ("??", "é", false),
        ("?.txt", "é.txt", true),
        ("*é", "aé", true),
        ("abc", "abc", true),
        ("abc", "abcd", false),
    ];
    for (pattern, text, expected) in cases {
        assert_eq!(glob_match(pattern, text), expected, "{} on {}", pattern, text);
    }
}

#[test]
fn a_leading_star_matches_suffixes() {
    assert!(glob_match(".tmp", ".tmp"));
    for front in ["", "a", "a/b/c"] {
        assert!(glob_match("*.tmp", &format!("{}.tmp", front)));
    }
}

#[test]
fn one_pattern_excludes() {
    let globs = strings(&["*.o", "target/*"]);
    assert!(is_excluded("src/a.o", &globs));
    assert!(is_excluded("target/x", &globs));
    assert!(!is_excluded("src/a.rs", &globs));
    assert!(!is_excluded("src/a.rs", &[]));
}

#[test]
fn names_in_the_archive() {
    assert_eq!(archive_name("corpus", b"nested/c.txt"), "corpus/nested/c.txt");
    assert_eq!(archive_name("corpus", b"/c.txt"), "corpus/c.txt");
    assert_eq!(archive_name("corpus", b""), "corpus");
    assert_eq!(archive_name("corpus", b"a\\b"), "corpus/a/b");
    assert_eq!(archive_name("", b"//etc/hosts"), "etc/hosts");
    assert_eq!(archive_name("", b"\\x"), "x");
    assert_eq!(archive_name("d", b"\xff.txt"), "d/\u{fffd}.txt");
}

#[test]
fn roots_and_what_lies_below() {
    let none: Vec<String> = Vec::new();
    assert_eq!(base_name(b"/home/me/src"), "src");
    assert_eq!(base_name(b"/"), "");
    assert_eq!(root_file_name(b"/home/me/a.txt", &none), Some("a.txt".to_string()));
    assert_eq!(root_file_name(b"/home/me/a.txt", &strings(&["a.*"])), None);
    let name = entry_name(b"/home/me", b"/home/me/x/y", true, &none);
    assert_eq!(name, Some("me/x/y".to_string()));
    assert_eq!(entry_name(b"/home/me", b"/home/me/x", false, &none), None);
    assert_eq!(entry_name(b"/home/me", b"/home/me/x", true, &strings(&["me/x"])), None);
    assert_eq!(entry_name(b"/", b"/etc/hosts", true, &none), Some("etc/hosts".to_string()));
}

#[test]
fn paths() {
    let parts = components(b"/usr//lib/./x/");
    assert_eq!(parts, [b"/".to_vec(), b"usr".to_vec(), b"lib".to_vec(), b"x".to_vec()]);
    assert_eq!(components(b"./a"), [b".".to_vec(), b"a".to_vec()]);
    assert!(components(b"").is_empty());
    assert_eq!(file_name(b"/usr/lib/"), Some(b"lib".to_vec()));
    assert_eq!(file_name(b"/usr/.."), None);
    assert_eq!(file_name(b"/"), None);
    assert_eq!(extension(b"/a/out.tar.7z"), Some(b"7z".to_vec()));
    assert_eq!(extension(b"/a/.7z"), None);
    assert_eq!(extension(b"/a.b/c"), None);
    assert_eq!(extension(b"a."), Some(Vec::new()));
    assert_eq!(join(b"/a", b"b"), b"/a/b");
    assert_eq!(join(b"/", b"b"), b"/b");
    assert_eq!(join(b"", b"b"), b"b");
    assert_eq!(join(b"/a", b"/b"), b"/b");
    assert_eq!(directory(b"/a/b.zip"), b"/a");
    assert_eq!(directory(b"b.zip"), b".");
    assert_eq!(directory(b"/b.zip"), b"/");
    assert_eq!(directory(b"/"), b".");
    assert_eq!(relative(b"/a/b/c", b"/a"), b"b/c");
    assert_eq!(relative(b"/ab/c", b"/a"), b"/ab/c");
    assert_eq!(relative(b"/a", b"/a"), b"");
    // What lies between the ends stays as it is.
    assert_eq!(relative(b"/v/a//b", b"/v"), b"a//b");
    assert_eq!(relative(b"/v/.//a/./b/./", b"/v/"), b"a/./b");
    assert_eq!(relative(b"//v", b"/"), b"v");
    assert_eq!(relative(b"./a/", b"."), b"a");
    assert_eq!(relative(b"//a//b/", b""), b"//a//b");
    assert_eq!(relative(b"//", b""), b"/");
    assert_eq!(directory(b"x//a/./b.zip"), b"x//a");
    assert_eq!(directory(b"./b.zip"), b".");
    assert_eq!(directory(b"//b.zip/"), b"/");
    assert!(same_path(b"/a//b/", b"/a/b"));
    assert!(!same_path(b"/a/b", b"a/b"));
}

#[test]
fn path_keys_follow_components() {
    let less = |a: &[u8], b: &[u8]| key_less(&path_key(a), &path_key(b));
    assert!(less(b"/a/b", b"/a.b"));
    assert!(less(b"/a", b"/a/b"));
    assert!(!less(b"/a/b", b"/a/b"));
    assert!(less(b"/a", b"a"));
    assert!(less(b"./a", b"../a"));
    assert!(less(b"../a", b"x"));
}

#[test]
fn sorting_is_stable() {
    let keyed: Vec<Keyed<char>> = [(2, 'a'), (1, 'b'), (2, 'c'), (1, 'd'), (0, 'e')]
        .iter()
        .map(|&(k, item)| Keyed { key: vec![k], item })
        .collect();
    assert_eq!(unkeyed(sort_by_key(keyed)), ['e', 'b', 'd', 'a', 'c']);
}

#[test]
fn listings_by_name_and_by_path() {
    let found = || {
        vec![
            build_item(b"/z/1", "b".to_string(), 1, 0),
            build_item(b"/a/2", "c".to_string(), 2, 0),
            build_item(b"/m/3", "a".to_string(), 3, 0),
        ]
    };
    let opts = WalkOpts { roots: &[], exclude: &[], sort: true, walk_threads: 1 };
    let sizes: Vec<u64> = walk(&opts, found()).iter().map(|i| i.size).collect();
    assert_eq!(sizes, [3, 1, 2]);
    let opts = WalkOpts { roots: &[], exclude: &[], sort: false, walk_threads: 1 };
    let sizes: Vec<u64> = walk(&opts, found()).iter().map(|i| i.size).collect();
    assert_eq!(sizes, [2, 3, 1]);
}

#[test]
fn listings_do_not_depend_on_the_order_of_discovery() {
    let names = ["x/1", "a", "x", "b/2", "b"];
    let list = |order: &[usize]| {
        let found = order
            .iter()
            .map(|&i| build_item(names[i].as_bytes(), names[i].to_string(), i as u64, 0))
            .collect();
        let opts = WalkOpts { roots: &[], exclude: &[], sort: true, walk_threads: 1 };
        walk(&opts, found).iter().map(|i| i.size).collect::<Vec<u64>>()
    };
    assert_eq!(list(&[0, 1, 2, 3, 4]), [1, 4, 3, 2, 0]);
    assert_eq!(list(&[4, 2, 0, 3, 1]), [1, 4, 3, 2, 0]);
}

#[test]
fn distinct_names_in_order() {
    let names = strings(&["b", "a", "b", "aa", "a"]);
    assert_eq!(sorted_names(&names), strings(&["a", "aa", "b"]));
}

#[test]
fn dates() {
    assert_eq!(civil_from_days(0), (1970, 1, 1));
    assert_eq!(civil_from_days(-1), (1969, 12, 31));
    assert_eq!(civil_from_days(11_016), (2000, 2, 29));
    assert_eq!(civil_from_days(19_675), (2023, 11, 14));
    assert_eq!(civil_from_days(-719_468), (0, 3, 1));
    assert_eq!(civil_from_days(-719_469), (0, 2, 29));
}

#[test]
fn dos_times() {
    assert_eq!(unix_to_dos(0), (33, 0));
    assert_eq!(unix_to_dos(-5), (33, 0));
    assert_eq!(unix_to_dos(315_532_799), (33, 0));
    assert_eq!(unix_to_dos(315_532_800), (33, 0));
    assert_eq!(unix_to_dos(315_532_803), (33, 1));
    assert_eq!(unix_to_dos(1_700_000_000), (22_382, 45_482));
    assert_eq!(unix_to_dos(1_700_000_001), (22_382, 45_482));
    // The year has seven bits.
    assert_eq!(unix_to_dos(4_354_819_199), (65_439, 49_021));
    assert_eq!(unix_to_dos(4_354_819_200), (33, 0));
}

#[test]
fn items_have_dos_times() {
    let item = build_item(b"/p", "n".to_string(), 5, 1_700_000_000);
    assert_eq!(item.path, b"/p");
    assert_eq!(item.name_in_archive, "n");
    assert_eq!(item.size, 5);
    assert_eq!(item.mtime, (22_382, 45_482));
    assert!(item.basename.is_none());
}

/// A record of a bulk scan with all attributes.
fn record(at: usize, name: &[u8], objtype: u32, size: u64) -> Vec<u8> {
    let mut r = vec![0u8; 24];
    r[4..8].copy_from_slice(&9u32.to_le_bytes());
    let file: u32 = if objtype == 1 { 2 } else { 0 };
    r[16..20].copy_from_slice(&file.to_le_bytes());
    let mut fixed = objtype.to_le_bytes().to_vec();
    if objtype == 1 {
        while (at + 32 + fixed.len()) % 8 != 0 {
            fixed.push(0xee);
        }
        fixed.extend_from_slice(&size.to_le_bytes());
    }
    let distance = (8 + fixed.len()) as i32;
    r.extend_from_slice(&distance.to_le_bytes());
    r.extend_from_slice(&(name.len() as u32 + 1).to_le_bytes());
    r.extend_from_slice(&fixed);
    r.extend_from_slice(name);
    r.push(0);
    while r.len() % 4 != 0 {
        r.push(0);
    }
    let len = r.len() as u32;
    r[0..4].copy_from_slice(&len.to_le_bytes());
    r
}

fn buffer(entries: &[(&[u8], u32, u64)]) -> Vec<u8> {
    let mut buf = Vec::new();
    for &(name, objtype, size) in entries {
        let r = record(buf.len(), name, objtype, size);
        buf.extend_from_slice(&r);
    }
    buf
}

#[test]
fn batches_are_sorted_into_files_and_directories() {
    let buf = buffer(&[
        (b".", 2, 0),
        (b"..", 2, 0),
        (b"a.txt", 1, 0x1_0000_0005),
        (b"sub", 2, 0),
        (b"link", 5, 0),
        (b"b.log", 1, 3),
    ]);
    let exclude = strings(&["*.log"]);
    let batch = parse_batch(&buf, 6, b"/r/d", "d", &exclude).unwrap();
    assert_eq!(batch.files.len(), 1);
    let f = &batch.files[0];
    assert_eq!(f.path, b"/r/d/a.txt");
    assert_eq!(f.name_in_archive, "d/a.txt");
    assert_eq!(f.size, 0x1_0000_0005);
    assert_eq!(f.mtime, (33, 0));
    assert_eq!(f.basename, Some(b"a.txt".to_vec()));
    assert_eq!(batch.subdirs, [b"/r/d/sub".to_vec()]);
}

#[test]
fn patterns_apply_to_the_name_in_the_archive() {
    let buf = buffer(&[(b"a.txt", 1, 11)]);
    let batch = parse_batch(&buf, 1, b"/in/corpus", "corpus", &strings(&["a.txt"])).unwrap();
    assert_eq!(batch.files.len(), 1);
    assert_eq!(batch.files[0].name_in_archive, "corpus/a.txt");
    assert_eq!(batch.files[0].mtime, (33, 0));
    let batch = parse_batch(&buf, 1, b"/in/corpus", "corpus", &strings(&["corpus/a.*"])).unwrap();
    assert!(batch.files.is_empty());
    let batch = parse_batch(&buf, 1, b"/in", "", &strings(&["a.txt"])).unwrap();
    assert!(batch.files.is_empty());
}

#[test]
fn records_must_lie_in_the_buffer() {
    let buf = buffer(&[(b"a", 1, 3)]);
    assert!(parse_batch(&buf, 2, b"/r", "", &[]).is_none());
    assert!(parse_batch(&buf[0..20], 1, b"/r", "", &[]).is_none());
    assert!(read_record(&buf[0..buf.len() - 4], 0).is_none());
    let mut wild = buf.clone();
    wild[24..28].copy_from_slice(&(-100i32).to_le_bytes());
    assert!(read_record(&wild, 0).is_none());
    let (end, found) = read_record(&buf, 0).unwrap();
    assert_eq!(end, buf.len());
    let found = found.unwrap();
    assert_eq!((found.name, found.objtype, found.size), (b"a".to_vec(), 1, 3));
}

#[test]
fn records_without_name_or_type_are_passed_over() {
    let mut buf = buffer(&[(b"a", 1, 3), (b"b", 1, 4)]);
    buf[4] = 8;
    let batch = parse_batch(&buf, 2, b"/r", "", &[]).unwrap();
    assert_eq!(batch.files.len(), 1);
    assert_eq!(batch.files[0].name_in_archive, "b");
    buf[4] = 1;
    let batch = parse_batch(&buf, 2, b"/r", "", &[]).unwrap();
    assert_eq!(batch.files.len(), 1);
}

#[test]
fn nameless_records_need_no_room_for_a_name() {
    let (end, found) = read_record(&[0; 20], 0).unwrap();
    assert_eq!(end, 0);
    assert!(found.is_none());
    assert!(read_record(&[0; 19], 0).is_none());
    let batch = parse_batch(&[0; 20], 1, b"/r", "", &[]).unwrap();
    assert!(batch.files.is_empty() && batch.subdirs.is_empty());
    let mut named = [0; 20];
    named[4] = 1;
    assert!(read_record(&named, 0).is_none());
}

#[test]
fn prefixes_of_subdirectories() {
    assert_eq!(child_prefix("d", b"/r/d/sub"), "d/sub");
    assert_eq!(child_prefix("", b"/r/sub"), "sub");
    assert_eq!(child_prefix("d", b"/"), "d");
}
