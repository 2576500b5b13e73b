use bdzer::bd::Bulldozer;
use bdzer::bd::DirNode;
use bdzer::bd::Entry;
use bdzer::bd::FileNode;
use bdzer::bd::ProgressSink;
use bdzer::bd::ScanError;
use bdzer::cli_run;
use bdzer::hash::hash_content;
use bdzer::only_one_for_key;

fn file(path: &str, ext: Option<&str>, content: &str) -> Entry {
    Entry::File(FileNode {
        path: path.to_string(),
        ext: ext.map(|e| e.to_string()),
        content: Some(content.as_bytes().to_vec()),
    })
}

fn unreadable_file(path: &str, ext: Option<&str>) -> Entry {
    Entry::File(FileNode { path: path.to_string(), ext: ext.map(|e| e.to_string()), content: None })
}

fn dir(path: &str, entries: Vec<Entry>) -> Entry {
    Entry::Dir(DirNode { path: path.to_string(), readable: true, entries })
}

fn unreadable_dir(path: &str) -> Entry {
    Entry::Dir(DirNode { path: path.to_string(), readable: false, entries: vec![] })
}

// A sample tree with one duplicate pair and one duplicate triple, so
// exactly three paths are removable.
fn test_data() -> Entry {
    dir(
        "test_data",
        vec![
            file("test_data/test1.txt", Some("txt"), "alpha"),
            file("test_data/test2.txt", Some("txt"), "alpha"),
            dir(
                "test_data/sub",
                vec![
                    file("test_data/sub/a.log", Some("log"), "beta"),
                    file("test_data/sub/b.log", Some("log"), "beta"),
                    file("test_data/sub/c.log", Some("log"), "beta"),
                ],
            ),
        ],
    )
}

#[test]
fn test_hash_file() {
    let res = hash_content(&"some test bytes".as_bytes().to_vec());
    assert!(res.len() == 64);
}

#[test]
fn test_run() {
    let res = Bulldozer::new(vec![test_data()]).run();
    assert!(res.is_ok());
}

#[test]
fn test_cli_run() {
    let res = cli_run(vec![test_data()], None);
    assert!(res.is_ok());
    let res = res.unwrap();
    for (_, v) in &res.groups {
        assert!(v.len() > 1);
    }
}

#[test]
fn test_only_one_for_key() {
    let res = cli_run(vec![test_data()], None);
    assert!(res.is_ok());
    let res = res.unwrap();
    let res = only_one_for_key(&res);
    assert!(res.len() == 3);
}

// Three files, two sharing the content "hello": the result is the single
// group of the two, and the digest is the SHA-256 of "hello" in lowercase
// hex.
#[test]
fn two_identical_files_form_one_group() {
    let root = dir(
        "d",
        vec![
            file("d/a.txt", Some("txt"), "hello"),
            file("d/b.txt", Some("txt"), "hello"),
            file("d/c.txt", Some("txt"), "world"),
        ],
    );
    let map = cli_run(vec![root], None).unwrap();
    assert_eq!(map.groups.len(), 1);
    let (digest, paths) = &map.groups[0];
    assert_eq!(digest, "2cf24dba5fb0a30e26e83b2ac5b9e29e1b161e5c1fa7425e73043362938b9824");
    assert_eq!(paths, &vec!["d/a.txt".to_string(), "d/b.txt".to_string()]);
}

#[test]
fn empty_directory_yields_empty_mapping() {
    let map = cli_run(vec![dir("empty", vec![])], None).unwrap();
    assert!(map.groups.is_empty());
}

#[test]
fn unreadable_subdirectory_aborts_the_scan() {
    let root = dir(
        "d",
        vec![
            file("d/a.txt", Some("txt"), "hello"),
            file("d/b.txt", Some("txt"), "hello"),
            unreadable_dir("d/locked"),
        ],
    );
    let res = cli_run(vec![root], None);
    match res {
        Err(ScanError::DirUnreadable { path }) => assert_eq!(path, "d/locked"),
        _ => panic!("expected the directory error"),
    }
}

#[test]
fn unreadable_included_file_aborts_the_scan() {
    let root = dir("d", vec![unreadable_file("d/a.txt", Some("txt"))]);
    let res = cli_run(vec![root], None);
    match res {
        Err(ScanError::FileUnreadable { path }) => assert_eq!(path, "d/a.txt"),
        _ => panic!("expected the file error"),
    }
}

// An unreadable file that the extension filter excludes is never opened,
// so it raises no error.
#[test]
fn filtered_out_unreadable_file_is_no_error() {
    let root = dir("d", vec![unreadable_file("d/a.txt", Some("txt"))]);
    let res = cli_run(vec![root], Some(vec!["rs".to_string()]));
    assert!(res.unwrap().groups.is_empty());
}

#[test]
fn error_message_names_the_path() {
    let res = cli_run(vec![unreadable_dir("locked")], None);
    let err = res.unwrap_err();
    assert_eq!(err.path().as_str(), "locked");
    assert_eq!(err.message(), "cannot read directory: locked");
}

// With an allow-list, only files whose extension matches one entry up to
// ASCII case appear in the result; files with no extension are skipped.
#[test]
fn extension_filter_is_case_insensitive() {
    let root = dir(
        "d",
        vec![
            file("d/a.RS", Some("RS"), "dup"),
            file("d/b.rs", Some("rs"), "dup"),
            file("d/c.txt", Some("txt"), "dup"),
            file("d/d.txt", Some("txt"), "dup"),
            file("d/noext", None, "dup"),
        ],
    );
    let map = cli_run(vec![root], Some(vec!["Rs".to_string()])).unwrap();
    assert_eq!(map.groups.len(), 1);
    assert_eq!(map.groups[0].1, vec!["d/a.RS".to_string(), "d/b.rs".to_string()]);
}

// Hashing the same content from two paths gives one digest; contents that
// differ in a single byte give different digests.
#[test]
fn digest_depends_on_content_alone() {
    let d1 = hash_content(&"payload-a".as_bytes().to_vec());
    let d2 = hash_content(&"payload-a".as_bytes().to_vec());
    let d3 = hash_content(&"payload-b".as_bytes().to_vec());
    assert_eq!(d1, d2);
    assert_ne!(d1, d3);
    assert_eq!(d1.len(), 64);
    assert!(d1.chars().all(|c| c.is_ascii_hexdigit() && !c.is_ascii_uppercase()));
}

// With N files over K duplicated contents, the result has exactly K groups
// and the singleton content is absent.
#[test]
fn group_count_matches_duplicated_contents() {
    let root = dir(
        "d",
        vec![
            file("d/1", Some("x"), "one"),
            file("d/2", Some("x"), "one"),
            file("d/3", Some("x"), "two"),
            file("d/4", Some("x"), "two"),
            file("d/5", Some("x"), "two"),
            file("d/6", Some("x"), "lonely"),
        ],
    );
    let map = cli_run(vec![root], None).unwrap();
    assert_eq!(map.groups.len(), 2);
    for (_, v) in &map.groups {
        assert!(v.len() > 1);
    }
}

// For every group of size M the helper returns M - 1 of its paths — all
// but the last — and in total the duplicate paths minus one per group.
#[test]
fn removable_paths_keep_one_per_group() {
    let map = cli_run(vec![test_data()], None).unwrap();
    let total: usize = map.groups.iter().map(|(_, v)| v.len()).sum();
    let removable = only_one_for_key(&map);
    assert_eq!(removable.len(), total - map.groups.len());
    assert_eq!(
        removable,
        vec![
            "test_data/test1.txt".to_string(),
            "test_data/sub/a.log".to_string(),
            "test_data/sub/b.log".to_string(),
        ],
    );
}

// Scanning the same files met in another listing order yields the same
// digest keys and the same members in each group.
#[test]
fn listing_order_does_not_change_the_groups() {
    let r1 = dir(
        "d",
        vec![
            file("d/a", Some("x"), "same"),
            file("d/b", Some("x"), "same"),
            file("d/c", Some("x"), "other"),
            file("d/e", Some("x"), "other"),
        ],
    );
    let r2 = dir(
        "d",
        vec![
            file("d/e", Some("x"), "other"),
            file("d/b", Some("x"), "same"),
            file("d/c", Some("x"), "other"),
            file("d/a", Some("x"), "same"),
        ],
    );
    let m1 = cli_run(vec![r1], None).unwrap();
    let m2 = cli_run(vec![r2], None).unwrap();
    let mut keys1: Vec<String> = m1.groups.iter().map(|(k, _)| k.clone()).collect();
    let mut keys2: Vec<String> = m2.groups.iter().map(|(k, _)| k.clone()).collect();
    keys1.sort();
    keys2.sort();
    assert_eq!(keys1, keys2);
    for (k, v) in &m1.groups {
        let mut p1 = v.clone();
        let mut p2 = m2.groups.iter().find(|(k2, _)| k2 == k).unwrap().1.clone();
        p1.sort();
        p2.sort();
        assert_eq!(p1, p2);
    }
}

// Scanning an unchanged tree twice yields the same mapping.
#[test]
fn rescanning_is_idempotent() {
    let m1 = cli_run(vec![test_data()], None).unwrap();
    let m2 = cli_run(vec![test_data()], None).unwrap();
    assert_eq!(m1.groups.len(), m2.groups.len());
    for ((k1, v1), (k2, v2)) in m1.groups.iter().zip(m2.groups.iter()) {
        assert_eq!(k1, k2);
        assert_eq!(v1, v2);
    }
}

struct Recorder {
    seen: Vec<String>,
}

impl ProgressSink for Recorder {
    fn report(&mut self, path: &str) {
        self.seen.push(path.to_string());
    }
}

// The scan reports each hashed file to the progress sink, in traversal
// order.
#[test]
fn progress_reports_each_hashed_file() {
    let mut bd = Bulldozer::new(vec![test_data()]);
    bd.set_include_ext(Some(vec!["TXT".to_string()]));
    let mut rec = Recorder { seen: vec![] };
    let res = bd.run_with(&mut rec);
    assert!(res.is_ok());
    assert_eq!(rec.seen, vec!["test_data/test1.txt".to_string(), "test_data/test2.txt".to_string()]);
}

#[test]
fn cli_request_carries_its_fields() {
    let cli = bdzer::Cli {
        base_path: vec!["test_data".to_string()],
        include_ext: None,
        yes: false,
    };
    assert_eq!(cli.base_path.len(), 1);
    assert!(cli.include_ext.is_none());
    assert!(!cli.yes);
}

#[test]
fn multiple_roots_are_scanned_in_order() {
    let r1 = dir("d1", vec![file("d1/a", Some("x"), "dup")]);
    let r2 = dir("d2", vec![file("d2/b", Some("x"), "dup")]);
    let map = cli_run(vec![r1, r2], None).unwrap();
    assert_eq!(map.groups.len(), 1);
    assert_eq!(map.groups[0].1, vec!["d1/a".to_string(), "d2/b".to_string()]);
}
