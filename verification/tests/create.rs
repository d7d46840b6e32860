use aerate::checksum::common::{load_checksum_file, FileMetaData, Manifest};
use aerate::checksum::create::{gen_hashes, plan_entry, Generated, Plan};
use aerate::checksum::digest::digest;
use aerate::checksum::tree::{
    backup_path, classify, is_own_name, progress_due, temp_path, EntryKind, TreeEntry, WalkError,
};

const NAME: &str = "allfiles_checksums.txt";

fn file(path: &str, content: &[u8]) -> TreeEntry {
    let name = path.rsplit('/').next().unwrap().to_string();
    TreeEntry {
        path: path.to_string(),
        name: Some(name),
        is_file: true,
        size: content.len() as u64,
        content: content.to_vec(),
    }
}

fn dir(path: &str) -> TreeEntry {
    let name = path.rsplit('/').next().unwrap().to_string();
    TreeEntry { path: path.to_string(), name: Some(name), is_file: false, size: 4096, content: Vec::new() }
}

fn unnamed(path: &str) -> TreeEntry {
    TreeEntry { path: path.to_string(), name: None, is_file: true, size: 1, content: vec![0] }
}

fn sha(content: &[u8]) -> String {
    digest(content).unwrap()
}

fn tree() -> Vec<TreeEntry> {
    vec![
        dir("."),
        file("./a.txt", b"alpha"),
        dir("./sub"),
        file("./sub/b.txt", b"bravo bravo"),
        file("./c.txt", b""),
    ]
}

fn tree_text() -> String {
    format!(
        "{}\t5\ta.txt\t./a.txt\n{}\t11\tb.txt\t./sub/b.txt\n{}\t0\tc.txt\t./c.txt\n",
        sha(b"alpha"),
        sha(b"bravo bravo"),
        sha(b"")
    )
}

#[test]
fn temp_and_backup_paths_have_fixed_suffixes() {
    assert_eq!(temp_path(NAME), "allfiles_checksums.txt.tmp");
    assert_eq!(backup_path(NAME), "allfiles_checksums.txt.tmp.backup");
    assert_eq!(temp_path("out/sums"), "out/sums.tmp");
    assert_eq!(temp_path(""), ".tmp");
}

#[test]
fn own_names_are_the_manifest_and_its_variants() {
    assert!(is_own_name("allfiles_checksums.txt", NAME));
    assert!(is_own_name("allfiles_checksums.txt.tmp", NAME));
    assert!(is_own_name("allfiles_checksums.txt.tmp.backup", NAME));
    assert!(!is_own_name("allfiles_checksums.txt.backup", NAME));
    assert!(!is_own_name("allfiles_checksums.txt.tmp.backup.old", NAME));
    assert!(!is_own_name("Allfiles_checksums.txt", NAME));
    assert!(!is_own_name("a.txt", NAME));
    assert!(!is_own_name("", NAME));
}

#[test]
fn classify_sorts_entries() {
    assert_eq!(classify(false, Some("sub"), NAME), EntryKind::Other);
    assert_eq!(classify(false, None, NAME), EntryKind::Other);
    assert_eq!(classify(false, Some(NAME), NAME), EntryKind::Other);
    assert_eq!(classify(true, None, NAME), EntryKind::Unnamed);
    assert_eq!(classify(true, Some(NAME), NAME), EntryKind::Own);
    assert_eq!(classify(true, Some("allfiles_checksums.txt.tmp"), NAME), EntryKind::Own);
    assert_eq!(classify(true, Some("a.txt"), NAME), EntryKind::Listed);
}

#[test]
fn progress_is_due_after_the_first_and_every_hundredth() {
    assert!(progress_due(1));
    assert!(!progress_due(2));
    assert!(!progress_due(99));
    assert!(progress_due(100));
    assert!(!progress_due(101));
    assert!(progress_due(200));
    assert!(progress_due(0));
}

#[test]
fn plan_entry_decides_by_kind_and_record() {
    let mut done = Manifest::new();
    done.insert(
        "./a.txt".to_string(),
        FileMetaData { fname: "a.txt".to_string(), hash: "stale".to_string(), sz: 3 },
    );
    assert_eq!(plan_entry(false, Some("sub"), "./sub", NAME, &done), Plan::Skip);
    assert_eq!(plan_entry(true, Some(NAME), "./allfiles_checksums.txt", NAME, &done), Plan::Skip);
    assert_eq!(plan_entry(true, None, "./a.txt", NAME, &done), Plan::Invalid);
    assert_eq!(
        plan_entry(true, Some("a.txt"), "./a.txt", NAME, &done),
        Plan::Reuse("stale\t3\ta.txt\t./a.txt\n".to_string())
    );
    assert_eq!(plan_entry(true, Some("b.txt"), "./b.txt", NAME, &done), Plan::Hash);
}

#[test]
fn plan_entry_takes_the_name_from_the_record() {
    let mut done = Manifest::new();
    done.insert(
        "./a.txt".to_string(),
        FileMetaData { fname: "old name".to_string(), hash: "h".to_string(), sz: 0 },
    );
    assert_eq!(
        plan_entry(true, Some("a.txt"), "./a.txt", NAME, &done),
        Plan::Reuse("h\t0\told name\t./a.txt\n".to_string())
    );
}

#[test]
fn generation_writes_a_line_for_each_regular_file() {
    let made = gen_hashes(&tree(), NAME, None).unwrap();
    assert_eq!(made, Generated { text: tree_text(), count: 3, hashed: 3 });
}

#[test]
fn generation_of_an_empty_walk_is_empty() {
    let made = gen_hashes(&Vec::new(), NAME, None).unwrap();
    assert_eq!(made, Generated { text: String::new(), count: 0, hashed: 0 });
}

#[test]
fn generation_writes_a_known_digest() {
    let made = gen_hashes(&vec![file("./hello", b"hello world")], NAME, None).unwrap();
    assert_eq!(made.text, "2aae6c35c94fcfb415dbe95f408b9ce91ee846ed\t11\thello\t./hello\n");
}

#[test]
fn generation_takes_the_size_from_the_entry() {
    let mut f = file("./a.txt", b"alpha");
    f.size = 77;
    let made = gen_hashes(&vec![f], NAME, None).unwrap();
    assert_eq!(made.text, format!("{}\t77\ta.txt\t./a.txt\n", sha(b"alpha")));
}

#[test]
fn generation_passes_over_the_manifests_own_files() {
    let mut files = tree();
    files.insert(1, file("./allfiles_checksums.txt", b"old manifest"));
    files.insert(3, file("./allfiles_checksums.txt.tmp", b"being written"));
    files.push(file("./sub/allfiles_checksums.txt.tmp.backup", b"kept"));
    let made = gen_hashes(&files, NAME, None).unwrap();
    assert_eq!(made, Generated { text: tree_text(), count: 3, hashed: 3 });
}

#[test]
fn generation_lists_a_file_that_only_resembles_the_manifest() {
    let files = vec![file("./allfiles_checksums.txt.bak", b"x")];
    let made = gen_hashes(&files, NAME, None).unwrap();
    assert_eq!(made.count, 1);
}

#[test]
fn generation_twice_gives_the_same_bytes() {
    let first = gen_hashes(&tree(), NAME, None).unwrap();
    let mut again = tree();
    again.push(file("./allfiles_checksums.txt", first.text.as_bytes()));
    again.insert(0, file("./allfiles_checksums.txt.tmp", b""));
    let second = gen_hashes(&again, NAME, None).unwrap();
    assert_eq!(first, second);
}

#[test]
fn generation_changes_only_the_line_of_a_changed_file() {
    let first = gen_hashes(&tree(), NAME, None).unwrap();
    let mut changed = tree();
    changed[3] = file("./sub/b.txt", b"bravo changed");
    let second = gen_hashes(&changed, NAME, None).unwrap();
    let before: Vec<&str> = first.text.lines().collect();
    let after: Vec<&str> = second.text.lines().collect();
    assert_eq!(before[0], after[0]);
    assert_ne!(before[1], after[1]);
    assert_eq!(before[2], after[2]);
    assert_eq!(after[1], format!("{}\t13\tb.txt\t./sub/b.txt", sha(b"bravo changed")));
}

#[test]
fn generation_fails_on_a_name_that_is_not_text() {
    let mut files = tree();
    files.insert(2, unnamed("./\u{fffd}"));
    assert_eq!(gen_hashes(&files, NAME, None), Err(WalkError::InvalidFilename));
}

#[test]
fn generation_passes_over_a_directory_whose_name_is_not_text() {
    let mut files = tree();
    files.push(TreeEntry {
        path: "./\u{fffd}".to_string(),
        name: None,
        is_file: false,
        size: 0,
        content: Vec::new(),
    });
    assert_eq!(gen_hashes(&files, NAME, None).unwrap().text, tree_text());
}

#[test]
fn resumed_generation_takes_over_records() {
    let previous = "stale-digest\t999\told-a\t./a.txt\n";
    let made = gen_hashes(&tree(), NAME, Some(previous)).unwrap();
    let expected = format!(
        "stale-digest\t999\told-a\t./a.txt\n{}\t11\tb.txt\t./sub/b.txt\n{}\t0\tc.txt\t./c.txt\n",
        sha(b"bravo bravo"),
        sha(b"")
    );
    assert_eq!(made, Generated { text: expected, count: 3, hashed: 2 });
}

#[test]
fn resumed_generation_digests_only_what_is_absent() {
    let full = gen_hashes(&tree(), NAME, None).unwrap();
    let again = gen_hashes(&tree(), NAME, Some(&full.text)).unwrap();
    assert_eq!(again, Generated { text: full.text.clone(), count: 3, hashed: 0 });
}

#[test]
fn resumed_generation_drops_an_unfinished_last_line() {
    let first_line = format!("{}\t5\ta.txt\t./a.txt\n", sha(b"alpha"));
    let previous = format!("{}{}\t1", first_line, &sha(b"bravo bravo")[..17]);
    let made = gen_hashes(&tree(), NAME, Some(&previous)).unwrap();
    assert_eq!(made, Generated { text: tree_text(), count: 3, hashed: 2 });
}

#[test]
fn resumed_generation_does_not_look_into_reused_files() {
    let previous = format!("{}\t5\ta.txt\t./a.txt\n", sha(b"alpha"));
    let mut changed = tree();
    changed[1] = file("./a.txt", b"changed since, and longer");
    let made = gen_hashes(&changed, NAME, Some(&previous)).unwrap();
    assert_eq!(made, Generated { text: tree_text(), count: 3, hashed: 2 });
}

#[test]
fn resumed_generation_ignores_records_of_files_that_are_gone() {
    let previous = "h\t1\tgone\t./gone\n";
    let made = gen_hashes(&tree(), NAME, Some(previous)).unwrap();
    assert_eq!(made, Generated { text: tree_text(), count: 3, hashed: 3 });
}

#[test]
fn generated_text_reads_back_strictly() {
    let made = gen_hashes(&tree(), NAME, None).unwrap();
    let m = load_checksum_file(&made.text, false).unwrap();
    assert_eq!(m.len(), 3);
    assert_eq!(
        m.get("./sub/b.txt"),
        Some(&FileMetaData { fname: "b.txt".to_string(), hash: sha(b"bravo bravo"), sz: 11 })
    );
}

#[test]
fn walk_errors_have_words() {
    assert_eq!(WalkError::InvalidFilename.message(), "Invalid filename!");
    assert_eq!(WalkError::TooLarge.message(), "File too large to digest");
}
