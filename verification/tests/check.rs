use aerate::checksum::check::{check_hashes, CheckError, Checker, Finding, Report};
use aerate::checksum::common::{load_checksum_file, LoadError};
use aerate::checksum::create::gen_hashes;
use aerate::checksum::digest::digest;
use aerate::checksum::text::SizeError;
use aerate::checksum::tree::{TreeEntry, WalkError};

const NAME: &str = "allfiles_checksums.txt";

fn file(path: &str, content: &[u8]) -> TreeEntry {
    let name = path.rsplit('/').next().unwrap().to_string();
    TreeEntry {
        path: path.to_string(),
        name: Some(name),
        is_file: true,
        size: content.len() as u64,
        content: content.to_vec(),
    }
}

fn dir(path: &str) -> TreeEntry {
    let name = path.rsplit('/').next().unwrap().to_string();
    TreeEntry { path: path.to_string(), name: Some(name), is_file: false, size: 0, content: Vec::new() }
}

fn sha(content: &[u8]) -> String {
    digest(content).unwrap()
}

fn mismatch(path: &str) -> Finding {
    Finding::Mismatch { path: path.to_string() }
}

fn untracked(path: &str) -> Finding {
    Finding::Untracked { path: path.to_string() }
}

fn missing(path: &str, hash: &str) -> Finding {
    Finding::Missing { path: path.to_string(), hash: hash.to_string() }
}

#[test]
fn unchanged_file_is_checked_and_not_reported() {
    let content = b"0123456789";
    let h1 = sha(content);
    let manifest = format!("{}\t10\ta.txt\t./a.txt\n", h1);
    let report = check_hashes(&vec![file("./a.txt", content)], NAME, &manifest).unwrap();
    assert_eq!(report, Report { findings: vec![], count: 1 });
}

#[test]
fn file_gone_from_the_tree_is_missing() {
    let manifest = "h-of-b\t3\tb.txt\t./b.txt\n";
    let report = check_hashes(&vec![dir(".")], NAME, manifest).unwrap();
    assert_eq!(report, Report { findings: vec![missing("./b.txt", "h-of-b")], count: 0 });
    assert_eq!(report.findings[0].message(), "Missing file ./b.txt with checksum h-of-b");
}

#[test]
fn file_without_record_is_untracked() {
    let report = check_hashes(&vec![file("./c.txt", b"new")], NAME, "").unwrap();
    assert_eq!(report, Report { findings: vec![untracked("./c.txt")], count: 1 });
    assert_eq!(report.findings[0].message(), "Untracked/New file found: ./c.txt");
}

#[test]
fn changed_contents_of_the_same_size_are_not_reported() {
    let h1 = sha(b"0123456789");
    let manifest = format!("{}\t10\ta.txt\t./a.txt\n", h1);
    let live = file("./a.txt", b"9876543210");
    assert_ne!(sha(&live.content), h1);
    let report = check_hashes(&vec![live], NAME, &manifest).unwrap();
    assert_eq!(report, Report { findings: vec![], count: 1 });
}

#[test]
fn changed_size_with_the_same_digest_is_not_reported() {
    let manifest = format!("{}\t999\ta.txt\t./a.txt\n", sha(b"0123456789"));
    let report = check_hashes(&vec![file("./a.txt", b"0123456789")], NAME, &manifest).unwrap();
    assert_eq!(report, Report { findings: vec![], count: 1 });
}

#[test]
fn changed_contents_and_size_are_a_mismatch() {
    let manifest = format!("{}\t10\ta.txt\t./a.txt\n", sha(b"0123456789"));
    let report = check_hashes(&vec![file("./a.txt", b"shorter")], NAME, &manifest).unwrap();
    assert_eq!(report, Report { findings: vec![mismatch("./a.txt")], count: 1 });
    assert_eq!(report.findings[0].message(), "File checksum mismatch for ./a.txt");
}

#[test]
fn findings_of_the_walk_come_before_what_is_missing() {
    let manifest = format!(
        "gone1\t1\tx\t./x\n{}\t5\ta.txt\t./a.txt\ngone2\t2\ty\t./y\n{}\t1\tb.txt\t./b.txt\n",
        sha(b"alpha"),
        sha(b"b")
    );
    let files = vec![
        dir("."),
        file("./new1", b"n"),
        file("./b.txt", b"other contents"),
        file("./a.txt", b"alpha"),
        file("./new2", b"n"),
    ];
    let report = check_hashes(&files, NAME, &manifest).unwrap();
    assert_eq!(
        report,
        Report {
            findings: vec![
                untracked("./new1"),
                mismatch("./b.txt"),
                untracked("./new2"),
                missing("./x", "gone1"),
                missing("./y", "gone2"),
            ],
            count: 4,
        }
    );
}

#[test]
fn verification_counts_the_manifests_own_files_and_reports_nothing_of_them() {
    let manifest = format!("{}\t5\ta.txt\t./a.txt\n", sha(b"alpha"));
    let files = vec![
        file("./allfiles_checksums.txt", manifest.as_bytes()),
        file("./a.txt", b"alpha"),
        file("./allfiles_checksums.txt.tmp", b"left over"),
        file("./allfiles_checksums.txt.tmp.backup", b"left over"),
    ];
    let report = check_hashes(&files, NAME, &manifest).unwrap();
    assert_eq!(report, Report { findings: vec![], count: 4 });
}

#[test]
fn verification_of_a_generated_manifest_finds_nothing() {
    let files = vec![file("./a", b"1"), dir("./d"), file("./d/b", b"22"), file("./d/c", b"")];
    let made = gen_hashes(&files, NAME, None).unwrap();
    let report = check_hashes(&files, NAME, &made.text).unwrap();
    assert_eq!(report, Report { findings: vec![], count: 3 });
}

#[test]
fn verification_needs_a_manifest_that_reads_strictly() {
    let files = vec![file("./a.txt", b"alpha")];
    assert_eq!(
        check_hashes(&files, NAME, "h\t1\ta.txt"),
        Err(CheckError::Manifest(LoadError::IncompleteLine))
    );
    assert_eq!(
        check_hashes(&files, NAME, "h\t1\tn\tp\nh\tsize\ta.txt\t./a.txt\n"),
        Err(CheckError::Manifest(LoadError::InvalidSize(SizeError::InvalidDigit)))
    );
}

#[test]
fn verification_fails_on_a_name_that_is_not_text() {
    let files = vec![
        file("./a.txt", b"alpha"),
        TreeEntry { path: "./\u{fffd}".to_string(), name: None, is_file: true, size: 0, content: vec![] },
    ];
    assert_eq!(check_hashes(&files, NAME, ""), Err(CheckError::Walk(WalkError::InvalidFilename)));
}

#[test]
fn a_malformed_manifest_is_reported_before_the_walk() {
    let files =
        vec![TreeEntry { path: "./x".to_string(), name: None, is_file: true, size: 0, content: vec![] }];
    assert_eq!(
        check_hashes(&files, NAME, "broken"),
        Err(CheckError::Manifest(LoadError::IncompleteLine))
    );
}

#[test]
fn checker_marks_what_it_has_met() {
    let manifest = load_checksum_file("h1\t1\ta\t./a\nh2\t2\tb\t./b\nh3\t3\tc\t./c\n", false).unwrap();
    let mut checker = Checker::new(manifest);
    assert_eq!(checker.observe("./b", &"h2".to_string(), 2), None);
    assert_eq!(checker.observe("./new", &"h".to_string(), 0), Some(untracked("./new")));
    assert_eq!(checker.observe("./c", &"other".to_string(), 33), Some(mismatch("./c")));
    assert_eq!(checker.missing(), vec![missing("./a", "h1")]);
    assert_eq!(checker.observe("./a", &"h1".to_string(), 1), None);
    assert_eq!(checker.missing(), vec![]);
}

#[test]
fn checker_without_a_walk_misses_everything() {
    let manifest = load_checksum_file("h1\t1\ta\t./a\nh2\t2\tb\t./b\n", false).unwrap();
    let checker = Checker::new(manifest);
    assert_eq!(checker.missing(), vec![missing("./a", "h1"), missing("./b", "h2")]);
}
