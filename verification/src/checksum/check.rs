//! Verification: the files of a walk held against a manifest.

use vstd::prelude::*;
use crate::checksum::common::{
    lemma_map_of_entry, lemma_map_of_keys, listed, load_checksum_file, map_of, parse_manifest,
    unique_paths, Entry, FileRecord, LoadError, Manifest,
};
use crate::checksum::create::{entry_for, fresh_record, generate, written};
use crate::checksum::digest::{digest, sha1_hex, MAX_INPUT};
use crate::checksum::tree::{
    classify, item_kind, items, listed_files, name_of, EntryKind, TreeEntry, TreeItem, WalkError,
};

verus! {

/// Something that a verification reports. None of these makes it fail.
#[derive(Debug, PartialEq, Eq)]
pub enum Finding {
    /// The file at this path has neither the digest nor the size that the
    /// manifest records for it.
    Mismatch { path: String },
    /// The manifest has no record for the file at this path.
    Untracked { path: String },
    /// The manifest records this path, with this digest, and the walk did
    /// not meet it.
    Missing { path: String, hash: String },
}

/// The mathematical value of a `Finding`.
#[verifier::ext_equal]
pub enum Discrepancy {
    Mismatch { path: Seq<char> },
    Untracked { path: Seq<char> },
    Missing { path: Seq<char>, hash: Seq<char> },
}

impl View for Finding {
    type V = Discrepancy;

    open spec fn view(&self) -> Discrepancy {
        match self {
            Finding::Mismatch { path } => Discrepancy::Mismatch { path: path@ },
            Finding::Untracked { path } => Discrepancy::Untracked { path: path@ },
            Finding::Missing { path, hash } => Discrepancy::Missing { path: path@, hash: hash@ },
        }
    }
}

/// The line that tells a user of a discrepancy.
pub open spec fn notice(d: Discrepancy) -> Seq<char> {
    match d {
        Discrepancy::Mismatch { path } => "File checksum mismatch for "@ + path,
        Discrepancy::Untracked { path } => "Untracked/New file found: "@ + path,
        Discrepancy::Missing { path, hash } => "Missing file "@ + path + " with checksum "@ + hash,
    }
}

impl Finding {
    /// The line that tells a user of this finding.
    pub fn message(&self) -> (text: String)
        ensures
            text@ == notice(self@),
    {
        match self {
            Finding::Mismatch { path } => "File checksum mismatch for ".to_owned().concat(
                path.as_str(),
            ),
            Finding::Untracked { path } => "Untracked/New file found: ".to_owned().concat(
                path.as_str(),
            ),
            Finding::Missing { path, hash } => "Missing file ".to_owned().concat(
                path.as_str(),
            ).concat(" with checksum ").concat(hash.as_str()),
        }
    }
}

/// The values of findings, in order.
pub open spec fn discrepancies(findings: Seq<Finding>) -> Seq<Discrepancy> {
    findings.map_values(|f: Finding| f@)
}

/// A file counts as changed only where its digest and its size both differ
/// from the record. A file whose contents changed and whose size did not is
/// not reported.
pub open spec fn differs(record: FileRecord, hash: Seq<char>, size: u64) -> bool {
    record.hash != hash && record.sz != size
}

/// What there is to report of one file, given its digest and size now.
pub open spec fn verdict(
    expected: Map<Seq<char>, FileRecord>,
    path: Seq<char>,
    hash: Seq<char>,
    size: u64,
) -> Option<Discrepancy> {
    if !expected.contains_key(path) {
        Some(Discrepancy::Untracked { path: path })
    } else if differs(expected[path], hash, size) {
        Some(Discrepancy::Mismatch { path: path })
    } else {
        None
    }
}

/// What there is to report of a listed file of the walk.
pub open spec fn file_verdict(f: TreeItem, expected: Map<Seq<char>, FileRecord>) -> Option<
    Discrepancy,
> {
    verdict(expected, f.path, sha1_hex(f.content), f.size)
}

/// One finding for each entry whose path is not among `seen`, in the order
/// of the entries.
pub open spec fn missing(entries: Seq<Entry>, seen: Set<Seq<char>>) -> Seq<Discrepancy>
    decreases entries.len(),
{
    if entries.len() == 0 {
        Seq::empty()
    } else {
        let before = missing(entries.drop_last(), seen);
        let e = entries.last();
        if seen.contains(e.path) {
            before
        } else {
            before.push(Discrepancy::Missing { path: e.path, hash: e.record.hash })
        }
    }
}

/// Whether the walk holds a listed file at `path`.
pub open spec fn met(files: Seq<TreeItem>, manifest_name: Seq<char>, path: Seq<char>) -> bool {
    exists|j: int|
        0 <= j < files.len() && item_kind(#[trigger] files[j], manifest_name) == EntryKind::Listed
            && files[j].path == path
}

/// Why a verification did not run to its end.
#[derive(Debug, Clone, Copy, PartialEq, Eq)]
pub enum CheckError {
    /// The manifest is not to be trusted: a line of it is no record.
    Manifest(LoadError),
    /// The walk met a file that it cannot take.
    Walk(WalkError),
}

/// What a verification comes to.
#[derive(Debug, PartialEq, Eq)]
pub struct Report {
    /// What the walk found, in its order, then what it did not meet, in the
    /// order of the manifest.
    pub findings: Vec<Finding>,
    /// The number of regular files that the walk met, the manifest's own
    /// among them.
    pub count: usize,
}

/// The mathematical value of a `Report`.
#[verifier::ext_equal]
pub struct Summary {
    pub findings: Seq<Discrepancy>,
    pub count: nat,
}

impl View for Report {
    type V = Summary;

    open spec fn view(&self) -> Summary {
        Summary { findings: discrepancies(self.findings@), count: self.count as nat }
    }
}

/// A walk so far: what it found, which paths of the manifest it met, and
/// how many regular files.
#[verifier::ext_equal]
pub struct Walked {
    pub findings: Seq<Discrepancy>,
    pub seen: Set<Seq<char>>,
    pub count: nat,
}

/// A walk after one more entry. Every regular file is counted, and every
/// listed one is digested and held against its record.
pub open spec fn walk_step(
    before: Walked,
    f: TreeItem,
    manifest_name: Seq<char>,
    expected: Map<Seq<char>, FileRecord>,
) -> Result<Walked, WalkError> {
    match item_kind(f, manifest_name) {
        EntryKind::Other => Ok(before),
        EntryKind::Unnamed => Err(WalkError::InvalidFilename),
        EntryKind::Own => Ok(
            Walked { findings: before.findings, seen: before.seen, count: before.count + 1 },
        ),
        EntryKind::Listed => if f.content.len() > MAX_INPUT {
            Err(WalkError::TooLarge)
        } else {
            Ok(
                Walked {
                    findings: match verdict(expected, f.path, sha1_hex(f.content), f.size) {
                        Some(d) => before.findings.push(d),
                        None => before.findings,
                    },
                    seen: if expected.contains_key(f.path) {
                        before.seen.insert(f.path)
                    } else {
                        before.seen
                    },
                    count: before.count + 1,
                },
            )
        },
    }
}

/// A walk over the entries in order. The first entry that fails ends it.
pub open spec fn walk(
    files: Seq<TreeItem>,
    manifest_name: Seq<char>,
    expected: Map<Seq<char>, FileRecord>,
) -> Result<Walked, WalkError>
    decreases files.len(),
{
    if files.len() == 0 {
        Ok(Walked { findings: Seq::empty(), seen: Set::empty(), count: 0 })
    } else {
        match walk(files.drop_last(), manifest_name, expected) {
            Err(e) => Err(e),
            Ok(before) => walk_step(before, files.last(), manifest_name, expected),
        }
    }
}

/// A verification of the entries of a walk against a manifest: what the
/// walk found, then the entries that it did not meet.
pub open spec fn check(files: Seq<TreeItem>, manifest_name: Seq<char>, entries: Seq<Entry>) -> Result<
    Summary,
    WalkError,
> {
    match walk(files, manifest_name, map_of(entries)) {
        Err(e) => Err(e),
        Ok(w) => Ok(
            Summary { findings: w.findings + missing(entries, w.seen), count: w.count },
        ),
    }
}

/// A verification from the manifest's text: a text that a strict reading
/// refuses ends it before the walk.
pub open spec fn check_text(files: Seq<TreeItem>, manifest_name: Seq<char>, text: Seq<char>) -> Result<
    Summary,
    CheckError,
> {
    match parse_manifest(text, false) {
        Err(e) => Err(CheckError::Manifest(e)),
        Ok(entries) => match check(files, manifest_name, entries) {
            Err(e) => Err(CheckError::Walk(e)),
            Ok(s) => Ok(s),
        },
    }
}

/// A verification under way: the manifest, and which of its paths the walk
/// has met.
pub struct Checker {
    expected: Manifest,
    met: Vec<bool>,
}

impl Checker {
    /// There is one mark for each entry of the manifest.
    pub closed spec fn wf(&self) -> bool {
        &&& self.expected.wf()
        &&& self.met@.len() == self.expected.entries().len()
    }

    /// The entries of the manifest.
    pub closed spec fn expected(&self) -> Seq<Entry> {
        self.expected.entries()
    }

    /// The paths of the manifest that the walk has met.
    pub closed spec fn seen(&self) -> Set<Seq<char>> {
        Set::new(
            |p: Seq<char>|
                exists|i: int|
                    0 <= i < self.met@.len() && self.met@[i] && (
                    #[trigger] self.expected.entries()[i]).path == p,
        )
    }

    /// Starts a verification against `expected`.
    pub fn new(expected: Manifest) -> (c: Checker)
        requires
            expected.wf(),
        ensures
            c.wf(),
            c.expected() == expected.entries(),
            c.seen() == Set::<Seq<char>>::empty(),
    {
        let mut met: Vec<bool> = Vec::new();
        let n = expected.len();
        let mut i: usize = 0;
        while i < n
            invariant
                i <= n,
                met@.len() == i,
                forall|j: int| 0 <= j < i ==> !met@[j],
            decreases n - i,
        {
            met.push(false);
            i = i + 1;
        }
        let c = Checker { expected: expected, met: met };
        assert(c.seen() == Set::<Seq<char>>::empty());
        c
    }

    /// Takes note of one listed file, with its digest and size now, and
    /// says what there is to report of it.
    pub fn observe(&mut self, path: &str, hash: &String, size: u64) -> (found: Option<Finding>)
        requires
            old(self).wf(),
        ensures
            final(self).wf(),
            final(self).expected() == old(self).expected(),
            match found {
                Some(f) => verdict(map_of(old(self).expected()), path@, hash@, size) == Some(f@),
                None => verdict(map_of(old(self).expected()), path@, hash@, size) is None,
            },
            final(self).seen() == if map_of(old(self).expected()).contains_key(path@) {
                old(self).seen().insert(path@)
            } else {
                old(self).seen()
            },
    {
        let ghost entries = self.expected.entries();
        proof {
            lemma_map_of_keys(entries, path@);
            self.expected.lemma_unique();
        }
        match self.expected.find(path) {
            None => Some(Finding::Untracked { path: path.to_owned() }),
            Some(i) => {
                proof {
                    lemma_map_of_entry(entries, i as int);
                }
                let record = self.expected.record_at(i);
                let changed = !(record.hash == *hash) && record.sz != size;
                let ghost before = self.seen();
                let ghost marks = self.met@;
                self.met.set(i, true);
                proof {
                    assert forall|p: Seq<char>| self.seen().contains(p) == before.insert(
                        path@,
                    ).contains(p) by {
                        if before.insert(path@).contains(p) {
                            if p == path@ {
                                assert(self.met@[i as int] && entries[i as int].path == p);
                            } else {
                                let j = choose|j: int|
                                    0 <= j < marks.len() && marks[j] && (#[trigger] entries[j]).path
                                        == p;
                                assert(self.met@[j] && entries[j].path == p);
                            }
                        }
                        if self.seen().contains(p) {
                            let j = choose|j: int|
                                0 <= j < self.met@.len() && self.met@[j] && (
                                #[trigger] entries[j]).path == p;
                            if j != i {
                                assert(marks[j] && entries[j].path == p);
                            }
                        }
                    }
                    assert(self.seen() =~= before.insert(path@));
                }
                if changed {
                    Some(Finding::Mismatch { path: path.to_owned() })
                } else {
                    None
                }
            },
        }
    }

    /// The entries of the manifest that the walk has not met, in the order
    /// of the manifest.
    pub fn missing(&self) -> (out: Vec<Finding>)
        requires
            self.wf(),
        ensures
            discrepancies(out@) == missing(self.expected(), self.seen()),
    {
        let ghost entries = self.expected.entries();
        proof {
            self.expected.lemma_unique();
        }
        let mut out: Vec<Finding> = Vec::new();
        let n = self.expected.len();
        let mut i: usize = 0;
        assert(discrepancies(out@) == Seq::<Discrepancy>::empty());
        while i < n
            invariant
                self.wf(),
                entries == self.expected.entries(),
                unique_paths(entries),
                n == entries.len(),
                i <= n,
                discrepancies(out@) == missing(entries.take(i as int), self.seen()),
            decreases n - i,
        {
            proof {
                assert(entries.take(i + 1).drop_last() == entries.take(i as int));
                assert(entries.take(i + 1).last() == entries[i as int]);
                if self.seen().contains(entries[i as int].path) {
                    let j = choose|j: int|
                        0 <= j < self.met@.len() && self.met@[j] && (#[trigger] entries[j]).path
                            == entries[i as int].path;
                    assert(j == i);
                }
            }
            if !self.met[i] {
                let ghost before = discrepancies(out@);
                let finding = Finding::Missing {
                    path: self.expected.path_at(i).clone(),
                    hash: self.expected.record_at(i).hash.clone(),
                };
                out.push(finding);
                assert(discrepancies(out@) == before.push(finding@));
            }
            i = i + 1;
        }
        assert(entries.take(i as int) == entries);
        out
    }
}

/// Verifies a tree against its manifest, from the entries of a walk over
/// the tree. `checksum_file` is the manifest's leaf name, by which the
/// manifest's own files are passed over, and `manifest` is its text, which
/// is read strictly. What is found does not make the verification fail.
pub fn check_hashes(files: &Vec<TreeEntry>, checksum_file: &str, manifest: &str) -> (r: Result<
    Report,
    CheckError,
>)
    ensures
        match r {
            Ok(report) => check_text(items(files@), checksum_file@, manifest@) == Ok::<
                Summary,
                CheckError,
            >(report@),
            Err(e) => check_text(items(files@), checksum_file@, manifest@) == Err::<
                Summary,
                CheckError,
            >(e),
        },
{
    let expected = match load_checksum_file(manifest, false) {
        Err(e) => {
            return Err(CheckError::Manifest(e));
        },
        Ok(m) => m,
    };
    let ghost entries = expected.entries();
    let ghost all = items(files@);
    let mut checker = Checker::new(expected);
    let mut findings: Vec<Finding> = Vec::new();
    let mut count: usize = 0;
    let mut i: usize = 0;
    assert(discrepancies(findings@) == Seq::<Discrepancy>::empty());
    while i < files.len()
        invariant
            i <= files@.len(),
            all == items(files@),
            parse_manifest(manifest@, false) == Ok::<Seq<Entry>, LoadError>(entries),
            checker.wf(),
            checker.expected() == entries,
            count <= i,
            walk(all.take(i as int), checksum_file@, map_of(entries)) == Ok::<Walked, WalkError>(
                Walked {
                    findings: discrepancies(findings@),
                    seen: checker.seen(),
                    count: count as nat,
                },
            ),
        decreases files@.len() - i,
    {
        let f = &files[i];
        let name: Option<&str> = match &f.name {
            Some(n) => Some(n.as_str()),
            None => None,
        };
        proof {
            assert(all.take(i + 1).drop_last() == all.take(i as int));
            assert(all.take(i + 1).last() == f@);
            assert(name_of(name) == f@.name);
            lemma_walk_fails_early(all, i + 1, checksum_file@, map_of(entries));
        }
        match classify(f.is_file, name, checksum_file) {
            EntryKind::Other => {},
            EntryKind::Unnamed => {
                return Err(CheckError::Walk(WalkError::InvalidFilename));
            },
            EntryKind::Own => {
                count = count + 1;
            },
            EntryKind::Listed => match digest(f.content.as_slice()) {
                None => {
                    return Err(CheckError::Walk(WalkError::TooLarge));
                },
                Some(hex) => {
                    count = count + 1;
                    let ghost before = discrepancies(findings@);
                    match checker.observe(f.path.as_str(), &hex, f.size) {
                        Some(finding) => {
                            findings.push(finding);
                            assert(discrepancies(findings@) == before.push(finding@));
                        },
                        None => {},
                    }
                },
            },
        }
        i = i + 1;
    }
    assert(all.take(i as int) == all);
    let ghost found = discrepancies(findings@);
    let mut rest = checker.missing();
    let ghost unmet = discrepancies(rest@);
    findings.append(&mut rest);
    assert(discrepancies(findings@) == found + unmet);
    Ok(Report { findings: findings, count: count })
}

/// What a walk that succeeds comes to, said without going step by step:
/// its findings are those of the listed files, in order; it has seen the
/// paths of the manifest at which it met a listed file; it has counted the
/// regular files.
pub proof fn lemma_walk(
    files: Seq<TreeItem>,
    manifest_name: Seq<char>,
    expected: Map<Seq<char>, FileRecord>,
)
    ensures
        walk(files, manifest_name, expected) matches Ok(w) ==> {
            &&& w.findings == listed_files(files, manifest_name).filter_map(
                |f: TreeItem| file_verdict(f, expected),
            )
            &&& forall|p: Seq<char>|
                w.seen.contains(p) <==> expected.contains_key(p) && met(files, manifest_name, p)
            &&& w.count == files.filter(|f: TreeItem| f.is_file).len()
        },
    decreases files.len(),
{
    reveal(Seq::filter);
    if files.len() > 0 && walk(files, manifest_name, expected) is Ok {
        let front = files.drop_last();
        let f = files.last();
        lemma_walk(front, manifest_name, expected);
        let before = walk(front, manifest_name, expected)->Ok_0;
        let w = walk(files, manifest_name, expected)->Ok_0;
        assert forall|p: Seq<char>|
            met(files, manifest_name, p) <==> met(front, manifest_name, p) || (item_kind(
                f,
                manifest_name,
            ) == EntryKind::Listed && f.path == p) by {
            if met(front, manifest_name, p) {
                let j = choose|j: int|
                    0 <= j < front.len() && item_kind(#[trigger] front[j], manifest_name)
                        == EntryKind::Listed && front[j].path == p;
                assert(files[j] == front[j]);
            }
            if item_kind(f, manifest_name) == EntryKind::Listed && f.path == p {
                assert(files[files.len() - 1] == f);
            }
            if met(files, manifest_name, p) {
                let j = choose|j: int|
                    0 <= j < files.len() && item_kind(#[trigger] files[j], manifest_name)
                        == EntryKind::Listed && files[j].path == p;
                if j < front.len() {
                    assert(front[j] == files[j]);
                }
            }
        }
        if item_kind(f, manifest_name) == EntryKind::Listed {
            let listed = listed_files(files, manifest_name);
            assert(listed.drop_last() == listed_files(front, manifest_name));
            assert(listed.last() == f);
            assert(w.findings == listed.filter_map(|f: TreeItem| file_verdict(f, expected)));
        }
    }
}

/// What is reported missing: exactly the entries whose paths were not
/// seen, each with its path and recorded digest.
pub proof fn lemma_missing(entries: Seq<Entry>, seen: Set<Seq<char>>)
    ensures
        forall|d: Discrepancy|
            missing(entries, seen).contains(d) <==> exists|i: int|
                0 <= i < entries.len() && !seen.contains((#[trigger] entries[i]).path) && d
                    == (Discrepancy::Missing {
                    path: entries[i].path,
                    hash: entries[i].record.hash,
                }),
    decreases entries.len(),
{
    if entries.len() > 0 {
        let front = entries.drop_last();
        let e = entries.last();
        lemma_missing(front, seen);
        let before = missing(front, seen);
        let after = missing(entries, seen);
        assert forall|d: Discrepancy|
            after.contains(d) <==> exists|i: int|
                0 <= i < entries.len() && !seen.contains((#[trigger] entries[i]).path) && d
                    == (Discrepancy::Missing {
                    path: entries[i].path,
                    hash: entries[i].record.hash,
                }) by {
            let own = Discrepancy::Missing { path: e.path, hash: e.record.hash };
            if after.contains(d) {
                let k = choose|k: int| 0 <= k < after.len() && after[k] == d;
                if k < before.len() {
                    assert(before[k] == d);
                    assert(before.contains(d));
                    let i = choose|i: int|
                        0 <= i < front.len() && !seen.contains((#[trigger] front[i]).path) && d
                            == (Discrepancy::Missing {
                            path: front[i].path,
                            hash: front[i].record.hash,
                        });
                    assert(entries[i] == front[i]);
                } else {
                    assert(d == own);
                    assert(entries[entries.len() - 1] == e);
                }
            }
            if exists|i: int|
                0 <= i < entries.len() && !seen.contains((#[trigger] entries[i]).path) && d
                    == (Discrepancy::Missing {
                    path: entries[i].path,
                    hash: entries[i].record.hash,
                }) {
                let i = choose|i: int|
                    0 <= i < entries.len() && !seen.contains((#[trigger] entries[i]).path) && d
                        == (Discrepancy::Missing {
                        path: entries[i].path,
                        hash: entries[i].record.hash,
                    });
                if i < front.len() {
                    assert(front[i] == entries[i]);
                    assert(before.contains(d));
                    let k = choose|k: int| 0 <= k < before.len() && before[k] == d;
                    assert(after[k] == d);
                } else {
                    assert(after.last() == d);
                }
            }
        }
    }
}

/// A verification that succeeds reports an entry of the manifest as
/// missing exactly where the walk holds no listed file at its path.
pub proof fn lemma_check_missing(
    files: Seq<TreeItem>,
    manifest_name: Seq<char>,
    entries: Seq<Entry>,
    i: int,
)
    requires
        0 <= i < entries.len(),
        check(files, manifest_name, entries) is Ok,
    ensures
        check(files, manifest_name, entries)->Ok_0.findings.contains(
            Discrepancy::Missing { path: entries[i].path, hash: entries[i].record.hash },
        ) <==> !met(files, manifest_name, entries[i].path),
{
    let expected = map_of(entries);
    let w = walk(files, manifest_name, expected)->Ok_0;
    let gone = missing(entries, w.seen);
    let all = check(files, manifest_name, entries)->Ok_0.findings;
    let d = Discrepancy::Missing { path: entries[i].path, hash: entries[i].record.hash };
    lemma_walk(files, manifest_name, expected);
    lemma_missing(entries, w.seen);
    lemma_map_of_keys(entries, entries[i].path);
    if w.findings.contains(d) {
        listed_files(files, manifest_name).lemma_filter_map_contains(
            |f: TreeItem| file_verdict(f, expected),
            d,
        );
    }
    if all.contains(d) {
        let k = choose|k: int| 0 <= k < all.len() && all[k] == d;
        if k < w.findings.len() {
            assert(w.findings[k] == d);
        } else {
            assert(gone[k - w.findings.len()] == d);
        }
        assert(gone.contains(d));
    }
    if gone.contains(d) {
        let k = choose|k: int| 0 <= k < gone.len() && gone[k] == d;
        assert(all[w.findings.len() + k] == d);
    }
}

/// A tree verifies against the manifest that was generated from it: where
/// a generation that takes nothing over from an earlier run succeeds, and
/// the walk holds no path twice, a verification of the same walk against
/// the entries written finds nothing and counts the regular files.
pub proof fn lemma_fresh_manifest_verifies(files: Seq<TreeItem>, manifest_name: Seq<char>)
    requires
        generate(files, manifest_name, Map::empty()) is Ok,
        unique_paths(written(files, manifest_name, Map::empty())),
    ensures
        check(files, manifest_name, written(files, manifest_name, Map::empty())) == Ok::<
            Summary,
            WalkError,
        >(
            Summary {
                findings: Seq::empty(),
                count: files.filter(|f: TreeItem| f.is_file).len(),
            },
        ),
{
    let none = Map::<Seq<char>, FileRecord>::empty();
    let entries = written(files, manifest_name, none);
    let expected = map_of(entries);
    let listed = listed_files(files, manifest_name);
    lemma_walk_succeeds(files, manifest_name, expected);
    lemma_walk(files, manifest_name, expected);
    let w = walk(files, manifest_name, expected)->Ok_0;
    assert forall|k: int| 0 <= k < listed.len() implies file_verdict(
        #[trigger] listed[k],
        expected,
    ) is None && w.seen.contains(listed[k].path) by {
        assert(entries[k] == entry_for(listed[k], none));
        lemma_map_of_entry(entries, k);
        assert(expected[listed[k].path] == fresh_record(listed[k]));
        files.lemma_filter_pred(
            |f: TreeItem| item_kind(f, manifest_name) == EntryKind::Listed,
            k,
        );
        assert(listed.contains(listed[k]));
        files.lemma_filter_contains_rev(
            |f: TreeItem| item_kind(f, manifest_name) == EntryKind::Listed,
            listed[k],
        );
        let j = choose|j: int| 0 <= j < files.len() && files[j] == listed[k];
        assert(item_kind(files[j], manifest_name) == EntryKind::Listed && files[j].path
            == listed[k].path);
        assert(met(files, manifest_name, listed[k].path));
    }
    lemma_nothing_to_report(listed, expected);
    let gone = missing(entries, w.seen);
    lemma_missing(entries, w.seen);
    if gone.len() > 0 {
        assert(gone.contains(gone[0]));
        let i = choose|i: int|
            0 <= i < entries.len() && !w.seen.contains((#[trigger] entries[i]).path) && gone[0]
                == (Discrepancy::Missing { path: entries[i].path, hash: entries[i].record.hash });
        assert(entries[i].path == listed[i].path);
    }
    assert(w.findings + gone == Seq::<Discrepancy>::empty());
}

/// A failure among the first entries is the failure of the whole walk.
pub proof fn lemma_walk_fails_early(
    files: Seq<TreeItem>,
    k: int,
    manifest_name: Seq<char>,
    expected: Map<Seq<char>, FileRecord>,
)
    requires
        0 <= k <= files.len(),
    ensures
        walk(files.take(k), manifest_name, expected) is Err ==> walk(
            files,
            manifest_name,
            expected,
        ) == walk(files.take(k), manifest_name, expected),
    decreases files.len() - k,
{
    if k < files.len() {
        assert(files.take(k + 1).drop_last() == files.take(k));
        lemma_walk_fails_early(files, k + 1, manifest_name, expected);
    } else {
        assert(files.take(k) == files);
    }
}

/// Where a generation without an earlier run succeeds, so does a walk: they
/// fail on the same entries.
proof fn lemma_walk_succeeds(
    files: Seq<TreeItem>,
    manifest_name: Seq<char>,
    expected: Map<Seq<char>, FileRecord>,
)
    requires
        generate(files, manifest_name, Map::empty()) is Ok,
    ensures
        walk(files, manifest_name, expected) is Ok,
    decreases files.len(),
{
    if files.len() > 0 {
        lemma_walk_succeeds(files.drop_last(), manifest_name, expected);
    }
}

/// Where there is nothing to report of any file, the findings are empty.
proof fn lemma_nothing_to_report(listed: Seq<TreeItem>, expected: Map<Seq<char>, FileRecord>)
    requires
        forall|k: int| 0 <= k < listed.len() ==> file_verdict(#[trigger] listed[k], expected) is None,
    ensures
        listed.filter_map(|f: TreeItem| file_verdict(f, expected)) == Seq::<Discrepancy>::empty(),
    decreases listed.len(),
{
    if listed.len() > 0 {
        let front = listed.drop_last();
        assert forall|k: int| 0 <= k < front.len() implies file_verdict(
            #[trigger] front[k],
            expected,
        ) is None by {
            assert(front[k] == listed[k]);
        }
        lemma_nothing_to_report(front, expected);
        assert(file_verdict(listed[listed.len() - 1], expected) is None);
    }
}

} // verus!
