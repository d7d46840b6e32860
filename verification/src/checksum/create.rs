//! Generation: one line for each regular file of a walk, with the digest
//! computed afresh or taken over from a run that was cut short.

use vstd::prelude::*;
use crate::checksum::common::{
    format_record, lemma_entries_round_trip, load_checksum_file, manifest_text, map_of,
    parse_manifest, plain, record_line, unique_paths, writable, Entry, FileRecord, LoadError,
    Manifest,
};
use crate::checksum::digest::{digest, is_hex_digit, is_sha1_hex, sha1_hex, MAX_INPUT};
use crate::checksum::tree::{
    classify, item_kind, items, kind_of, listed_files, name_of, EntryKind, TreeEntry, TreeItem,
    WalkError,
};

verus! {

/// What a generation does with one entry of the walk.
#[derive(Debug, PartialEq, Eq)]
pub enum Plan {
    /// Nothing: the entry is no regular file, or one of the manifest's own.
    Skip,
    /// The run fails: a regular file whose name is not text.
    Invalid,
    /// Write this line, which an earlier run left for the path. The file is
    /// neither read nor measured.
    Reuse(String),
    /// Digest the file and write a fresh line.
    Hash,
}

/// The record of a file that is digested now.
pub open spec fn fresh_record(f: TreeItem) -> FileRecord {
    FileRecord { fname: f.name.unwrap(), hash: sha1_hex(f.content), sz: f.size }
}

/// The record that a generation writes for a listed file: the one that the
/// earlier run left for its path if there is one, a fresh one otherwise.
pub open spec fn record_for(f: TreeItem, done: Map<Seq<char>, FileRecord>) -> FileRecord {
    if done.contains_key(f.path) {
        done[f.path]
    } else {
        fresh_record(f)
    }
}

/// The entry that a generation writes for a listed file.
pub open spec fn entry_for(f: TreeItem, done: Map<Seq<char>, FileRecord>) -> Entry {
    Entry { path: f.path, record: record_for(f, done) }
}

/// What a generation comes to.
#[derive(Debug, PartialEq, Eq)]
pub struct Generated {
    /// The text of the manifest.
    pub text: String,
    /// The number of files that have a line.
    pub count: usize,
    /// The number of files that were digested.
    pub hashed: usize,
}

/// The mathematical value of a `Generated`.
#[verifier::ext_equal]
pub struct Outcome {
    pub text: Seq<char>,
    pub count: nat,
    pub hashed: nat,
}

impl View for Generated {
    type V = Outcome;

    open spec fn view(&self) -> Outcome {
        Outcome { text: self.text@, count: self.count as nat, hashed: self.hashed as nat }
    }
}

/// A generation after one more entry. A listed file adds its line; a file
/// that an earlier run has left a record for is not digested.
pub open spec fn generate_step(
    before: Outcome,
    f: TreeItem,
    manifest_name: Seq<char>,
    done: Map<Seq<char>, FileRecord>,
) -> Result<Outcome, WalkError> {
    match item_kind(f, manifest_name) {
        EntryKind::Other => Ok(before),
        EntryKind::Own => Ok(before),
        EntryKind::Unnamed => Err(WalkError::InvalidFilename),
        EntryKind::Listed => if !done.contains_key(f.path) && f.content.len() > MAX_INPUT {
            Err(WalkError::TooLarge)
        } else {
            Ok(
                Outcome {
                    text: before.text + record_line(entry_for(f, done)),
                    count: before.count + 1,
                    hashed: if done.contains_key(f.path) {
                        before.hashed
                    } else {
                        before.hashed + 1
                    },
                },
            )
        },
    }
}

/// A generation over the entries of a walk, in order, with `done` for what
/// an earlier run has left. The first entry that fails ends it.
pub open spec fn generate(
    files: Seq<TreeItem>,
    manifest_name: Seq<char>,
    done: Map<Seq<char>, FileRecord>,
) -> Result<Outcome, WalkError>
    decreases files.len(),
{
    if files.len() == 0 {
        Ok(Outcome { text: Seq::empty(), count: 0, hashed: 0 })
    } else {
        match generate(files.drop_last(), manifest_name, done) {
            Err(e) => Err(e),
            Ok(before) => generate_step(before, files.last(), manifest_name, done),
        }
    }
}

/// What an earlier run has left: nothing where the run does not resume,
/// else what a tolerant reading of the earlier run's text gives.
pub open spec fn resumed(previous: Option<&str>) -> Map<Seq<char>, FileRecord> {
    match previous {
        None => Map::empty(),
        Some(text) => match parse_manifest(text@, true) {
            Ok(entries) => map_of(entries),
            Err(_) => Map::empty(),
        },
    }
}

/// The entries that a generation writes: one for each listed file, in the
/// order of the walk.
pub open spec fn written(
    files: Seq<TreeItem>,
    manifest_name: Seq<char>,
    done: Map<Seq<char>, FileRecord>,
) -> Seq<Entry> {
    listed_files(files, manifest_name).map_values(|f: TreeItem| entry_for(f, done))
}

/// The files that a generation digests: the listed ones that the earlier
/// run has left no record for.
pub open spec fn to_digest(
    files: Seq<TreeItem>,
    manifest_name: Seq<char>,
    done: Map<Seq<char>, FileRecord>,
) -> Seq<TreeItem> {
    files.filter(
        |f: TreeItem|
            item_kind(f, manifest_name) == EntryKind::Listed && !done.contains_key(f.path),
    )
}

/// Whether the digest of each of the files is forty hexadecimal digits.
pub open spec fn hex_digests(files: Seq<TreeItem>) -> bool {
    forall|i: int| 0 <= i < files.len() ==> is_sha1_hex(sha1_hex((#[trigger] files[i]).content))
}

/// Whether a run looks at an entry at all: a regular file that is not one
/// of the manifest's own.
pub open spec fn bears(f: TreeItem, manifest_name: Seq<char>) -> bool {
    item_kind(f, manifest_name) == EntryKind::Listed || item_kind(f, manifest_name)
        == EntryKind::Unnamed
}

/// The entries of a walk that a run looks at, in order.
pub open spec fn bearing(files: Seq<TreeItem>, manifest_name: Seq<char>) -> Seq<TreeItem> {
    files.filter(|f: TreeItem| bears(f, manifest_name))
}

/// Decides what a generation does with an entry, from its kind and from
/// what an earlier run has left in `done`.
pub fn plan_entry(
    is_file: bool,
    name: Option<&str>,
    path: &str,
    manifest_name: &str,
    done: &Manifest,
) -> (plan: Plan)
    requires
        done.wf(),
    ensures
        match plan {
            Plan::Skip => {
                let kind = kind_of(is_file, name_of(name), manifest_name@);
                kind == EntryKind::Other || kind == EntryKind::Own
            },
            Plan::Invalid => kind_of(is_file, name_of(name), manifest_name@)
                == EntryKind::Unnamed,
            Plan::Reuse(line) => {
                &&& kind_of(is_file, name_of(name), manifest_name@) == EntryKind::Listed
                &&& done@.contains_key(path@)
                &&& line@ == record_line(Entry { path: path@, record: done@[path@] })
            },
            Plan::Hash => {
                &&& kind_of(is_file, name_of(name), manifest_name@) == EntryKind::Listed
                &&& !done@.contains_key(path@)
            },
        },
{
    match classify(is_file, name, manifest_name) {
        EntryKind::Other => Plan::Skip,
        EntryKind::Own => Plan::Skip,
        EntryKind::Unnamed => Plan::Invalid,
        EntryKind::Listed => match done.get(path) {
            Some(record) => Plan::Reuse(
                format_record(record.hash.as_str(), record.sz, record.fname.as_str(), path),
            ),
            None => Plan::Hash,
        },
    }
}

/// Generates the manifest of a tree from the entries of a walk over it.
/// `checksum_file` is the manifest's leaf name, by which the manifest's own
/// files are passed over. `resume` holds the text that an earlier run has
/// left, where this run is to take over its records.
pub fn gen_hashes(files: &Vec<TreeEntry>, checksum_file: &str, resume: Option<&str>) -> (r: Result<
    Generated,
    WalkError,
>)
    ensures
        match r {
            Ok(g) => generate(items(files@), checksum_file@, resumed(resume)) == Ok::<
                Outcome,
                WalkError,
            >(g@),
            Err(e) => generate(items(files@), checksum_file@, resumed(resume)) == Err::<
                Outcome,
                WalkError,
            >(e),
        },
        r is Ok ==> hex_digests(to_digest(items(files@), checksum_file@, resumed(resume))),
{
    let done = match resume {
        None => Manifest::new(),
        Some(text) => match load_checksum_file(text, true) {
            Ok(m) => m,
            Err(_) => Manifest::new(),
        },
    };
    let ghost all = items(files@);
    let ghost left = resumed(resume);
    assert(done@ == left);
    let mut out = Generated { text: String::new(), count: 0, hashed: 0 };
    let mut i: usize = 0;
    while i < files.len()
        invariant
            i <= files@.len(),
            all == items(files@),
            done.wf(),
            done@ == left,
            left == resumed(resume),
            out.hashed <= out.count <= i,
            generate(all.take(i as int), checksum_file@, left) == Ok::<Outcome, WalkError>(out@),
            hex_digests(to_digest(all.take(i as int), checksum_file@, left)),
        decreases files@.len() - i,
    {
        let f = &files[i];
        proof {
            reveal(Seq::filter);
            assert(all.take(i + 1).drop_last() == all.take(i as int));
            assert(all.take(i + 1).last() == f@);
            lemma_generate_fails_early(all, i + 1, checksum_file@, left);
        }
        let name: Option<&str> = match &f.name {
            Some(n) => Some(n.as_str()),
            None => None,
        };
        assert(name_of(name) == f@.name);
        let ghost next = generate(all.take(i + 1), checksum_file@, left);
        assert(next == generate_step(out@, f@, checksum_file@, left));
        match plan_entry(f.is_file, name, f.path.as_str(), checksum_file, &done) {
            Plan::Skip => {},
            Plan::Invalid => {
                return Err(WalkError::InvalidFilename);
            },
            Plan::Reuse(line) => {
                out.text.append(line.as_str());
                out.count = out.count + 1;
            },
            Plan::Hash => {
                let fname = match name {
                    Some(n) => n,
                    None => "",
                };
                match digest(f.content.as_slice()) {
                    None => {
                        return Err(WalkError::TooLarge);
                    },
                    Some(hex) => {
                        let line = format_record(hex.as_str(), f.size, fname, f.path.as_str());
                        out.text.append(line.as_str());
                        out.count = out.count + 1;
                        out.hashed = out.hashed + 1;
                    },
                }
            },
        }
        proof {
            let earlier = to_digest(all.take(i as int), checksum_file@, left);
            let now = to_digest(all.take(i + 1), checksum_file@, left);
            assert forall|k: int| 0 <= k < now.len() implies is_sha1_hex(
                sha1_hex((#[trigger] now[k]).content),
            ) by {
                if k < earlier.len() {
                    assert(now[k] == earlier[k]);
                }
            }
        }
        i = i + 1;
    }
    assert(all.take(i as int) == all);
    Ok(out)
}

/// Two generations over a tree that has not changed give the same text,
/// byte for byte, and the same counts. The walks need agree only on the
/// entries that a run looks at, in their order: the manifest's own files,
/// which the first run leaves for the second to meet, count for nothing.
pub proof fn lemma_generation_idempotent(
    first: Seq<TreeItem>,
    second: Seq<TreeItem>,
    manifest_name: Seq<char>,
    done: Map<Seq<char>, FileRecord>,
)
    requires
        bearing(first, manifest_name) == bearing(second, manifest_name),
    ensures
        generate(first, manifest_name, done) == generate(second, manifest_name, done),
{
    lemma_generate_bearing(first, manifest_name, done);
    lemma_generate_bearing(second, manifest_name, done);
}

/// A resumed generation does not look into a file that the earlier run has
/// left a record for: whatever the size and the contents of such files
/// are, the outcome is the same. Every other listed file is digested, and
/// counted in `hashed`.
pub proof fn lemma_resume_reuse(
    first: Seq<TreeItem>,
    second: Seq<TreeItem>,
    manifest_name: Seq<char>,
    done: Map<Seq<char>, FileRecord>,
)
    requires
        first.len() == second.len(),
        forall|i: int|
            0 <= i < first.len() ==> {
                &&& (#[trigger] first[i]).path == second[i].path
                &&& first[i].is_file == second[i].is_file
                &&& first[i].name == second[i].name
                &&& !done.contains_key(first[i].path) ==> first[i] == second[i]
            },
    ensures
        generate(first, manifest_name, done) == generate(second, manifest_name, done),
    decreases first.len(),
{
    if first.len() > 0 {
        let a = first.drop_last();
        let b = second.drop_last();
        assert forall|i: int| 0 <= i < a.len() implies {
            &&& (#[trigger] a[i]).path == b[i].path
            &&& a[i].is_file == b[i].is_file
            &&& a[i].name == b[i].name
            &&& !done.contains_key(a[i].path) ==> a[i] == b[i]
        } by {
            assert(a[i] == first[i]);
            assert(b[i] == second[i]);
        }
        lemma_resume_reuse(a, b, manifest_name, done);
        assert(first.last() == first[first.len() - 1]);
    }
}

/// A generation that succeeds counts every listed file, and digests those
/// among them that the earlier run has left no record for, and no others.
pub proof fn lemma_generate_counts(
    files: Seq<TreeItem>,
    manifest_name: Seq<char>,
    done: Map<Seq<char>, FileRecord>,
)
    ensures
        generate(files, manifest_name, done) matches Ok(out) ==> {
            &&& out.count == listed_files(files, manifest_name).len()
            &&& out.hashed == to_digest(files, manifest_name, done).len()
        },
    decreases files.len(),
{
    reveal(Seq::filter);
    if files.len() > 0 {
        lemma_generate_counts(files.drop_last(), manifest_name, done);
    }
}

/// The text of a generation that succeeds is the manifest text of the
/// entries of the listed files: each line is of one file and owes nothing
/// to the others.
pub proof fn lemma_generate_text(
    files: Seq<TreeItem>,
    manifest_name: Seq<char>,
    done: Map<Seq<char>, FileRecord>,
)
    ensures
        generate(files, manifest_name, done) matches Ok(out) ==> out.text == manifest_text(
            written(files, manifest_name, done),
        ),
    decreases files.len(),
{
    reveal(Seq::filter);
    if files.len() > 0 {
        let front = files.drop_last();
        let f = files.last();
        lemma_generate_text(front, manifest_name, done);
        if generate(files, manifest_name, done) is Ok && item_kind(f, manifest_name)
            == EntryKind::Listed {
            let before = written(front, manifest_name, done);
            let after = written(files, manifest_name, done);
            assert(after == before.push(entry_for(f, done)));
            assert(after.drop_last() == before);
        } else if generate(files, manifest_name, done) is Ok {
            assert(written(files, manifest_name, done) == written(front, manifest_name, done));
        }
    }
}

/// The text of a generation reads back, strictly, as the entries that were
/// written, provided that the walk holds no path twice and every entry
/// written is writable.
pub proof fn lemma_generated_reads_back(
    files: Seq<TreeItem>,
    manifest_name: Seq<char>,
    done: Map<Seq<char>, FileRecord>,
)
    requires
        generate(files, manifest_name, done) is Ok,
        unique_paths(written(files, manifest_name, done)),
        forall|i: int|
            0 <= i < written(files, manifest_name, done).len() ==> writable(
                #[trigger] written(files, manifest_name, done)[i],
            ),
    ensures
        parse_manifest(generate(files, manifest_name, done)->Ok_0.text, false) == Ok::<
            Seq<Entry>,
            LoadError,
        >(written(files, manifest_name, done)),
{
    lemma_generate_text(files, manifest_name, done);
    lemma_entries_round_trip(written(files, manifest_name, done), false);
}

/// A digest in hexadecimal holds no tab and no line feed.
pub proof fn lemma_hex_plain(hash: Seq<char>)
    requires
        is_sha1_hex(hash),
    ensures
        plain(hash),
{
    if hash.contains('\t') {
        let i = choose|i: int| 0 <= i < hash.len() && hash[i] == '\t';
        assert(!is_hex_digit('\t'));
    }
    if hash.contains('\n') {
        let i = choose|i: int| 0 <= i < hash.len() && hash[i] == '\n';
        assert(!is_hex_digit('\n'));
    }
}

/// A generation comes to the same whether or not the walk holds entries
/// that it passes over.
pub proof fn lemma_generate_bearing(
    files: Seq<TreeItem>,
    manifest_name: Seq<char>,
    done: Map<Seq<char>, FileRecord>,
)
    ensures
        generate(files, manifest_name, done) == generate(
            bearing(files, manifest_name),
            manifest_name,
            done,
        ),
    decreases files.len(),
{
    reveal(Seq::filter);
    if files.len() > 0 {
        let front = files.drop_last();
        lemma_generate_bearing(front, manifest_name, done);
        if bears(files.last(), manifest_name) {
            let kept = bearing(front, manifest_name).push(files.last());
            assert(kept.drop_last() == bearing(front, manifest_name));
        }
    }
}

/// A failure among the first entries is the failure of the whole walk.
pub proof fn lemma_generate_fails_early(
    files: Seq<TreeItem>,
    k: int,
    manifest_name: Seq<char>,
    done: Map<Seq<char>, FileRecord>,
)
    requires
        0 <= k <= files.len(),
    ensures
        generate(files.take(k), manifest_name, done) is Err ==> generate(
            files,
            manifest_name,
            done,
        ) == generate(files.take(k), manifest_name, done),
    decreases files.len() - k,
{
    if k < files.len() {
        assert(files.take(k + 1).drop_last() == files.take(k));
        lemma_generate_fails_early(files, k + 1, manifest_name, done);
    } else {
        assert(files.take(k) == files);
    }
}

} // verus!
