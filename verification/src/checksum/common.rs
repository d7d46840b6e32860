//! The manifest: one record per file, keyed by path, and its text form.

use vstd::prelude::*;
use vstd::hash_map::StringHashMap;
use crate::checksum::text::{
    decimal, is_digit, lemma_decimal_digits, lemma_parse_decimal, lemma_split_append,
    lemma_split_extend, lemma_split_whole, lines, lines_of, parse_size, parse_size_spec,
    push_char, render_size, size_error_text, split, split_on, strip_cr, SizeError,
};

verus! {

/// What the manifest keeps of one file.
#[derive(Debug, PartialEq, Eq)]
pub struct FileMetaData {
    /// The file's leaf name.
    pub fname: String,
    /// The digest of the file's contents, in hexadecimal.
    pub hash: String,
    /// The file's size in bytes when it was digested.
    pub sz: u64,
}

impl Clone for FileMetaData {
    fn clone(&self) -> (copy: Self)
        ensures
            copy == *self,
    {
        FileMetaData { fname: self.fname.clone(), hash: self.hash.clone(), sz: self.sz }
    }
}

/// The mathematical value of a `FileMetaData`.
#[verifier::ext_equal]
pub struct FileRecord {
    pub fname: Seq<char>,
    pub hash: Seq<char>,
    pub sz: u64,
}

impl View for FileMetaData {
    type V = FileRecord;

    open spec fn view(&self) -> FileRecord {
        FileRecord { fname: self.fname@, hash: self.hash@, sz: self.sz }
    }
}

/// One line of a manifest: a path and the record kept for it.
#[verifier::ext_equal]
pub struct Entry {
    pub path: Seq<char>,
    pub record: FileRecord,
}

/// Whether some entry is kept for `path`.
pub open spec fn listed(entries: Seq<Entry>, path: Seq<char>) -> bool {
    exists|i: int| 0 <= i < entries.len() && (#[trigger] entries[i]).path == path
}

/// Where the entry for `path` stands, if `path` is listed.
pub open spec fn place_of(entries: Seq<Entry>, path: Seq<char>) -> int {
    choose|i: int| 0 <= i < entries.len() && (#[trigger] entries[i]).path == path
}

/// No path occurs twice.
pub open spec fn unique_paths(entries: Seq<Entry>) -> bool {
    forall|i: int, j: int|
        0 <= i < entries.len() && 0 <= j < entries.len() && (#[trigger] entries[i]).path == (
        #[trigger] entries[j]).path ==> i == j
}

/// Writes `e` over the entry with the same path, or adds it at the end.
pub open spec fn upsert(entries: Seq<Entry>, e: Entry) -> Seq<Entry> {
    if listed(entries, e.path) {
        entries.update(place_of(entries, e.path), e)
    } else {
        entries.push(e)
    }
}

/// The mapping from path to record that the entries describe. Of two entries
/// with one path the later counts.
pub open spec fn map_of(entries: Seq<Entry>) -> Map<Seq<char>, FileRecord>
    decreases entries.len(),
{
    if entries.len() == 0 {
        Map::empty()
    } else {
        map_of(entries.drop_last()).insert(entries.last().path, entries.last().record)
    }
}

/// The records of a tree, keyed by path. Entries keep the order in which
/// their paths first came in; a path occurs once.
pub struct Manifest {
    paths: Vec<String>,
    records: Vec<FileMetaData>,
    index: StringHashMap<usize>,
}

impl View for Manifest {
    type V = Map<Seq<char>, FileRecord>;

    open spec fn view(&self) -> Map<Seq<char>, FileRecord> {
        map_of(self.entries())
    }
}

impl Manifest {
    /// The entries in order.
    pub closed spec fn entries(&self) -> Seq<Entry> {
        Seq::new(
            self.paths@.len(),
            |i: int| Entry { path: self.paths@[i]@, record: self.records@[i]@ },
        )
    }

    /// The index finds exactly the paths that are kept, each at its place.
    pub closed spec fn wf(&self) -> bool {
        &&& self.paths@.len() == self.records@.len()
        &&& forall|i: int|
            0 <= i < self.paths@.len() ==> self.index@.contains_key((#[trigger] self.paths@[i])@)
                && self.index@[self.paths@[i]@] == i
        &&& forall|p: Seq<char>| #[trigger]
            self.index@.contains_key(p) ==> 0 <= self.index@[p] < self.paths@.len()
                && self.paths@[self.index@[p] as int]@ == p
    }

    /// A well-formed manifest lists no path twice.
    pub proof fn lemma_unique(&self)
        requires
            self.wf(),
        ensures
            unique_paths(self.entries()),
    {
        let entries = self.entries();
        assert forall|a: int, b: int|
            0 <= a < entries.len() && 0 <= b < entries.len() && (#[trigger] entries[a]).path == (
            #[trigger] entries[b]).path implies a == b by {
            assert(self.index@[self.paths@[a]@] == a);
            assert(self.index@[self.paths@[b]@] == b);
        }
    }

    /// A manifest without entries.
    pub fn new() -> (m: Manifest)
        ensures
            m.wf(),
            m.entries() == Seq::<Entry>::empty(),
    {
        let m = Manifest { paths: Vec::new(), records: Vec::new(), index: StringHashMap::new() };
        assert(m.entries() == Seq::<Entry>::empty());
        m
    }

    /// The number of entries.
    pub fn len(&self) -> (n: usize)
        requires
            self.wf(),
        ensures
            n == self.entries().len(),
    {
        self.paths.len()
    }

    /// The path of the entry at place `i`.
    pub fn path_at(&self, i: usize) -> (path: &String)
        requires
            self.wf(),
            i < self.entries().len(),
        ensures
            path@ == self.entries()[i as int].path,
    {
        &self.paths[i]
    }

    /// The record of the entry at place `i`.
    pub fn record_at(&self, i: usize) -> (record: &FileMetaData)
        requires
            self.wf(),
            i < self.entries().len(),
        ensures
            record@ == self.entries()[i as int].record,
    {
        &self.records[i]
    }

    /// The place of the entry for `path`, if there is one.
    pub fn find(&self, path: &str) -> (place: Option<usize>)
        requires
            self.wf(),
        ensures
            match place {
                Some(i) => i < self.entries().len() && self.entries()[i as int].path == path@,
                None => !listed(self.entries(), path@),
            },
    {
        match self.index.get(path) {
            Some(i) => Some(*i),
            None => {
                proof {
                    if listed(self.entries(), path@) {
                        let i = place_of(self.entries(), path@);
                        assert(self.index@.contains_key(self.paths@[i]@));
                    }
                }
                None
            },
        }
    }

    /// Whether an entry is kept for `path`.
    pub fn contains_key(&self, path: &str) -> (found: bool)
        requires
            self.wf(),
        ensures
            found == self@.contains_key(path@),
            found == listed(self.entries(), path@),
    {
        proof {
            lemma_map_of_keys(self.entries(), path@);
        }
        self.find(path).is_some()
    }

    /// The record kept for `path`, if there is one.
    pub fn get(&self, path: &str) -> (record: Option<&FileMetaData>)
        requires
            self.wf(),
        ensures
            match record {
                Some(md) => self@.contains_key(path@) && md@ == self@[path@],
                None => !self@.contains_key(path@),
            },
    {
        proof {
            lemma_map_of_keys(self.entries(), path@);
            self.lemma_unique();
        }
        match self.find(path) {
            Some(i) => {
                proof {
                    lemma_map_of_entry(self.entries(), i as int);
                }
                Some(&self.records[i])
            },
            None => None,
        }
    }

    /// Keeps `record` for `path`. A record that was kept for the same path
    /// is replaced where it stands; a new path goes to the end.
    pub fn insert(&mut self, path: String, record: FileMetaData)
        requires
            old(self).wf(),
        ensures
            final(self).wf(),
            final(self).entries() == upsert(
                old(self).entries(),
                Entry { path: path@, record: record@ },
            ),
            final(self)@ == old(self)@.insert(path@, record@),
    {
        let ghost before = self.entries();
        let ghost e = Entry { path: path@, record: record@ };
        proof {
            self.lemma_unique();
            lemma_upsert(before, e);
        }
        match self.find(path.as_str()) {
            Some(i) => {
                proof {
                    assert(listed(before, e.path));
                    assert(before[place_of(before, e.path)].path == before[i as int].path);
                }
                self.records.set(i, record);
                assert(self.entries() == before.update(i as int, e));
            },
            None => {
                let n = self.paths.len();
                let ghost old_paths = self.paths@;
                let ghost old_index = self.index@;
                self.paths.push(path.clone());
                self.records.push(record);
                self.index.insert(path, n);
                assert(self.entries() == before.push(e));
                proof {
                    assert forall|i: int| 0 <= i < self.paths@.len() implies self.index@.contains_key(
                        (#[trigger] self.paths@[i])@,
                    ) && self.index@[self.paths@[i]@] == i by {
                        if i < n {
                            assert(self.paths@[i] == old_paths[i]);
                            assert(old_index.contains_key(old_paths[i]@));
                            assert(before[i].path == old_paths[i]@);
                        }
                    }
                    assert forall|p: Seq<char>| #[trigger]
                        self.index@.contains_key(p) implies 0 <= self.index@[p] < self.paths@.len()
                        && self.paths@[self.index@[p] as int]@ == p by {
                        if p != path@ {
                            assert(old_index.contains_key(p));
                            assert(self.paths@[old_index[p] as int] == old_paths[old_index[p] as int]);
                        }
                    }
                }
            },
        }
    }

    /// Writes the manifest as text, one line for each entry, in order.
    pub fn serialize(&self) -> (text: String)
        requires
            self.wf(),
        ensures
            text@ == manifest_text(self.entries()),
    {
        let mut text = String::new();
        let mut i: usize = 0;
        while i < self.paths.len()
            invariant
                self.wf(),
                i <= self.entries().len(),
                text@ == manifest_text(self.entries().take(i as int)),
            decreases self.entries().len() - i,
        {
            let record = &self.records[i];
            let line = format_record(
                record.hash.as_str(),
                record.sz,
                record.fname.as_str(),
                self.paths[i].as_str(),
            );
            proof {
                let next = self.entries().take(i + 1);
                assert(next.drop_last() == self.entries().take(i as int));
                assert(next.last() == self.entries()[i as int]);
            }
            text.append(line.as_str());
            i = i + 1;
        }
        assert(self.entries().take(i as int) == self.entries());
        text
    }
}

/// Why a manifest text is refused.
#[derive(Debug, Clone, Copy, PartialEq, Eq)]
pub enum LoadError {
    /// A line that does not have four fields.
    IncompleteLine,
    /// A line whose size field is not a number.
    InvalidSize(SizeError),
}

/// The words for a load error.
pub open spec fn load_error_text(e: LoadError) -> Seq<char> {
    match e {
        LoadError::IncompleteLine => "Incomplete line in checksum file"@,
        LoadError::InvalidSize(kind) => size_error_text(kind),
    }
}

impl LoadError {
    /// The error in words.
    pub fn message(&self) -> (text: String)
        ensures
            text@ == load_error_text(*self),
    {
        match self {
            LoadError::IncompleteLine => "Incomplete line in checksum file".to_owned(),
            LoadError::InvalidSize(kind) => kind.message(),
        }
    }
}

/// What one line of a manifest says: digest, size, name and path, with a
/// tab between them.
pub open spec fn parse_line(line: Seq<char>) -> Result<Entry, LoadError> {
    let fields = split_on(line, '\t');
    if fields.len() != 4 {
        Err(LoadError::IncompleteLine)
    } else {
        match parse_size_spec(fields[1]) {
            Err(e) => Err(LoadError::InvalidSize(e)),
            Ok(sz) => Ok(
                Entry {
                    path: fields[3],
                    record: FileRecord { fname: fields[2], hash: fields[0], sz: sz },
                },
            ),
        }
    }
}

/// Reads lines in order. The first line that says nothing ends the
/// reading: with the lines before it when `tolerant`, with its error
/// otherwise.
pub open spec fn parse_lines(lines: Seq<Seq<char>>, tolerant: bool) -> Result<
    Seq<Entry>,
    LoadError,
>
    decreases lines.len(),
{
    if lines.len() == 0 {
        Ok(Seq::empty())
    } else {
        match parse_line(lines[0]) {
            Err(e) => if tolerant {
                Ok(Seq::empty())
            } else {
                Err(e)
            },
            Ok(entry) => match parse_lines(lines.drop_first(), tolerant) {
                Ok(rest) => Ok(seq![entry] + rest),
                Err(e) => Err(e),
            },
        }
    }
}

/// The entries that a manifest holds after each of `parsed` was written
/// into it in turn.
pub open spec fn collect(parsed: Seq<Entry>) -> Seq<Entry>
    decreases parsed.len(),
{
    if parsed.len() == 0 {
        Seq::empty()
    } else {
        upsert(collect(parsed.drop_last()), parsed.last())
    }
}

/// The manifest that a text describes.
pub open spec fn parse_manifest(text: Seq<char>, tolerant: bool) -> Result<Seq<Entry>, LoadError> {
    match parse_lines(lines_of(text), tolerant) {
        Ok(parsed) => Ok(collect(parsed)),
        Err(e) => Err(e),
    }
}

/// A record's line without the line feed that ends it.
pub open spec fn line_body(e: Entry) -> Seq<char> {
    e.record.hash + seq!['\t'] + decimal(e.record.sz as nat) + seq!['\t'] + e.record.fname
        + seq!['\t'] + e.path
}

/// The line that stands for an entry in a manifest text.
pub open spec fn record_line(e: Entry) -> Seq<char> {
    line_body(e).push('\n')
}

/// The text of a manifest: the lines of its entries in order.
pub open spec fn manifest_text(entries: Seq<Entry>) -> Seq<char>
    decreases entries.len(),
{
    if entries.len() == 0 {
        Seq::empty()
    } else {
        manifest_text(entries.drop_last()) + record_line(entries.last())
    }
}

/// A field that the text form can carry: it holds no tab and no line feed.
pub open spec fn plain(field: Seq<char>) -> bool {
    !field.contains('\t') && !field.contains('\n')
}

/// An entry whose line reads back as the entry: its fields are plain, and
/// its path does not end in a carriage return, which the line ending would
/// take.
pub open spec fn writable(e: Entry) -> bool {
    &&& plain(e.record.hash)
    &&& plain(e.record.fname)
    &&& plain(e.path)
    &&& e.path.len() > 0 ==> e.path.last() != '\r'
}

/// The lines of the entries, without their line feeds.
pub open spec fn bodies(entries: Seq<Entry>) -> Seq<Seq<char>> {
    Seq::new(entries.len(), |i: int| line_body(entries[i]))
}

/// Reads one line of a manifest.
pub fn parse_record(line: &str) -> (r: Result<(String, FileMetaData), LoadError>)
    ensures
        match r {
            Ok((path, record)) => parse_line(line@) == Ok::<Entry, LoadError>(
                Entry { path: path@, record: record@ },
            ),
            Err(e) => parse_line(line@) == Err::<Entry, LoadError>(e),
        },
{
    let mut fields = split(line, '\t');
    if fields.len() != 4 {
        return Err(LoadError::IncompleteLine);
    }
    let ghost all = fields.deep_view();
    match parse_size(fields[1].as_str()) {
        Err(e) => Err(LoadError::InvalidSize(e)),
        Ok(sz) => {
            let path = fields.pop().unwrap();
            let fname = fields.pop().unwrap();
            let _ = fields.pop();
            let hash = fields.pop().unwrap();
            assert(path@ == all[3]);
            assert(fname@ == all[2]);
            assert(hash@ == all[0]);
            Ok((path, FileMetaData { fname: fname, hash: hash, sz: sz }))
        },
    }
}

/// Reads a manifest from its text. With `ignore_errors` the reading stops
/// without complaint before the first line that is not a record, as a run
/// that was cut short leaves one; without it such a line is an error.
pub fn load_checksum_file(text: &str, ignore_errors: bool) -> (r: Result<Manifest, LoadError>)
    ensures
        match r {
            Ok(m) => m.wf() && parse_manifest(text@, ignore_errors) == Ok::<Seq<Entry>, LoadError>(
                m.entries(),
            ),
            Err(e) => parse_manifest(text@, ignore_errors) == Err::<Seq<Entry>, LoadError>(e),
        },
        ignore_errors ==> r is Ok,
{
    let all = lines(text);
    let mut m = Manifest::new();
    let ghost parsed = Seq::<Entry>::empty();
    let mut i: usize = 0;
    assert(all.deep_view().skip(0) == all.deep_view());
    while i < all.len()
        invariant
            i <= all@.len(),
            all.deep_view() == lines_of(text@),
            m.wf(),
            m.entries() == collect(parsed),
            parse_lines(lines_of(text@), ignore_errors) == match parse_lines(
                lines_of(text@).skip(i as int),
                ignore_errors,
            ) {
                Ok(rest) => Ok::<Seq<Entry>, LoadError>(parsed + rest),
                Err(e) => Err(e),
            },
        decreases all@.len() - i,
    {
        let ghost rest = lines_of(text@).skip(i as int);
        proof {
            assert(rest[0] == all@[i as int]@);
            assert(rest.drop_first() == lines_of(text@).skip(i + 1));
        }
        match parse_record(all[i].as_str()) {
            Err(e) => {
                if ignore_errors {
                    assert(parsed + Seq::<Entry>::empty() == parsed);
                    return Ok(m);
                } else {
                    return Err(e);
                }
            },
            Ok((path, record)) => {
                let ghost e = Entry { path: path@, record: record@ };
                proof {
                    assert(parsed.push(e).drop_last() == parsed);
                    assert forall|tail: Seq<Entry>| parsed + (seq![e] + tail) == parsed.push(e)
                        + tail by {
                        assert(parsed + (seq![e] + tail) =~= parsed.push(e) + tail);
                    }
                    parsed = parsed.push(e);
                }
                m.insert(path, record);
            },
        }
        i = i + 1;
    }
    assert(lines_of(text@).skip(i as int) == Seq::<Seq<char>>::empty());
    assert(parsed + Seq::<Entry>::empty() == parsed);
    Ok(m)
}

/// Writes the line of one record.
pub fn format_record(hash: &str, sz: u64, fname: &str, path: &str) -> (line: String)
    ensures
        line@ == record_line(
            Entry { path: path@, record: FileRecord { fname: fname@, hash: hash@, sz: sz } },
        ),
{
    let mut line = String::new();
    line.append(hash);
    push_char(&mut line, '\t');
    let size = render_size(sz);
    line.append(size.as_str());
    push_char(&mut line, '\t');
    line.append(fname);
    push_char(&mut line, '\t');
    line.append(path);
    push_char(&mut line, '\n');
    proof {
        let e = Entry { path: path@, record: FileRecord { fname: fname@, hash: hash@, sz: sz } };
        assert(line@ =~= record_line(e));
    }
    line
}

/// Writing a manifest and reading the text back, in either mode, gives the
/// same entries in the same order, and so the same mapping from path to
/// record, provided that every entry is writable.
pub proof fn lemma_round_trip(m: Manifest, tolerant: bool)
    requires
        m.wf(),
        forall|i: int| 0 <= i < m.entries().len() ==> writable(#[trigger] m.entries()[i]),
    ensures
        parse_manifest(manifest_text(m.entries()), tolerant) == Ok::<Seq<Entry>, LoadError>(
            m.entries(),
        ),
        forall|back: Manifest| back.entries() == m.entries() ==> back@ == m@,
{
    m.lemma_unique();
    lemma_entries_round_trip(m.entries(), tolerant);
}

/// The round trip, stated of entries.
pub proof fn lemma_entries_round_trip(entries: Seq<Entry>, tolerant: bool)
    requires
        unique_paths(entries),
        forall|i: int| 0 <= i < entries.len() ==> writable(#[trigger] entries[i]),
    ensures
        parse_manifest(manifest_text(entries), tolerant) == Ok::<Seq<Entry>, LoadError>(entries),
{
    let text = manifest_text(entries);
    lemma_text_lines(entries, Seq::<char>::empty());
    assert(text + Seq::<char>::empty() == text);
    let lines = bodies(entries);
    assert forall|j: int| 0 <= j < lines.len() implies parse_line(#[trigger] lines[j]) == Ok::<
        Entry,
        LoadError,
    >(entries[j]) by {
        lemma_body_parses(entries[j]);
    }
    lemma_all_lines_good(lines, tolerant);
    assert(Seq::new(lines.len(), |j: int| parse_line(lines[j])->Ok_0) == entries);
    lemma_collect_unique_entries(entries);
}

/// A text whose first lines are records and whose next line is none reads,
/// in tolerant mode, as the manifest of exactly those first records, with
/// no error.
pub proof fn lemma_tolerant_truncation(text: Seq<char>, k: int)
    requires
        0 <= k < lines_of(text).len(),
        forall|j: int| 0 <= j < k ==> parse_line(#[trigger] lines_of(text)[j]) is Ok,
        parse_line(lines_of(text)[k]) is Err,
    ensures
        parse_manifest(text, true) == Ok::<Seq<Entry>, LoadError>(
            collect(Seq::new(k as nat, |j: int| parse_line(lines_of(text)[j])->Ok_0)),
        ),
{
    lemma_first_bad_line(lines_of(text), k);
}

/// The same text fails in strict mode, with the error of the first line
/// that is no record.
pub proof fn lemma_strict_rejection(text: Seq<char>, k: int)
    requires
        0 <= k < lines_of(text).len(),
        forall|j: int| 0 <= j < k ==> parse_line(#[trigger] lines_of(text)[j]) is Ok,
        parse_line(lines_of(text)[k]) is Err,
    ensures
        parse_manifest(text, false) == Err::<Seq<Entry>, LoadError>(
            parse_line(lines_of(text)[k])->Err_0,
        ),
{
    lemma_first_bad_line(lines_of(text), k);
}

/// The first line that is no record decides the reading. In tolerant mode
/// the result is the records of the lines before it, and nothing of what
/// follows; in strict mode it is that line's error.
pub proof fn lemma_first_bad_line(lines: Seq<Seq<char>>, k: int)
    requires
        0 <= k < lines.len(),
        forall|j: int| 0 <= j < k ==> parse_line(#[trigger] lines[j]) is Ok,
        parse_line(lines[k]) is Err,
    ensures
        parse_lines(lines, true) == Ok::<Seq<Entry>, LoadError>(
            Seq::new(k as nat, |j: int| parse_line(lines[j])->Ok_0),
        ),
        parse_lines(lines, false) == Err::<Seq<Entry>, LoadError>(parse_line(lines[k])->Err_0),
    decreases k,
{
    if k == 0 {
        assert(Seq::new(k as nat, |j: int| parse_line(lines[j])->Ok_0) == Seq::<Entry>::empty());
    } else {
        let rest = lines.drop_first();
        assert forall|j: int| 0 <= j < k - 1 implies parse_line(#[trigger] rest[j]) is Ok by {
            assert(rest[j] == lines[j + 1]);
        }
        assert(rest[k - 1] == lines[k]);
        lemma_first_bad_line(rest, k - 1);
        assert(parse_line(lines[0]) is Ok);
        assert(seq![parse_line(lines[0])->Ok_0] + Seq::new(
            (k - 1) as nat,
            |j: int| parse_line(rest[j])->Ok_0,
        ) == Seq::new(k as nat, |j: int| parse_line(lines[j])->Ok_0));
    }
}

/// A run that was cut short leaves the lines of the files it finished and
/// the beginning of one more. Reading that text in tolerant mode gives
/// exactly the finished entries; reading it in strict mode fails with the
/// error of the unfinished line.
pub proof fn lemma_cut_short(entries: Seq<Entry>, junk: Seq<char>)
    requires
        unique_paths(entries),
        forall|i: int| 0 <= i < entries.len() ==> writable(#[trigger] entries[i]),
        junk.len() > 0,
        !junk.contains('\n'),
        parse_line(junk) is Err,
    ensures
        parse_manifest(manifest_text(entries) + junk, true) == Ok::<Seq<Entry>, LoadError>(
            entries,
        ),
        parse_manifest(manifest_text(entries) + junk, false) == Err::<Seq<Entry>, LoadError>(
            parse_line(junk)->Err_0,
        ),
{
    lemma_text_lines(entries, junk);
    let lines = bodies(entries).push(junk);
    let k = entries.len() as int;
    assert forall|j: int| 0 <= j < k implies parse_line(#[trigger] lines[j]) == Ok::<
        Entry,
        LoadError,
    >(entries[j]) by {
        lemma_body_parses(entries[j]);
    }
    lemma_first_bad_line(lines, k);
    assert(Seq::new(k as nat, |j: int| parse_line(lines[j])->Ok_0) == entries);
    lemma_collect_unique_entries(entries);
}

/// Where every line is a record, the records are read in order, in either
/// mode.
pub proof fn lemma_all_lines_good(lines: Seq<Seq<char>>, tolerant: bool)
    requires
        forall|j: int| 0 <= j < lines.len() ==> parse_line(#[trigger] lines[j]) is Ok,
    ensures
        parse_lines(lines, tolerant) == Ok::<Seq<Entry>, LoadError>(
            Seq::new(lines.len(), |j: int| parse_line(lines[j])->Ok_0),
        ),
    decreases lines.len(),
{
    if lines.len() == 0 {
        assert(Seq::new(lines.len(), |j: int| parse_line(lines[j])->Ok_0) == Seq::<Entry>::empty());
    } else {
        let rest = lines.drop_first();
        assert forall|j: int| 0 <= j < rest.len() implies parse_line(#[trigger] rest[j]) is Ok by {
            assert(rest[j] == lines[j + 1]);
        }
        lemma_all_lines_good(rest, tolerant);
        assert(parse_line(lines[0]) is Ok);
        assert(seq![parse_line(lines[0])->Ok_0] + Seq::new(
            rest.len(),
            |j: int| parse_line(rest[j])->Ok_0,
        ) == Seq::new(lines.len(), |j: int| parse_line(lines[j])->Ok_0));
    }
}

/// What is collected has unique paths.
pub proof fn lemma_collect_unique(parsed: Seq<Entry>)
    ensures
        unique_paths(collect(parsed)),
    decreases parsed.len(),
{
    if parsed.len() > 0 {
        lemma_collect_unique(parsed.drop_last());
        lemma_upsert(collect(parsed.drop_last()), parsed.last());
    }
}

/// Entries with unique paths are collected as they stand.
pub proof fn lemma_collect_unique_entries(entries: Seq<Entry>)
    requires
        unique_paths(entries),
    ensures
        collect(entries) == entries,
    decreases entries.len(),
{
    if entries.len() > 0 {
        let front = entries.drop_last();
        assert forall|a: int, b: int|
            0 <= a < front.len() && 0 <= b < front.len() && (#[trigger] front[a]).path == (
            #[trigger] front[b]).path implies a == b by {
            assert(entries[a].path == entries[b].path);
        }
        lemma_collect_unique_entries(front);
        if listed(front, entries.last().path) {
            let i = place_of(front, entries.last().path);
            assert(entries[i].path == entries[entries.len() - 1].path);
        }
        assert(front.push(entries.last()) == entries);
    }
}

/// The keys of `map_of` are the listed paths.
pub proof fn lemma_map_of_keys(entries: Seq<Entry>, path: Seq<char>)
    ensures
        map_of(entries).contains_key(path) <==> listed(entries, path),
    decreases entries.len(),
{
    if entries.len() > 0 {
        let front = entries.drop_last();
        lemma_map_of_keys(front, path);
        if listed(front, path) {
            let i = place_of(front, path);
            assert(entries[i].path == path);
        }
        if listed(entries, path) {
            let i = place_of(entries, path);
            if i < entries.len() - 1 {
                assert(front[i].path == path);
            }
        }
    }
}

/// With unique paths, each entry is what the mapping holds for its path.
pub proof fn lemma_map_of_entry(entries: Seq<Entry>, i: int)
    requires
        unique_paths(entries),
        0 <= i < entries.len(),
    ensures
        map_of(entries).contains_key(entries[i].path),
        map_of(entries)[entries[i].path] == entries[i].record,
    decreases entries.len(),
{
    let front = entries.drop_last();
    if i < entries.len() - 1 {
        assert(unique_paths(front)) by {
            assert forall|a: int, b: int|
                0 <= a < front.len() && 0 <= b < front.len() && (#[trigger] front[a]).path == (
                #[trigger] front[b]).path implies a == b by {
                assert(entries[a].path == entries[b].path);
            }
        }
        lemma_map_of_entry(front, i);
        assert(front[i] == entries[i]);
        assert(entries[i].path != entries.last().path);
    }
}

/// Writing an entry into unique entries is an insertion into the mapping,
/// and keeps the paths unique.
pub proof fn lemma_upsert(entries: Seq<Entry>, e: Entry)
    requires
        unique_paths(entries),
    ensures
        unique_paths(upsert(entries, e)),
        map_of(upsert(entries, e)) == map_of(entries).insert(e.path, e.record),
        upsert(entries, e).len() >= entries.len(),
{
    let after = upsert(entries, e);
    if listed(entries, e.path) {
        let at = place_of(entries, e.path);
        assert forall|a: int, b: int|
            0 <= a < after.len() && 0 <= b < after.len() && (#[trigger] after[a]).path == (
            #[trigger] after[b]).path implies a == b by {
            assert(after[a].path == entries[a].path);
            assert(after[b].path == entries[b].path);
        }
        lemma_map_of_update(entries, at, e);
    } else {
        assert forall|a: int, b: int|
            0 <= a < after.len() && 0 <= b < after.len() && (#[trigger] after[a]).path == (
            #[trigger] after[b]).path implies a == b by {
            if a < entries.len() {
                assert(after[a] == entries[a]);
            }
            if b < entries.len() {
                assert(after[b] == entries[b]);
            }
        }
        assert(after.drop_last() == entries);
    }
}

/// Writing over the entry of a path is an insertion into the mapping.
proof fn lemma_map_of_update(entries: Seq<Entry>, at: int, e: Entry)
    requires
        unique_paths(entries),
        0 <= at < entries.len(),
        entries[at].path == e.path,
    ensures
        map_of(entries.update(at, e)) == map_of(entries).insert(e.path, e.record),
    decreases entries.len(),
{
    let front = entries.drop_last();
    let after = entries.update(at, e);
    if at == entries.len() - 1 {
        assert(after.drop_last() == front);
        assert(map_of(after) == map_of(entries).insert(e.path, e.record));
    } else {
        assert(unique_paths(front)) by {
            assert forall|a: int, b: int|
                0 <= a < front.len() && 0 <= b < front.len() && (#[trigger] front[a]).path == (
                #[trigger] front[b]).path implies a == b by {
                assert(entries[a].path == entries[b].path);
            }
        }
        lemma_map_of_update(front, at, e);
        assert(after.drop_last() == front.update(at, e));
        assert(after.last() == entries.last());
        assert(entries[at].path != entries.last().path);
        assert(map_of(after) == map_of(entries).insert(e.path, e.record));
    }
}

/// The text of a manifest is its lines put end to end.
pub proof fn lemma_manifest_text_lines(entries: Seq<Entry>)
    ensures
        manifest_text(entries) == entries.map_values(|e: Entry| record_line(e)).flatten(),
    decreases entries.len(),
{
    let lines = entries.map_values(|e: Entry| record_line(e));
    if entries.len() == 0 {
        assert(lines.flatten() == Seq::<char>::empty());
    } else {
        let front = entries.drop_last();
        lemma_manifest_text_lines(front);
        let front_lines = front.map_values(|e: Entry| record_line(e));
        assert(lines == front_lines.push(record_line(entries.last())));
        front_lines.lemma_flatten_push(record_line(entries.last()));
    }
}

/// The line of a writable entry says the entry.
pub proof fn lemma_body_parses(e: Entry)
    requires
        writable(e),
    ensures
        parse_line(line_body(e)) == Ok::<Entry, LoadError>(e),
{
    let size = decimal(e.record.sz as nat);
    lemma_decimal_plain(e.record.sz as nat);
    lemma_parse_decimal(e.record.sz);
    lemma_split_whole(e.record.hash, '\t');
    lemma_split_append(e.record.hash, size, '\t');
    let s2 = e.record.hash + seq!['\t'] + size;
    lemma_split_append(s2, e.record.fname, '\t');
    let s4 = s2 + seq!['\t'] + e.record.fname;
    lemma_split_append(s4, e.path, '\t');
    let fields = split_on(line_body(e), '\t');
    assert(fields == seq![e.record.hash, size, e.record.fname, e.path]);
    let read = parse_line(line_body(e))->Ok_0;
    assert(read.record =~= e.record);
    assert(read =~= e);
}

/// The lines of a manifest text are the lines of its entries.
pub proof fn lemma_text_lines(entries: Seq<Entry>, rest: Seq<char>)
    requires
        forall|i: int| 0 <= i < entries.len() ==> writable(#[trigger] entries[i]),
        !rest.contains('\n'),
    ensures
        lines_of(manifest_text(entries) + rest) == if rest.len() == 0 {
            bodies(entries)
        } else {
            bodies(entries).push(rest)
        },
{
    let none = Seq::<char>::empty();
    let text = manifest_text(entries);
    lemma_text_pieces(entries);
    lemma_split_extend(text, rest, '\n');
    let pieces = split_on(text + rest, '\n');
    assert(bodies(entries).push(none).drop_last() == bodies(entries));
    assert(none + rest == rest);
    assert(pieces == bodies(entries).push(rest));
    let ended = Seq::new((pieces.len() - 1) as nat, |i: int| strip_cr(pieces[i]));
    assert(ended == bodies(entries)) by {
        assert forall|i: int| 0 <= i < entries.len() implies ended[i] == bodies(entries)[i] by {
            lemma_body_one_line(entries[i]);
        }
    }
}

/// The pieces of a manifest text between line feeds are the lines of its
/// entries, and an empty piece after the last line feed.
proof fn lemma_text_pieces(entries: Seq<Entry>)
    requires
        forall|i: int| 0 <= i < entries.len() ==> writable(#[trigger] entries[i]),
    ensures
        split_on(manifest_text(entries), '\n') == bodies(entries).push(Seq::<char>::empty()),
    decreases entries.len(),
{
    let none = Seq::<char>::empty();
    if entries.len() == 0 {
        assert(bodies(entries).push(none) == seq![none]);
    } else {
        let front = entries.drop_last();
        let e = entries.last();
        lemma_text_pieces(front);
        lemma_body_one_line(e);
        let open = manifest_text(front) + line_body(e);
        lemma_split_extend(manifest_text(front), line_body(e), '\n');
        assert(bodies(front).push(none).drop_last() == bodies(front));
        assert(none + line_body(e) == line_body(e));
        assert(bodies(front).push(line_body(e)) == bodies(entries));
        assert(manifest_text(entries) == open.push('\n'));
        assert(open.push('\n').drop_last() == open);
    }
}

/// The line of a writable entry holds no line feed and ends in no carriage
/// return.
proof fn lemma_body_one_line(e: Entry)
    requires
        writable(e),
    ensures
        !line_body(e).contains('\n'),
        strip_cr(line_body(e)) == line_body(e),
        line_body(e).len() > 0,
{
    let tab = seq!['\t'];
    assert(!tab.contains('\n'));
    lemma_decimal_plain(e.record.sz as nat);
    let s1 = e.record.hash + tab;
    let s2 = s1 + decimal(e.record.sz as nat);
    let s3 = s2 + tab;
    let s4 = s3 + e.record.fname;
    let s5 = s4 + tab;
    lemma_concat_lacks(e.record.hash, tab, '\n');
    lemma_concat_lacks(s1, decimal(e.record.sz as nat), '\n');
    lemma_concat_lacks(s2, tab, '\n');
    lemma_concat_lacks(s3, e.record.fname, '\n');
    lemma_concat_lacks(s4, tab, '\n');
    lemma_concat_lacks(s5, e.path, '\n');
    assert(line_body(e) == s5 + e.path);
    assert(s5.last() == '\t');
}

/// A decimal numeral is plain.
proof fn lemma_decimal_plain(n: nat)
    ensures
        plain(decimal(n)),
{
    lemma_decimal_digits(n);
    if decimal(n).contains('\t') {
        let i = choose|i: int| 0 <= i < decimal(n).len() && decimal(n)[i] == '\t';
        assert(is_digit(decimal(n)[i]));
    }
    if decimal(n).contains('\n') {
        let i = choose|i: int| 0 <= i < decimal(n).len() && decimal(n)[i] == '\n';
        assert(is_digit(decimal(n)[i]));
    }
}

/// What neither of two texts holds, the two put together do not hold.
proof fn lemma_concat_lacks(a: Seq<char>, b: Seq<char>, c: char)
    requires
        !a.contains(c),
        !b.contains(c),
    ensures
        !(a + b).contains(c),
{
    if (a + b).contains(c) {
        let i = choose|i: int| 0 <= i < (a + b).len() && (a + b)[i] == c;
        if i < a.len() {
            assert(a[i] == c);
        } else {
            assert(b[i - a.len()] == c);
        }
    }
}

} // verus!
