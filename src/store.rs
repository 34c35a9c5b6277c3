//! Durable status records, keyed by canonical path.

use vstd::prelude::*;
use vstd::utf8::encode_utf8;
use crate::codec::{decoded, sorted_entries, valid_code, view_entries, FileStates, ParseError};
use crate::text::{canonical, canonicalize, trim, trim_string};
use crate::retry::{step_after, OpenRetry, OpenStep};

verus! {

#[verifier::external_type_specification]
#[verifier::external_body]
pub struct ExDb(sled::Db);

#[verifier::external_type_specification]
#[verifier::external_body]
pub struct ExSledError(sled::Error);

#[verifier::external_type_specification]
#[verifier::external_body]
pub struct ExBincodeErrorKind(bincode::ErrorKind);

/// The keys and values that a sled database holds.
pub uninterp spec fn db_contents(db: sled::Db) -> Map<Seq<u8>, Seq<u8>>;

/// `n` as `k` little-endian bytes.
pub open spec fn le_bytes(n: nat, k: nat) -> Seq<u8>
    decreases k,
{
    if k == 0 {
        Seq::empty()
    } else {
        seq![(n % 256) as u8] + le_bytes(n / 256, (k - 1) as nat)
    }
}

/// A string as its UTF-8 length in eight little-endian bytes, then its UTF-8 bytes.
pub open spec fn str_bytes(s: Seq<char>) -> Seq<u8> {
    le_bytes(encode_utf8(s).len(), 8) + encode_utf8(s)
}

/// Each entry as its code's bytes, then its count in eight little-endian bytes.
pub open spec fn entries_bytes(e: Seq<(Seq<char>, u64)>) -> Seq<u8>
    decreases e.len(),
{
    if e.len() == 0 {
        Seq::empty()
    } else {
        entries_bytes(e.drop_last()) + str_bytes(e.last().0) + le_bytes(e.last().1 as nat, 8)
    }
}

/// The stored form of a record: path, branch, number of entries, entries.
pub open spec fn record_bytes(path: Seq<char>, branch: Seq<char>, e: Seq<(Seq<char>, u64)>) -> Seq<u8> {
    str_bytes(path) + str_bytes(branch) + le_bytes(e.len(), 8) + entries_bytes(e)
}

/// The key under which the record of a directory is stored.
pub open spec fn record_key(path: Seq<char>) -> Seq<u8> {
    encode_utf8(canonical(path))
}

/// Relies on `sled::open`: opens, or creates, the database at `path`.
#[verifier::external_body]
fn open_db(path: &str) -> (r: Result<sled::Db, sled::Error>) {
    sled::open(path)
}

/// Relies on `sled::Tree::insert`: sets `key` to `value`, replacing any
/// earlier value.
#[verifier::external_body]
fn db_insert(db: &mut sled::Db, key: &[u8], value: Vec<u8>) -> (r: Result<(), sled::Error>)
    ensures
        r is Ok ==> db_contents(*final(db)) == db_contents(*old(db)).insert(key@, value@),
{
    db.insert(key, value).map(|_| ())
}

/// Relies on `sled::Tree::flush`: writes dirty data to stable storage.
#[verifier::external_body]
fn db_flush(db: &sled::Db) -> (r: Result<(), sled::Error>) {
    db.flush().map(|_| ())
}

/// Relies on `sled::Tree::get`: the value stored under `key`, if any.
#[verifier::external_body]
fn db_get(db: &sled::Db, key: &[u8]) -> (r: Result<Option<Vec<u8>>, sled::Error>)
    ensures
        r matches Ok(o) ==> (o is Some <==> db_contents(*db).contains_key(key@)),
        r matches Ok(Some(v)) ==> v@ == db_contents(*db)[key@],
{
    db.get(key).map(|o| o.map(|v| v.to_vec()))
}

/// Relies on `sled::Tree::iter`: every key, once, with its value.
#[verifier::external_body]
fn db_pairs(db: &sled::Db) -> (r: Result<Vec<(Vec<u8>, Vec<u8>)>, sled::Error>)
    ensures
        r matches Ok(ps) ==> {
            &&& ps@.map_values(|p: (Vec<u8>, Vec<u8>)| p.0@).no_duplicates()
            &&& ps@.map_values(|p: (Vec<u8>, Vec<u8>)| p.0@).to_set() == db_contents(*db).dom()
            &&& forall|i: int| 0 <= i < ps@.len() ==> db_contents(*db)[(#[trigger] ps@[i]).0@] == ps@[i].1@
        },
{
    db.iter().map(|p| p.map(|(k, v)| (k.to_vec(), v.to_vec()))).collect()
}

/// Relies on `bincode::serialize` with its default options: strings and
/// sequences are prefixed by their length as a little-endian `u64`, integers
/// are little-endian, a tuple is its fields in order, and there is no size
/// limit, so strings and integers always serialize.
#[verifier::external_body]
fn serialize_record(path: &String, branch: &String, entries: &Vec<(String, u64)>) -> (r: Result<Vec<u8>, bincode::Error>)
    ensures
        r is Ok,
        r matches Ok(b) ==> b@ == record_bytes(path@, branch@, view_entries(entries@)),
{
    bincode::serialize(&(path, branch, entries))
}

/// Relies on `bincode::deserialize` with its default options: it reads back
/// what `bincode::serialize` wrote, from the front of `bytes`; bytes after
/// the value are ignored.
#[verifier::external_body]
fn deserialize_record(bytes: &[u8]) -> (r: Result<(String, String, Vec<(String, u64)>), bincode::Error>)
    ensures
        r is Err ==> forall|p: Seq<char>, b: Seq<char>, e: Seq<(Seq<char>, u64)>|
            #[trigger] record_bytes(p, b, e) != bytes@,
        r matches Ok(x) ==> forall|p: Seq<char>, b: Seq<char>, e: Seq<(Seq<char>, u64)>|
            #[trigger] record_bytes(p, b, e) == bytes@ ==> x.0@ == p && x.1@ == b && view_entries(x.2@) == e,
        r matches Ok(x) ==> record_bytes(x.0@, x.1@, view_entries(x.2@)).is_prefix_of(bytes@),
{
    bincode::deserialize(bytes)
}

/// Why a store operation failed.
#[derive(Debug)]
pub enum StoreError {
    /// The database could not be opened; the last cause.
    Open(sled::Error),
    /// A record could not be encoded (not produced with the encoding used
    /// here, which has no size limit).
    Serialization(bincode::Error),
    /// A stored record could not be decoded.
    Deserialization(bincode::Error),
    /// A stored record decoded to entries not sorted by code or with an
    /// invalid code.
    InvalidRecord,
    /// Reading, writing or flushing the database failed.
    Io(sled::Error),
}

/// What one directory's status is: its canonical path, its branch and the
/// count of files per status code.
#[derive(Debug)]
pub struct Status {
    pub path: String,
    pub branch: String,
    pub git_status: FileStates,
}

impl Status {
    pub open spec fn wf(&self) -> bool {
        self.git_status.wf()
    }

    /// A record of `path` and `branch` whose file states are `git_status`
    /// decoded.
    pub fn new(path: &str, branch: &str, git_status: &str) -> (r: Result<Status, ParseError>)
        ensures
            match r {
                Ok(s) => s.wf() && s.path@ == path@ && s.branch@ == branch@
                    && decoded(git_status@) == Ok::<Map<Seq<char>, u64>, ParseError>(s.git_status@),
                Err(e) => decoded(git_status@) == Err::<Map<Seq<char>, u64>, ParseError>(e),
            },
    {
        match crate::codec::decode(git_status) {
            Ok(f) => Ok(Status { path: path.to_owned(), branch: branch.to_owned(), git_status: f }),
            Err(e) => Err(e),
        }
    }

    /// The record of `path` when nothing is stored for it.
    pub fn empty(path: &str) -> (r: Status)
        ensures
            r.wf(),
            r.path@ == path@,
            r.branch@ == Seq::<char>::empty(),
            r.git_status@ == Map::<Seq<char>, u64>::empty(),
            r.git_status.entries_view().len() == 0,
    {
        Status { path: path.to_owned(), branch: String::new(), git_status: FileStates::new() }
    }

    /// The bytes this record is stored as.
    pub open spec fn stored_bytes(&self) -> Seq<u8> {
        record_bytes(self.path@, self.branch@, self.git_status.entries_view())
    }
}

/// A durable store of status records.
pub struct Database {
    db: sled::Db,
}

impl View for Database {
    type V = Map<Seq<u8>, Seq<u8>>;

    closed spec fn view(&self) -> Map<Seq<u8>, Seq<u8>> {
        db_contents(self.db)
    }
}

impl Database {
    /// One attempt to open, or create, the store at `path`.
    pub fn new(path: &str) -> (r: Result<Database, StoreError>)
        ensures
            r matches Err(e) ==> e is Open,
    {
        match open_db(path) {
            Ok(db) => Ok(Database { db }),
            Err(e) => Err(StoreError::Open(e)),
        }
    }

    /// One attempt to open the store at `path` under the retry policy
    /// `retry`: on failure the attempt is counted and the next step is
    /// returned with the cause.
    pub fn open_attempt(path: &str, retry: &mut OpenRetry) -> (r: Result<Database, (StoreError, OpenStep)>)
        requires
            old(retry).attempts < old(retry).max_attempts,
        ensures
            r is Ok ==> *final(retry) == *old(retry),
            r matches Err(x) ==> x.0 is Open && final(retry).attempts == old(retry).attempts + 1
                && final(retry).max_attempts == old(retry).max_attempts
                && x.1 == step_after(final(retry).attempts as nat, final(retry).max_attempts as nat),
    {
        match Database::new(path) {
            Ok(db) => Ok(db),
            Err(e) => {
                let step = retry.after_failure();
                Err((e, step))
            },
        }
    }

    /// Stores `status` under its path, replacing any earlier record, and
    /// flushes the store to stable storage.
    pub fn update(&mut self, status: &Status) -> (r: Result<(), StoreError>)
        requires
            status.wf(),
        ensures
            r is Ok ==> final(self)@ == old(self)@.insert(encode_utf8(status.path@), status.stored_bytes()),
            r matches Err(e) ==> e is Io,
    {
        let entries = status.git_status.entries();
        let bytes = match serialize_record(&status.path, &status.branch, &entries) {
            Ok(b) => b,
            Err(e) => {
                return Err(StoreError::Serialization(e));
            },
        };
        let key = status.path.as_str().as_bytes();
        match db_insert(&mut self.db, key, bytes) {
            Ok(()) => {},
            Err(e) => {
                return Err(StoreError::Io(e));
            },
        }
        match db_flush(&self.db) {
            Ok(()) => Ok(()),
            Err(e) => Err(StoreError::Io(e)),
        }
    }

    /// The record stored for the canonical form of `path`; when none is, a
    /// record of `path` with an empty branch and no file states.
    pub fn get(&self, path: &str) -> (r: Result<Status, StoreError>)
        ensures
            r matches Ok(s) ==> s.wf(),
            !self@.contains_key(record_key(path@)) ==> match r {
                Ok(s) => s.path@ == path@ && s.branch@.len() == 0 && s.git_status@ == Map::<Seq<char>, u64>::empty(),
                Err(x) => x is Io,
            },
            self@.contains_key(record_key(path@)) ==> reads_as(self@[record_key(path@)], r),
    {
        let key = canonicalize(path);
        match db_get(&self.db, key.as_str().as_bytes()) {
            Err(e) => Err(StoreError::Io(e)),
            Ok(None) => Ok(Status::empty(path)),
            Ok(Some(bytes)) => Self::read_record(&bytes),
        }
    }

    /// The record that `bytes` hold.
    fn read_record(bytes: &Vec<u8>) -> (r: Result<Status, StoreError>)
        ensures
            reads_as(bytes@, r),
            r matches Err(x) ==> x is Deserialization || x is InvalidRecord,
    {
        match deserialize_record(bytes.as_slice()) {
            Err(e) => Err(StoreError::Deserialization(e)),
            Ok((path, branch, entries)) => match FileStates::from_entries(entries) {
                Some(f) => Ok(Status { path, branch, git_status: f }),
                None => Err(StoreError::InvalidRecord),
            },
        }
    }

    /// Every stored record, in the store's own order.
    pub fn list(&self) -> (r: Result<Vec<Status>, StoreError>)
        ensures
            r matches Ok(v) ==> v.len() == self@.dom().len(),
            r matches Ok(v) ==> exists|ks: Seq<Seq<u8>>| #[trigger] lists_store(self@, v@, ks),
            r matches Err(x) ==> x is Io || x is Deserialization || x is InvalidRecord,
    {
        let pairs = match db_pairs(&self.db) {
            Ok(ps) => ps,
            Err(e) => {
                return Err(StoreError::Io(e));
            },
        };
        let ghost keys = pairs@.map_values(|p: (Vec<u8>, Vec<u8>)| p.0@);
        proof {
            keys.unique_seq_to_set();
        }
        let mut out: Vec<Status> = Vec::new();
        let mut i: usize = 0;
        while i < pairs.len()
            invariant
                i <= pairs.len(),
                out.len() == i,
                forall|j: int| 0 <= j < i ==> reads_as(pairs@[j].1@, Ok::<Status, StoreError>(#[trigger] out@[j])),
            decreases pairs.len() - i,
        {
            let s = match Self::read_record(&pairs[i].1) {
                Ok(s) => s,
                Err(e) => {
                    return Err(e);
                },
            };
            out.push(s);
            i = i + 1;
        }
        assert forall|j: int| 0 <= j < out.len() implies reads_as(
            self@[#[trigger] keys[j]],
            Ok::<Status, StoreError>(out@[j]),
        ) by {
            assert(pairs@[j].1@ == self@[keys[j]]);
            assert(reads_as(pairs@[j].1@, Ok::<Status, StoreError>(out@[j])));
        }
        assert(lists_store(self@, out@, keys));
        let r: Result<Vec<Status>, StoreError> = Ok(out);
        assert(r matches Ok(v) && v@ == out@);
        assert(r matches Ok(v) ==> exists|ks: Seq<Seq<u8>>| #[trigger] lists_store(self@, v@, ks));
        r
    }
}

/// Entries that a stored record may hold: strictly sorted by code, every
/// code valid.
pub open spec fn well_formed_entries(e: Seq<(Seq<char>, u64)>) -> bool {
    sorted_entries(e) && forall|i: int| 0 <= i < e.len() ==> valid_code(#[trigger] e[i].0)
}

/// What reading the stored `bytes` may give: a well-formed record at the
/// front of the bytes; the record encoded, when the bytes are exactly a
/// record of well-formed entries; `InvalidRecord`, when they are exactly a
/// record of other entries; `Deserialization` only when no record encodes
/// to them; or a failure of the store.
pub open spec fn reads_as(bytes: Seq<u8>, r: Result<Status, StoreError>) -> bool {
    &&& r matches Ok(s) ==> s.wf() && s.stored_bytes().is_prefix_of(bytes)
    &&& forall|p: Seq<char>, b: Seq<char>, e: Seq<(Seq<char>, u64)>| #[trigger] record_bytes(p, b, e) == bytes ==> {
        &&& well_formed_entries(e) ==> match r {
            Ok(s) => s.path@ == p && s.branch@ == b && s.git_status.entries_view() == e,
            Err(x) => x is Io,
        }
        &&& !well_formed_entries(e) ==> (r matches Err(x) && (x is InvalidRecord || x is Io))
    }
    &&& (r is Err && r->Err_0 is Deserialization) ==> forall|p: Seq<char>, b: Seq<char>, e: Seq<(Seq<char>, u64)>|
        #[trigger] record_bytes(p, b, e) != bytes
}

/// The records `v` are the stored values read one by one: `ks` holds every
/// key of `contents` once, and `v[i]` is what the value under `ks[i]` reads as.
pub open spec fn lists_store(contents: Map<Seq<u8>, Seq<u8>>, v: Seq<Status>, ks: Seq<Seq<u8>>) -> bool {
    &&& ks.len() == v.len()
    &&& ks.no_duplicates()
    &&& ks.to_set() == contents.dom()
    &&& forall|i: int| 0 <= i < v.len() ==> reads_as(contents[#[trigger] ks[i]], Ok::<Status, StoreError>(v[i]))
}

/// Why a put failed.
#[derive(Debug)]
pub enum PutError {
    /// The raw status string is malformed.
    Parse(ParseError),
    /// The store failed.
    Store(StoreError),
}

/// Stores the status of the directory `path`: its canonical form, the
/// trimmed `branch`, and the trimmed `raw` decoded. Nothing is stored when
/// `raw` is malformed.
pub fn put_status(db: &mut Database, path: &str, branch: &str, raw: &str) -> (r: Result<(), PutError>)
    ensures
        match decoded(trim(raw@)) {
            Err(e) => r == Err::<(), PutError>(PutError::Parse(e)) && final(db)@ == old(db)@,
            Ok(m) => (r matches Err(e) ==> e is Store) && (r is Ok ==> exists|s: Status|
                s.wf() && s.path@ == canonical(path@) && s.branch@ == trim(branch@) && s.git_status@ == m
                && #[trigger] final(db)@ == old(db)@.insert(record_key(path@), s.stored_bytes())),
        },
{
    let p = canonicalize(path);
    let b = trim_string(branch);
    let g = trim_string(raw);
    let status = match Status::new(p.as_str(), b.as_str(), g.as_str()) {
        Ok(s) => s,
        Err(e) => {
            return Err(PutError::Parse(e));
        },
    };
    match db.update(&status) {
        Ok(()) => Ok(()),
        Err(e) => Err(PutError::Store(e)),
    }
}

/// The two lines that describe a record: its branch, trimmed, and its file
/// states encoded.
pub fn status_lines(s: &Status) -> (r: (String, String))
    requires
        s.wf(),
    ensures
        r.0@ == trim(s.branch@),
        r.1@ == crate::codec::render(s.git_status.entries_view()),
{
    (trim_string(s.branch.as_str()), s.git_status.encode())
}

/// Put then get: once the record `s` is stored for `path`, the store holds
/// exactly its bytes under every spelling of `path` with the same canonical
/// form, and those bytes are a well-formed record, so `Database::get` returns
/// its path, branch and file states.
pub proof fn lemma_put_then_get(contents: Map<Seq<u8>, Seq<u8>>, path: Seq<char>, s: Status, query: Seq<char>)
    requires
        s.wf(),
        canonical(query) == canonical(path),
    ensures
        contents.insert(record_key(path), s.stored_bytes()).contains_key(record_key(query)),
        contents.insert(record_key(path), s.stored_bytes())[record_key(query)]
            == record_bytes(s.path@, s.branch@, s.git_status.entries_view()),
        sorted_entries(s.git_status.entries_view()),
        forall|i: int| 0 <= i < s.git_status.entries_view().len()
            ==> valid_code(#[trigger] s.git_status.entries_view()[i].0),
{
    s.git_status.lemma_wf_entries();
}

/// A second put for the same canonical path replaces the first: only the
/// second record is found.
pub proof fn lemma_put_overwrites(
    contents: Map<Seq<u8>, Seq<u8>>,
    path1: Seq<char>,
    bytes1: Seq<u8>,
    path2: Seq<char>,
    bytes2: Seq<u8>,
    query: Seq<char>,
)
    requires
        canonical(path1) == canonical(path2),
        canonical(query) == canonical(path2),
    ensures
        contents.insert(record_key(path1), bytes1).insert(record_key(path2), bytes2)[record_key(query)] == bytes2,
        contents.insert(record_key(path1), bytes1).insert(record_key(path2), bytes2)
            == contents.insert(record_key(path2), bytes2),
{
    assert(contents.insert(record_key(path1), bytes1).insert(record_key(path2), bytes2)
        =~= contents.insert(record_key(path2), bytes2));
}

} // verus!
