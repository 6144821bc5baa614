use vstd::prelude::*;

use crate::value::{Term, Value};
use vstd::string::StringSliceAdditionalSpecFns;

verus! {

/// Why a decoded value is not a torrent metainfo record.
#[derive(Clone, Copy, Debug, PartialEq, Eq, Structural)]
pub enum MetaInfoError {
    /// The value, or a part of it that must be a dictionary, is not one.
    NotADict,
    /// A required key is absent.
    MissingKey,
    /// A field holds a value of another kind than its key calls for.
    WrongKind,
    /// A text field does not hold UTF-8.
    NotText,
    /// A numeric field is out of range.
    OutOfRange,
}

/// What `String::from_utf8` makes of these bytes: the text they encode, or
/// nothing where they are not UTF-8.
pub uninterp spec fn utf8_text(b: Seq<u8>) -> Option<Seq<char>>;

/// Relies on `String::from_utf8`: the text that valid UTF-8 encodes, an error
/// for other bytes; the outcome depends on the bytes alone.
#[verifier::external_body]
fn utf8_string(b: &Vec<u8>) -> (r: Option<String>)
    ensures
        match utf8_text(b@) {
            Some(s) => r is Some && r->Some_0@ == s,
            None => r is None,
        },
{
    String::from_utf8(b.clone()).ok()
}

/// The value under `key` among dictionary entries, the first such entry counting.
pub open spec fn entry_of(d: Seq<(Seq<u8>, Term)>, key: Seq<u8>) -> Option<Term>
    decreases d.len(),
{
    if d.len() == 0 {
        None
    } else if d[0].0 == key {
        Some(d[0].1)
    } else {
        entry_of(d.drop_first(), key)
    }
}

pub open spec fn text_spec(t: Term) -> Result<Seq<char>, MetaInfoError> {
    match t {
        Term::Bytes(b) => match utf8_text(b) {
            Some(s) => Ok(s),
            None => Err(MetaInfoError::NotText),
        },
        _ => Err(MetaInfoError::WrongKind),
    }
}

pub open spec fn count_spec(t: Term) -> Result<nat, MetaInfoError> {
    match t {
        Term::Integer(n) => if 0 <= n <= usize::MAX {
            Ok(n as nat)
        } else {
            Err(MetaInfoError::OutOfRange)
        },
        _ => Err(MetaInfoError::WrongKind),
    }
}

/// The texts of the items, or the error of the first item that is no text.
pub open spec fn texts_spec(s: Seq<Term>) -> Result<Seq<Seq<char>>, MetaInfoError>
    decreases s.len(),
{
    if s.len() == 0 {
        Ok(Seq::empty())
    } else {
        match texts_spec(s.drop_last()) {
            Err(e) => Err(e),
            Ok(xs) => match text_spec(s.last()) {
                Ok(x) => Ok(xs.push(x)),
                Err(e) => Err(e),
            },
        }
    }
}

pub open spec fn text_list_spec(t: Term) -> Result<Seq<Seq<char>>, MetaInfoError> {
    match t {
        Term::List(s) => texts_spec(s),
        _ => Err(MetaInfoError::WrongKind),
    }
}

pub open spec fn strings(v: Seq<String>) -> Seq<Seq<char>> {
    v.map_values(|s: String| s@)
}

proof fn lemma_texts_prefix_err(s: Seq<Term>, k: int)
    requires
        0 <= k <= s.len(),
        texts_spec(s.take(k)) is Err,
    ensures
        texts_spec(s) == texts_spec(s.take(k)),
    decreases s.len(),
{
    if k == s.len() {
        assert(s.take(k) =~= s);
    } else {
        assert(s.drop_last().take(k) =~= s.take(k));
        lemma_texts_prefix_err(s.drop_last(), k);
    }
}

/// Is `a` the same byte sequence as `b`?
fn same_bytes(a: &[u8], b: &[u8]) -> (r: bool)
    ensures
        r == (a@ == b@),
{
    if a.len() != b.len() {
        return false;
    }
    let mut i: usize = 0;
    while i < a.len()
        invariant
            i <= a.len(),
            a.len() == b.len(),
            a@.take(i as int) == b@.take(i as int),
        decreases a.len() - i,
    {
        if a[i] != b[i] {
            assert(a@[i as int] != b@[i as int]);
            return false;
        }
        assert(a@.take(i + 1) =~= a@.take(i as int).push(a@[i as int]));
        assert(b@.take(i + 1) =~= b@.take(i as int).push(b@[i as int]));
        i = i + 1;
    }
    assert(a@.take(i as int) =~= a@);
    assert(b@.take(i as int) =~= b@);
    true
}

/// The value under `key` in a dictionary's entries.
pub fn find_entry<'a>(d: &'a Vec<(Vec<u8>, Value)>, key: &[u8]) -> (r: Option<&'a Value>)
    ensures
        match entry_of(Value::Dict(*d)@->Dict_0, key@) {
            Some(t) => r is Some && r->Some_0@ == t,
            None => r is None,
        },
{
    let ghost m = Value::Dict(*d)@->Dict_0;
    proof {
        crate::value::lemma_dict_view(*d);
        assert(m.subrange(0, m.len() as int) =~= m);
    }
    let mut i: usize = 0;
    while i < d.len()
        invariant
            i <= d.len(),
            m == Value::Dict(*d)@->Dict_0,
            m.len() == d@.len(),
            forall|j: int| 0 <= j < d@.len() ==> m[j] == ((#[trigger] d@[j]).0@, d@[j].1@),
            entry_of(m, key@) == entry_of(m.subrange(i as int, m.len() as int), key@),
        decreases d.len() - i,
    {
        assert(m.subrange(i as int, m.len() as int).drop_first() =~= m.subrange(
            i + 1,
            m.len() as int,
        ));
        if same_bytes(d[i].0.as_slice(), key) {
            assert(m.subrange(i as int, m.len() as int)[0] == m[i as int]);
            return Some(&d[i].1);
        }
        i = i + 1;
    }
    None
}

/// The text that a byte string holds.
pub fn text_of(v: &Value) -> (r: Result<String, MetaInfoError>)
    ensures
        match text_spec(v@) {
            Ok(s) => r is Ok && r->Ok_0@ == s,
            Err(e) => r is Err && r->Err_0 == e,
        },
{
    match v {
        Value::Bytes(b) => match utf8_string(b) {
            Some(s) => Ok(s),
            None => Err(MetaInfoError::NotText),
        },
        _ => Err(MetaInfoError::WrongKind),
    }
}

/// The count that a non-negative integer holds.
pub fn count_of(v: &Value) -> (r: Result<usize, MetaInfoError>)
    ensures
        match count_spec(v@) {
            Ok(n) => r is Ok && r->Ok_0 == n,
            Err(e) => r is Err && r->Err_0 == e,
        },
{
    match v {
        Value::Integer(n) => {
            if *n < 0 || *n as u64 > usize::MAX as u64 {
                Err(MetaInfoError::OutOfRange)
            } else {
                Ok(*n as usize)
            }
        },
        _ => Err(MetaInfoError::WrongKind),
    }
}

/// The texts that a list of byte strings holds.
pub fn text_list_of(v: &Value) -> (r: Result<Vec<String>, MetaInfoError>)
    ensures
        match text_list_spec(v@) {
            Ok(s) => r is Ok && strings(r->Ok_0@) == s,
            Err(e) => r is Err && r->Err_0 == e,
        },
{
    match v {
        Value::List(items) => {
            let ghost s = v@->List_0;
            proof {
                crate::value::lemma_list_view(*items);
            }
            let mut out: Vec<String> = Vec::new();
            let mut i: usize = 0;
            assert(s.take(0) =~= Seq::<Term>::empty());
            assert(strings(out@) =~= Seq::<Seq<char>>::empty());
            while i < items.len()
                invariant
                    i <= items.len(),
                    v@ == Term::List(s),
                    s.len() == items@.len(),
                    forall|j: int| 0 <= j < items@.len() ==> s[j] == (#[trigger] items@[j])@,
                    texts_spec(s.take(i as int)) == Ok::<Seq<Seq<char>>, MetaInfoError>(
                        strings(out@),
                    ),
                decreases items.len() - i,
            {
                assert(s.take(i + 1).drop_last() =~= s.take(i as int));
                let t = text_of(&items[i]);
                match t {
                    Ok(x) => {
                        let ghost before = out@;
                        out.push(x);
                        assert(strings(out@) =~= strings(before).push(x@));
                    },
                    Err(e) => {
                        proof {
                            assert(s.take(i + 1).last() == s[i as int]);
                            assert(texts_spec(s.take(i + 1)) == Err::<Seq<Seq<char>>, MetaInfoError>(e));
                            lemma_texts_prefix_err(s, i + 1);
                        }
                        return Err(e);
                    },
                }
                i = i + 1;
            }
            assert(s.take(i as int) =~= s);
            Ok(out)
        },
        _ => Err(MetaInfoError::WrongKind),
    }
}

pub const ANNOUNCE: &'static str = "announce";

pub const ANNOUNCE_LIST: &'static str = "announce-list";

pub const CREATION_DATE: &'static str = "creation date";

pub const COMMENT: &'static str = "comment";

pub const CREATED_BY: &'static str = "created by";

pub const ENCODING: &'static str = "encoding";

pub const INFO: &'static str = "info";

pub const PIECE_LENGTH: &'static str = "piece length";

pub const PIECES: &'static str = "pieces";

pub const PRIVATE: &'static str = "private";

pub const NAME: &'static str = "name";

pub const LENGTH: &'static str = "length";

pub const MD5SUM: &'static str = "md5sum";

pub const FILES: &'static str = "files";

pub const PATH: &'static str = "path";

/// A torrent's metainfo, read from a decoded dictionary.
#[derive(Debug)]
pub struct MetaInfo {
    /// The file(s) of the torrent.
    pub info: MetaInfoFiles,
    /// The announce URL of the tracker.
    pub announce: String,
    /// Tiers of further tracker URLs.
    pub announce_list: Option<Vec<Vec<String>>>,
    /// When the torrent was made, in seconds since the UNIX epoch.
    pub creation_date: Option<usize>,
    /// Free-form comments of the author.
    pub comment: Option<String>,
    /// Name and version of the program that made the torrent.
    pub created_by: Option<String>,
    /// The string encoding used in the info dictionary.
    pub encoding: Option<String>,
}

/// The info dictionary.
#[derive(Debug)]
pub struct MetaInfoFiles {
    pub piece_length: usize,
    /// The SHA-1 hashes of the pieces, one after another.
    pub pieces: Vec<u8>,
    pub private: bool,
    pub files: MetaInfoFileMode,
}

#[derive(Debug)]
pub enum MetaInfoFileMode {
    SingleFile(MetaInfoSingleFile),
    MultiFile(MetaInfoMultiFiles),
}

#[derive(Debug)]
pub struct MetaInfoSingleFile {
    pub file_name: String,
    pub length: usize,
    pub md5sum: Option<String>,
}

#[derive(Debug)]
pub struct MetaInfoMultiFiles {
    pub directory_name: String,
    pub files: Vec<MetaInfoMultiFileEntry>,
}

#[derive(Debug)]
pub struct MetaInfoMultiFileEntry {
    pub length: usize,
    pub md5sum: Option<String>,
    pub path: Vec<String>,
}

/// The entries of a dictionary value's model.
pub open spec fn entries(d: Vec<(Vec<u8>, Value)>) -> Seq<(Seq<u8>, Term)> {
    Value::Dict(d)@->Dict_0
}

pub open spec fn field(d: Seq<(Seq<u8>, Term)>, key: &str) -> Option<Term> {
    entry_of(d, key.spec_bytes())
}

pub open spec fn err_of<A>(r: Result<A, MetaInfoError>) -> Option<MetaInfoError> {
    match r {
        Ok(_) => None,
        Err(e) => Some(e),
    }
}

/// The first of two possible errors.
pub open spec fn first(a: Option<MetaInfoError>, b: Option<MetaInfoError>) -> Option<MetaInfoError> {
    if a is Some {
        a
    } else {
        b
    }
}

/// The error of a required field: its absence, or what reading it gives.
pub open spec fn required_err(o: Option<Term>, e: Option<MetaInfoError>) -> Option<MetaInfoError> {
    if o is None {
        Some(MetaInfoError::MissingKey)
    } else {
        e
    }
}

/// The error of an optional field: none where it is absent.
pub open spec fn optional_err(o: Option<Term>, e: Option<MetaInfoError>) -> Option<MetaInfoError> {
    if o is None {
        None
    } else {
        e
    }
}

/// The error of the first item that `f` finds wrong.
pub open spec fn seq_err(s: Seq<Term>, f: spec_fn(Term) -> Option<MetaInfoError>) -> Option<
    MetaInfoError,
>
    decreases s.len(),
{
    if s.len() == 0 {
        None
    } else {
        first(seq_err(s.drop_last(), f), f(s.last()))
    }
}

proof fn lemma_seq_err_prefix(s: Seq<Term>, k: int, f: spec_fn(Term) -> Option<MetaInfoError>)
    requires
        0 <= k <= s.len(),
        seq_err(s.take(k), f) is Some,
    ensures
        seq_err(s, f) == seq_err(s.take(k), f),
    decreases s.len(),
{
    if k == s.len() {
        assert(s.take(k) =~= s);
    } else {
        assert(s.drop_last().take(k) =~= s.take(k));
        lemma_seq_err_prefix(s.drop_last(), k, f);
    }
}

pub open spec fn text_err(t: Term) -> Option<MetaInfoError> {
    err_of(text_spec(t))
}

pub open spec fn count_err(t: Term) -> Option<MetaInfoError> {
    err_of(count_spec(t))
}

pub open spec fn text_list_err(t: Term) -> Option<MetaInfoError> {
    err_of(text_list_spec(t))
}

pub open spec fn bytes_err(t: Term) -> Option<MetaInfoError> {
    if t is Bytes {
        None
    } else {
        Some(MetaInfoError::WrongKind)
    }
}

pub open spec fn flag_err(t: Term) -> Option<MetaInfoError> {
    if t is Integer {
        None
    } else {
        Some(MetaInfoError::WrongKind)
    }
}

pub open spec fn tiers_err(t: Term) -> Option<MetaInfoError> {
    match t {
        Term::List(s) => seq_err(s, |x: Term| text_list_err(x)),
        _ => Some(MetaInfoError::WrongKind),
    }
}

pub open spec fn opt_text_is(x: Option<String>, o: Option<Term>) -> bool {
    match o {
        None => x is None,
        Some(t) => x is Some && x->Some_0@ == text_spec(t)->Ok_0,
    }
}

pub open spec fn tiers_is(x: Vec<Vec<String>>, t: Term) -> bool {
    let s = t->List_0;
    &&& x@.len() == s.len()
    &&& forall|j: int|
        0 <= j < s.len() ==> strings((#[trigger] x@[j])@) == text_list_spec(s[j])->Ok_0
}

/// Reads an optional text field.
fn optional_text(d: &Vec<(Vec<u8>, Value)>, key: &str) -> (r: Result<Option<String>, MetaInfoError>)
    ensures
        match optional_err(field(entries(*d), key), text_err(field(entries(*d), key)->Some_0)) {
            Some(e) => r is Err && r->Err_0 == e,
            None => r is Ok && opt_text_is(r->Ok_0, field(entries(*d), key)),
        },
{
    match find_entry(d, key.as_bytes()) {
        None => Ok(None),
        Some(v) => match text_of(v) {
            Ok(s) => Ok(Some(s)),
            Err(e) => Err(e),
        },
    }
}

/// Reads a required text field.
fn required_text(d: &Vec<(Vec<u8>, Value)>, key: &str) -> (r: Result<String, MetaInfoError>)
    ensures
        match required_err(field(entries(*d), key), text_err(field(entries(*d), key)->Some_0)) {
            Some(e) => r is Err && r->Err_0 == e,
            None => r is Ok && r->Ok_0@ == text_spec(field(entries(*d), key)->Some_0)->Ok_0,
        },
{
    match find_entry(d, key.as_bytes()) {
        None => Err(MetaInfoError::MissingKey),
        Some(v) => text_of(v),
    }
}

/// Reads a required count field.
fn required_count(d: &Vec<(Vec<u8>, Value)>, key: &str) -> (r: Result<usize, MetaInfoError>)
    ensures
        match required_err(field(entries(*d), key), count_err(field(entries(*d), key)->Some_0)) {
            Some(e) => r is Err && r->Err_0 == e,
            None => r is Ok && r->Ok_0 == count_spec(field(entries(*d), key)->Some_0)->Ok_0,
        },
{
    match find_entry(d, key.as_bytes()) {
        None => Err(MetaInfoError::MissingKey),
        Some(v) => count_of(v),
    }
}

/// Reads an optional count field.
fn optional_count(d: &Vec<(Vec<u8>, Value)>, key: &str) -> (r: Result<Option<usize>, MetaInfoError>)
    ensures
        match optional_err(field(entries(*d), key), count_err(field(entries(*d), key)->Some_0)) {
            Some(e) => r is Err && r->Err_0 == e,
            None => r is Ok && match field(entries(*d), key) {
                None => r->Ok_0 is None,
                Some(t) => r->Ok_0 == Some(count_spec(t)->Ok_0 as usize),
            },
        },
{
    match find_entry(d, key.as_bytes()) {
        None => Ok(None),
        Some(v) => match count_of(v) {
            Ok(n) => Ok(Some(n)),
            Err(e) => Err(e),
        },
    }
}

/// Reads the tiers of tracker URLs, a list of lists of text.
fn tiers_of(v: &Value) -> (r: Result<Vec<Vec<String>>, MetaInfoError>)
    ensures
        match tiers_err(v@) {
            Some(e) => r is Err && r->Err_0 == e,
            None => r is Ok && tiers_is(r->Ok_0, v@),
        },
{
    match v {
        Value::List(items) => {
            let ghost s = v@->List_0;
            let ghost f = |x: Term| text_list_err(x);
            proof {
                crate::value::lemma_list_view(*items);
                assert(s.take(0) =~= Seq::<Term>::empty());
            }
            let mut out: Vec<Vec<String>> = Vec::new();
            let mut i: usize = 0;
            while i < items.len()
                invariant
                    i <= items.len(),
                    v@ == Term::List(s),
                    f == (|x: Term| text_list_err(x)),
                    s.len() == items@.len(),
                    forall|j: int| 0 <= j < items@.len() ==> s[j] == (#[trigger] items@[j])@,
                    seq_err(s.take(i as int), f) is None,
                    out@.len() == i,
                    forall|j: int|
                        0 <= j < i ==> strings((#[trigger] out@[j])@) == text_list_spec(s[j])->Ok_0,
                decreases items.len() - i,
            {
                assert(s.take(i + 1).drop_last() =~= s.take(i as int));
                assert(s.take(i + 1).last() == s[i as int]);
                match text_list_of(&items[i]) {
                    Ok(x) => {
                        out.push(x);
                    },
                    Err(e) => {
                        proof {
                            lemma_seq_err_prefix(s, i + 1, f);
                        }
                        return Err(e);
                    },
                }
                i = i + 1;
            }
            assert(s.take(i as int) =~= s);
            Ok(out)
        },
        _ => Err(MetaInfoError::WrongKind),
    }
}

pub open spec fn entry_err(t: Term) -> Option<MetaInfoError> {
    match t {
        Term::Dict(d) => first(
            required_err(field(d, LENGTH), count_err(field(d, LENGTH)->Some_0)),
            first(
                optional_err(field(d, MD5SUM), text_err(field(d, MD5SUM)->Some_0)),
                required_err(field(d, PATH), text_list_err(field(d, PATH)->Some_0)),
            ),
        ),
        _ => Some(MetaInfoError::NotADict),
    }
}

pub open spec fn entry_is(x: MetaInfoMultiFileEntry, t: Term) -> bool {
    let d = t->Dict_0;
    &&& x.length == count_spec(field(d, LENGTH)->Some_0)->Ok_0
    &&& opt_text_is(x.md5sum, field(d, MD5SUM))
    &&& strings(x.path@) == text_list_spec(field(d, PATH)->Some_0)->Ok_0
}

pub open spec fn files_err(t: Term) -> Option<MetaInfoError> {
    match t {
        Term::List(s) => seq_err(s, |x: Term| entry_err(x)),
        _ => Some(MetaInfoError::WrongKind),
    }
}

pub open spec fn files_is(x: Vec<MetaInfoMultiFileEntry>, t: Term) -> bool {
    let s = t->List_0;
    &&& x@.len() == s.len()
    &&& forall|j: int| 0 <= j < s.len() ==> entry_is(#[trigger] x@[j], s[j])
}

/// Reads one entry of a multi-file torrent's file list.
fn file_entry_of(v: &Value) -> (r: Result<MetaInfoMultiFileEntry, MetaInfoError>)
    ensures
        match entry_err(v@) {
            Some(e) => r is Err && r->Err_0 == e,
            None => r is Ok && entry_is(r->Ok_0, v@),
        },
{
    match v {
        Value::Dict(d) => {
            let length = match required_count(d, LENGTH) {
                Ok(n) => n,
                Err(e) => {
                    return Err(e);
                },
            };
            let md5sum = match optional_text(d, MD5SUM) {
                Ok(m) => m,
                Err(e) => {
                    return Err(e);
                },
            };
            let path = match find_entry(d, PATH.as_bytes()) {
                None => {
                    return Err(MetaInfoError::MissingKey);
                },
                Some(p) => match text_list_of(p) {
                    Ok(x) => x,
                    Err(e) => {
                        return Err(e);
                    },
                },
            };
            Ok(MetaInfoMultiFileEntry { length, md5sum, path })
        },
        _ => Err(MetaInfoError::NotADict),
    }
}

/// Reads the file list of a multi-file torrent.
fn file_entries_of(v: &Value) -> (r: Result<Vec<MetaInfoMultiFileEntry>, MetaInfoError>)
    ensures
        match files_err(v@) {
            Some(e) => r is Err && r->Err_0 == e,
            None => r is Ok && files_is(r->Ok_0, v@),
        },
{
    match v {
        Value::List(items) => {
            let ghost s = v@->List_0;
            let ghost f = |x: Term| entry_err(x);
            proof {
                crate::value::lemma_list_view(*items);
                assert(s.take(0) =~= Seq::<Term>::empty());
            }
            let mut out: Vec<MetaInfoMultiFileEntry> = Vec::new();
            let mut i: usize = 0;
            while i < items.len()
                invariant
                    i <= items.len(),
                    v@ == Term::List(s),
                    f == (|x: Term| entry_err(x)),
                    s.len() == items@.len(),
                    forall|j: int| 0 <= j < items@.len() ==> s[j] == (#[trigger] items@[j])@,
                    seq_err(s.take(i as int), f) is None,
                    out@.len() == i,
                    forall|j: int| 0 <= j < i ==> entry_is(#[trigger] out@[j], s[j]),
                decreases items.len() - i,
            {
                assert(s.take(i + 1).drop_last() =~= s.take(i as int));
                assert(s.take(i + 1).last() == s[i as int]);
                match file_entry_of(&items[i]) {
                    Ok(x) => {
                        out.push(x);
                    },
                    Err(e) => {
                        proof {
                            lemma_seq_err_prefix(s, i + 1, f);
                        }
                        return Err(e);
                    },
                }
                i = i + 1;
            }
            assert(s.take(i as int) =~= s);
            Ok(out)
        },
        _ => Err(MetaInfoError::WrongKind),
    }
}

/// The error of the fields that say which file(s) a torrent holds.
pub open spec fn mode_err(d: Seq<(Seq<u8>, Term)>) -> Option<MetaInfoError> {
    match field(d, FILES) {
        Some(f) => files_err(f),
        None => first(
            required_err(field(d, LENGTH), count_err(field(d, LENGTH)->Some_0)),
            optional_err(field(d, MD5SUM), text_err(field(d, MD5SUM)->Some_0)),
        ),
    }
}

pub open spec fn info_err(t: Term) -> Option<MetaInfoError> {
    match t {
        Term::Dict(d) => first(
            required_err(field(d, PIECE_LENGTH), count_err(field(d, PIECE_LENGTH)->Some_0)),
            first(
                required_err(field(d, PIECES), bytes_err(field(d, PIECES)->Some_0)),
                first(
                    optional_err(field(d, PRIVATE), flag_err(field(d, PRIVATE)->Some_0)),
                    first(
                        required_err(field(d, NAME), text_err(field(d, NAME)->Some_0)),
                        mode_err(d),
                    ),
                ),
            ),
        ),
        _ => Some(MetaInfoError::NotADict),
    }
}

pub open spec fn info_is(x: MetaInfoFiles, t: Term) -> bool {
    let d = t->Dict_0;
    let name = text_spec(field(d, NAME)->Some_0)->Ok_0;
    &&& x.piece_length == count_spec(field(d, PIECE_LENGTH)->Some_0)->Ok_0
    &&& x.pieces@ == field(d, PIECES)->Some_0->Bytes_0
    &&& x.private == (field(d, PRIVATE) is Some && field(d, PRIVATE)->Some_0->Integer_0 == 1)
    &&& match x.files {
        MetaInfoFileMode::MultiFile(m) => field(d, FILES) is Some && m.directory_name@ == name
            && files_is(m.files, field(d, FILES)->Some_0),
        MetaInfoFileMode::SingleFile(f) => field(d, FILES) is None && f.file_name@ == name
            && f.length == count_spec(field(d, LENGTH)->Some_0)->Ok_0 && opt_text_is(
            f.md5sum,
            field(d, MD5SUM),
        ),
    }
}

/// A copy of the bytes.
fn copy_bytes(b: &Vec<u8>) -> (r: Vec<u8>)
    ensures
        r@ == b@,
{
    let mut out: Vec<u8> = Vec::new();
    let mut i: usize = 0;
    while i < b.len()
        invariant
            i <= b.len(),
            out@ == b@.take(i as int),
        decreases b.len() - i,
    {
        out.push(b[i]);
        assert(b@.take(i + 1) =~= b@.take(i as int).push(b@[i as int]));
        i = i + 1;
    }
    assert(b@.take(i as int) =~= b@);
    out
}

impl MetaInfoFiles {
    /// Reads the info dictionary.
    pub fn try_from(value: &Value) -> (r: Result<MetaInfoFiles, MetaInfoError>)
        ensures
            match info_err(value@) {
                Some(e) => r is Err && r->Err_0 == e,
                None => r is Ok && info_is(r->Ok_0, value@),
            },
    {
        let d = match value {
            Value::Dict(d) => d,
            _ => {
                return Err(MetaInfoError::NotADict);
            },
        };
        let piece_length = match required_count(d, PIECE_LENGTH) {
            Ok(n) => n,
            Err(e) => {
                return Err(e);
            },
        };
        let pieces = match find_entry(d, PIECES.as_bytes()) {
            None => {
                return Err(MetaInfoError::MissingKey);
            },
            Some(Value::Bytes(b)) => copy_bytes(b),
            Some(_) => {
                return Err(MetaInfoError::WrongKind);
            },
        };
        let private = match find_entry(d, PRIVATE.as_bytes()) {
            None => false,
            Some(Value::Integer(n)) => *n == 1,
            Some(_) => {
                return Err(MetaInfoError::WrongKind);
            },
        };
        let name = match required_text(d, NAME) {
            Ok(x) => x,
            Err(e) => {
                return Err(e);
            },
        };
        let files = match find_entry(d, FILES.as_bytes()) {
            Some(f) => match file_entries_of(f) {
                Ok(files) => MetaInfoFileMode::MultiFile(
                    MetaInfoMultiFiles { directory_name: name, files },
                ),
                Err(e) => {
                    return Err(e);
                },
            },
            None => {
                let length = match required_count(d, LENGTH) {
                    Ok(n) => n,
                    Err(e) => {
                        return Err(e);
                    },
                };
                let md5sum = match optional_text(d, MD5SUM) {
                    Ok(m) => m,
                    Err(e) => {
                        return Err(e);
                    },
                };
                MetaInfoFileMode::SingleFile(MetaInfoSingleFile { file_name: name, length, md5sum })
            },
        };
        Ok(MetaInfoFiles { piece_length, pieces, private, files })
    }
}

pub open spec fn meta_err(t: Term) -> Option<MetaInfoError> {
    match t {
        Term::Dict(d) => first(
            required_err(field(d, INFO), info_err(field(d, INFO)->Some_0)),
            first(
                required_err(field(d, ANNOUNCE), text_err(field(d, ANNOUNCE)->Some_0)),
                first(
                    optional_err(field(d, ANNOUNCE_LIST), tiers_err(field(d, ANNOUNCE_LIST)->Some_0)),
                    first(
                        optional_err(
                            field(d, CREATION_DATE),
                            count_err(field(d, CREATION_DATE)->Some_0),
                        ),
                        first(
                            optional_err(field(d, COMMENT), text_err(field(d, COMMENT)->Some_0)),
                            first(
                                optional_err(
                                    field(d, CREATED_BY),
                                    text_err(field(d, CREATED_BY)->Some_0),
                                ),
                                optional_err(field(d, ENCODING), text_err(field(d, ENCODING)->Some_0)),
                            ),
                        ),
                    ),
                ),
            ),
        ),
        _ => Some(MetaInfoError::NotADict),
    }
}

pub open spec fn meta_is(x: MetaInfo, t: Term) -> bool {
    let d = t->Dict_0;
    &&& info_is(x.info, field(d, INFO)->Some_0)
    &&& x.announce@ == text_spec(field(d, ANNOUNCE)->Some_0)->Ok_0
    &&& match field(d, ANNOUNCE_LIST) {
        None => x.announce_list is None,
        Some(l) => x.announce_list is Some && tiers_is(x.announce_list->Some_0, l),
    }
    &&& match field(d, CREATION_DATE) {
        None => x.creation_date is None,
        Some(c) => x.creation_date == Some(count_spec(c)->Ok_0 as usize),
    }
    &&& opt_text_is(x.comment, field(d, COMMENT))
    &&& opt_text_is(x.created_by, field(d, CREATED_BY))
    &&& opt_text_is(x.encoding, field(d, ENCODING))
}

impl MetaInfo {
    /// Reads a torrent's metainfo from its decoded top-level dictionary.
    pub fn try_from(value: &Value) -> (r: Result<MetaInfo, MetaInfoError>)
        ensures
            match meta_err(value@) {
                Some(e) => r is Err && r->Err_0 == e,
                None => r is Ok && meta_is(r->Ok_0, value@),
            },
    {
        let d = match value {
            Value::Dict(d) => d,
            _ => {
                return Err(MetaInfoError::NotADict);
            },
        };
        let info = match find_entry(d, INFO.as_bytes()) {
            None => {
                return Err(MetaInfoError::MissingKey);
            },
            Some(i) => match MetaInfoFiles::try_from(i) {
                Ok(info) => info,
                Err(e) => {
                    return Err(e);
                },
            },
        };
        let announce = match required_text(d, ANNOUNCE) {
            Ok(x) => x,
            Err(e) => {
                return Err(e);
            },
        };
        let announce_list = match find_entry(d, ANNOUNCE_LIST.as_bytes()) {
            None => None,
            Some(l) => match tiers_of(l) {
                Ok(t) => Some(t),
                Err(e) => {
                    return Err(e);
                },
            },
        };
        let creation_date = match optional_count(d, CREATION_DATE) {
            Ok(c) => c,
            Err(e) => {
                return Err(e);
            },
        };
        let comment = match optional_text(d, COMMENT) {
            Ok(c) => c,
            Err(e) => {
                return Err(e);
            },
        };
        let created_by = match optional_text(d, CREATED_BY) {
            Ok(c) => c,
            Err(e) => {
                return Err(e);
            },
        };
        let encoding = match optional_text(d, ENCODING) {
            Ok(c) => c,
            Err(e) => {
                return Err(e);
            },
        };
        Ok(MetaInfo { info, announce, announce_list, creation_date, comment, created_by, encoding })
    }
}

} // verus!
