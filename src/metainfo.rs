//! Torrent descriptors: the typed view of a decoded metainfo dictionary.
use vstd::prelude::*;
use vstd::utf8::{decode_utf8, encode_utf8, encode_utf8_decode_utf8, valid_utf8};
use vstd::string::{StringExecFns, StringSliceAdditionalSpecFns};
use sha1::Digest;
use crate::bencode::{
    BValue, Value, bytes_equal, canonical, lemma_wf_unique, bytes_less, bytes_lt, decoded, entry_view, lemma_bytes_lt_irreflexive,
    lemma_bytes_lt_total, lemma_bytes_lt_transitive, lemma_wf_unfold,
};
use crate::error::Error;

verus! {

/// Parsed torrent descriptor.
#[derive(Clone, Debug)]
pub struct Metainfo {
    /// Primary tracker URL.
    pub announce: String,
    /// Backup trackers, tier by tier.
    pub announce_list: Vec<Vec<String>>,
    /// SHA-1 digest of the canonical encoding of the info dictionary.
    pub info_hash: [u8; 20],
    /// File information.
    pub info: Info,
    /// Optional creation timestamp.
    pub creation_date: Option<i64>,
    /// Optional comment.
    pub comment: Option<String>,
    /// Optional creator.
    pub created_by: Option<String>,
}

/// The info dictionary.
#[derive(Clone, Debug)]
pub struct Info {
    /// Suggested name for the file or directory.
    pub name: String,
    /// Bytes per piece.
    pub piece_length: u64,
    /// Piece hashes, in order.
    pub pieces: Vec<[u8; 20]>,
    /// Single file or several files.
    pub files: FileInfo,
}

/// File layout.
#[derive(Clone, Debug)]
pub enum FileInfo {
    Single { length: u64 },
    Multi { files: Vec<FileEntry> },
}

/// One file of a multi-file torrent.
#[derive(Clone, Debug)]
pub struct FileEntry {
    /// Path components.
    pub path: Vec<String>,
    /// Length in bytes.
    pub length: u64,
}

/// SHA-1 digest of a byte sequence.
pub uninterp spec fn sha1_of(data: Seq<u8>) -> Seq<u8>;

/// Relies on `sha1::Sha1::digest` (the `Digest` trait of digest 0.10): the
/// 20-byte SHA-1 digest of the bytes, which depends on them alone.
#[verifier::external_body]
fn sha1_digest(data: &[u8]) -> (r: [u8; 20])
    ensures
        r@ == sha1_of(data@),
{
    sha1::Sha1::digest(data).into()
}

/// Relies on std's `String::from_utf8`: it succeeds exactly on valid UTF-8
/// and then holds the decoded characters.
#[verifier::external_body]
fn utf8_string(b: Vec<u8>) -> (r: Option<String>)
    ensures
        r is Some <==> valid_utf8(b@),
        r matches Some(s) ==> s@ == decode_utf8(b@),
{
    String::from_utf8(b).ok()
}

/// The entry stored under `k`, in a dictionary with unique keys.
pub open spec fn lookup(d: Seq<(Seq<u8>, BValue)>, k: Seq<u8>) -> Option<BValue>
    decreases d.len(),
{
    if d.len() == 0 {
        None
    } else if d[0].0 == k {
        Some(d[0].1)
    } else {
        lookup(d.drop_first(), k)
    }
}

/// The field `k` of a dictionary value; `None` for anything else.
pub open spec fn field(v: BValue, k: &str) -> Option<BValue> {
    match v {
        BValue::Dict(d) => lookup(d, k.spec_bytes()),
        _ => None,
    }
}

/// A byte string that is valid UTF-8, as text.
pub open spec fn text_of(v: BValue) -> Option<Seq<char>> {
    match v {
        BValue::Bytes(b) => if valid_utf8(b) { Some(decode_utf8(b)) } else { None },
        _ => None,
    }
}

/// A list of texts.
pub open spec fn texts_of(v: BValue) -> Option<Seq<Seq<char>>> {
    match v {
        BValue::List(l) => if forall|i: int| 0 <= i < l.len() ==> (#[trigger] text_of(l[i])) is Some {
            Some(Seq::new(l.len(), |i: int| text_of(l[i])->Some_0))
        } else {
            None
        },
        _ => None,
    }
}

/// A list of lists of texts.
pub open spec fn tiers_of(v: BValue) -> Option<Seq<Seq<Seq<char>>>> {
    match v {
        BValue::List(l) => if forall|i: int| 0 <= i < l.len() ==> (#[trigger] texts_of(l[i])) is Some {
            Some(Seq::new(l.len(), |i: int| texts_of(l[i])->Some_0))
        } else {
            None
        },
        _ => None,
    }
}

/// A non-negative integer.
pub open spec fn count_of(v: BValue) -> Option<nat> {
    match v {
        BValue::Int(i) => if i >= 0 { Some(i as nat) } else { None },
        _ => None,
    }
}

/// An entry of the `files` list: its path and length.
pub open spec fn file_of(v: BValue) -> Option<(Seq<Seq<char>>, nat)> {
    match (field(v, "path"), field(v, "length")) {
        (Some(p), Some(n)) => match (texts_of(p), count_of(n)) {
            (Some(p), Some(n)) => Some((p, n)),
            _ => None,
        },
        _ => None,
    }
}

/// Mathematical model of a file layout.
pub enum Layout {
    Single(nat),
    Multi(Seq<(Seq<Seq<char>>, nat)>),
}

/// The layout of an info dictionary: `length` makes it a single file,
/// otherwise `files` lists the files.
pub open spec fn layout_of(info: BValue) -> Option<Layout> {
    match field(info, "length") {
        Some(n) => match count_of(n) {
            Some(n) => Some(Layout::Single(n)),
            None => None,
        },
        None => match field(info, "files") {
            Some(BValue::List(l)) => if forall|i: int| 0 <= i < l.len() ==> (#[trigger] file_of(l[i])) is Some {
                Some(Layout::Multi(Seq::new(l.len(), |i: int| file_of(l[i])->Some_0)))
            } else {
                None
            },
            _ => None,
        },
    }
}

/// An optional field: absent, or present and well typed.
pub open spec fn optional_text(f: Option<BValue>) -> Option<Option<Seq<char>>> {
    match f {
        None => Some(None),
        Some(v) => match text_of(v) {
            Some(t) => Some(Some(t)),
            None => None,
        },
    }
}

pub open spec fn optional_int(f: Option<BValue>) -> Option<Option<int>> {
    match f {
        None => Some(None),
        Some(BValue::Int(i)) => Some(Some(i)),
        Some(_) => None,
    }
}

/// The 20-byte hashes that `b` holds one after another.
pub open spec fn pieces_of(b: Seq<u8>) -> Seq<Seq<u8>> {
    Seq::new(b.len() / 20, |i: int| b.subrange(20 * i, 20 * i + 20))
}

/// Mathematical model of a torrent descriptor.
pub struct MetainfoView {
    pub announce: Seq<char>,
    pub announce_list: Seq<Seq<Seq<char>>>,
    pub info_hash: Seq<u8>,
    pub name: Seq<char>,
    pub piece_length: nat,
    pub pieces: Seq<Seq<u8>>,
    pub layout: Layout,
    pub creation_date: Option<int>,
    pub comment: Option<Seq<char>>,
    pub created_by: Option<Seq<char>>,
}

/// The descriptor that a decoded value describes, if it describes one:
/// required fields present and well typed, a positive piece length, and a
/// piece blob whose length is a multiple of 20. The info hash is taken over
/// the canonical encoding of the info dictionary.
pub open spec fn metainfo_of(v: BValue) -> Option<MetainfoView> {
    let info = field(v, "info");
    let announce = match field(v, "announce") { Some(a) => text_of(a), None => None };
    let tiers = match field(v, "announce-list") { Some(t) => tiers_of(t), None => Some(Seq::empty()) };
    let date = optional_int(field(v, "creation date"));
    let comment = optional_text(field(v, "comment"));
    let created_by = optional_text(field(v, "created by"));
    if (info matches Some(i) && i is Dict) && announce is Some && tiers is Some && date is Some && comment is Some
        && created_by is Some {
        let i = info->Some_0;
        let name = match field(i, "name") { Some(n) => text_of(n), None => None };
        let plen = field(i, "piece length");
        let pieces = field(i, "pieces");
        let layout = layout_of(i);
        if name is Some && (plen matches Some(BValue::Int(pl)) && pl > 0) && (pieces matches Some(BValue::Bytes(pb))
            && pb.len() % 20 == 0) && layout is Some {
            Some(MetainfoView {
                announce: announce->Some_0,
                announce_list: tiers->Some_0,
                info_hash: sha1_of(canonical(i).encoding()),
                name: name->Some_0,
                piece_length: plen->Some_0->Int_0 as nat,
                pieces: pieces_of(pieces->Some_0->Bytes_0),
                layout: layout->Some_0,
                creation_date: date->Some_0,
                comment: comment->Some_0,
                created_by: created_by->Some_0,
            })
        } else {
            None
        }
    } else {
        None
    }
}

pub open spec fn texts_view(v: Seq<String>) -> Seq<Seq<char>> {
    Seq::new(v.len(), |i: int| v[i]@)
}

pub open spec fn tiers_view(t: Seq<Vec<String>>) -> Seq<Seq<Seq<char>>> {
    Seq::new(t.len(), |i: int| texts_view(t[i]@))
}

pub open spec fn pieces_view(p: Seq<[u8; 20]>) -> Seq<Seq<u8>> {
    Seq::new(p.len(), |i: int| p[i]@)
}

pub open spec fn opt_text_view(o: Option<String>) -> Option<Seq<char>> {
    match o {
        Some(s) => Some(s@),
        None => None,
    }
}

impl View for FileInfo {
    type V = Layout;

    open spec fn view(&self) -> Layout {
        match self {
            FileInfo::Single { length } => Layout::Single(*length as nat),
            FileInfo::Multi { files } => Layout::Multi(
                Seq::new(files@.len(), |i: int| (texts_view(files@[i].path@), files@[i].length as nat)),
            ),
        }
    }
}

impl View for Metainfo {
    type V = MetainfoView;

    open spec fn view(&self) -> MetainfoView {
        MetainfoView {
            announce: self.announce@,
            announce_list: tiers_view(self.announce_list@),
            info_hash: self.info_hash@,
            name: self.info.name@,
            piece_length: self.info.piece_length as nat,
            pieces: pieces_view(self.info.pieces@),
            layout: self.info.files@,
            creation_date: match self.creation_date {
                Some(d) => Some(d as int),
                None => None,
            },
            comment: opt_text_view(self.comment),
            created_by: opt_text_view(self.created_by),
        }
    }
}

/// The field `k` of a dictionary value.
pub(crate) fn field_get<'a>(v: &'a Value, k: &str) -> (r: Option<&'a Value>)
    ensures
        match r {
            Some(x) => field(v@, k) == Some(x@),
            None => field(v@, k) is None,
        },
{
    match v {
        Value::Dict(d) => {
            let ghost ms = v@->Dict_0;
            let kb = k.as_bytes();
            assert(ms.len() == d@.len());
            assert forall|j: int| 0 <= j < d@.len() implies ms[j].0 == (#[trigger] d@[j]).0@ && ms[j].1 == d@[j].1@ by {
                assert(ms[j] == entry_view(d@[j]));
                assert(entry_view(d@[j]) == (d@[j].0@, d@[j].1@));
            }
            assert(ms.skip(0) =~= ms);
            let mut i: usize = 0;
            while i < d.len()
                invariant
                    i <= d@.len(),
                    ms.len() == d@.len(),
                    v@ == BValue::Dict(ms),
                    kb@ == k.spec_bytes(),
                    forall|j: int| 0 <= j < d@.len() ==> ms[j].0 == (#[trigger] d@[j]).0@ && ms[j].1 == d@[j].1@,
                    lookup(ms, kb@) == lookup(ms.skip(i as int), kb@),
                decreases d@.len() - i,
            {
                assert(ms.skip(i as int).drop_first() =~= ms.skip(i + 1));
                if bytes_equal(d[i].0.as_slice(), kb) {
                    return Some(&d[i].1);
                }
                i = i + 1;
            }
            None
        },
        _ => None,
    }
}

/// A byte string value that is valid UTF-8, as a `String`.
fn text(v: &Value) -> (r: Option<String>)
    ensures
        match r {
            Some(s) => text_of(v@) == Some(s@),
            None => text_of(v@) is None,
        },
{
    match v {
        Value::Bytes(b) => {
            let mut c: Vec<u8> = Vec::new();
            let mut i: usize = 0;
            while i < b.len()
                invariant
                    i <= b@.len(),
                    c@ == b@.take(i as int),
                decreases b@.len() - i,
            {
                c.push(b[i]);
                i = i + 1;
                assert(c@ =~= b@.take(i as int));
            }
            assert(c@ =~= b@);
            utf8_string(c)
        },
        _ => None,
    }
}

/// A list value whose items are all text.
fn texts(v: &Value) -> (r: Option<Vec<String>>)
    ensures
        match r {
            Some(t) => texts_of(v@) == Some(texts_view(t@)),
            None => texts_of(v@) is None,
        },
{
    match v {
        Value::List(l) => {
            let ghost ms = v@->List_0;
            assert(ms.len() == l@.len() && forall|j: int| 0 <= j < l@.len() ==> ms[j] == (#[trigger] l@[j])@);
            let mut out: Vec<String> = Vec::new();
            let mut i: usize = 0;
            while i < l.len()
                invariant
                    i <= l@.len(),
                    ms.len() == l@.len(),
                    v@ == BValue::List(ms),
                    forall|j: int| 0 <= j < l@.len() ==> ms[j] == (#[trigger] l@[j])@,
                    out@.len() == i,
                    forall|j: int| 0 <= j < i ==> text_of(ms[j]) == Some((#[trigger] out@[j])@),
                decreases l@.len() - i,
            {
                match text(&l[i]) {
                    Some(t) => {
                        out.push(t);
                    },
                    None => {
                        assert(text_of(ms[i as int]) is None);
                        return None;
                    },
                }
                i = i + 1;
            }
            assert forall|j: int| 0 <= j < ms.len() implies (#[trigger] text_of(ms[j])) is Some by {
                assert(text_of(ms[j]) == Some(out@[j]@));
            }
            assert(Seq::new(ms.len(), |j: int| text_of(ms[j])->Some_0) =~= texts_view(out@));
            Some(out)
        },
        _ => None,
    }
}

/// A list value whose items are all lists of text.
fn tiers(v: &Value) -> (r: Option<Vec<Vec<String>>>)
    ensures
        match r {
            Some(t) => tiers_of(v@) == Some(tiers_view(t@)),
            None => tiers_of(v@) is None,
        },
{
    match v {
        Value::List(l) => {
            let ghost ms = v@->List_0;
            assert(ms.len() == l@.len() && forall|j: int| 0 <= j < l@.len() ==> ms[j] == (#[trigger] l@[j])@);
            let mut out: Vec<Vec<String>> = Vec::new();
            let mut i: usize = 0;
            while i < l.len()
                invariant
                    i <= l@.len(),
                    ms.len() == l@.len(),
                    v@ == BValue::List(ms),
                    forall|j: int| 0 <= j < l@.len() ==> ms[j] == (#[trigger] l@[j])@,
                    out@.len() == i,
                    forall|j: int| 0 <= j < i ==> texts_of(ms[j]) == Some(texts_view((#[trigger] out@[j])@)),
                decreases l@.len() - i,
            {
                match texts(&l[i]) {
                    Some(t) => {
                        out.push(t);
                    },
                    None => {
                        assert(texts_of(ms[i as int]) is None);
                        return None;
                    },
                }
                i = i + 1;
            }
            assert forall|j: int| 0 <= j < ms.len() implies (#[trigger] texts_of(ms[j])) is Some by {
                assert(texts_of(ms[j]) == Some(texts_view(out@[j]@)));
            }
            assert(Seq::new(ms.len(), |j: int| texts_of(ms[j])->Some_0) =~= tiers_view(out@));
            Some(out)
        },
        _ => None,
    }
}

/// A non-negative integer value.
fn count(v: &Value) -> (r: Option<u64>)
    ensures
        match r {
            Some(n) => count_of(v@) == Some(n as nat),
            None => count_of(v@) is None,
        },
{
    match v {
        Value::Int(i) => if *i >= 0 { Some(*i as u64) } else { None },
        _ => None,
    }
}

/// An entry of the `files` list.
fn file_entry(v: &Value) -> (r: Option<FileEntry>)
    ensures
        match r {
            Some(f) => file_of(v@) == Some((texts_view(f.path@), f.length as nat)),
            None => file_of(v@) is None,
        },
{
    let p = match field_get(v, "path") {
        Some(p) => p,
        None => {
            return None;
        },
    };
    let n = match field_get(v, "length") {
        Some(n) => n,
        None => {
            return None;
        },
    };
    let path = match texts(p) {
        Some(t) => t,
        None => {
            return None;
        },
    };
    let length = match count(n) {
        Some(n) => n,
        None => {
            return None;
        },
    };
    Some(FileEntry { path, length })
}

/// The file layout of an info dictionary.
fn layout(info: &Value) -> (r: Option<FileInfo>)
    ensures
        match r {
            Some(f) => layout_of(info@) == Some(f@),
            None => layout_of(info@) is None,
        },
{
    match field_get(info, "length") {
        Some(n) => match count(n) {
            Some(length) => Some(FileInfo::Single { length }),
            None => None,
        },
        None => match field_get(info, "files") {
            Some(Value::List(l)) => {
                let ghost fv = field(info@, "files")->Some_0;
                let ghost ms = fv->List_0;
                assert(ms.len() == l@.len() && forall|j: int| 0 <= j < l@.len() ==> ms[j] == (#[trigger] l@[j])@);
                let mut files: Vec<FileEntry> = Vec::new();
                let mut i: usize = 0;
                while i < l.len()
                    invariant
                        i <= l@.len(),
                        ms.len() == l@.len(),
                        field(info@, "length") is None,
                        field(info@, "files") == Some(BValue::List(ms)),
                        forall|j: int| 0 <= j < l@.len() ==> ms[j] == (#[trigger] l@[j])@,
                        files@.len() == i,
                        forall|j: int| 0 <= j < i ==> file_of(ms[j]) == Some((texts_view((#[trigger] files@[j]).path@), files@[j].length as nat)),
                    decreases l@.len() - i,
                {
                    match file_entry(&l[i]) {
                        Some(f) => {
                            files.push(f);
                        },
                        None => {
                            assert(file_of(ms[i as int]) is None);
                            return None;
                        },
                    }
                    i = i + 1;
                }
                assert forall|j: int| 0 <= j < ms.len() implies (#[trigger] file_of(ms[j])) is Some by {
                    assert(file_of(ms[j]) == Some((texts_view(files@[j].path@), files@[j].length as nat)));
                }
                let r = FileInfo::Multi { files };
                assert(Seq::new(ms.len(), |j: int| file_of(ms[j])->Some_0) =~= r@->Multi_0);
                Some(r)
            },
            _ => None,
        },
    }
}

/// An optional text field: `Err` when present but not text.
fn optional_text_field(v: &Value, k: &str) -> (r: Result<Option<String>, ()>)
    ensures
        match r {
            Ok(o) => optional_text(field(v@, k)) == Some(opt_text_view(o)),
            Err(_) => optional_text(field(v@, k)) is None,
        },
{
    match field_get(v, k) {
        None => Ok(None),
        Some(x) => match text(x) {
            Some(t) => Ok(Some(t)),
            None => Err(()),
        },
    }
}

/// Splits a blob whose length is a multiple of 20 into 20-byte hashes.
fn split_pieces(b: &Vec<u8>) -> (r: Vec<[u8; 20]>)
    requires
        b@.len() % 20 == 0,
    ensures
        pieces_view(r@) == pieces_of(b@),
{
    let mut out: Vec<[u8; 20]> = Vec::new();
    let len = b.len();
    let n = len / 20;
    let mut i: usize = 0;
    while i < n
        invariant
            len == b@.len(),
            n == b@.len() / 20,
            b@.len() % 20 == 0,
            i <= n,
            out@.len() == i,
            forall|j: int| 0 <= j < i ==> (#[trigger] out@[j])@ == b@.subrange(20 * j, 20 * j + 20),
        decreases n - i,
    {
        let mut h = [0u8; 20];
        let mut k: usize = 0;
        while k < 20
            invariant
                len == b@.len(),
                i < n,
                n == b@.len() / 20,
                b@.len() % 20 == 0,
                k <= 20,
                forall|m: int| 0 <= m < k ==> h@[m] == b@[20 * i + m],
            decreases 20 - k,
        {
            assert(20 * i + k < b@.len()) by (nonlinear_arith)
                requires i < n, n == b@.len() / 20, k < 20, b@.len() % 20 == 0;
            h[k] = b[20 * i + k];
            k = k + 1;
        }
        assert(h@ =~= b@.subrange(20 * i as int, 20 * i + 20));
        out.push(h);
        i = i + 1;
    }
    assert(pieces_view(out@) =~= pieces_of(b@));
    out
}

proof fn lemma_lookup_wf(d: Seq<(Seq<u8>, BValue)>, k: Seq<u8>)
    requires
        forall|i: int| 0 <= i < d.len() ==> (#[trigger] d[i]).1.wf(),
    ensures
        lookup(d, k) matches Some(x) ==> x.wf(),
    decreases d.len(),
{
    if d.len() > 0 && d[0].0 != k {
        let t = d.drop_first();
        assert forall|i: int| 0 <= i < t.len() implies (#[trigger] t[i]).1.wf() by {
            assert(t[i] == d[i + 1]);
        }
        lemma_lookup_wf(t, k);
    }
}

fn invalid(msg: &str) -> (r: Error)
    ensures
        r is InvalidMetainfo,
{
    Error::InvalidMetainfo(String::from_str(msg))
}

impl Metainfo {
    /// Parses a torrent descriptor. Malformed bencode gives `BencodeDecode`;
    /// well-formed bencode that is not a descriptor gives `InvalidMetainfo`.
    /// The info hash is taken over the canonical encoding of the whole info
    /// dictionary.
    pub fn from_bytes(bytes: &[u8]) -> (r: Result<Metainfo, Error>)
        ensures
            match decoded(bytes@) {
                None => r matches Err(e) && e is BencodeDecode,
                Some(v) => match metainfo_of(v) {
                    Some(m) => r matches Ok(x) && x@ == m,
                    None => r matches Err(e) && e is InvalidMetainfo,
                },
            },
    {
        let v = match Value::decode(bytes) {
            Ok(v) => v,
            Err(e) => {
                return Err(e);
            },
        };
        let ghost vm = v@;
        let info = match field_get(&v, "info") {
            Some(i) => i,
            None => {
                return Err(invalid("missing info dictionary"));
            },
        };
        match info {
            Value::Dict(_) => {},
            _ => {
                return Err(invalid("info is not a dictionary"));
            },
        }
        let announce = match field_get(&v, "announce") {
            Some(a) => match text(a) {
                Some(t) => t,
                None => {
                    return Err(invalid("announce is not text"));
                },
            },
            None => {
                return Err(invalid("missing announce"));
            },
        };
        let announce_list = match field_get(&v, "announce-list") {
            Some(t) => match tiers(t) {
                Some(t) => t,
                None => {
                    return Err(invalid("announce-list is not a list of lists of text"));
                },
            },
            None => {
                let e: Vec<Vec<String>> = Vec::new();
                assert(tiers_view(e@) =~= Seq::empty());
                e
            },
        };
        let creation_date = match field_get(&v, "creation date") {
            None => None,
            Some(Value::Int(d)) => Some(*d),
            Some(_) => {
                return Err(invalid("creation date is not an integer"));
            },
        };
        let comment = match optional_text_field(&v, "comment") {
            Ok(c) => c,
            Err(_) => {
                return Err(invalid("comment is not text"));
            },
        };
        let created_by = match optional_text_field(&v, "created by") {
            Ok(c) => c,
            Err(_) => {
                return Err(invalid("created by is not text"));
            },
        };
        let name = match field_get(info, "name") {
            Some(n) => match text(n) {
                Some(t) => t,
                None => {
                    return Err(invalid("name is not text"));
                },
            },
            None => {
                return Err(invalid("missing name"));
            },
        };
        let piece_length = match field_get(info, "piece length") {
            Some(Value::Int(n)) => {
                if *n <= 0 {
                    return Err(invalid("piece length is not positive"));
                }
                *n as u64
            },
            _ => {
                return Err(invalid("missing piece length"));
            },
        };
        let blob = match field_get(info, "pieces") {
            Some(Value::Bytes(b)) => b,
            _ => {
                return Err(invalid("missing pieces"));
            },
        };
        if blob.len() % 20 != 0 {
            return Err(invalid("pieces length must be a multiple of 20"));
        }
        let files = match layout(info) {
            Some(f) => f,
            None => {
                return Err(invalid("neither a valid length nor a valid files list"));
            },
        };
        proof {
            lemma_wf_unfold(vm);
            lemma_lookup_wf(vm->Dict_0, "info".spec_bytes());
            lemma_wf_unique(info@);
        }
        let encoded = match info.encode() {
            Ok(e) => e,
            Err(e) => {
                return Err(e);
            },
        };
        let info_hash = sha1_digest(encoded.as_slice());
        let pieces = split_pieces(blob);
        let m = Metainfo {
            announce,
            announce_list,
            info_hash,
            info: Info { name, piece_length, pieces, files },
            creation_date,
            comment,
            created_by,
        };
        assert(m@ == metainfo_of(vm)->Some_0);
        Ok(m)
    }
}

/// Total length of the files of a layout.
pub open spec fn layout_total(l: Layout) -> nat {
    match l {
        Layout::Single(n) => n,
        Layout::Multi(f) => files_total(f),
    }
}

pub open spec fn files_total(f: Seq<(Seq<Seq<char>>, nat)>) -> nat
    decreases f.len(),
{
    if f.len() == 0 {
        0
    } else {
        files_total(f.drop_last()) + f.last().1
    }
}

/// A prefix of the files never adds up to more than all of them.
proof fn lemma_files_total_prefix(f: Seq<(Seq<Seq<char>>, nat)>, k: int)
    requires
        0 <= k <= f.len(),
    ensures
        files_total(f.take(k)) <= files_total(f),
    decreases f.len(),
{
    if k < f.len() {
        lemma_files_total_prefix(f.drop_last(), k);
        assert(f.drop_last().take(k) =~= f.take(k));
    } else {
        assert(f.take(k) =~= f);
    }
}

/// Order of texts as Rust orders strings: by their UTF-8 bytes.
pub open spec fn text_lt(a: Seq<char>, b: Seq<char>) -> bool {
    bytes_lt(encode_utf8(a), encode_utf8(b))
}

pub open spec fn strictly_ascending(s: Seq<Seq<char>>) -> bool {
    forall|a: int, b: int| 0 <= a < b < s.len() ==> text_lt(#[trigger] s[a], #[trigger] s[b])
}

/// `t` is the primary tracker or stands in some tier.
pub open spec fn is_tracker(m: MetainfoView, t: Seq<char>) -> bool {
    t == m.announce || in_tiers(m.announce_list, m.announce_list.len() as int, t)
}

/// `t` stands in one of the first `n` tiers.
pub open spec fn in_tiers(tiers: Seq<Seq<Seq<char>>>, n: int, t: Seq<char>) -> bool {
    exists|a: int, b: int| 0 <= a < n && 0 <= b < tiers[a].len() && #[trigger] tiers[a][b] == t
}

pub open spec fn contains_text(s: Seq<Seq<char>>, t: Seq<char>) -> bool {
    exists|i: int| 0 <= i < s.len() && #[trigger] s[i] == t
}

proof fn lemma_text_lt_total(a: Seq<char>, b: Seq<char>)
    ensures
        a == b || text_lt(a, b) || text_lt(b, a),
        !text_lt(a, a),
{
    lemma_bytes_lt_total(encode_utf8(a), encode_utf8(b));
    lemma_bytes_lt_irreflexive(encode_utf8(a));
    if encode_utf8(a) == encode_utf8(b) {
        encode_utf8_decode_utf8(a);
        encode_utf8_decode_utf8(b);
    }
}

/// Inserting `t` where it goes among ascending texts keeps them ascending.
proof fn lemma_text_insert_at(d: Seq<Seq<char>>, t: Seq<char>, j: int)
    requires
        strictly_ascending(d),
        0 <= j <= d.len(),
        forall|i: int| 0 <= i < j ==> text_lt(#[trigger] d[i], t),
        j < d.len() ==> text_lt(t, d[j]),
    ensures
        strictly_ascending(d.insert(j, t)),
{
    let n = d.insert(j, t);
    assert forall|a: int, b: int| 0 <= a < b < n.len() implies text_lt(#[trigger] n[a], #[trigger] n[b]) by {
        if a < j && b > j {
            if b - 1 > j {
                lemma_bytes_lt_transitive(encode_utf8(t), encode_utf8(d[j]), encode_utf8(d[b - 1]));
            }
            lemma_bytes_lt_transitive(encode_utf8(d[a]), encode_utf8(t), encode_utf8(d[b - 1]));
        } else if a == j && b > j {
            if b - 1 > j {
                lemma_bytes_lt_transitive(encode_utf8(t), encode_utf8(d[j]), encode_utf8(d[b - 1]));
            }
        } else if a > j {
            assert(text_lt(d[a - 1], d[b - 1]));
        } else if b < j {
            assert(text_lt(d[a], d[b]));
        }
    }
}

/// Adds `s` to ascending, distinct texts, unless it is there already.
fn insert_text(out: &mut Vec<String>, s: &String)
    requires
        strictly_ascending(texts_view(old(out)@)),
    ensures
        strictly_ascending(texts_view(final(out)@)),
        forall|t: Seq<char>| #[trigger] contains_text(texts_view(final(out)@), t) <==> (contains_text(texts_view(old(out)@), t) || t == s@),
{
    let ghost v0 = texts_view(out@);
    let sb = s.as_str().as_bytes();
    let mut j: usize = 0;
    while j < out.len() && bytes_less(out[j].as_str().as_bytes(), sb)
        invariant
            j <= out@.len(),
            v0 == texts_view(out@),
            sb@ == encode_utf8(s@),
            forall|i: int| 0 <= i < j ==> text_lt(#[trigger] v0[i], s@),
        decreases out@.len() - j,
    {
        j = j + 1;
    }
    if j < out.len() && !bytes_less(sb, out[j].as_str().as_bytes()) {
        proof {
            lemma_text_lt_total(s@, v0[j as int]);
            assert(v0[j as int] == s@);
            assert forall|t: Seq<char>| contains_text(v0, t) <==> (contains_text(v0, t) || t == s@) by {
                if t == s@ {
                    assert(v0[j as int] == t);
                }
            }
        }
        return;
    }
    proof {
        if j < out@.len() {
            lemma_text_lt_total(s@, v0[j as int]);
        }
        lemma_text_insert_at(v0, s@, j as int);
    }
    out.insert(j, s.clone());
    let ghost v1 = texts_view(out@);
    assert(v1 =~= v0.insert(j as int, s@));
    assert forall|t: Seq<char>| contains_text(v1, t) <==> (contains_text(v0, t) || t == s@) by {
        if contains_text(v0, t) {
            let i = choose|i: int| 0 <= i < v0.len() && v0[i] == t;
            if i < j {
                assert(v1[i] == t);
            } else {
                assert(v1[i + 1] == t);
            }
        }
        if t == s@ {
            assert(v1[j as int] == t);
        }
        if contains_text(v1, t) {
            let i = choose|i: int| 0 <= i < v1.len() && v1[i] == t;
            if i < j {
                assert(v0[i] == t);
            } else if i > j {
                assert(v0[i - 1] == t);
            }
        }
    }
}

impl Metainfo {
    /// Total size of the files, or `None` where it does not fit in a `u64`.
    pub fn checked_total_size(&self) -> (r: Option<u64>)
        ensures
            match r {
                Some(n) => n == layout_total(self.info.files@),
                None => layout_total(self.info.files@) > u64::MAX,
            },
    {
        match &self.info.files {
            FileInfo::Single { length } => Some(*length),
            FileInfo::Multi { files } => {
                let ghost f = self.info.files@->Multi_0;
                let mut total: u64 = 0;
                let mut i: usize = 0;
                while i < files.len()
                    invariant
                        i <= files@.len(),
                        f.len() == files@.len(),
                        self.info.files@ == Layout::Multi(f),
                        forall|k: int| 0 <= k < f.len() ==> (#[trigger] f[k]).1 == files@[k].length,
                        total == files_total(f.take(i as int)),
                    decreases files@.len() - i,
                {
                    assert(f.take(i + 1).drop_last() =~= f.take(i as int));
                    if files[i].length > u64::MAX - total {
                        proof {
                            lemma_files_total_prefix(f, i + 1);
                        }
                        return None;
                    }
                    total = total + files[i].length;
                    i = i + 1;
                }
                assert(f.take(f.len() as int) =~= f);
                Some(total)
            },
        }
    }

    /// Total size of the files in bytes: the declared length of a single
    /// file, or the sum of the lengths of all files.
    pub fn total_size(&self) -> (r: u64)
        requires
            layout_total(self.info.files@) <= u64::MAX,
        ensures
            r == layout_total(self.info.files@),
    {
        match self.checked_total_size() {
            Some(n) => n,
            None => 0,
        }
    }

    /// Number of pieces.
    pub fn num_pieces(&self) -> (r: usize)
        ensures
            r == self@.pieces.len(),
    {
        self.info.pieces.len()
    }

    /// Every tracker, primary and backups, once each, sorted.
    pub fn all_trackers(&self) -> (r: Vec<String>)
        ensures
            strictly_ascending(texts_view(r@)),
            forall|t: Seq<char>| #[trigger] contains_text(texts_view(r@), t) <==> is_tracker(self@, t),
    {
        let mut out: Vec<String> = Vec::new();
        assert(texts_view(out@) =~= Seq::empty());
        insert_text(&mut out, &self.announce);
        let ghost tiers = self@.announce_list;
        let mut i: usize = 0;
        while i < self.announce_list.len()
            invariant
                i <= tiers.len(),
                tiers == self@.announce_list,
                tiers.len() == self.announce_list@.len(),
                strictly_ascending(texts_view(out@)),
                forall|t: Seq<char>| #[trigger] contains_text(texts_view(out@), t) <==> (t == self@.announce || in_tiers(tiers, i as int, t)),
            decreases tiers.len() - i,
        {
            let tier = &self.announce_list[i];
            assert(tiers[i as int] == texts_view(tier@));
            assert(tiers[i as int].take(0) =~= Seq::empty());
            let ghost out0 = texts_view(out@);
            assert forall|t: Seq<char>| contains_text(out0, t) <==> (t == self@.announce || in_tiers(tiers, i as int, t)
                || contains_text(tiers[i as int].take(0), t)) by {
                assert(contains_text(out0, t) <==> (t == self@.announce || in_tiers(tiers, i as int, t)));
            }
            let mut j: usize = 0;
            while j < tier.len()
                invariant
                    i < tiers.len(),
                    j <= tier@.len(),
                    tiers == self@.announce_list,
                    tiers[i as int] == texts_view(tier@),
                    strictly_ascending(texts_view(out@)),
                    forall|t: Seq<char>| #[trigger] contains_text(texts_view(out@), t) <==> (t == self@.announce || in_tiers(tiers, i as int, t)
                        || contains_text(tiers[i as int].take(j as int), t)),
                decreases tier@.len() - j,
            {
                let ghost before = texts_view(out@);
                insert_text(&mut out, &tier[j]);
                let ghost row = tiers[i as int];
                assert(row[j as int] == tier@[j as int]@);
                assert forall|t: Seq<char>| #[trigger] contains_text(row.take(j + 1), t) <==> (contains_text(row.take(j as int), t) || t == row[j as int]) by {
                    if contains_text(row.take(j + 1), t) {
                        let b = choose|b: int| 0 <= b < j + 1 && #[trigger] row.take(j + 1)[b] == t;
                        if b < j {
                            assert(row.take(j as int)[b] == t);
                        }
                    }
                    if contains_text(row.take(j as int), t) {
                        let b = choose|b: int| 0 <= b < j && #[trigger] row.take(j as int)[b] == t;
                        assert(row.take(j + 1)[b] == t);
                    }
                    if t == row[j as int] {
                        assert(row.take(j + 1)[j as int] == t);
                    }
                }
                let ghost after = texts_view(out@);
                assert forall|t: Seq<char>| contains_text(after, t) <==> (t == self@.announce || in_tiers(tiers, i as int, t)
                    || contains_text(row.take(j + 1), t)) by {
                    assert(contains_text(after, t) <==> (contains_text(before, t) || t == tier@[j as int]@));
                    assert(contains_text(before, t) <==> (t == self@.announce || in_tiers(tiers, i as int, t)
                        || contains_text(row.take(j as int), t)));
                    assert(contains_text(row.take(j + 1), t) <==> (contains_text(row.take(j as int), t) || t == row[j as int]));
                }
                j = j + 1;
            }
            let ghost row = tiers[i as int];
            assert(row.take(tier@.len() as int) =~= row);
            assert forall|t: Seq<char>| #[trigger] in_tiers(tiers, i + 1, t) <==> (in_tiers(tiers, i as int, t) || contains_text(row, t)) by {
                if in_tiers(tiers, i + 1, t) {
                    let (a, b) = choose|a: int, b: int| 0 <= a < i + 1 && 0 <= b < tiers[a].len() && #[trigger] tiers[a][b] == t;
                    if a == i {
                        assert(row[b] == t);
                    }
                }
                if in_tiers(tiers, i as int, t) {
                    let (a, b) = choose|a: int, b: int| 0 <= a < i && 0 <= b < tiers[a].len() && #[trigger] tiers[a][b] == t;
                    assert(tiers[a][b] == t);
                }
                if contains_text(row, t) {
                    let b = choose|b: int| 0 <= b < row.len() && #[trigger] row[b] == t;
                    assert(tiers[i as int][b] == t);
                }
            }
            let ghost after = texts_view(out@);
            assert forall|t: Seq<char>| contains_text(after, t) <==> (t == self@.announce || in_tiers(tiers, i + 1, t)) by {
                assert(contains_text(after, t) <==> (t == self@.announce || in_tiers(tiers, i as int, t)
                    || contains_text(row.take(tier@.len() as int), t)));
                assert(in_tiers(tiers, i + 1, t) <==> (in_tiers(tiers, i as int, t) || contains_text(row, t)));
            }
            i = i + 1;
        }
        let ghost fin = texts_view(out@);
        assert forall|t: Seq<char>| contains_text(fin, t) <==> is_tracker(self@, t) by {
            assert(contains_text(fin, t) <==> (t == self@.announce || in_tiers(tiers, i as int, t)));
        }
        out
    }
}

/// The info hash depends on the info dictionary alone: two descriptors
/// whose info dictionaries are equal, whatever else they hold and however
/// their outer dictionaries were laid out, get the same info hash.
pub proof fn lemma_info_hash_from_info_alone(v1: BValue, v2: BValue)
    requires
        metainfo_of(v1) is Some,
        metainfo_of(v2) is Some,
        field(v1, "info") == field(v2, "info"),
    ensures
        metainfo_of(v1)->Some_0.info_hash == metainfo_of(v2)->Some_0.info_hash,
{
}

/// Parsing is deterministic: the same descriptor bytes give the same
/// outcome, and so the same info hash.
pub proof fn lemma_info_hash_deterministic(a: Seq<u8>, b: Seq<u8>)
    requires
        a == b,
        decoded(a) matches Some(v) && metainfo_of(v) is Some,
    ensures
        decoded(b) matches Some(w) && metainfo_of(w) is Some
            && metainfo_of(w)->Some_0.info_hash == metainfo_of(decoded(a)->Some_0)->Some_0.info_hash,
{
}

/// A piece blob whose length is not a multiple of 20 never describes a
/// torrent, so `from_bytes` fails on it rather than truncating.
pub proof fn lemma_ragged_pieces_rejected(v: BValue)
    requires
        field(v, "info") matches Some(i) && field(i, "pieces") matches Some(BValue::Bytes(p)) && p.len() % 20 != 0,
    ensures
        metainfo_of(v) is None,
{
}

} // verus!
