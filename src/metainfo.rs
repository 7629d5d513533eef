//! The torrent manifest: its typed model, how it is read from a decoded
//! value, its canonical re-encoding and the info hash that names it.
use vstd::prelude::*;
use vstd::string::StringSliceAdditionalSpecFns;
use vstd::utf8::{
    decode_utf8, encode_utf8, encode_utf8_decode_utf8, encode_utf8_valid_utf8, valid_utf8,
};
use sha1::Digest;
use crate::bencode::{
    bytes_lt, copy_range, decimal, decode, decode_spec, dict_get, encode_value, keys_ascending,
    lemma_bytes_lt_skip, lemma_decimal_canonical, lookup, opt_view, text_from_utf8, usize_of,
    value_round_trip, well_formed, lemma_insert_all_sorted, DecodeError, SValue, Value,
};
use crate::handshake::array_from;

verus! {

pub open spec fn key_announce() -> Seq<u8> {
    seq![97u8, 110, 110, 111, 117, 110, 99, 101]
}

pub open spec fn key_info() -> Seq<u8> {
    seq![105u8, 110, 102, 111]
}

pub open spec fn key_name() -> Seq<u8> {
    seq![110u8, 97, 109, 101]
}

pub open spec fn key_piece_length() -> Seq<u8> {
    seq![112u8, 105, 101, 99, 101, 32, 108, 101, 110, 103, 116, 104]
}

pub open spec fn key_pieces() -> Seq<u8> {
    seq![112u8, 105, 101, 99, 101, 115]
}

pub open spec fn key_length() -> Seq<u8> {
    seq![108u8, 101, 110, 103, 116, 104]
}

pub open spec fn key_files() -> Seq<u8> {
    seq![102u8, 105, 108, 101, 115]
}

pub open spec fn key_path() -> Seq<u8> {
    seq![112u8, 97, 116, 104]
}

fn announce_key() -> (r: Vec<u8>)
    ensures
        r@ == key_announce(),
{
    let r: Vec<u8> = vec![97u8, 110, 110, 111, 117, 110, 99, 101];
    assert(r@ =~= key_announce());
    r
}

fn info_key() -> (r: Vec<u8>)
    ensures
        r@ == key_info(),
{
    let r: Vec<u8> = vec![105u8, 110, 102, 111];
    assert(r@ =~= key_info());
    r
}

fn name_key() -> (r: Vec<u8>)
    ensures
        r@ == key_name(),
{
    let r: Vec<u8> = vec![110u8, 97, 109, 101];
    assert(r@ =~= key_name());
    r
}

fn piece_length_key() -> (r: Vec<u8>)
    ensures
        r@ == key_piece_length(),
{
    let r: Vec<u8> = vec![112u8, 105, 101, 99, 101, 32, 108, 101, 110, 103, 116, 104];
    assert(r@ =~= key_piece_length());
    r
}

fn pieces_key() -> (r: Vec<u8>)
    ensures
        r@ == key_pieces(),
{
    let r: Vec<u8> = vec![112u8, 105, 101, 99, 101, 115];
    assert(r@ =~= key_pieces());
    r
}

fn length_key() -> (r: Vec<u8>)
    ensures
        r@ == key_length(),
{
    let r: Vec<u8> = vec![108u8, 101, 110, 103, 116, 104];
    assert(r@ =~= key_length());
    r
}

fn files_key() -> (r: Vec<u8>)
    ensures
        r@ == key_files(),
{
    let r: Vec<u8> = vec![102u8, 105, 108, 101, 115];
    assert(r@ =~= key_files());
    r
}

fn path_key() -> (r: Vec<u8>)
    ensures
        r@ == key_path(),
{
    let r: Vec<u8> = vec![112u8, 97, 116, 104];
    assert(r@ =~= key_path());
    r
}

/// Why a manifest could not be read.
#[derive(Debug, Clone, Copy, PartialEq, Eq)]
pub enum MetainfoError {
    /// The bytes are not one bencode value.
    Decode(DecodeError),
    /// A required field is absent.
    Missing,
    /// A field, or the manifest itself, has the wrong kind of value.
    WrongType,
    /// A text field is not valid UTF-8.
    Encoding,
    /// The piece hashes do not come in whole 20-byte records.
    Alignment,
    /// Both or neither of the single-file `length` and the multi-file `files`.
    Layout,
}

/// Model of one file of a multi-file torrent.
pub struct SFile {
    pub length: nat,
    pub path: Seq<Seq<char>>,
}

/// Model of the layout: one file, or a list of files.
pub enum SKeys {
    SingleFile { length: nat },
    MultiFile { files: Seq<SFile> },
}

/// Model of the info dictionary.
pub struct SInfo {
    pub name: Seq<char>,
    pub piece_length: nat,
    pub pieces: Seq<Seq<u8>>,
    pub keys: SKeys,
}

/// Model of a manifest.
pub struct SMetainfo {
    pub tracker_url: Seq<char>,
    pub info: SInfo,
}

/// One file of a multi-file torrent: its length and its path segments.
#[derive(Debug)]
pub struct File {
    pub length: usize,
    pub path: Vec<String>,
}

/// The layout of a torrent.
#[derive(Debug)]
pub enum Keys {
    SingleFile { length: usize },
    MultiFile { files: Vec<File> },
}

/// The piece hashes, 20 bytes each, in order.
#[derive(Debug)]
pub struct Hashes(pub Vec<[u8; 20]>);

/// The info dictionary of a manifest.
#[derive(Debug)]
pub struct Info {
    pub name: String,
    pub piece_length: usize,
    pub pieces: Hashes,
    pub keys: Keys,
}

/// A manifest: the tracker's address and the info dictionary.
#[derive(Debug)]
pub struct Metainfo {
    pub tracker_url: String,
    pub info: Info,
}

impl File {
    pub open spec fn view(&self) -> SFile {
        SFile {
            length: self.length as nat,
            path: Seq::new(self.path@.len(), |i: int| self.path@[i]@),
        }
    }
}

impl Keys {
    pub open spec fn view(&self) -> SKeys {
        match self {
            Keys::SingleFile { length } => SKeys::SingleFile { length: *length as nat },
            Keys::MultiFile { files } => SKeys::MultiFile {
                files: Seq::new(files@.len(), |i: int| files@[i]@),
            },
        }
    }
}

impl Hashes {
    pub open spec fn view(&self) -> Seq<Seq<u8>> {
        Seq::new(self.0@.len(), |i: int| self.0@[i]@)
    }
}

impl Info {
    pub open spec fn view(&self) -> SInfo {
        SInfo { name: self.name@, piece_length: self.piece_length as nat, pieces: self.pieces@, keys: self.keys@ }
    }
}

impl Metainfo {
    pub open spec fn view(&self) -> SMetainfo {
        SMetainfo { tracker_url: self.tracker_url@, info: self.info@ }
    }
}

/// A text field: a byte string that is valid UTF-8.
pub open spec fn text_field(v: Option<SValue>) -> Result<Seq<char>, MetainfoError> {
    match v {
        None => Err(MetainfoError::Missing),
        Some(SValue::Bytes(b)) => if valid_utf8(b) {
            Ok(decode_utf8(b))
        } else {
            Err(MetainfoError::Encoding)
        },
        Some(_) => Err(MetainfoError::WrongType),
    }
}

/// A size field: a non-negative integer that fits a `usize`.
pub open spec fn size_field(v: Option<SValue>) -> Result<nat, MetainfoError> {
    match v {
        None => Err(MetainfoError::Missing),
        Some(w) => match usize_of(w) {
            Some(n) => Ok(n as nat),
            None => Err(MetainfoError::WrongType),
        },
    }
}

/// Consecutive 20-byte records of `b`.
pub open spec fn chunks20(b: Seq<u8>) -> Seq<Seq<u8>> {
    Seq::new(b.len() / 20, |i: int| b.subrange(20 * i, 20 * i + 20))
}

/// The piece hashes: a byte string whose length is a multiple of 20.
pub open spec fn pieces_field(v: Option<SValue>) -> Result<Seq<Seq<u8>>, MetainfoError> {
    match v {
        None => Err(MetainfoError::Missing),
        Some(SValue::Bytes(b)) => if b.len() % 20 == 0 {
            Ok(chunks20(b))
        } else {
            Err(MetainfoError::Alignment)
        },
        Some(_) => Err(MetainfoError::WrongType),
    }
}

/// The segments of a path, each a text; the first bad one decides the error.
pub open spec fn path_of(items: Seq<SValue>) -> Result<Seq<Seq<char>>, MetainfoError>
    decreases items.len(),
{
    if items.len() == 0 {
        Ok(Seq::empty())
    } else {
        match text_field(Some(items[0])) {
            Err(e) => Err(e),
            Ok(t) => match path_of(items.drop_first()) {
                Ok(rest) => Ok(seq![t] + rest),
                Err(e) => Err(e),
            },
        }
    }
}

/// One file entry: a dictionary with a `length` and a `path` list.
pub open spec fn file_of(v: SValue) -> Result<SFile, MetainfoError> {
    if !(v is Dict) {
        Err(MetainfoError::WrongType)
    } else {
        match size_field(lookup(v, key_length())) {
            Err(e) => Err(e),
            Ok(length) => match lookup(v, key_path()) {
                None => Err(MetainfoError::Missing),
                Some(SValue::List(items)) => match path_of(items) {
                    Ok(path) => Ok(SFile { length, path }),
                    Err(e) => Err(e),
                },
                Some(_) => Err(MetainfoError::WrongType),
            },
        }
    }
}

/// The file entries of a multi-file torrent; the first bad one decides the error.
pub open spec fn files_of(items: Seq<SValue>) -> Result<Seq<SFile>, MetainfoError>
    decreases items.len(),
{
    if items.len() == 0 {
        Ok(Seq::empty())
    } else {
        match file_of(items[0]) {
            Err(e) => Err(e),
            Ok(f) => match files_of(items.drop_first()) {
                Ok(rest) => Ok(seq![f] + rest),
                Err(e) => Err(e),
            },
        }
    }
}

/// The layout: exactly one of `length` and `files` is present.
pub open spec fn keys_of(v: SValue) -> Result<SKeys, MetainfoError> {
    let l = lookup(v, key_length());
    let f = lookup(v, key_files());
    if l is Some && f is None {
        match size_field(l) {
            Ok(length) => Ok(SKeys::SingleFile { length }),
            Err(e) => Err(e),
        }
    } else if f is Some && l is None {
        match f {
            Some(SValue::List(items)) => match files_of(items) {
                Ok(files) => Ok(SKeys::MultiFile { files }),
                Err(e) => Err(e),
            },
            _ => Err(MetainfoError::WrongType),
        }
    } else {
        Err(MetainfoError::Layout)
    }
}

/// The info dictionary, read field by field: name, piece length (positive),
/// pieces, layout.
pub open spec fn info_of(v: SValue) -> Result<SInfo, MetainfoError> {
    if !(v is Dict) {
        Err(MetainfoError::WrongType)
    } else {
        match text_field(lookup(v, key_name())) {
            Err(e) => Err(e),
            Ok(name) => match size_field(lookup(v, key_piece_length())) {
                Err(e) => Err(e),
                Ok(piece_length) => if piece_length == 0 {
                    Err(MetainfoError::WrongType)
                } else {
                    match pieces_field(lookup(v, key_pieces())) {
                        Err(e) => Err(e),
                        Ok(pieces) => match keys_of(v) {
                            Err(e) => Err(e),
                            Ok(keys) => Ok(SInfo { name, piece_length, pieces, keys }),
                        },
                    }
                },
            },
        }
    }
}

/// The manifest: a dictionary with the tracker's `announce` text and `info`.
pub open spec fn metainfo_of(v: SValue) -> Result<SMetainfo, MetainfoError> {
    if !(v is Dict) {
        Err(MetainfoError::WrongType)
    } else {
        match text_field(lookup(v, key_announce())) {
            Err(e) => Err(e),
            Ok(tracker_url) => match lookup(v, key_info()) {
                None => Err(MetainfoError::Missing),
                Some(w) => match info_of(w) {
                    Ok(info) => Ok(SMetainfo { tracker_url, info }),
                    Err(e) => Err(e),
                },
            },
        }
    }
}

/// What reading a manifest from bytes gives.
pub open spec fn metainfo_from(b: Seq<u8>) -> Result<SMetainfo, MetainfoError> {
    match decode_spec(b) {
        Some(v) => metainfo_of(v),
        None => Err(MetainfoError::Decode(DecodeError::Malformed)),
    }
}


/// The models of a run of values.
pub open spec fn items_view(items: Seq<Value>) -> Seq<SValue> {
    Seq::new(items.len(), |i: int| items[i]@)
}

/// The models of a run of texts.
pub open spec fn texts_view(items: Seq<String>) -> Seq<Seq<char>> {
    Seq::new(items.len(), |i: int| items[i]@)
}

/// The models of a run of files.
pub open spec fn files_view(items: Seq<File>) -> Seq<SFile> {
    Seq::new(items.len(), |i: int| items[i]@)
}

fn text_from(v: Option<&Value>) -> (r: Result<String, MetainfoError>)
    ensures
        match text_field(opt_view(v)) {
            Ok(t) => r matches Ok(s) && s@ == t,
            Err(e) => r matches Err(e2) && e2 == e,
        },
{
    match v {
        None => Err(MetainfoError::Missing),
        Some(Value::Bytes(b)) => {
            let bytes = copy_range(b.as_slice(), 0, b.len());
            assert(bytes@ =~= b@);
            match text_from_utf8(bytes) {
                Some(s) => Ok(s),
                None => Err(MetainfoError::Encoding),
            }
        },
        Some(_) => Err(MetainfoError::WrongType),
    }
}

fn size_from(v: Option<&Value>) -> (r: Result<usize, MetainfoError>)
    ensures
        match size_field(opt_view(v)) {
            Ok(n) => r matches Ok(m) && m == n,
            Err(e) => r matches Err(e2) && e2 == e,
        },
{
    match v {
        None => Err(MetainfoError::Missing),
        Some(w) => match w.as_usize() {
            Some(n) => Ok(n),
            None => Err(MetainfoError::WrongType),
        },
    }
}

fn path_from(items: &Vec<Value>) -> (r: Result<Vec<String>, MetainfoError>)
    ensures
        match path_of(items_view(items@)) {
            Ok(p) => r matches Ok(x) && texts_view(x@) == p,
            Err(e) => r matches Err(e2) && e2 == e,
        },
{
    let ghost m = items_view(items@);
    let mut acc: Vec<String> = Vec::new();
    let mut i: usize = 0;
    assert(m.subrange(0, m.len() as int) =~= m);
    while i < items.len()
        invariant
            0 <= i <= items@.len(),
            m == items_view(items@),
            path_of(m) == match path_of(m.subrange(i as int, m.len() as int)) {
                Ok(rest) => Ok(texts_view(acc@) + rest),
                Err(e) => Err(e),
            },
        decreases items@.len() - i,
    {
        let ghost rest = m.subrange(i as int, m.len() as int);
        assert(rest.drop_first() =~= m.subrange(i + 1, m.len() as int));
        assert(rest[0] == items@[i as int]@);
        match text_from(Some(&items[i])) {
            Err(e) => {
                return Err(e);
            },
            Ok(t) => {
                let ghost before = texts_view(acc@);
                acc.push(t);
                assert(texts_view(acc@) =~= before.push(t@));
                assert forall|r: Seq<Seq<char>>| #![auto] before + (seq![t@] + r) == texts_view(acc@) + r by {
                    assert(before + (seq![t@] + r) =~= texts_view(acc@) + r);
                }
            },
        }
        i = i + 1;
    }
    assert(texts_view(acc@) + Seq::<Seq<char>>::empty() =~= texts_view(acc@));
    Ok(acc)
}

fn file_from(v: &Value) -> (r: Result<File, MetainfoError>)
    ensures
        match file_of(v@) {
            Ok(f) => r matches Ok(x) && x@ == f,
            Err(e) => r matches Err(e2) && e2 == e,
        },
{
    if !matches!(v, Value::Dict(_)) {
        return Err(MetainfoError::WrongType);
    }
    let length = match size_from(v.get(length_key().as_slice())) {
        Ok(n) => n,
        Err(e) => {
            return Err(e);
        },
    };
    match v.get(path_key().as_slice()) {
        None => Err(MetainfoError::Missing),
        Some(Value::List(items)) => {
            assert(items_view(items@) =~= (Value::List(*items))@->List_0);
            match path_from(items) {
                Ok(path) => {
                    let f = File { length, path };
                    assert(f@.path =~= texts_view(path@));
                    Ok(f)
                },
                Err(e) => Err(e),
            }
        },
        Some(_) => Err(MetainfoError::WrongType),
    }
}

fn files_from(items: &Vec<Value>) -> (r: Result<Vec<File>, MetainfoError>)
    ensures
        match files_of(items_view(items@)) {
            Ok(p) => r matches Ok(x) && files_view(x@) == p,
            Err(e) => r matches Err(e2) && e2 == e,
        },
{
    let ghost m = items_view(items@);
    let mut acc: Vec<File> = Vec::new();
    let mut i: usize = 0;
    assert(m.subrange(0, m.len() as int) =~= m);
    while i < items.len()
        invariant
            0 <= i <= items@.len(),
            m == items_view(items@),
            files_of(m) == match files_of(m.subrange(i as int, m.len() as int)) {
                Ok(rest) => Ok(files_view(acc@) + rest),
                Err(e) => Err(e),
            },
        decreases items@.len() - i,
    {
        let ghost rest = m.subrange(i as int, m.len() as int);
        assert(rest.drop_first() =~= m.subrange(i + 1, m.len() as int));
        assert(rest[0] == items@[i as int]@);
        match file_from(&items[i]) {
            Err(e) => {
                return Err(e);
            },
            Ok(f) => {
                let ghost before = files_view(acc@);
                acc.push(f);
                assert(files_view(acc@) =~= before.push(f@));
                assert forall|r: Seq<SFile>| #![auto] before + (seq![f@] + r) == files_view(acc@) + r by {
                    assert(before + (seq![f@] + r) =~= files_view(acc@) + r);
                }
            },
        }
        i = i + 1;
    }
    assert(files_view(acc@) + Seq::<SFile>::empty() =~= files_view(acc@));
    Ok(acc)
}

fn keys_from(v: &Value) -> (r: Result<Keys, MetainfoError>)
    ensures
        match keys_of(v@) {
            Ok(k) => r matches Ok(x) && x@ == k,
            Err(e) => r matches Err(e2) && e2 == e,
        },
{
    let l = v.get(length_key().as_slice());
    let f = v.get(files_key().as_slice());
    if l.is_some() && f.is_none() {
        match size_from(l) {
            Ok(length) => Ok(Keys::SingleFile { length }),
            Err(e) => Err(e),
        }
    } else if f.is_some() && l.is_none() {
        match f {
            Some(Value::List(items)) => {
                assert(items_view(items@) =~= (Value::List(*items))@->List_0);
                match files_from(items) {
                    Ok(files) => {
                        let k = Keys::MultiFile { files };
                        assert(k@->MultiFile_files =~= files_view(files@));
                        Ok(k)
                    },
                    Err(e) => Err(e),
                }
            },
            _ => Err(MetainfoError::WrongType),
        }
    } else {
        Err(MetainfoError::Layout)
    }
}

impl Hashes {
    /// Splits concatenated piece hashes into 20-byte records, in order.
    pub fn from_bytes(value: &[u8]) -> (r: Result<Hashes, MetainfoError>)
        ensures
            value@.len() % 20 == 0 ==> (r matches Ok(h) && h@ == chunks20(value@)),
            value@.len() % 20 != 0 ==> r == Err::<Hashes, MetainfoError>(MetainfoError::Alignment),
    {
        if value.len() % 20 != 0 {
            return Err(MetainfoError::Alignment);
        }
        let len = value.len();
        let n = len / 20;
        let mut out: Vec<[u8; 20]> = Vec::new();
        let mut i: usize = 0;
        while i < n
            invariant
                0 <= i <= n,
                n == value@.len() / 20,
                len == value@.len(),
                out@.len() == i,
                forall|j: int| 0 <= j < i ==> (#[trigger] out@[j])@ == value@.subrange(20 * j, 20 * j + 20),
            decreases n - i,
        {
            assert(20 * i + 20 <= value@.len()) by (nonlinear_arith)
                requires i < n, n == value@.len() / 20;
            out.push(array_from(value, 20 * i));
            i = i + 1;
        }
        let h = Hashes(out);
        assert(h@ =~= chunks20(value@));
        Ok(h)
    }
}

fn pieces_from(v: Option<&Value>) -> (r: Result<Hashes, MetainfoError>)
    ensures
        match pieces_field(opt_view(v)) {
            Ok(p) => r matches Ok(h) && h@ == p,
            Err(e) => r matches Err(e2) && e2 == e,
        },
{
    match v {
        None => Err(MetainfoError::Missing),
        Some(Value::Bytes(b)) => Hashes::from_bytes(b.as_slice()),
        Some(_) => Err(MetainfoError::WrongType),
    }
}

impl Info {
    /// Reads the info dictionary from a decoded value.
    pub fn from_value(v: &Value) -> (r: Result<Info, MetainfoError>)
        ensures
            match info_of(v@) {
                Ok(i) => r matches Ok(x) && x@ == i,
                Err(e) => r matches Err(e2) && e2 == e,
            },
    {
        if !matches!(v, Value::Dict(_)) {
            return Err(MetainfoError::WrongType);
        }
        let name = match text_from(v.get(name_key().as_slice())) {
            Ok(t) => t,
            Err(e) => {
                return Err(e);
            },
        };
        let piece_length = match size_from(v.get(piece_length_key().as_slice())) {
            Ok(n) => n,
            Err(e) => {
                return Err(e);
            },
        };
        if piece_length == 0 {
            return Err(MetainfoError::WrongType);
        }
        let pieces = match pieces_from(v.get(pieces_key().as_slice())) {
            Ok(h) => h,
            Err(e) => {
                return Err(e);
            },
        };
        let keys = match keys_from(v) {
            Ok(k) => k,
            Err(e) => {
                return Err(e);
            },
        };
        Ok(Info { name, piece_length, pieces, keys })
    }
}

impl Metainfo {
    /// Reads a manifest from a decoded value.
    pub fn from_value(v: &Value) -> (r: Result<Metainfo, MetainfoError>)
        ensures
            match metainfo_of(v@) {
                Ok(m) => r matches Ok(x) && x@ == m,
                Err(e) => r matches Err(e2) && e2 == e,
            },
    {
        if !matches!(v, Value::Dict(_)) {
            return Err(MetainfoError::WrongType);
        }
        let tracker_url = match text_from(v.get(announce_key().as_slice())) {
            Ok(t) => t,
            Err(e) => {
                return Err(e);
            },
        };
        match v.get(info_key().as_slice()) {
            None => Err(MetainfoError::Missing),
            Some(w) => match Info::from_value(w) {
                Ok(info) => Ok(Metainfo { tracker_url, info }),
                Err(e) => Err(e),
            },
        }
    }

    /// Reads a manifest from its bencoded bytes.
    pub fn from_bytes(b: &[u8]) -> (r: Result<Metainfo, MetainfoError>)
        ensures
            match metainfo_from(b@) {
                Ok(m) => r matches Ok(x) && x@ == m,
                Err(e) => r matches Err(e2) && e2 == e,
            },
    {
        match decode(b) {
            Ok(v) => Metainfo::from_value(&v),
            Err(e) => Err(MetainfoError::Decode(e)),
        }
    }
}


/// A text as a byte string: its UTF-8 encoding.
pub open spec fn text_value(t: Seq<char>) -> SValue {
    SValue::Bytes(encode_utf8(t))
}

/// A size as a canonical integer.
pub open spec fn size_value(n: nat) -> SValue {
    SValue::Int { negative: false, digits: decimal(n) }
}

/// Piece hashes laid end to end.
pub open spec fn concat_hashes(p: Seq<Seq<u8>>) -> Seq<u8>
    decreases p.len(),
{
    if p.len() == 0 {
        Seq::empty()
    } else {
        concat_hashes(p.drop_last()) + p.last()
    }
}

/// The canonical dictionary of a file entry.
pub open spec fn file_value(f: SFile) -> SValue {
    SValue::Dict(
        seq![
            (key_length(), size_value(f.length)),
            (key_path(), SValue::List(Seq::new(f.path.len(), |i: int| text_value(f.path[i])))),
        ],
    )
}

/// The layout's entry of the info dictionary.
pub open spec fn layout_entry(k: SKeys) -> (Seq<u8>, SValue) {
    match k {
        SKeys::SingleFile { length } => (key_length(), size_value(length)),
        SKeys::MultiFile { files } => (
            key_files(),
            SValue::List(Seq::new(files.len(), |i: int| file_value(files[i]))),
        ),
    }
}

/// The canonical dictionary of an info record, keys in ascending byte order.
pub open spec fn info_value(i: SInfo) -> SValue {
    SValue::Dict(
        seq![
            layout_entry(i.keys),
            (key_name(), text_value(i.name)),
            (key_piece_length(), size_value(i.piece_length)),
            (key_pieces(), SValue::Bytes(concat_hashes(i.pieces))),
        ],
    )
}

/// The name of the SHA-1 digest of some bytes.
pub uninterp spec fn sha1_of(data: Seq<u8>) -> Seq<u8>;

/// Relies on `sha1::Sha1` through `Digest::digest`: the 20-byte SHA-1 digest
/// of the bytes, which depends on them alone.
#[verifier::external_body]
fn sha1_digest(data: &[u8]) -> (r: [u8; 20])
    ensures
        r@ == sha1_of(data@),
{
    sha1::Sha1::digest(data).into()
}

fn text_to_value(t: &String) -> (r: Value)
    ensures
        r@ == text_value(t@),
{
    let b = t.as_str().as_bytes();
    let bytes = copy_range(b, 0, b.len());
    assert(bytes@ =~= encode_utf8(t@));
    Value::Bytes(bytes)
}

fn texts_to_list(items: &Vec<String>) -> (r: Value)
    ensures
        r@ == SValue::List(Seq::new(items@.len(), |i: int| text_value(items@[i]@))),
{
    let mut out: Vec<Value> = Vec::new();
    let mut i: usize = 0;
    while i < items.len()
        invariant
            0 <= i <= items@.len(),
            out@.len() == i,
            forall|j: int| 0 <= j < i ==> (#[trigger] out@[j])@ == text_value(items@[j]@),
        decreases items@.len() - i,
    {
        out.push(text_to_value(&items[i]));
        i = i + 1;
    }
    let r = Value::List(out);
    assert(r@->List_0 =~= Seq::new(items@.len(), |i: int| text_value(items@[i]@)));
    r
}

impl File {
    /// The canonical dictionary of this file entry.
    pub fn to_value(&self) -> (r: Value)
        ensures
            r@ == file_value(self@),
    {
        let mut entries: Vec<(Vec<u8>, Value)> = Vec::new();
        entries.push((length_key(), Value::from_usize(self.length)));
        entries.push((path_key(), texts_to_list(&self.path)));
        let r = Value::Dict(entries);
        proof {
            let f = self@;
            assert(Seq::new(self.path@.len(), |i: int| text_value(self.path@[i]@)) =~= Seq::new(
                f.path.len(),
                |i: int| text_value(f.path[i]),
            ));
            let m = r.dict_entries();
            assert(m[0] == file_value(f)->Dict_0[0]);
            assert(m[1] == file_value(f)->Dict_0[1]);
            assert(m =~= file_value(f)->Dict_0);
            lemma_keys_in_order();
            assert(keys_ascending(m));
            lemma_insert_all_sorted(m);
        }
        r
    }
}

impl Hashes {
    /// The piece hashes laid end to end.
    pub fn to_bytes(&self) -> (r: Vec<u8>)
        ensures
            r@ == concat_hashes(self@),
    {
        let mut out: Vec<u8> = Vec::new();
        let mut i: usize = 0;
        while i < self.0.len()
            invariant
                0 <= i <= self.0@.len(),
                out@ == concat_hashes(self@.subrange(0, i as int)),
            decreases self.0@.len() - i,
        {
            assert(self@.subrange(0, i + 1).drop_last() =~= self@.subrange(0, i as int));
            out.extend_from_slice(self.0[i].as_slice());
            i = i + 1;
        }
        assert(self@.subrange(0, self.0@.len() as int) =~= self@);
        out
    }
}

impl Info {
    /// The canonical dictionary of this info record.
    pub fn to_value(&self) -> (r: Value)
        ensures
            r@ == info_value(self@),
            well_formed(r@),
    {
        let layout = match &self.keys {
            Keys::SingleFile { length } => (length_key(), Value::from_usize(*length)),
            Keys::MultiFile { files } => {
                let mut out: Vec<Value> = Vec::new();
                let mut i: usize = 0;
                while i < files.len()
                    invariant
                        0 <= i <= files@.len(),
                        out@.len() == i,
                        forall|j: int| 0 <= j < i ==> (#[trigger] out@[j])@ == file_value(files@[j]@),
                    decreases files@.len() - i,
                {
                    out.push(files[i].to_value());
                    i = i + 1;
                }
                let list = Value::List(out);
                proof {
                    let fs = self.keys@->MultiFile_files;
                    assert(fs =~= Seq::new(files@.len(), |i: int| files@[i]@));
                    assert(list@->List_0 =~= Seq::new(fs.len(), |i: int| file_value(fs[i])));
                    assert(list@ == layout_entry(self.keys@).1);
                }
                (files_key(), list)
            },
        };
        assert(layout.0@ == layout_entry(self.keys@).0 && layout.1@ == layout_entry(self.keys@).1);
        let mut entries: Vec<(Vec<u8>, Value)> = Vec::new();
        entries.push(layout);
        entries.push((name_key(), text_to_value(&self.name)));
        entries.push((piece_length_key(), Value::from_usize(self.piece_length)));
        let pieces = self.pieces.to_bytes();
        assert(pieces@ == concat_hashes(self@.pieces));
        entries.push((pieces_key(), Value::Bytes(pieces)));
        let r = Value::Dict(entries);
        proof {
            let m = r.dict_entries();
            let want = info_value(self@)->Dict_0;
            assert(entries@.len() == 4);
            assert(m[0] == want[0]);
            assert(m[1] == want[1]);
            assert(m[2] == want[2]);
            assert(entries@[3].1@ == SValue::Bytes(concat_hashes(self@.pieces)));
            assert(m[3].0 == want[3].0);
            assert(m[3].1 == want[3].1);
            assert(m[3] == want[3]);
            assert(m =~= want);
            lemma_info_value_well_formed(self@);
            lemma_insert_all_sorted(want);
        }
        r
    }

    /// The canonical bencoding of this info record.
    pub fn canonical_bytes(&self) -> (r: Vec<u8>)
        ensures
            r@ == encode_value(info_value(self@)),
    {
        self.to_value().encode()
    }
}

/// The summed length of a run of files.
pub open spec fn files_length(files: Seq<SFile>) -> nat
    decreases files.len(),
{
    if files.len() == 0 {
        0
    } else {
        files_length(files.drop_last()) + files.last().length
    }
}

/// The number of bytes a torrent holds: its one file's length, or the sum
/// of its files' lengths.
pub open spec fn total_length_of(keys: SKeys) -> nat {
    match keys {
        SKeys::SingleFile { length } => length,
        SKeys::MultiFile { files } => files_length(files),
    }
}

proof fn lemma_files_length_prefix(files: Seq<SFile>, i: int)
    requires
        0 <= i <= files.len(),
    ensures
        files_length(files.subrange(0, i)) <= files_length(files),
    decreases files.len() - i,
{
    if i < files.len() {
        assert(files.subrange(0, i + 1).drop_last() =~= files.subrange(0, i));
        lemma_files_length_prefix(files, i + 1);
    } else {
        assert(files.subrange(0, i) =~= files);
    }
}

impl Info {
    /// The number of bytes the torrent holds, where it fits a `usize`.
    pub fn total_length(&self) -> (r: Option<usize>)
        ensures
            r matches Some(n) ==> n == total_length_of(self@.keys),
            r is None <==> total_length_of(self@.keys) > usize::MAX,
    {
        match &self.keys {
            Keys::SingleFile { length } => Some(*length),
            Keys::MultiFile { files } => {
                let ghost fs = self@.keys->MultiFile_files;
                assert(fs =~= Seq::new(files@.len(), |i: int| files@[i]@));
                let mut acc: usize = 0;
                let mut i: usize = 0;
                assert(fs.subrange(0, 0) =~= Seq::<SFile>::empty());
                while i < files.len()
                    invariant
                        0 <= i <= files@.len(),
                        fs == Seq::new(files@.len(), |i: int| files@[i]@),
                        total_length_of(self@.keys) == files_length(fs),
                        acc == files_length(fs.subrange(0, i as int)),
                    decreases files@.len() - i,
                {
                    assert(fs.subrange(0, i + 1).drop_last() =~= fs.subrange(0, i as int));
                    assert(fs.subrange(0, i + 1).last().length == files@[i as int].length);
                    assert(files_length(fs.subrange(0, i + 1)) == acc + files@[i as int].length);
                    if files[i].length > usize::MAX - acc {
                        proof {
                            lemma_files_length_prefix(fs, i + 1);
                            assert(total_length_of(self@.keys) == files_length(fs));
                        }
                        return None;
                    }
                    acc = acc + files[i].length;
                    i = i + 1;
                }
                assert(fs.subrange(0, files@.len() as int) =~= fs);
                assert(total_length_of(self@.keys) == files_length(fs));
                Some(acc)
            },
        }
    }
}

impl Metainfo {
    /// The info hash: the SHA-1 digest of the canonical bencoding of the
    /// info dictionary.
    pub fn info_hash(&self) -> (r: [u8; 20])
        ensures
            r@ == sha1_of(encode_value(info_value(self.info@))),
    {
        let bytes = self.info.canonical_bytes();
        sha1_digest(bytes.as_slice())
    }
}

proof fn lemma_keys_in_order()
    ensures
        bytes_lt(key_files(), key_name()),
        bytes_lt(key_length(), key_name()),
        bytes_lt(key_name(), key_piece_length()),
        bytes_lt(key_piece_length(), key_pieces()),
        bytes_lt(key_length(), key_path()),
{
    lemma_bytes_lt_skip(key_piece_length(), key_pieces(), 5);
    assert(key_piece_length().subrange(5, 12)[0] == 32);
    assert(key_pieces().subrange(5, 6)[0] == 115);
}

proof fn lemma_file_value_well_formed(f: SFile)
    ensures
        well_formed(file_value(f)),
{
    lemma_decimal_canonical(f.length);
    lemma_keys_in_order();
    let entries = file_value(f)->Dict_0;
    let list = Seq::new(f.path.len(), |i: int| text_value(f.path[i]));
    assert(forall|j: int| 0 <= j < list.len() ==> well_formed(#[trigger] list[j]));
    assert(well_formed(SValue::List(list)));
    assert(well_formed(entries[0].1));
    assert(well_formed(entries[1].1));
    assert(keys_ascending(entries));
}

/// The canonical dictionary of an info record is well formed.
proof fn lemma_info_value_well_formed(i: SInfo)
    ensures
        well_formed(info_value(i)),
{
    lemma_decimal_canonical(i.piece_length);
    lemma_keys_in_order();
    match i.keys {
        SKeys::SingleFile { length } => {
            lemma_decimal_canonical(length);
        },
        SKeys::MultiFile { files } => {
            let list = Seq::new(files.len(), |k: int| file_value(files[k]));
            assert forall|j: int| 0 <= j < list.len() implies well_formed(#[trigger] list[j]) by {
                lemma_file_value_well_formed(files[j]);
            }
            assert(well_formed(SValue::List(list)));
        },
    }
    let entries = info_value(i)->Dict_0;
    assert(well_formed(entries[0].1));
    assert(well_formed(entries[1].1));
    assert(well_formed(entries[2].1));
    assert(well_formed(entries[3].1));
    assert(keys_ascending(entries));
}


/// An info record that a manifest can hold: a positive piece length, sizes
/// that fit a `usize`, and 20-byte piece hashes.
pub open spec fn valid_info(i: SInfo) -> bool {
    &&& 0 < i.piece_length <= usize::MAX
    &&& forall|j: int| 0 <= j < i.pieces.len() ==> (#[trigger] i.pieces[j]).len() == 20
    &&& match i.keys {
        SKeys::SingleFile { length } => length <= usize::MAX,
        SKeys::MultiFile { files } => forall|j: int| 0 <= j < files.len() ==> (#[trigger] files[j]).length <= usize::MAX,
    }
}

proof fn lemma_text_field(t: Seq<char>)
    ensures
        text_field(Some(text_value(t))) == Ok::<Seq<char>, MetainfoError>(t),
{
    encode_utf8_valid_utf8(t);
    encode_utf8_decode_utf8(t);
}

proof fn lemma_size_field(n: nat)
    requires
        n <= usize::MAX,
    ensures
        size_field(Some(size_value(n))) == Ok::<nat, MetainfoError>(n),
{
    lemma_decimal_canonical(n);
}

proof fn lemma_concat_hashes(p: Seq<Seq<u8>>)
    requires
        forall|j: int| 0 <= j < p.len() ==> (#[trigger] p[j]).len() == 20,
    ensures
        concat_hashes(p).len() == 20 * p.len(),
        chunks20(concat_hashes(p)) == p,
    decreases p.len(),
{
    if p.len() > 0 {
        let q = p.drop_last();
        lemma_concat_hashes(q);
        let c = concat_hashes(p);
        let cq = concat_hashes(q);
        assert(c.len() / 20 == p.len());
        assert forall|j: int| 0 <= j < p.len() implies #[trigger] chunks20(c)[j] == p[j] by {
            if j < p.len() - 1 {
                assert(chunks20(cq)[j] == q[j]);
                assert(c.subrange(20 * j, 20 * j + 20) =~= cq.subrange(20 * j, 20 * j + 20));
            } else {
                assert(c.subrange(20 * j, 20 * j + 20) =~= p.last());
            }
        }
        assert(chunks20(c) =~= p);
    } else {
        assert(chunks20(concat_hashes(p)) =~= p);
    }
}

proof fn lemma_path_of(path: Seq<Seq<char>>)
    ensures
        path_of(Seq::new(path.len(), |i: int| text_value(path[i]))) == Ok::<Seq<Seq<char>>, MetainfoError>(path),
    decreases path.len(),
{
    let items = Seq::new(path.len(), |i: int| text_value(path[i]));
    if path.len() > 0 {
        let t = path.drop_first();
        lemma_path_of(t);
        lemma_text_field(path[0]);
        assert(items.drop_first() =~= Seq::new(t.len(), |i: int| text_value(t[i])));
        assert(seq![path[0]] + t =~= path);
    } else {
        assert(path =~= Seq::<Seq<char>>::empty());
    }
}

proof fn lemma_file_of(f: SFile)
    requires
        f.length <= usize::MAX,
    ensures
        file_of(file_value(f)) == Ok::<SFile, MetainfoError>(f),
{
    let v = file_value(f);
    let es = v->Dict_0;
    assert(key_length()[0] != key_path()[0]);
    assert(dict_get(es, key_length()) == Some(es[0].1));
    assert(es.drop_first()[0] == es[1]);
    assert(dict_get(es.drop_first(), key_path()) == Some(es[1].1));
    assert(dict_get(es, key_path()) == Some(es[1].1));
    lemma_size_field(f.length);
    lemma_path_of(f.path);
}

proof fn lemma_files_of(files: Seq<SFile>)
    requires
        forall|j: int| 0 <= j < files.len() ==> (#[trigger] files[j]).length <= usize::MAX,
    ensures
        files_of(Seq::new(files.len(), |i: int| file_value(files[i]))) == Ok::<Seq<SFile>, MetainfoError>(files),
    decreases files.len(),
{
    let items = Seq::new(files.len(), |i: int| file_value(files[i]));
    if files.len() > 0 {
        let t = files.drop_first();
        assert forall|j: int| 0 <= j < t.len() implies (#[trigger] t[j]).length <= usize::MAX by {
            assert(t[j] == files[j + 1]);
        }
        lemma_files_of(t);
        lemma_file_of(files[0]);
        assert(items.drop_first() =~= Seq::new(t.len(), |i: int| file_value(t[i])));
        assert(seq![files[0]] + t =~= files);
    } else {
        assert(files =~= Seq::<SFile>::empty());
    }
}

/// Reading the canonical dictionary of a valid info record gives the record
/// back.
#[verifier::rlimit(60)]
proof fn lemma_info_of_info_value(i: SInfo)
    requires
        valid_info(i),
    ensures
        info_of(info_value(i)) == Ok::<SInfo, MetainfoError>(i),
{
    let v = info_value(i);
    let es = v->Dict_0;
    let k0 = es[0].0;
    assert(k0 == key_length() || k0 == key_files());
    assert(k0[0] != key_name()[0] && k0[0] != key_piece_length()[0] && k0[0] != key_pieces()[0]);
    assert(key_name()[0] != key_piece_length()[0] && key_name()[0] != key_pieces()[0]);
    assert(key_piece_length()[5] != key_pieces()[5]);
    assert(key_length()[0] != key_files()[0]);
    let e1 = es.drop_first();
    let e2 = e1.drop_first();
    let e3 = e2.drop_first();
    assert(e1[0] == es[1] && e2[0] == es[2] && e3[0] == es[3] && e3.drop_first().len() == 0);
    assert(es[0].0 != key_name() && es[0].0 != key_piece_length() && es[0].0 != key_pieces());
    assert(es[1].0 != key_piece_length() && es[1].0 != key_pieces());
    assert(es[2].0 != key_pieces());
    assert(dict_get(e1, key_name()) == Some(es[1].1));
    assert(dict_get(es, key_name()) == Some(es[1].1));
    assert(dict_get(e2, key_piece_length()) == Some(es[2].1));
    assert(dict_get(e1, key_piece_length()) == Some(es[2].1));
    assert(dict_get(es, key_piece_length()) == Some(es[2].1));
    assert(dict_get(e3, key_pieces()) == Some(es[3].1));
    assert(dict_get(e2, key_pieces()) == Some(es[3].1));
    assert(dict_get(e1, key_pieces()) == Some(es[3].1));
    assert(dict_get(es, key_pieces()) == Some(es[3].1));
    assert(dict_get(e3.drop_first(), key_length()) is None);
    assert(dict_get(e3.drop_first(), key_files()) is None);
    lemma_text_field(i.name);
    lemma_size_field(i.piece_length);
    lemma_concat_hashes(i.pieces);
    match i.keys {
        SKeys::SingleFile { length } => {
            assert(dict_get(es, key_length()) == Some(es[0].1));
            assert(dict_get(e3, key_files()) is None);
            assert(dict_get(e2, key_files()) is None);
            assert(dict_get(e1, key_files()) is None);
            assert(dict_get(es, key_files()) is None);
            lemma_size_field(length);
        },
        SKeys::MultiFile { files } => {
            assert(dict_get(es, key_files()) == Some(es[0].1));
            assert(dict_get(e3, key_length()) is None);
            assert(dict_get(e2, key_length()) is None);
            assert(dict_get(e1, key_length()) is None);
            assert(dict_get(es, key_length()) is None);
            lemma_files_of(files);
        },
    }
}

/// The info hash is stable across re-serialisation. The canonical bytes of
/// a valid info record decode to its canonical dictionary, from which the
/// same record is read back; encoding that again gives the same bytes, so
/// hashing either gives the same identifier.
pub proof fn info_hash_stable(i: SInfo)
    requires
        valid_info(i),
    ensures
        decode_spec(encode_value(info_value(i))) == Some(info_value(i)),
        info_of(decode_spec(encode_value(info_value(i)))->Some_0) == Ok::<SInfo, MetainfoError>(i),
        sha1_of(encode_value(info_value(info_of(decode_spec(encode_value(info_value(i)))->Some_0)->Ok_0)))
            == sha1_of(encode_value(info_value(i))),
{
    lemma_info_value_well_formed(i);
    value_round_trip(info_value(i));
    lemma_info_of_info_value(i);
}

} // verus!
