//! Extraction of typed torrent metadata from a decoded metainfo
//! document, capturing the exact byte span the `info` dictionary
//! occupied in the source buffer so its hash can be derived from the
//! original bytes.

use vstd::prelude::*;

use crate::value::{SpecValue, Value, dict_get, pair_views_of, views_of};
use crate::decode::{
    DecodeError, decode_value, is_digit, spec_decode, spec_str_token, lemma_decode_offsets,
    lemma_str_token_offsets,
};
use crate::hash::{compute_info_hash, sha1_of};

verus! {

broadcast use vstd::std_specs::vec::group_vec_axioms, vstd::seq::group_seq_axioms, crate::value::group_value_views;

/// One file of a multi-file torrent: its byte length and its path
/// segments.
#[derive(Debug, PartialEq, Eq)]
pub struct FileEntry {
    pub length: i64,
    pub path: Vec<Vec<u8>>,
}

/// Whether the torrent describes a single file or several.
#[derive(Debug, PartialEq, Eq)]
pub enum FileMode {
    SingleFile { length: i64 },
    MultiFile { files: Vec<FileEntry> },
}

/// The validated `info` dictionary.
#[derive(Debug, PartialEq, Eq)]
pub struct InfoDict {
    pub name: Vec<u8>,
    pub piece_length: i64,
    pub pieces: Vec<u8>,
    pub mode: FileMode,
}

/// Validated torrent metadata, together with the byte span `[info_start,
/// info_end)` that the `info` value occupied in the source buffer.
#[derive(Debug, PartialEq, Eq)]
pub struct Torrent {
    pub announce: Vec<u8>,
    pub announce_list: Option<Vec<Vec<Vec<u8>>>>,
    pub info: InfoDict,
    pub info_start: usize,
    pub info_end: usize,
}

/// The model of a `FileEntry`.
pub struct SpecFileEntry {
    pub length: int,
    pub path: Seq<Seq<u8>>,
}

/// The model of a `FileMode`.
pub enum SpecFileMode {
    SingleFile(int),
    MultiFile(Seq<SpecFileEntry>),
}

/// The model of an `InfoDict`.
pub struct SpecInfoDict {
    pub name: Seq<u8>,
    pub piece_length: int,
    pub pieces: Seq<u8>,
    pub mode: SpecFileMode,
}

/// The model of a `Torrent`.
pub struct SpecTorrent {
    pub announce: Seq<u8>,
    pub announce_list: Option<Seq<Seq<Seq<u8>>>>,
    pub info: SpecInfoDict,
    pub info_start: int,
    pub info_end: int,
}

impl DeepView for FileEntry {
    type V = SpecFileEntry;

    open spec fn deep_view(&self) -> SpecFileEntry {
        SpecFileEntry { length: self.length as int, path: self.path.deep_view() }
    }
}

impl DeepView for FileMode {
    type V = SpecFileMode;

    open spec fn deep_view(&self) -> SpecFileMode {
        match *self {
            FileMode::SingleFile { length } => SpecFileMode::SingleFile(length as int),
            FileMode::MultiFile { files } => SpecFileMode::MultiFile(files.deep_view()),
        }
    }
}

impl DeepView for InfoDict {
    type V = SpecInfoDict;

    open spec fn deep_view(&self) -> SpecInfoDict {
        SpecInfoDict {
            name: self.name@,
            piece_length: self.piece_length as int,
            pieces: self.pieces@,
            mode: self.mode.deep_view(),
        }
    }
}

impl DeepView for Torrent {
    type V = SpecTorrent;

    open spec fn deep_view(&self) -> SpecTorrent {
        SpecTorrent {
            announce: self.announce@,
            announce_list: self.announce_list.deep_view(),
            info: self.info.deep_view(),
            info_start: self.info_start as int,
            info_end: self.info_end as int,
        }
    }
}

/// The field a validation error is about.
#[derive(Clone, Copy, Debug, PartialEq, Eq, Structural)]
pub enum FieldName {
    Root,
    Announce,
    AnnounceList,
    Info,
    Name,
    PieceLength,
    Pieces,
    Length,
    Files,
    Path,
}

/// What a field was required to be.
#[derive(Clone, Copy, Debug, PartialEq, Eq, Structural)]
pub enum ExpectedKind {
    Integer,
    ByteString,
    List,
    Dictionary,
    Text,
    PositiveInteger,
    NonNegativeInteger,
}

/// Why validation of a decoded metainfo document failed.
#[derive(Clone, Copy, Debug, PartialEq, Eq, Structural)]
pub enum ValidationError {
    MissingField(FieldName),
    TypeMismatch(FieldName, ExpectedKind),
    /// `length` and `files` were both present, or neither was.
    ConflictingFileMode,
    /// The piece table's length is not a multiple of twenty.
    InvalidPieceTableLength,
}

/// Why loading a torrent failed: the document did not decode, or it
/// decoded but did not validate.
#[derive(Clone, Copy, Debug, PartialEq, Eq, Structural)]
pub enum TorrentError {
    Decode(DecodeError),
    Validation(ValidationError),
}

/// Whether a byte sequence is valid UTF-8. The verdict depends on the
/// bytes alone; nothing further is assumed of it.
pub uninterp spec fn utf8_valid(b: Seq<u8>) -> bool;

/// Relies on std::str::from_utf8: whether the bytes are valid UTF-8, a
/// function of the bytes alone.
#[verifier::external_body]
fn check_utf8(b: &Vec<u8>) -> (r: bool)
    ensures
        r == utf8_valid(b@),
{
    std::str::from_utf8(b.as_slice()).is_ok()
}

pub open spec fn key_announce() -> Seq<u8> {
    seq![97u8, 110u8, 110u8, 111u8, 117u8, 110u8, 99u8, 101u8]
}

pub open spec fn key_announce_list() -> Seq<u8> {
    seq![97u8, 110u8, 110u8, 111u8, 117u8, 110u8, 99u8, 101u8, 45u8, 108u8, 105u8, 115u8, 116u8]
}

pub open spec fn key_info() -> Seq<u8> {
    seq![105u8, 110u8, 102u8, 111u8]
}

pub open spec fn key_name() -> Seq<u8> {
    seq![110u8, 97u8, 109u8, 101u8]
}

pub open spec fn key_piece_length() -> Seq<u8> {
    seq![112u8, 105u8, 101u8, 99u8, 101u8, 32u8, 108u8, 101u8, 110u8, 103u8, 116u8, 104u8]
}

pub open spec fn key_pieces() -> Seq<u8> {
    seq![112u8, 105u8, 101u8, 99u8, 101u8, 115u8]
}

pub open spec fn key_length() -> Seq<u8> {
    seq![108u8, 101u8, 110u8, 103u8, 116u8, 104u8]
}

pub open spec fn key_files() -> Seq<u8> {
    seq![102u8, 105u8, 108u8, 101u8, 115u8]
}

pub open spec fn key_path() -> Seq<u8> {
    seq![112u8, 97u8, 116u8, 104u8]
}

/// Whether two byte strings hold the same bytes.
fn bytes_eq(a: &Vec<u8>, b: &Vec<u8>) -> (r: bool)
    ensures
        r == (a@ == b@),
{
    if a.len() != b.len() {
        proof {
            assert(a@.len() != b@.len());
        }
        return false;
    }
    let mut i: usize = 0;
    while i < a.len()
        invariant
            i <= a@.len(),
            a@.len() == b@.len(),
            forall|k: int| 0 <= k < i ==> a@[k] == b@[k],
        decreases a@.len() - i,
    {
        if a[i] != b[i] {
            return false;
        }
        i = i + 1;
    }
    proof {
        assert(a@ =~= b@);
    }
    true
}

/// Looks up the first value stored under `key`.
fn dict_get_exec<'a>(ps: &'a Vec<(Vec<u8>, Value)>, key: &Vec<u8>) -> (r: Option<&'a Value>)
    ensures
        match r {
            Some(v) => dict_get(pair_views_of(ps@), key@) == Some(v.deep_view()),
            None => dict_get(pair_views_of(ps@), key@) is None,
        },
{
    let ghost pv = pair_views_of(ps@);
    let mut i: usize = 0;
    proof {
        assert(pv.skip(0) =~= pv);
    }
    while i < ps.len()
        invariant
            i <= ps@.len(),
            pv == pair_views_of(ps@),
            pv.len() == ps@.len(),
            dict_get(pv, key@) == dict_get(pv.skip(i as int), key@),
        decreases ps@.len() - i,
    {
        if bytes_eq(&ps[i].0, key) {
            proof {
                assert(pv.skip(i as int)[0] == pv[i as int]);
                assert(pv[i as int].0 == key@);
            }
            return Some(&ps[i].1);
        }
        proof {
            assert(pv.skip(i as int)[0] == pv[i as int]);
            assert(pv[i as int].0 != key@);
            assert(pv.skip(i as int).drop_first() =~= pv.skip(i as int + 1));
        }
        i = i + 1;
    }
    proof {
        assert(pv.skip(i as int).len() == 0);
    }
    None
}

/// The first entry of the dictionary run starting at `i` whose key is
/// `key`: its value and the byte span `[start, end)` the value occupied.
pub open spec fn spec_info_entry(s: Seq<u8>, i: int, key: Seq<u8>) -> Option<(SpecValue, int, int)>
    decreases s.len() - i,
{
    if i < 0 || i >= s.len() {
        None
    } else if s[i] == 101 {
        None
    } else if !is_digit(s[i]) {
        None
    } else {
        match spec_str_token(s, i) {
            Err(_) => None,
            Ok((k, j)) => if i < j <= s.len() {
                match spec_decode(s, j) {
                    Err(_) => None,
                    Ok((v, m)) => if k == key {
                        Some((v, j, m))
                    } else if j < m <= s.len() {
                        spec_info_entry(s, m, key)
                    } else {
                        None
                    },
                }
            } else {
                None
            },
        }
    }
}

/// The span an entry walk reports decodes to exactly the reported value.
pub proof fn lemma_info_entry_decodes(s: Seq<u8>, i: int, key: Seq<u8>)
    ensures
        spec_info_entry(s, i, key) matches Some((v, a, b)) ==> spec_decode(s, a)
            == Ok::<(SpecValue, int), DecodeError>((v, b)),
    decreases s.len() - i,
{
    if 0 <= i < s.len() && s[i] != 101 && is_digit(s[i]) {
        match spec_str_token(s, i) {
            Err(_) => {}
            Ok((k, j)) => {
                if i < j <= s.len() {
                    match spec_decode(s, j) {
                        Err(_) => {}
                        Ok((v, m)) => {
                            if k != key && j < m <= s.len() {
                                lemma_info_entry_decodes(s, m, key);
                            }
                        }
                    }
                }
            }
        }
    }
}

/// Walks the top-level dictionary's entries, decoding each, and returns
/// the value stored under `key` with the byte span it occupied.
fn find_entry_span(buffer: &[u8], key: &Vec<u8>) -> (r: Option<(Value, usize, usize)>)
    ensures
        match r {
            Some((v, a, b)) => spec_info_entry(buffer@, 1, key@) == Some(
                (v.deep_view(), a as int, b as int),
            ),
            None => spec_info_entry(buffer@, 1, key@) is None,
        },
{
    let ghost s = buffer@;
    let len = buffer.len();
    let mut cur: usize = 1;
    loop
        invariant
            1 <= cur,
            s == buffer@,
            len == s.len(),
            spec_info_entry(s, 1, key@) == spec_info_entry(s, cur as int, key@),
        decreases s.len() + 1 - cur,
    {
        if cur >= len {
            return None;
        }
        let b = buffer[cur];
        if b == 101 {
            return None;
        }
        if b < 48 || b > 57 {
            return None;
        }
        match crate::decode::str_token(buffer, cur) {
            Err(_) => {
                return None;
            },
            Ok((k, j)) => {
                proof {
                    lemma_str_token_offsets(s, cur as int);
                }
                match decode_value(buffer, j) {
                    Err(_) => {
                        return None;
                    },
                    Ok((v, m)) => {
                        proof {
                            lemma_decode_offsets(s, j as int);
                        }
                        if bytes_eq(&k, key) {
                            return Some((v, j, m));
                        }
                        cur = m;
                    },
                }
            },
        }
    }
}

/// Copies a byte string.
fn clone_bytes(b: &Vec<u8>) -> (r: Vec<u8>)
    ensures
        r@ == b@,
{
    let mut r: Vec<u8> = Vec::new();
    let mut i: usize = 0;
    while i < b.len()
        invariant
            i <= b@.len(),
            r@ == b@.subrange(0, i as int),
        decreases b@.len() - i,
    {
        r.push(b[i]);
        proof {
            assert(b@.subrange(0, i as int).push(b@[i as int]) =~= b@.subrange(0, i as int + 1));
        }
        i = i + 1;
    }
    proof {
        assert(b@.subrange(0, b@.len() as int) =~= b@);
    }
    r
}

fn key_info_vec() -> (r: Vec<u8>)
    ensures
        r@ == key_info(),
{
    let mut v: Vec<u8> = Vec::new();
    v.push(105);
    v.push(110);
    v.push(102);
    v.push(111);
    proof {
        assert(v@ =~= key_info());
    }
    v
}

fn key_announce_vec() -> (r: Vec<u8>)
    ensures
        r@ == key_announce(),
{
    let mut v: Vec<u8> = Vec::new();
    v.push(97);
    v.push(110);
    v.push(110);
    v.push(111);
    v.push(117);
    v.push(110);
    v.push(99);
    v.push(101);
    proof {
        assert(v@ =~= key_announce());
    }
    v
}

fn key_announce_list_vec() -> (r: Vec<u8>)
    ensures
        r@ == key_announce_list(),
{
    let mut v = key_announce_vec();
    v.push(45);
    v.push(108);
    v.push(105);
    v.push(115);
    v.push(116);
    proof {
        assert(v@ =~= key_announce_list());
    }
    v
}

fn key_name_vec() -> (r: Vec<u8>)
    ensures
        r@ == key_name(),
{
    let mut v: Vec<u8> = Vec::new();
    v.push(110);
    v.push(97);
    v.push(109);
    v.push(101);
    proof {
        assert(v@ =~= key_name());
    }
    v
}

fn key_piece_length_vec() -> (r: Vec<u8>)
    ensures
        r@ == key_piece_length(),
{
    let mut v: Vec<u8> = Vec::new();
    v.push(112);
    v.push(105);
    v.push(101);
    v.push(99);
    v.push(101);
    v.push(32);
    v.push(108);
    v.push(101);
    v.push(110);
    v.push(103);
    v.push(116);
    v.push(104);
    proof {
        assert(v@ =~= key_piece_length());
    }
    v
}

fn key_pieces_vec() -> (r: Vec<u8>)
    ensures
        r@ == key_pieces(),
{
    let mut v: Vec<u8> = Vec::new();
    v.push(112);
    v.push(105);
    v.push(101);
    v.push(99);
    v.push(101);
    v.push(115);
    proof {
        assert(v@ =~= key_pieces());
    }
    v
}

fn key_length_vec() -> (r: Vec<u8>)
    ensures
        r@ == key_length(),
{
    let mut v: Vec<u8> = Vec::new();
    v.push(108);
    v.push(101);
    v.push(110);
    v.push(103);
    v.push(116);
    v.push(104);
    proof {
        assert(v@ =~= key_length());
    }
    v
}

fn key_files_vec() -> (r: Vec<u8>)
    ensures
        r@ == key_files(),
{
    let mut v: Vec<u8> = Vec::new();
    v.push(102);
    v.push(105);
    v.push(108);
    v.push(101);
    v.push(115);
    proof {
        assert(v@ =~= key_files());
    }
    v
}

fn key_path_vec() -> (r: Vec<u8>)
    ensures
        r@ == key_path(),
{
    let mut v: Vec<u8> = Vec::new();
    v.push(112);
    v.push(97);
    v.push(116);
    v.push(104);
    proof {
        assert(v@ =~= key_path());
    }
    v
}

/// The `announce` field of the top-level dictionary: required, a byte
/// string, and valid text.
pub open spec fn spec_validate_announce(ps: Seq<(Seq<u8>, SpecValue)>) -> Result<
    Seq<u8>,
    TorrentError,
> {
    match dict_get(ps, key_announce()) {
        Option::None => Err(
            TorrentError::Validation(ValidationError::MissingField(FieldName::Announce)),
        ),
        Option::Some(SpecValue::Str(a)) => if utf8_valid(a) {
            Ok(a)
        } else {
            Err(
                TorrentError::Validation(
                    ValidationError::TypeMismatch(FieldName::Announce, ExpectedKind::Text),
                ),
            )
        },
        Option::Some(_) => Err(
            TorrentError::Validation(
                ValidationError::TypeMismatch(FieldName::Announce, ExpectedKind::ByteString),
            ),
        ),
    }
}

/// One tier of trackers: every entry must be a byte string.
pub open spec fn spec_tier(ts: Seq<SpecValue>) -> Result<Seq<Seq<u8>>, TorrentError>
    decreases ts.len(),
{
    if ts.len() == 0 {
        Ok(Seq::empty())
    } else {
        match ts[0] {
            SpecValue::Str(b) => match spec_tier(ts.drop_first()) {
                Ok(rest) => Ok(seq![b] + rest),
                Err(e) => Err(e),
            },
            _ => Err(
                TorrentError::Validation(
                    ValidationError::TypeMismatch(FieldName::AnnounceList, ExpectedKind::ByteString),
                ),
            ),
        }
    }
}

/// The tracker tiers: every entry must be a list of byte strings.
pub open spec fn spec_tiers(es: Seq<SpecValue>) -> Result<Seq<Seq<Seq<u8>>>, TorrentError>
    decreases es.len(),
{
    if es.len() == 0 {
        Ok(Seq::empty())
    } else {
        match es[0] {
            SpecValue::List(ts) => match spec_tier(ts) {
                Ok(t) => match spec_tiers(es.drop_first()) {
                    Ok(rest) => Ok(seq![t] + rest),
                    Err(e) => Err(e),
                },
                Err(e) => Err(e),
            },
            _ => Err(
                TorrentError::Validation(
                    ValidationError::TypeMismatch(FieldName::AnnounceList, ExpectedKind::List),
                ),
            ),
        }
    }
}

/// The optional `announce-list` field: absent, or a list of lists of
/// byte strings.
pub open spec fn spec_validate_announce_list(ps: Seq<(Seq<u8>, SpecValue)>) -> Result<
    Option<Seq<Seq<Seq<u8>>>>,
    TorrentError,
> {
    match dict_get(ps, key_announce_list()) {
        Option::None => Ok(Option::None),
        Option::Some(SpecValue::List(tiers)) => match spec_tiers(tiers) {
            Ok(t) => Ok(Option::Some(t)),
            Err(e) => Err(e),
        },
        Option::Some(_) => Err(
            TorrentError::Validation(
                ValidationError::TypeMismatch(FieldName::AnnounceList, ExpectedKind::List),
            ),
        ),
    }
}

/// A file's path segments: every entry must be a byte string.
pub open spec fn spec_path(segs: Seq<SpecValue>) -> Result<Seq<Seq<u8>>, TorrentError>
    decreases segs.len(),
{
    if segs.len() == 0 {
        Ok(Seq::empty())
    } else {
        match segs[0] {
            SpecValue::Str(b) => match spec_path(segs.drop_first()) {
                Ok(rest) => Ok(seq![b] + rest),
                Err(e) => Err(e),
            },
            _ => Err(
                TorrentError::Validation(
                    ValidationError::TypeMismatch(FieldName::Path, ExpectedKind::ByteString),
                ),
            ),
        }
    }
}

/// One entry of the `files` list: a dictionary with a non-negative
/// `length` and a `path` list of byte strings.
pub open spec fn spec_file_entry(v: SpecValue) -> Result<SpecFileEntry, TorrentError> {
    match v {
        SpecValue::Dict(fps) => match dict_get(fps, key_length()) {
            Option::None => Err(
                TorrentError::Validation(ValidationError::MissingField(FieldName::Length)),
            ),
            Option::Some(SpecValue::Int(l)) => if l >= 0 {
                match dict_get(fps, key_path()) {
                    Option::None => Err(
                        TorrentError::Validation(ValidationError::MissingField(FieldName::Path)),
                    ),
                    Option::Some(SpecValue::List(segs)) => match spec_path(segs) {
                        Ok(p) => Ok(SpecFileEntry { length: l, path: p }),
                        Err(e) => Err(e),
                    },
                    Option::Some(_) => Err(
                        TorrentError::Validation(
                            ValidationError::TypeMismatch(FieldName::Path, ExpectedKind::List),
                        ),
                    ),
                }
            } else {
                Err(
                    TorrentError::Validation(
                        ValidationError::TypeMismatch(
                            FieldName::Length,
                            ExpectedKind::NonNegativeInteger,
                        ),
                    ),
                )
            },
            Option::Some(_) => Err(
                TorrentError::Validation(
                    ValidationError::TypeMismatch(FieldName::Length, ExpectedKind::Integer),
                ),
            ),
        },
        _ => Err(
            TorrentError::Validation(
                ValidationError::TypeMismatch(FieldName::Files, ExpectedKind::Dictionary),
            ),
        ),
    }
}

/// The `files` list of a multi-file torrent.
pub open spec fn spec_files(es: Seq<SpecValue>) -> Result<Seq<SpecFileEntry>, TorrentError>
    decreases es.len(),
{
    if es.len() == 0 {
        Ok(Seq::empty())
    } else {
        match spec_file_entry(es[0]) {
            Ok(f) => match spec_files(es.drop_first()) {
                Ok(rest) => Ok(seq![f] + rest),
                Err(e) => Err(e),
            },
            Err(e) => Err(e),
        }
    }
}

/// The validated `info` dictionary: `name` a byte string, `piece length`
/// a positive integer, `pieces` a byte string of 20-byte hashes, and
/// exactly one of `length` or `files`.
pub open spec fn spec_validate_info(ips: Seq<(Seq<u8>, SpecValue)>) -> Result<
    SpecInfoDict,
    TorrentError,
> {
    match dict_get(ips, key_name()) {
        Option::None => Err(
            TorrentError::Validation(ValidationError::MissingField(FieldName::Name)),
        ),
        Option::Some(SpecValue::Str(name)) => match dict_get(ips, key_piece_length()) {
            Option::None => Err(
                TorrentError::Validation(ValidationError::MissingField(FieldName::PieceLength)),
            ),
            Option::Some(SpecValue::Int(pl)) => if pl > 0 {
                match dict_get(ips, key_pieces()) {
                    Option::None => Err(
                        TorrentError::Validation(ValidationError::MissingField(FieldName::Pieces)),
                    ),
                    Option::Some(SpecValue::Str(pcs)) => if pcs.len() % 20 == 0 {
                        match spec_file_mode(ips) {
                            Ok(mode) => Ok(
                                SpecInfoDict { name, piece_length: pl, pieces: pcs, mode },
                            ),
                            Err(e) => Err(e),
                        }
                    } else {
                        Err(TorrentError::Validation(ValidationError::InvalidPieceTableLength))
                    },
                    Option::Some(_) => Err(
                        TorrentError::Validation(
                            ValidationError::TypeMismatch(
                                FieldName::Pieces,
                                ExpectedKind::ByteString,
                            ),
                        ),
                    ),
                }
            } else {
                Err(
                    TorrentError::Validation(
                        ValidationError::TypeMismatch(
                            FieldName::PieceLength,
                            ExpectedKind::PositiveInteger,
                        ),
                    ),
                )
            },
            Option::Some(_) => Err(
                TorrentError::Validation(
                    ValidationError::TypeMismatch(FieldName::PieceLength, ExpectedKind::Integer),
                ),
            ),
        },
        Option::Some(_) => Err(
            TorrentError::Validation(
                ValidationError::TypeMismatch(FieldName::Name, ExpectedKind::ByteString),
            ),
        ),
    }
}

/// Exactly one of `length` and `files` must be present; both or neither
/// is an error.
pub open spec fn spec_file_mode(ips: Seq<(Seq<u8>, SpecValue)>) -> Result<
    SpecFileMode,
    TorrentError,
> {
    match (dict_get(ips, key_length()), dict_get(ips, key_files())) {
        (Option::Some(_), Option::Some(_)) => Err(
            TorrentError::Validation(ValidationError::ConflictingFileMode),
        ),
        (Option::None, Option::None) => Err(
            TorrentError::Validation(ValidationError::ConflictingFileMode),
        ),
        (Option::Some(SpecValue::Int(l)), Option::None) => if l >= 0 {
            Ok(SpecFileMode::SingleFile(l))
        } else {
            Err(
                TorrentError::Validation(
                    ValidationError::TypeMismatch(
                        FieldName::Length,
                        ExpectedKind::NonNegativeInteger,
                    ),
                ),
            )
        },
        (Option::Some(_), Option::None) => Err(
            TorrentError::Validation(
                ValidationError::TypeMismatch(FieldName::Length, ExpectedKind::Integer),
            ),
        ),
        (Option::None, Option::Some(SpecValue::List(fs))) => match spec_files(fs) {
            Ok(entries) => Ok(SpecFileMode::MultiFile(entries)),
            Err(e) => Err(e),
        },
        (Option::None, Option::Some(_)) => Err(
            TorrentError::Validation(
                ValidationError::TypeMismatch(FieldName::Files, ExpectedKind::List),
            ),
        ),
    }
}

/// What loading a metainfo buffer yields: decode the document, require a
/// dictionary, validate its fields, and record the byte span of the
/// `info` value as the decoder saw it.
pub open spec fn spec_parse_torrent(s: Seq<u8>) -> Result<SpecTorrent, TorrentError> {
    match spec_decode(s, 0) {
        Err(e) => Err(TorrentError::Decode(e)),
        Ok((v, _)) => match v {
            SpecValue::Dict(ps) => match spec_validate_announce(ps) {
                Err(e) => Err(e),
                Ok(a) => match spec_validate_announce_list(ps) {
                    Err(e) => Err(e),
                    Ok(al) => match spec_info_entry(s, 1, key_info()) {
                        Option::None => Err(
                            TorrentError::Validation(ValidationError::MissingField(FieldName::Info)),
                        ),
                        Option::Some((iv, a0, b0)) => match iv {
                            SpecValue::Dict(ips) => match spec_validate_info(ips) {
                                Err(e) => Err(e),
                                Ok(info) => Ok(
                                    SpecTorrent {
                                        announce: a,
                                        announce_list: al,
                                        info,
                                        info_start: a0,
                                        info_end: b0,
                                    },
                                ),
                            },
                            _ => Err(
                                TorrentError::Validation(
                                    ValidationError::TypeMismatch(
                                        FieldName::Info,
                                        ExpectedKind::Dictionary,
                                    ),
                                ),
                            ),
                        },
                    },
                },
            },
            _ => Err(
                TorrentError::Validation(
                    ValidationError::TypeMismatch(FieldName::Root, ExpectedKind::Dictionary),
                ),
            ),
        },
    }
}

/// Validates one tier of trackers.
fn validate_tier(ts: &Vec<Value>) -> (r: Result<Vec<Vec<u8>>, TorrentError>)
    ensures
        match r {
            Ok(t) => spec_tier(views_of(ts@)) == Ok::<Seq<Seq<u8>>, TorrentError>(t.deep_view()),
            Err(e) => spec_tier(views_of(ts@)) == Err::<Seq<Seq<u8>>, TorrentError>(e),
        },
{
    let ghost vs = views_of(ts@);
    let mut out: Vec<Vec<u8>> = Vec::new();
    let mut i: usize = 0;
    proof {
        assert(vs.skip(0) =~= vs);
        assert(out.deep_view() =~= Seq::<Seq<u8>>::empty());
        match spec_tier(vs) {
            Ok(rest) => {
                assert(out.deep_view() + rest =~= rest);
            }
            Err(_) => {}
        }
    }
    while i < ts.len()
        invariant
            i <= ts@.len(),
            vs == views_of(ts@),
            vs.len() == ts@.len(),
            spec_tier(vs) == (match spec_tier(vs.skip(i as int)) {
                Ok(rest) => Ok::<Seq<Seq<u8>>, TorrentError>(out.deep_view() + rest),
                Err(e) => Err::<Seq<Seq<u8>>, TorrentError>(e),
            }),
        decreases ts@.len() - i,
    {
        proof {
            assert(vs.skip(i as int)[0] == vs[i as int]);
            assert(vs[i as int] == ts@[i as int].deep_view());
            assert(vs.skip(i as int).drop_first() =~= vs.skip(i as int + 1));
        }
        match &ts[i] {
            Value::ByteString(b) => {
                let nb = clone_bytes(b);
                let ghost pre = out.deep_view();
                let ghost nbv = nb.deep_view();
                proof {
                    assert(nbv =~= nb@);
                }
                out.push(nb);
                proof {
                    assert(out.deep_view() =~= pre.push(nbv));
                    match spec_tier(vs.skip(i as int + 1)) {
                        Ok(rest) => {
                            assert(pre + (seq![nbv] + rest) =~= pre.push(nbv) + rest);
                        }
                        Err(_) => {}
                    }
                }
            },
            _ => {
                return Err(
                    TorrentError::Validation(
                        ValidationError::TypeMismatch(
                            FieldName::AnnounceList,
                            ExpectedKind::ByteString,
                        ),
                    ),
                );
            },
        }
        i = i + 1;
    }
    proof {
        assert(vs.skip(i as int).len() == 0);
        match spec_tier(vs.skip(i as int)) {
            Ok(rest) => {
                assert(out.deep_view() + rest =~= out.deep_view());
            }
            Err(_) => {}
        }
    }
    Ok(out)
}

/// Validates the list of tracker tiers.
fn validate_tiers(es: &Vec<Value>) -> (r: Result<Vec<Vec<Vec<u8>>>, TorrentError>)
    ensures
        match r {
            Ok(t) => spec_tiers(views_of(es@)) == Ok::<Seq<Seq<Seq<u8>>>, TorrentError>(
                t.deep_view(),
            ),
            Err(e) => spec_tiers(views_of(es@)) == Err::<Seq<Seq<Seq<u8>>>, TorrentError>(e),
        },
{
    let ghost vs = views_of(es@);
    let mut out: Vec<Vec<Vec<u8>>> = Vec::new();
    let mut i: usize = 0;
    proof {
        assert(vs.skip(0) =~= vs);
        assert(out.deep_view() =~= Seq::<Seq<Seq<u8>>>::empty());
        match spec_tiers(vs) {
            Ok(rest) => {
                assert(out.deep_view() + rest =~= rest);
            }
            Err(_) => {}
        }
    }
    while i < es.len()
        invariant
            i <= es@.len(),
            vs == views_of(es@),
            vs.len() == es@.len(),
            spec_tiers(vs) == (match spec_tiers(vs.skip(i as int)) {
                Ok(rest) => Ok::<Seq<Seq<Seq<u8>>>, TorrentError>(out.deep_view() + rest),
                Err(e) => Err::<Seq<Seq<Seq<u8>>>, TorrentError>(e),
            }),
        decreases es@.len() - i,
    {
        proof {
            assert(vs.skip(i as int)[0] == vs[i as int]);
            assert(vs[i as int] == es@[i as int].deep_view());
            assert(vs.skip(i as int).drop_first() =~= vs.skip(i as int + 1));
        }
        match &es[i] {
            Value::List(ts) => {
                match validate_tier(ts) {
                    Ok(t) => {
                        let ghost pre = out.deep_view();
                        let ghost tv = t.deep_view();
                        out.push(t);
                        proof {
                            assert(out.deep_view() =~= pre.push(tv));
                            match spec_tiers(vs.skip(i as int + 1)) {
                                Ok(rest) => {
                                    assert(pre + (seq![tv] + rest) =~= pre.push(tv) + rest);
                                }
                                Err(_) => {}
                            }
                        }
                    },
                    Err(e) => {
                        return Err(e);
                    },
                }
            },
            _ => {
                return Err(
                    TorrentError::Validation(
                        ValidationError::TypeMismatch(FieldName::AnnounceList, ExpectedKind::List),
                    ),
                );
            },
        }
        i = i + 1;
    }
    proof {
        assert(vs.skip(i as int).len() == 0);
        match spec_tiers(vs.skip(i as int)) {
            Ok(rest) => {
                assert(out.deep_view() + rest =~= out.deep_view());
            }
            Err(_) => {}
        }
    }
    Ok(out)
}

/// Validates a file's path segments.
fn validate_path(segs: &Vec<Value>) -> (r: Result<Vec<Vec<u8>>, TorrentError>)
    ensures
        match r {
            Ok(p) => spec_path(views_of(segs@)) == Ok::<Seq<Seq<u8>>, TorrentError>(p.deep_view()),
            Err(e) => spec_path(views_of(segs@)) == Err::<Seq<Seq<u8>>, TorrentError>(e),
        },
{
    let ghost vs = views_of(segs@);
    let mut out: Vec<Vec<u8>> = Vec::new();
    let mut i: usize = 0;
    proof {
        assert(vs.skip(0) =~= vs);
        assert(out.deep_view() =~= Seq::<Seq<u8>>::empty());
        match spec_path(vs) {
            Ok(rest) => {
                assert(out.deep_view() + rest =~= rest);
            }
            Err(_) => {}
        }
    }
    while i < segs.len()
        invariant
            i <= segs@.len(),
            vs == views_of(segs@),
            vs.len() == segs@.len(),
            spec_path(vs) == (match spec_path(vs.skip(i as int)) {
                Ok(rest) => Ok::<Seq<Seq<u8>>, TorrentError>(out.deep_view() + rest),
                Err(e) => Err::<Seq<Seq<u8>>, TorrentError>(e),
            }),
        decreases segs@.len() - i,
    {
        proof {
            assert(vs.skip(i as int)[0] == vs[i as int]);
            assert(vs[i as int] == segs@[i as int].deep_view());
            assert(vs.skip(i as int).drop_first() =~= vs.skip(i as int + 1));
        }
        match &segs[i] {
            Value::ByteString(b) => {
                let nb = clone_bytes(b);
                let ghost pre = out.deep_view();
                let ghost nbv = nb.deep_view();
                proof {
                    assert(nbv =~= nb@);
                }
                out.push(nb);
                proof {
                    assert(out.deep_view() =~= pre.push(nbv));
                    match spec_path(vs.skip(i as int + 1)) {
                        Ok(rest) => {
                            assert(pre + (seq![nbv] + rest) =~= pre.push(nbv) + rest);
                        }
                        Err(_) => {}
                    }
                }
            },
            _ => {
                return Err(
                    TorrentError::Validation(
                        ValidationError::TypeMismatch(FieldName::Path, ExpectedKind::ByteString),
                    ),
                );
            },
        }
        i = i + 1;
    }
    proof {
        assert(vs.skip(i as int).len() == 0);
        match spec_path(vs.skip(i as int)) {
            Ok(rest) => {
                assert(out.deep_view() + rest =~= out.deep_view());
            }
            Err(_) => {}
        }
    }
    Ok(out)
}

/// Validates one entry of the `files` list.
fn validate_file_entry(v: &Value) -> (r: Result<FileEntry, TorrentError>)
    ensures
        match r {
            Ok(f) => spec_file_entry(v.deep_view()) == Ok::<SpecFileEntry, TorrentError>(
                f.deep_view(),
            ),
            Err(e) => spec_file_entry(v.deep_view()) == Err::<SpecFileEntry, TorrentError>(e),
        },
{
    match v {
        Value::Dictionary(fps) => {
            let klen = key_length_vec();
            let kpath = key_path_vec();
            match dict_get_exec(fps, &klen) {
                Option::None => Err(
                    TorrentError::Validation(ValidationError::MissingField(FieldName::Length)),
                ),
                Option::Some(Value::Integer(l)) => {
                    let l = *l;
                    if l >= 0 {
                        match dict_get_exec(fps, &kpath) {
                            Option::None => Err(
                                TorrentError::Validation(
                                    ValidationError::MissingField(FieldName::Path),
                                ),
                            ),
                            Option::Some(Value::List(segs)) => match validate_path(segs) {
                                Ok(p) => Ok(FileEntry { length: l, path: p }),
                                Err(e) => Err(e),
                            },
                            Option::Some(_) => Err(
                                TorrentError::Validation(
                                    ValidationError::TypeMismatch(
                                        FieldName::Path,
                                        ExpectedKind::List,
                                    ),
                                ),
                            ),
                        }
                    } else {
                        Err(
                            TorrentError::Validation(
                                ValidationError::TypeMismatch(
                                    FieldName::Length,
                                    ExpectedKind::NonNegativeInteger,
                                ),
                            ),
                        )
                    }
                },
                Option::Some(_) => Err(
                    TorrentError::Validation(
                        ValidationError::TypeMismatch(FieldName::Length, ExpectedKind::Integer),
                    ),
                ),
            }
        },
        _ => Err(
            TorrentError::Validation(
                ValidationError::TypeMismatch(FieldName::Files, ExpectedKind::Dictionary),
            ),
        ),
    }
}

/// Validates the `files` list.
fn validate_files(es: &Vec<Value>) -> (r: Result<Vec<FileEntry>, TorrentError>)
    ensures
        match r {
            Ok(fs) => spec_files(views_of(es@)) == Ok::<Seq<SpecFileEntry>, TorrentError>(
                fs.deep_view(),
            ),
            Err(e) => spec_files(views_of(es@)) == Err::<Seq<SpecFileEntry>, TorrentError>(e),
        },
{
    let ghost vs = views_of(es@);
    let mut out: Vec<FileEntry> = Vec::new();
    let mut i: usize = 0;
    proof {
        assert(vs.skip(0) =~= vs);
        assert(out.deep_view() =~= Seq::<SpecFileEntry>::empty());
        match spec_files(vs) {
            Ok(rest) => {
                assert(out.deep_view() + rest =~= rest);
            }
            Err(_) => {}
        }
    }
    while i < es.len()
        invariant
            i <= es@.len(),
            vs == views_of(es@),
            vs.len() == es@.len(),
            spec_files(vs) == (match spec_files(vs.skip(i as int)) {
                Ok(rest) => Ok::<Seq<SpecFileEntry>, TorrentError>(out.deep_view() + rest),
                Err(e) => Err::<Seq<SpecFileEntry>, TorrentError>(e),
            }),
        decreases es@.len() - i,
    {
        proof {
            assert(vs.skip(i as int)[0] == vs[i as int]);
            assert(vs[i as int] == es@[i as int].deep_view());
            assert(vs.skip(i as int).drop_first() =~= vs.skip(i as int + 1));
        }
        match validate_file_entry(&es[i]) {
            Ok(f) => {
                let ghost pre = out.deep_view();
                let ghost fv = f.deep_view();
                out.push(f);
                proof {
                    assert(out.deep_view() =~= pre.push(fv));
                    match spec_files(vs.skip(i as int + 1)) {
                        Ok(rest) => {
                            assert(pre + (seq![fv] + rest) =~= pre.push(fv) + rest);
                        }
                        Err(_) => {}
                    }
                }
            },
            Err(e) => {
                return Err(e);
            },
        }
        i = i + 1;
    }
    proof {
        assert(vs.skip(i as int).len() == 0);
        match spec_files(vs.skip(i as int)) {
            Ok(rest) => {
                assert(out.deep_view() + rest =~= out.deep_view());
            }
            Err(_) => {}
        }
    }
    Ok(out)
}

/// Validates the `info` dictionary.
fn validate_info(ips: &Vec<(Vec<u8>, Value)>) -> (r: Result<InfoDict, TorrentError>)
    ensures
        match r {
            Ok(info) => spec_validate_info(pair_views_of(ips@)) == Ok::<SpecInfoDict, TorrentError>(
                info.deep_view(),
            ),
            Err(e) => spec_validate_info(pair_views_of(ips@)) == Err::<SpecInfoDict, TorrentError>(
                e,
            ),
        },
{
    let kname = key_name_vec();
    let kpl = key_piece_length_vec();
    let kpcs = key_pieces_vec();
    let klen = key_length_vec();
    let kfiles = key_files_vec();
    let name: Vec<u8> = match dict_get_exec(ips, &kname) {
        Option::None => {
            return Err(TorrentError::Validation(ValidationError::MissingField(FieldName::Name)));
        },
        Option::Some(Value::ByteString(n)) => clone_bytes(n),
        Option::Some(_) => {
            return Err(
                TorrentError::Validation(
                    ValidationError::TypeMismatch(FieldName::Name, ExpectedKind::ByteString),
                ),
            );
        },
    };
    let piece_length: i64 = match dict_get_exec(ips, &kpl) {
        Option::None => {
            return Err(
                TorrentError::Validation(ValidationError::MissingField(FieldName::PieceLength)),
            );
        },
        Option::Some(Value::Integer(pl)) => {
            if *pl > 0 {
                *pl
            } else {
                return Err(
                    TorrentError::Validation(
                        ValidationError::TypeMismatch(
                            FieldName::PieceLength,
                            ExpectedKind::PositiveInteger,
                        ),
                    ),
                );
            }
        },
        Option::Some(_) => {
            return Err(
                TorrentError::Validation(
                    ValidationError::TypeMismatch(FieldName::PieceLength, ExpectedKind::Integer),
                ),
            );
        },
    };
    let pieces: Vec<u8> = match dict_get_exec(ips, &kpcs) {
        Option::None => {
            return Err(TorrentError::Validation(ValidationError::MissingField(FieldName::Pieces)));
        },
        Option::Some(Value::ByteString(pcs)) => {
            if pcs.len() % 20 == 0 {
                clone_bytes(pcs)
            } else {
                return Err(TorrentError::Validation(ValidationError::InvalidPieceTableLength));
            }
        },
        Option::Some(_) => {
            return Err(
                TorrentError::Validation(
                    ValidationError::TypeMismatch(FieldName::Pieces, ExpectedKind::ByteString),
                ),
            );
        },
    };
    let has_length = dict_get_exec(ips, &klen);
    let has_files = dict_get_exec(ips, &kfiles);
    let mode: FileMode = match (has_length, has_files) {
        (Option::Some(_), Option::Some(_)) => {
            return Err(TorrentError::Validation(ValidationError::ConflictingFileMode));
        },
        (Option::None, Option::None) => {
            return Err(TorrentError::Validation(ValidationError::ConflictingFileMode));
        },
        (Option::Some(Value::Integer(l)), Option::None) => {
            if *l >= 0 {
                FileMode::SingleFile { length: *l }
            } else {
                return Err(
                    TorrentError::Validation(
                        ValidationError::TypeMismatch(
                            FieldName::Length,
                            ExpectedKind::NonNegativeInteger,
                        ),
                    ),
                );
            }
        },
        (Option::Some(_), Option::None) => {
            return Err(
                TorrentError::Validation(
                    ValidationError::TypeMismatch(FieldName::Length, ExpectedKind::Integer),
                ),
            );
        },
        (Option::None, Option::Some(Value::List(fs))) => {
            match validate_files(fs) {
                Ok(entries) => FileMode::MultiFile { files: entries },
                Err(e) => {
                    return Err(e);
                },
            }
        },
        (Option::None, Option::Some(_)) => {
            return Err(
                TorrentError::Validation(
                    ValidationError::TypeMismatch(FieldName::Files, ExpectedKind::List),
                ),
            );
        },
    };
    Ok(InfoDict { name, piece_length, pieces, mode })
}

/// Parses and validates a metainfo document: decodes the buffer,
/// requires the top-level value to be a dictionary, validates every
/// field `spec_parse_torrent` asks for, and records the exact byte span
/// `[info_start, info_end)` the `info` value occupied in the buffer.
pub fn parse_torrent(buffer: &[u8]) -> (r: Result<Torrent, TorrentError>)
    ensures
        match r {
            Ok(t) => spec_parse_torrent(buffer@) == Ok::<SpecTorrent, TorrentError>(t.deep_view()),
            Err(e) => spec_parse_torrent(buffer@) == Err::<SpecTorrent, TorrentError>(e),
        },
{
    let decoded = match decode_value(buffer, 0) {
        Err(e) => {
            return Err(TorrentError::Decode(e));
        },
        Ok((v, _)) => v,
    };
    let ps = match decoded {
        Value::Dictionary(ps) => ps,
        _ => {
            return Err(
                TorrentError::Validation(
                    ValidationError::TypeMismatch(FieldName::Root, ExpectedKind::Dictionary),
                ),
            );
        },
    };
    let kann = key_announce_vec();
    let announce: Vec<u8> = match dict_get_exec(&ps, &kann) {
        Option::None => {
            return Err(
                TorrentError::Validation(ValidationError::MissingField(FieldName::Announce)),
            );
        },
        Option::Some(Value::ByteString(a)) => {
            if check_utf8(a) {
                clone_bytes(a)
            } else {
                return Err(
                    TorrentError::Validation(
                        ValidationError::TypeMismatch(FieldName::Announce, ExpectedKind::Text),
                    ),
                );
            }
        },
        Option::Some(_) => {
            return Err(
                TorrentError::Validation(
                    ValidationError::TypeMismatch(FieldName::Announce, ExpectedKind::ByteString),
                ),
            );
        },
    };
    let kal = key_announce_list_vec();
    let announce_list: Option<Vec<Vec<Vec<u8>>>> = match dict_get_exec(&ps, &kal) {
        Option::None => Option::None,
        Option::Some(Value::List(tiers)) => {
            match validate_tiers(tiers) {
                Ok(t) => Option::Some(t),
                Err(e) => {
                    return Err(e);
                },
            }
        },
        Option::Some(_) => {
            return Err(
                TorrentError::Validation(
                    ValidationError::TypeMismatch(FieldName::AnnounceList, ExpectedKind::List),
                ),
            );
        },
    };
    let kinfo = key_info_vec();
    let (iv, a0, b0) = match find_entry_span(buffer, &kinfo) {
        Option::None => {
            return Err(TorrentError::Validation(ValidationError::MissingField(FieldName::Info)));
        },
        Option::Some(entry) => entry,
    };
    let ips = match iv {
        Value::Dictionary(ips) => ips,
        _ => {
            return Err(
                TorrentError::Validation(
                    ValidationError::TypeMismatch(FieldName::Info, ExpectedKind::Dictionary),
                ),
            );
        },
    };
    let info = match validate_info(&ips) {
        Ok(info) => info,
        Err(e) => {
            return Err(e);
        },
    };
    Ok(Torrent { announce, announce_list, info, info_start: a0, info_end: b0 })
}

/// The span a successful parse records decodes to the `info` value and
/// lies within the buffer.
pub proof fn lemma_parse_torrent_span(s: Seq<u8>, t: SpecTorrent)
    requires
        spec_parse_torrent(s) == Ok::<SpecTorrent, TorrentError>(t),
    ensures
        0 <= t.info_start <= t.info_end <= s.len(),
        spec_decode(s, t.info_start) matches Ok((v, end)) && end == t.info_end,
{
    lemma_info_entry_decodes(s, 1, key_info());
    match spec_info_entry(s, 1, key_info()) {
        Option::Some((iv, a0, b0)) => {
            lemma_decode_offsets(s, a0);
        }
        Option::None => {}
    }
}

/// Info-hash stability: two metainfo buffers that are byte-identical
/// within their recorded `info` spans — however much they differ outside
/// them — yield the same info hash, because the hash is derived from the
/// raw span and never from a re-encoding.
pub proof fn lemma_info_hash_stability(s1: Seq<u8>, t1: SpecTorrent, s2: Seq<u8>, t2: SpecTorrent)
    requires
        spec_parse_torrent(s1) == Ok::<SpecTorrent, TorrentError>(t1),
        spec_parse_torrent(s2) == Ok::<SpecTorrent, TorrentError>(t2),
        s1.subrange(t1.info_start, t1.info_end) == s2.subrange(t2.info_start, t2.info_end),
    ensures
        sha1_of(s1.subrange(t1.info_start, t1.info_end)) == sha1_of(
            s2.subrange(t2.info_start, t2.info_end),
        ),
        0 <= t1.info_start <= t1.info_end <= s1.len(),
        0 <= t2.info_start <= t2.info_end <= s2.len(),
{
    lemma_parse_torrent_span(s1, t1);
    lemma_parse_torrent_span(s2, t2);
}

/// Parses a metainfo buffer and derives its info hash from the exact
/// original bytes of the `info` value.
pub fn load_torrent(buffer: &[u8]) -> (r: Result<(Torrent, [u8; 20]), TorrentError>)
    ensures
        match r {
            Ok((t, h)) => spec_parse_torrent(buffer@) == Ok::<SpecTorrent, TorrentError>(
                t.deep_view(),
            ) && h@ == sha1_of(
                buffer@.subrange(t.deep_view().info_start, t.deep_view().info_end),
            ),
            Err(e) => spec_parse_torrent(buffer@) == Err::<SpecTorrent, TorrentError>(e),
        },
{
    let t = match parse_torrent(buffer) {
        Ok(t) => t,
        Err(e) => {
            return Err(e);
        },
    };
    proof {
        lemma_parse_torrent_span(buffer@, t.deep_view());
    }
    let raw = vstd::slice::slice_subrange(buffer, t.info_start, t.info_end);
    let h = compute_info_hash(raw);
    Ok((t, h))
}

} // verus!
