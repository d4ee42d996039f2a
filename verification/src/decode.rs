//! Decoding of bencode: a single-pass, cursor-based recursive-descent
//! parser over an untrusted byte buffer.
//!
//! The grammar, stated over mathematical sequences by `spec_decode`, is the
//! reference; the executable decoder is proved to return exactly what
//! `spec_decode` says, errors included.

use vstd::prelude::*;

use crate::value::{SpecValue, Value, views_of, pair_views_of};
use vstd::string::StringSliceAdditionalSpecFns;

verus! {

broadcast use vstd::std_specs::vec::group_vec_axioms, vstd::seq::group_seq_axioms;

/// Why a decode failed.
#[derive(Clone, Copy, Debug, PartialEq, Eq, Structural)]
pub enum DecodeError {
    /// The buffer was exhausted in the middle of a token.
    UnexpectedEnd,
    /// A byte-string length prefix was malformed, or a token began with a
    /// byte that cannot start any bencode value.
    InvalidLength,
    /// An integer literal was malformed: empty, non-numeric, non-minimal
    /// (leading zero or `-0`), or out of the signed 64-bit range.
    InvalidInteger,
    /// A dictionary key token was not a byte string.
    NonStringDictKey,
    /// A list or dictionary ran out of input before its closing `e`.
    UnterminatedContainer,
}

pub const I_BYTE: u8 = 105;

pub const L_BYTE: u8 = 108;

pub const D_BYTE: u8 = 100;

pub const E_BYTE: u8 = 101;

pub const COLON_BYTE: u8 = 58;

pub const MINUS_BYTE: u8 = 45;

pub const ZERO_BYTE: u8 = 48;

/// Whether `b` is an ASCII decimal digit.
pub open spec fn is_digit(b: u8) -> bool {
    48 <= b <= 57
}

/// The numeric value of an ASCII decimal digit.
pub open spec fn digit_val(b: u8) -> int {
    b - 48
}

/// The first position at or after `i` that does not hold a digit.
pub open spec fn digits_end(s: Seq<u8>, i: int) -> int
    decreases s.len() - i,
{
    if 0 <= i < s.len() && is_digit(s[i]) {
        digits_end(s, i + 1)
    } else {
        i
    }
}

/// The value of a sequence of ASCII digits read as a decimal numeral.
pub open spec fn digits_val(d: Seq<u8>) -> int
    decreases d.len(),
{
    if d.len() == 0 {
        0
    } else {
        digits_val(d.drop_last()) * 10 + digit_val(d.last())
    }
}

/// Reading a byte-string token `<len>:<bytes>` at position `i`; `s[i]` is
/// expected to be a digit. Returns the bytes and the position just past
/// them.
pub open spec fn spec_str_token(s: Seq<u8>, i: int) -> Result<(Seq<u8>, int), DecodeError> {
    let dend = digits_end(s, i);
    if s[i] == ZERO_BYTE && dend > i + 1 {
        Err(DecodeError::InvalidLength)
    } else if dend >= s.len() {
        Err(DecodeError::UnexpectedEnd)
    } else if s[dend] != COLON_BYTE {
        Err(DecodeError::InvalidLength)
    } else {
        let len = digits_val(s.subrange(i, dend));
        if dend + 1 + len > s.len() {
            Err(DecodeError::UnexpectedEnd)
        } else {
            Ok((s.subrange(dend + 1, dend + 1 + len), dend + 1 + len))
        }
    }
}

/// Reading an integer token `i<digits>e` at position `i`; `s[i]` is
/// expected to be `i`. Returns the value and the position just past the
/// closing `e`.
pub open spec fn spec_int_token(s: Seq<u8>, i: int) -> Result<(int, int), DecodeError> {
    if i + 1 >= s.len() {
        Err(DecodeError::UnexpectedEnd)
    } else {
        let neg = s[i + 1] == MINUS_BYTE;
        let dstart = if neg {
            i + 2
        } else {
            i + 1
        };
        if dstart >= s.len() {
            Err(DecodeError::UnexpectedEnd)
        } else {
            let dend = digits_end(s, dstart);
            if dend == dstart {
                Err(DecodeError::InvalidInteger)
            } else if dend >= s.len() {
                Err(DecodeError::UnexpectedEnd)
            } else if s[dend] != E_BYTE {
                Err(DecodeError::InvalidInteger)
            } else if s[dstart] == ZERO_BYTE && (dend > dstart + 1 || neg) {
                Err(DecodeError::InvalidInteger)
            } else {
                let v = digits_val(s.subrange(dstart, dend));
                if neg {
                    if v > 0x8000000000000000 {
                        Err(DecodeError::InvalidInteger)
                    } else {
                        Ok((-v, dend + 1))
                    }
                } else {
                    if v > 0x7fffffffffffffff {
                        Err(DecodeError::InvalidInteger)
                    } else {
                        Ok((v, dend + 1))
                    }
                }
            }
        }
    }
}

/// Decoding exactly one bencode value at position `i`. On success the new
/// position is just past the value's terminator, so the value occupied
/// exactly the bytes `[i, new position)`.
pub open spec fn spec_decode(s: Seq<u8>, i: int) -> Result<(SpecValue, int), DecodeError>
    decreases s.len() - i, 0int,
{
    if i < 0 || i >= s.len() {
        Err(DecodeError::UnexpectedEnd)
    } else if s[i] == I_BYTE {
        match spec_int_token(s, i) {
            Ok((n, j)) => Ok((SpecValue::Int(n), j)),
            Err(e) => Err(e),
        }
    } else if is_digit(s[i]) {
        match spec_str_token(s, i) {
            Ok((b, j)) => Ok((SpecValue::Str(b), j)),
            Err(e) => Err(e),
        }
    } else if s[i] == L_BYTE {
        match spec_decode_elems(s, i + 1) {
            Ok((vs, j)) => Ok((SpecValue::List(vs), j)),
            Err(e) => Err(e),
        }
    } else if s[i] == D_BYTE {
        match spec_decode_pairs(s, i + 1) {
            Ok((ps, j)) => Ok((SpecValue::Dict(ps), j)),
            Err(e) => Err(e),
        }
    } else {
        Err(DecodeError::InvalidLength)
    }
}

/// Decoding list elements from position `i` up to and past a closing `e`.
pub open spec fn spec_decode_elems(s: Seq<u8>, i: int) -> Result<
    (Seq<SpecValue>, int),
    DecodeError,
>
    decreases s.len() - i, 1int,
{
    if i < 0 || i >= s.len() {
        Err(DecodeError::UnterminatedContainer)
    } else if s[i] == E_BYTE {
        Ok((Seq::empty(), i + 1))
    } else {
        match spec_decode(s, i) {
            Err(e) => Err(e),
            Ok((v, j)) => if i < j <= s.len() {
                match spec_decode_elems(s, j) {
                    Ok((vs, k)) => Ok((seq![v] + vs, k)),
                    Err(e) => Err(e),
                }
            } else {
                Err(DecodeError::UnterminatedContainer)
            },
        }
    }
}

/// Decoding dictionary entries from position `i` up to and past a closing
/// `e`. Keys must be byte strings; key order is not assumed sorted.
pub open spec fn spec_decode_pairs(s: Seq<u8>, i: int) -> Result<
    (Seq<(Seq<u8>, SpecValue)>, int),
    DecodeError,
>
    decreases s.len() - i, 1int,
{
    if i < 0 || i >= s.len() {
        Err(DecodeError::UnterminatedContainer)
    } else if s[i] == E_BYTE {
        Ok((Seq::empty(), i + 1))
    } else if !is_digit(s[i]) {
        Err(DecodeError::NonStringDictKey)
    } else {
        match spec_str_token(s, i) {
            Err(e) => Err(e),
            Ok((key, j)) => if i < j <= s.len() {
                match spec_decode(s, j) {
                    Err(e) => Err(e),
                    Ok((v, m)) => if j <= m <= s.len() {
                        match spec_decode_pairs(s, m) {
                            Ok((ps, k)) => Ok((seq![(key, v)] + ps, k)),
                            Err(e) => Err(e),
                        }
                    } else {
                        Err(DecodeError::UnterminatedContainer)
                    },
                }
            } else {
                Err(DecodeError::UnterminatedContainer)
            },
        }
    }
}

/// Basic facts about `digits_end`: it never moves backwards, stays within
/// the buffer once started inside it, and delimits a maximal run of
/// digits.
pub proof fn lemma_digits_end(s: Seq<u8>, i: int)
    requires
        0 <= i <= s.len(),
    ensures
        i <= digits_end(s, i) <= s.len(),
        forall|k: int| i <= k < digits_end(s, i) ==> is_digit(#[trigger] s[k]),
        digits_end(s, i) == s.len() || !is_digit(s[digits_end(s, i)]),
    decreases s.len() - i,
{
    if i < s.len() && is_digit(s[i]) {
        lemma_digits_end(s, i + 1);
    }
}

/// Skipping one digit does not change where the run of digits ends.
pub proof fn lemma_digits_end_step(s: Seq<u8>, i: int)
    requires
        0 <= i < s.len(),
        is_digit(s[i]),
    ensures
        digits_end(s, i) == digits_end(s, i + 1),
{
}

/// A decimal numeral is never negative.
pub proof fn lemma_digits_val_nonneg(d: Seq<u8>)
    requires
        forall|k: int| 0 <= k < d.len() ==> is_digit(#[trigger] d[k]),
    ensures
        digits_val(d) >= 0,
    decreases d.len(),
{
    if d.len() > 0 {
        lemma_digits_val_nonneg(d.drop_last());
    }
}

/// Extending a numeral by one digit multiplies its value by ten and adds
/// the digit.
pub proof fn lemma_digits_val_step(s: Seq<u8>, a: int, k: int)
    requires
        0 <= a <= k < s.len(),
    ensures
        digits_val(s.subrange(a, k + 1)) == digits_val(s.subrange(a, k)) * 10 + digit_val(s[k]),
{
    assert(s.subrange(a, k + 1).drop_last() =~= s.subrange(a, k));
    assert(s.subrange(a, k + 1).last() == s[k]);
}

/// A successful byte-string token starts before it ends and ends within
/// the buffer.
pub proof fn lemma_str_token_offsets(s: Seq<u8>, i: int)
    requires
        0 <= i < s.len(),
        is_digit(s[i]),
    ensures
        spec_str_token(s, i) matches Ok((b, j)) ==> i < j <= s.len(),
{
    lemma_digits_end(s, i);
    let dend = digits_end(s, i);
    lemma_digits_val_nonneg(s.subrange(i, dend));
}

/// A successful integer token starts before it ends and ends within the
/// buffer.
pub proof fn lemma_int_token_offsets(s: Seq<u8>, i: int)
    requires
        0 <= i < s.len(),
    ensures
        spec_int_token(s, i) matches Ok((n, j)) ==> i < j <= s.len(),
{
    if i + 1 < s.len() {
        let neg = s[i + 1] == MINUS_BYTE;
        let dstart = if neg {
            i + 2
        } else {
            i + 1
        };
        if dstart < s.len() {
            lemma_digits_end(s, dstart);
        }
    }
}

/// A successful decode always consumes at least one byte and never runs
/// past the end of the buffer.
pub proof fn lemma_decode_offsets(s: Seq<u8>, i: int)
    ensures
        spec_decode(s, i) matches Ok((v, j)) ==> i < j <= s.len(),
        spec_decode_elems(s, i) matches Ok((vs, j)) ==> i < j <= s.len(),
        spec_decode_pairs(s, i) matches Ok((ps, j)) ==> i < j <= s.len(),
{
    lemma_decode_offsets_value_only(s, i);
    lemma_decode_elems_offsets(s, i);
    lemma_decode_pairs_offsets(s, i);
}

proof fn lemma_decode_elems_offsets(s: Seq<u8>, i: int)
    ensures
        spec_decode_elems(s, i) matches Ok((vs, j)) ==> i < j <= s.len(),
    decreases s.len() - i, 3int,
{
    if 0 <= i < s.len() && s[i] != E_BYTE {
        lemma_decode_offsets_value_only(s, i);
        match spec_decode(s, i) {
            Ok((v, j)) => {
                if i < j <= s.len() {
                    lemma_decode_elems_offsets(s, j);
                }
            }
            Err(_) => {}
        }
    }
}

proof fn lemma_decode_pairs_offsets(s: Seq<u8>, i: int)
    ensures
        spec_decode_pairs(s, i) matches Ok((ps, j)) ==> i < j <= s.len(),
    decreases s.len() - i, 3int,
{
    if 0 <= i < s.len() && s[i] != E_BYTE && is_digit(s[i]) {
        lemma_str_token_offsets(s, i);
        match spec_str_token(s, i) {
            Ok((key, j)) => {
                if i < j <= s.len() {
                    lemma_decode_offsets_value_only(s, j);
                    match spec_decode(s, j) {
                        Ok((v, m)) => {
                            if j <= m <= s.len() {
                                lemma_decode_pairs_offsets(s, m);
                            }
                        }
                        Err(_) => {}
                    }
                }
            }
            Err(_) => {}
        }
    }
}

proof fn lemma_decode_offsets_value_only(s: Seq<u8>, i: int)
    ensures
        spec_decode(s, i) matches Ok((v, j)) ==> i < j <= s.len(),
    decreases s.len() - i, 2int,
{
    if 0 <= i < s.len() {
        if s[i] == I_BYTE {
            lemma_int_token_offsets(s, i);
        }
        if is_digit(s[i]) {
            lemma_str_token_offsets(s, i);
        }
        if s[i] == L_BYTE {
            lemma_decode_elems_offsets(s, i + 1);
        }
        if s[i] == D_BYTE {
            lemma_decode_pairs_offsets(s, i + 1);
        }
    }
}

/// Extending the prefix of digits by one does not lower the numeral's
/// value.
proof fn lemma_digits_val_mono(s: Seq<u8>, a: int, k: int, b: int)
    requires
        0 <= a <= k <= b <= s.len(),
        forall|m: int| a <= m < b ==> is_digit(#[trigger] s[m]),
    ensures
        digits_val(s.subrange(a, b)) >= digits_val(s.subrange(a, k)),
    decreases b - k,
{
    if k < b {
        lemma_digits_val_step(s, a, b - 1);
        assert(forall|m: int|
            0 <= m < s.subrange(a, b - 1).len() ==> is_digit(#[trigger] s.subrange(a, b - 1)[m]));
        lemma_digits_val_nonneg(s.subrange(a, b - 1));
        lemma_digits_val_mono(s, a, k, b - 1);
    }
}

/// Finds the end of the run of digits that starts at `start`.
fn scan_digits(buffer: &[u8], start: usize) -> (j: usize)
    requires
        start <= buffer@.len(),
    ensures
        j as int == digits_end(buffer@, start as int),
        start <= j <= buffer@.len(),
{
    let ghost s = buffer@;
    let mut j = start;
    loop
        invariant
            start <= j <= s.len(),
            s == buffer@,
            digits_end(s, start as int) == digits_end(s, j as int),
        ensures
            start <= j <= s.len(),
            j as int == digits_end(s, start as int),
        decreases s.len() - j,
    {
        if j == buffer.len() {
            break ;
        }
        let b = buffer[j];
        if b < 48 || b > 57 {
            break ;
        }
        proof {
            lemma_digits_end_step(s, j as int);
        }
        j = j + 1;
    }
    j
}

/// Reads the numeral in `[a, b)` into a 64-bit word; reports when the
/// numeral's value does not fit one.
fn digits_to_u64(buffer: &[u8], a: usize, b: usize) -> (r: Option<u64>)
    requires
        a <= b <= buffer@.len(),
        forall|k: int| a <= k < b ==> is_digit(#[trigger] buffer@[k]),
    ensures
        match r {
            Some(v) => v as int == digits_val(buffer@.subrange(a as int, b as int)),
            None => digits_val(buffer@.subrange(a as int, b as int)) > u64::MAX,
        },
{
    let ghost s = buffer@;
    let mut acc: u64 = 0;
    let mut k = a;
    while k < b
        invariant
            a <= k <= b <= s.len(),
            s == buffer@,
            forall|m: int| a <= m < b ==> is_digit(#[trigger] s[m]),
            acc as int == digits_val(s.subrange(a as int, k as int)),
        decreases b - k,
    {
        let d = buffer[k] - 48;
        proof {
            lemma_digits_val_step(s, a as int, k as int);
        }
        if acc > (u64::MAX - d as u64) / 10 {
            proof {
                lemma_digits_val_nonneg(s.subrange(a as int, k as int));
                assert(acc * 10 + d as u64 > u64::MAX) by {
                    assert(acc >= (u64::MAX - d as u64) / 10 + 1);
                    assert(((u64::MAX - d as u64) / 10 + 1) * 10 > u64::MAX - d as u64) by {
                        vstd::arithmetic::div_mod::lemma_fundamental_div_mod(
                            u64::MAX - d as u64,
                            10,
                        );
                    }
                    assert(acc * 10 >= ((u64::MAX - d as u64) / 10 + 1) * 10) by (nonlinear_arith)
                        requires
                            acc >= (u64::MAX - d as u64) / 10 + 1,
                    ;
                }
                lemma_digits_val_mono(s, a as int, k as int + 1, b as int);
            }
            return None;
        }
        assert(acc * 10 + d as u64 <= u64::MAX) by {
            assert(acc <= (u64::MAX - d as u64) / 10);
            assert(((u64::MAX - d as u64) / 10) * 10 <= u64::MAX - d as u64) by {
                vstd::arithmetic::div_mod::lemma_fundamental_div_mod(u64::MAX - d as u64, 10);
            }
            assert(acc * 10 <= ((u64::MAX - d as u64) / 10) * 10) by (nonlinear_arith)
                requires
                    acc <= (u64::MAX - d as u64) / 10,
            ;
        }
        acc = acc * 10 + d as u64;
        k = k + 1;
    }
    Some(acc)
}

/// Parses an integer token `i<digits>e` starting at `i`.
fn int_token(buffer: &[u8], i: usize) -> (r: Result<(i64, usize), DecodeError>)
    requires
        i < buffer@.len(),
        buffer@[i as int] == I_BYTE,
    ensures
        match r {
            Ok((n, j)) => spec_int_token(buffer@, i as int) == Ok::<(int, int), DecodeError>(
                (n as int, j as int),
            ),
            Err(e) => spec_int_token(buffer@, i as int) == Err::<(int, int), DecodeError>(e),
        },
{
    let ghost s = buffer@;
    let len = buffer.len();
    if i + 1 >= len {
        return Err(DecodeError::UnexpectedEnd);
    }
    let neg = buffer[i + 1] == MINUS_BYTE;
    let dstart = if neg {
        i + 2
    } else {
        i + 1
    };
    if dstart >= len {
        return Err(DecodeError::UnexpectedEnd);
    }
    let dend = scan_digits(buffer, dstart);
    proof {
        lemma_digits_end(s, dstart as int);
    }
    if dend == dstart {
        return Err(DecodeError::InvalidInteger);
    }
    if dend >= len {
        return Err(DecodeError::UnexpectedEnd);
    }
    if buffer[dend] != E_BYTE {
        return Err(DecodeError::InvalidInteger);
    }
    if buffer[dstart] == ZERO_BYTE && (dend > dstart + 1 || neg) {
        return Err(DecodeError::InvalidInteger);
    }
    let v = digits_to_u64(buffer, dstart, dend);
    match v {
        None => Err(DecodeError::InvalidInteger),
        Some(m) => {
            if neg {
                if m > 0x8000000000000000u64 {
                    Err(DecodeError::InvalidInteger)
                } else if m == 0x8000000000000000u64 {
                    Ok((i64::MIN, dend + 1))
                } else {
                    Ok((-(m as i64), dend + 1))
                }
            } else {
                if m > 0x7fffffffffffffffu64 {
                    Err(DecodeError::InvalidInteger)
                } else {
                    Ok((m as i64, dend + 1))
                }
            }
        },
    }
}

/// Parses a byte-string token `<len>:<bytes>` starting at `i`.
pub(crate) fn str_token(buffer: &[u8], i: usize) -> (r: Result<(Vec<u8>, usize), DecodeError>)
    requires
        i < buffer@.len(),
        is_digit(buffer@[i as int]),
    ensures
        match r {
            Ok((b, j)) => spec_str_token(buffer@, i as int) == Ok::<(Seq<u8>, int), DecodeError>(
                (b@, j as int),
            ),
            Err(e) => spec_str_token(buffer@, i as int) == Err::<(Seq<u8>, int), DecodeError>(e),
        },
{
    let ghost s = buffer@;
    let len = buffer.len();
    let dend = scan_digits(buffer, i);
    proof {
        lemma_digits_end(s, i as int);
    }
    if buffer[i] == ZERO_BYTE && dend > i + 1 {
        return Err(DecodeError::InvalidLength);
    }
    if dend >= len {
        return Err(DecodeError::UnexpectedEnd);
    }
    if buffer[dend] != COLON_BYTE {
        return Err(DecodeError::InvalidLength);
    }
    let v = digits_to_u64(buffer, i, dend);
    match v {
        None => Err(DecodeError::UnexpectedEnd),
        Some(l) => {
            if l > (len - dend - 1) as u64 {
                Err(DecodeError::UnexpectedEnd)
            } else {
                let l = l as usize;
                let sub = vstd::slice::slice_subrange(buffer, dend + 1, dend + 1 + l);
                let bytes = vstd::slice::slice_to_vec(sub);
                Ok((bytes, dend + 1 + l))
            }
        },
    }
}

/// What remains of decoding list elements once the models in `prefix`
/// have already been taken from the input.
pub open spec fn elems_after(s: Seq<u8>, i: int, prefix: Seq<SpecValue>) -> Result<
    (Seq<SpecValue>, int),
    DecodeError,
> {
    match spec_decode_elems(s, i) {
        Ok((vs, j)) => Ok((prefix + vs, j)),
        Err(e) => Err(e),
    }
}

/// What remains of decoding dictionary entries once the pairs in `prefix`
/// have already been taken from the input.
pub open spec fn pairs_after(s: Seq<u8>, i: int, prefix: Seq<(Seq<u8>, SpecValue)>) -> Result<
    (Seq<(Seq<u8>, SpecValue)>, int),
    DecodeError,
> {
    match spec_decode_pairs(s, i) {
        Ok((ps, j)) => Ok((prefix + ps, j)),
        Err(e) => Err(e),
    }
}

proof fn lemma_views_of_push(es: Seq<Value>, v: Value)
    ensures
        views_of(es.push(v)) =~= views_of(es).push(v.deep_view()),
{
    broadcast use crate::value::group_value_views;

}

proof fn lemma_pair_views_of_push(ps: Seq<(Vec<u8>, Value)>, k: Vec<u8>, v: Value)
    ensures
        pair_views_of(ps.push((k, v))) =~= pair_views_of(ps).push((k@, v.deep_view())),
{
    broadcast use crate::value::group_value_views;

}

/// Decodes exactly one bencode value at `offset`. On success the returned
/// offset is just past the value's terminator, so the value occupied
/// exactly the bytes `[offset, returned offset)` of the buffer; the
/// returned error, if any, is exactly the one the grammar assigns to the
/// input.
pub fn decode_value(buffer: &[u8], offset: usize) -> (r: Result<(Value, usize), DecodeError>)
    ensures
        match r {
            Ok((v, end)) => spec_decode(buffer@, offset as int) == Ok::<
                (SpecValue, int),
                DecodeError,
            >((v.deep_view(), end as int)),
            Err(e) => spec_decode(buffer@, offset as int) == Err::<(SpecValue, int), DecodeError>(
                e,
            ),
        },
    decreases buffer@.len() - offset,
{
    broadcast use crate::value::group_value_views;

    let ghost s = buffer@;
    let len = buffer.len();
    if offset >= len {
        return Err(DecodeError::UnexpectedEnd);
    }
    let b = buffer[offset];
    if b == I_BYTE {
        match int_token(buffer, offset) {
            Ok((n, j)) => Ok((Value::Integer(n), j)),
            Err(e) => Err(e),
        }
    } else if 48 <= b && b <= 57 {
        match str_token(buffer, offset) {
            Ok((bytes, j)) => Ok((Value::ByteString(bytes), j)),
            Err(e) => Err(e),
        }
    } else if b == L_BYTE {
        let mut elems: Vec<Value> = Vec::new();
        let mut cur = offset + 1;
        proof {
            assert(views_of(elems@) =~= Seq::<SpecValue>::empty());
            match spec_decode_elems(s, cur as int) {
                Ok((vs, j)) => {
                    assert(views_of(elems@) + vs =~= vs);
                }
                Err(_) => {}
            }
        }
        loop
            invariant
                offset + 1 <= cur <= len,
                len == s.len(),
                s == buffer@,
                s[offset as int] == L_BYTE,
                spec_decode_elems(s, offset + 1) == elems_after(s, cur as int, views_of(elems@)),
            decreases s.len() - cur,
        {
            if cur == len {
                return Err(DecodeError::UnterminatedContainer);
            }
            if buffer[cur] == E_BYTE {
                proof {
                    assert(views_of(elems@) + Seq::<SpecValue>::empty() =~= views_of(elems@));
                }
                return Ok((Value::List(elems), cur + 1));
            }
            match decode_value(buffer, cur) {
                Err(e) => {
                    return Err(e);
                },
                Ok((v, j)) => {
                    proof {
                        lemma_decode_offsets(s, cur as int);
                        lemma_views_of_push(elems@, v);
                        match spec_decode_elems(s, j as int) {
                            Ok((vs, k)) => {
                                assert(views_of(elems@) + (seq![v.deep_view()] + vs) =~= views_of(
                                    elems@,
                                ).push(v.deep_view()) + vs);
                            }
                            Err(_) => {}
                        }
                    }
                    elems.push(v);
                    cur = j;
                },
            }
        }
    } else if b == D_BYTE {
        let mut pairs: Vec<(Vec<u8>, Value)> = Vec::new();
        let mut cur = offset + 1;
        proof {
            assert(pair_views_of(pairs@) =~= Seq::<(Seq<u8>, SpecValue)>::empty());
            match spec_decode_pairs(s, cur as int) {
                Ok((ps, j)) => {
                    assert(pair_views_of(pairs@) + ps =~= ps);
                }
                Err(_) => {}
            }
        }
        loop
            invariant
                offset + 1 <= cur <= len,
                len == s.len(),
                s == buffer@,
                s[offset as int] == D_BYTE,
                spec_decode_pairs(s, offset + 1) == pairs_after(s, cur as int, pair_views_of(pairs@)),
            decreases s.len() - cur,
        {
            if cur == len {
                return Err(DecodeError::UnterminatedContainer);
            }
            let kb = buffer[cur];
            if kb == E_BYTE {
                proof {
                    assert(pair_views_of(pairs@) + Seq::<(Seq<u8>, SpecValue)>::empty()
                        =~= pair_views_of(pairs@));
                }
                return Ok((Value::Dictionary(pairs), cur + 1));
            }
            if kb < 48 || kb > 57 {
                return Err(DecodeError::NonStringDictKey);
            }
            match str_token(buffer, cur) {
                Err(e) => {
                    return Err(e);
                },
                Ok((key, j)) => {
                    proof {
                        lemma_str_token_offsets(s, cur as int);
                    }
                    match decode_value(buffer, j) {
                        Err(e) => {
                            return Err(e);
                        },
                        Ok((v, m)) => {
                            proof {
                                lemma_decode_offsets(s, j as int);
                                lemma_pair_views_of_push(pairs@, key, v);
                                match spec_decode_pairs(s, m as int) {
                                    Ok((ps, k)) => {
                                        assert(pair_views_of(pairs@) + (seq![
                                            (key@, v.deep_view()),
                                        ] + ps) =~= pair_views_of(pairs@).push(
                                            (key@, v.deep_view()),
                                        ) + ps);
                                    }
                                    Err(_) => {}
                                }
                            }
                            pairs.push((key, v));
                            cur = m;
                        },
                    }
                },
            }
        }
    } else {
        Err(DecodeError::InvalidLength)
    }
}

/// Decodes the first bencode value of a text argument, returning the
/// value and the offset just past it (the rest of the text is left
/// untouched).
pub fn decode_bencoded_value(encoded_value: &str) -> (r: Result<(Value, usize), DecodeError>)
    ensures
        match r {
            Ok((v, end)) => spec_decode(encoded_value.spec_bytes(), 0) == Ok::<
                (SpecValue, int),
                DecodeError,
            >((v.deep_view(), end as int)),
            Err(e) => spec_decode(encoded_value.spec_bytes(), 0) == Err::<
                (SpecValue, int),
                DecodeError,
            >(e),
        },
{
    decode_value(encoded_value.as_bytes(), 0)
}

} // verus!

