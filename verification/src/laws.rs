//! The laws that tie the decoder and the encoder together: canonical
//! bytes decode to the value they encode, re-encoding reproduces them,
//! and normalization is idempotent.

use vstd::prelude::*;

use crate::value::{SpecValue, wf};
use crate::decode::{
    DecodeError, digit_val, digits_end, digits_val, is_digit, spec_decode, spec_decode_elems,
    spec_decode_pairs, spec_int_token, spec_str_token, lemma_decode_offsets, lemma_digits_end,
    lemma_digits_val_nonneg,
};
use crate::encode::{
    int_digits, insert_pair, lex_le, nat_digits, norm_elems, norm_pairs, normalize, raw_encode,
    raw_encode_elems, raw_encode_pairs, size_of, size_of_elems, size_of_pairs, sort_pairs,
    sorted_pairs, spec_encode, str_encode, lemma_insert_pair_len, lemma_sort_pairs_len,
    group_norm_views,
};

verus! {

broadcast use vstd::std_specs::vec::group_vec_axioms, vstd::seq::group_seq_axioms;

/// The minimal numeral of `n`: at least one byte, all digits, no leading
/// zero unless `n` is zero, and it reads back as `n`.
pub proof fn lemma_nat_digits(n: int)
    requires
        n >= 0,
    ensures
        nat_digits(n).len() >= 1,
        forall|k: int| 0 <= k < nat_digits(n).len() ==> is_digit(#[trigger] nat_digits(n)[k]),
        digits_val(nat_digits(n)) == n,
        nat_digits(n)[0] == 48 ==> n == 0 && nat_digits(n).len() == 1,
    decreases n,
{
    if n < 10 {
        let d = nat_digits(n);
        assert(d =~= seq![(48 + n) as u8]);
        assert(d.drop_last() =~= Seq::<u8>::empty());
        assert(digits_val(d) == digits_val(d.drop_last()) * 10 + digit_val(d.last()));
        assert(digits_val(d) == n);
    } else {
        lemma_nat_digits(n / 10);
        let d = nat_digits(n / 10);
        let whole = nat_digits(n);
        assert(whole == d.push((48 + n % 10) as u8));
        assert(whole.drop_last() =~= d);
        assert(digits_val(whole) == digits_val(d) * 10 + digit_val(whole.last()));
        assert(n / 10 * 10 + n % 10 == n) by {
            vstd::arithmetic::div_mod::lemma_fundamental_div_mod(n, 10);
        }
        assert(digits_val(whole) == n);
        assert(n / 10 >= 1);
        assert(whole[0] == d[0]);
        assert(forall|k: int| 0 <= k < whole.len() ==> is_digit(#[trigger] whole[k])) by {
            assert(forall|k: int| 0 <= k < d.len() ==> #[trigger] whole[k] == d[k]);
            assert(is_digit(whole[whole.len() - 1]));
        }
    }
}

/// A run of digits bounded on the right by a non-digit (or the end of
/// the buffer) is exactly what `digits_end` delimits.
pub proof fn lemma_digits_end_region(s: Seq<u8>, a: int, b: int)
    requires
        0 <= a <= b <= s.len(),
        forall|k: int| a <= k < b ==> is_digit(#[trigger] s[k]),
        b == s.len() || !is_digit(s[b]),
    ensures
        digits_end(s, a) == b,
    decreases b - a,
{
    if a < b {
        lemma_digits_end_region(s, a + 1, b);
    }
}

/// Reading back the encoding of an integer: the bytes `i<digits>e` laid
/// down at position `i` parse to exactly that integer.
pub proof fn lemma_int_token_inverse(s: Seq<u8>, i: int, n: int)
    requires
        i64::MIN <= n <= i64::MAX,
        0 <= i,
        i + int_digits(n).len() + 2 <= s.len(),
        s.subrange(i, i + int_digits(n).len() + 2) == seq![105u8] + int_digits(n) + seq![101u8],
    ensures
        spec_int_token(s, i) == Ok::<(int, int), DecodeError>((n, i + int_digits(n).len() + 2)),
{
    let d = int_digits(n);
    let tok = seq![105u8] + d + seq![101u8];
    let sub = s.subrange(i, i + d.len() + 2);
    assert(forall|k: int| 0 <= k < tok.len() ==> s[i + k] == #[trigger] tok[k]) by {
        assert(forall|k: int| 0 <= k < tok.len() ==> #[trigger] tok[k] == sub[k]);
    }
    if n >= 0 {
        lemma_nat_digits(n);
        assert(forall|k: int| 0 <= k < d.len() ==> s[i + 1 + k] == #[trigger] d[k]) by {
            assert(forall|k: int| 0 <= k < d.len() ==> #[trigger] d[k] == tok[k + 1]);
        }
        assert(s[i + 1] == d[0]);
        assert(s[i + 1] != 45);
        let dstart = i + 1;
        let dend = dstart + d.len();
        assert forall|k: int| dstart <= k < dend implies is_digit(#[trigger] s[k]) by {
            assert(s[k] == d[k - dstart]);
            assert(is_digit(d[k - dstart]));
        }
        assert(s[dend] == tok[d.len() as int + 1]);
        assert(s[dend] == 101);
        lemma_digits_end_region(s, dstart, dend);
        assert(s.subrange(dstart, dend) =~= d);
        assert(digits_val(s.subrange(dstart, dend)) == n);
        assert(s[dstart] == 48 ==> dend == dstart + 1);
    } else {
        lemma_nat_digits(-n);
        let nd = nat_digits(-n);
        assert(d =~= seq![45u8] + nd);
        assert(forall|k: int| 0 <= k < d.len() ==> s[i + 1 + k] == #[trigger] d[k]) by {
            assert(forall|k: int| 0 <= k < d.len() ==> #[trigger] d[k] == tok[k + 1]);
        }
        assert(s[i + 1] == d[0]);
        assert(s[i + 1] == 45);
        let dstart = i + 2;
        let dend = dstart + nd.len();
        assert(forall|k: int| 0 <= k < nd.len() ==> s[i + 2 + k] == #[trigger] nd[k]) by {
            assert(forall|k: int| 0 <= k < nd.len() ==> #[trigger] nd[k] == d[k + 1]);
        }
        assert forall|k: int| dstart <= k < dend implies is_digit(#[trigger] s[k]) by {
            assert(s[k] == nd[k - dstart]);
            assert(is_digit(nd[k - dstart]));
        }
        assert(s[dend] == tok[d.len() as int + 1]);
        assert(s[dend] == 101);
        lemma_digits_end_region(s, dstart, dend);
        assert(s.subrange(dstart, dend) =~= nd);
        assert(digits_val(s.subrange(dstart, dend)) == -n);
        assert(s[dstart] != 48);
        assert(-n <= 0x8000000000000000);
    }
}

/// Reading back the encoding of a byte string: the bytes
/// `<len>:<bytes>` laid down at position `i` parse to exactly those
/// bytes.
pub proof fn lemma_str_token_inverse(s: Seq<u8>, i: int, b: Seq<u8>)
    requires
        0 <= i,
        i + str_encode(b).len() <= s.len(),
        s.subrange(i, i + str_encode(b).len()) == str_encode(b),
    ensures
        spec_str_token(s, i) == Ok::<(Seq<u8>, int), DecodeError>((b, i + str_encode(b).len())),
        is_digit(s[i]),
{
    let nd = nat_digits(b.len() as int);
    lemma_nat_digits(b.len() as int);
    let tok = str_encode(b);
    let sub = s.subrange(i, i + tok.len());
    assert(forall|k: int| 0 <= k < tok.len() ==> s[i + k] == #[trigger] tok[k]) by {
        assert(forall|k: int| 0 <= k < tok.len() ==> #[trigger] tok[k] == sub[k]);
    }
    assert(forall|k: int| 0 <= k < nd.len() ==> s[i + k] == #[trigger] nd[k]) by {
        assert(forall|k: int| 0 <= k < nd.len() ==> #[trigger] nd[k] == tok[k]);
    }
    let dstart = i;
    let dend = i + nd.len();
    assert forall|k: int| dstart <= k < dend implies is_digit(#[trigger] s[k]) by {
        assert(s[k] == nd[k - dstart]);
        assert(is_digit(nd[k - dstart]));
    }
    assert(tok[nd.len() as int] == 58);
    assert(s[dend] == 58);
    lemma_digits_end_region(s, dstart, dend);
    assert(s.subrange(dstart, dend) =~= nd);
    assert(digits_val(s.subrange(dstart, dend)) == b.len());
    assert(s[dstart] == 48 ==> dend == dstart + 1);
    assert(forall|k: int| 0 <= k < b.len() ==> s[dend + 1 + k] == #[trigger] b[k]) by {
        assert(forall|k: int| 0 <= k < b.len() ==> #[trigger] b[k] == tok[nd.len() + 1 + k]);
    }
    assert(s.subrange(dend + 1, dend + 1 + b.len()) =~= b);
}

/// The concatenated encodings of the elements of `us` from index `k` on.
pub open spec fn raw_elems_from(us: Seq<SpecValue>, k: int) -> Seq<u8>
    decreases us.len() - k,
{
    if k < 0 || k >= us.len() {
        Seq::empty()
    } else {
        raw_encode(us[k]) + raw_elems_from(us, k + 1)
    }
}

/// The concatenated encodings of the pairs of `ps` from index `k` on.
pub open spec fn raw_pairs_from(ps: Seq<(Seq<u8>, SpecValue)>, k: int) -> Seq<u8>
    decreases ps.len() - k,
{
    if k < 0 || k >= ps.len() {
        Seq::empty()
    } else {
        str_encode(ps[k].0) + raw_encode(ps[k].1) + raw_pairs_from(ps, k + 1)
    }
}

/// A whole element run is any prefix of it followed by the rest.
pub proof fn lemma_elems_split(us: Seq<SpecValue>, k: int)
    requires
        0 <= k <= us.len(),
    ensures
        raw_encode_elems(us, us.len() as int) == raw_encode_elems(us, k) + raw_elems_from(us, k),
    decreases us.len() - k,
{
    if k == us.len() {
        assert(raw_encode_elems(us, k) + raw_elems_from(us, k) =~= raw_encode_elems(us, k));
    } else {
        lemma_elems_split(us, k + 1);
        assert(raw_encode_elems(us, k + 1) == raw_encode_elems(us, k) + raw_encode(us[k]));
        assert(raw_encode_elems(us, k) + raw_encode(us[k]) + raw_elems_from(us, k + 1)
            =~= raw_encode_elems(us, k) + (raw_encode(us[k]) + raw_elems_from(us, k + 1)));
    }
}

/// A whole pair run is any prefix of it followed by the rest.
pub proof fn lemma_pairs_split(ps: Seq<(Seq<u8>, SpecValue)>, k: int)
    requires
        0 <= k <= ps.len(),
    ensures
        raw_encode_pairs(ps, ps.len() as int) == raw_encode_pairs(ps, k) + raw_pairs_from(ps, k),
    decreases ps.len() - k,
{
    if k == ps.len() {
        assert(raw_encode_pairs(ps, k) + raw_pairs_from(ps, k) =~= raw_encode_pairs(ps, k));
    } else {
        lemma_pairs_split(ps, k + 1);
        assert(raw_encode_pairs(ps, k + 1) == raw_encode_pairs(ps, k) + str_encode(ps[k].0)
            + raw_encode(ps[k].1));
        assert(raw_encode_pairs(ps, k) + str_encode(ps[k].0) + raw_encode(ps[k].1)
            + raw_pairs_from(ps, k + 1) =~= raw_encode_pairs(ps, k) + (str_encode(ps[k].0)
            + raw_encode(ps[k].1) + raw_pairs_from(ps, k + 1)));
    }
}

/// Every value's encoding begins with the byte that selects its kind,
/// and is at least two bytes long.
pub proof fn lemma_raw_encode_first(u: SpecValue)
    ensures
        raw_encode(u).len() >= 2,
        u is Int ==> raw_encode(u)[0] == 105,
        u is Str ==> is_digit(raw_encode(u)[0]),
        u is List ==> raw_encode(u)[0] == 108,
        u is Dict ==> raw_encode(u)[0] == 100,
        raw_encode(u)[0] != 101,
{
    match u {
        SpecValue::Int(n) => {
            if n >= 0 {
                lemma_nat_digits(n);
            } else {
                lemma_nat_digits(-n);
            }
        }
        SpecValue::Str(b) => {
            lemma_nat_digits(b.len() as int);
            assert(raw_encode(u)[0] == nat_digits(b.len() as int)[0]);
        }
        SpecValue::List(_) => {}
        SpecValue::Dict(_) => {}
    }
}

/// Every value has positive size.
pub proof fn lemma_size_of_pos(u: SpecValue)
    ensures
        size_of(u) >= 1,
{
}

/// The size of a prefix of elements grows with the prefix.
pub proof fn lemma_size_of_elems_mono(us: Seq<SpecValue>, k1: int, k2: int)
    requires
        0 <= k1 <= k2 <= us.len(),
    ensures
        size_of_elems(us, k1) <= size_of_elems(us, k2),
    decreases k2 - k1,
{
    if k1 < k2 {
        lemma_size_of_elems_mono(us, k1, k2 - 1);
    }
}

/// The size of a prefix of pairs grows with the prefix.
pub proof fn lemma_size_of_pairs_mono(ps: Seq<(Seq<u8>, SpecValue)>, k1: int, k2: int)
    requires
        0 <= k1 <= k2 <= ps.len(),
    ensures
        size_of_pairs(ps, k1) <= size_of_pairs(ps, k2),
    decreases k2 - k1,
{
    if k1 < k2 {
        lemma_size_of_pairs_mono(ps, k1, k2 - 1);
    }
}

/// The heart of the round-trip: wherever the raw encoding of a
/// well-formed value lies in a buffer, decoding at its first byte yields
/// exactly that value and stops exactly at its last.
pub proof fn lemma_decode_raw_encode(s: Seq<u8>, i: int, u: SpecValue)
    requires
        wf(u),
        0 <= i,
        i + raw_encode(u).len() <= s.len(),
        s.subrange(i, i + raw_encode(u).len() as int) == raw_encode(u),
    ensures
        spec_decode(s, i) == Ok::<(SpecValue, int), DecodeError>(
            (u, i + raw_encode(u).len() as int),
        ),
    decreases size_of(u), 0int,
{
    let enc = raw_encode(u);
    lemma_raw_encode_first(u);
    assert(forall|k: int| 0 <= k < enc.len() ==> s[i + k] == #[trigger] enc[k]) by {
        assert(forall|k: int|
            0 <= k < enc.len() ==> #[trigger] enc[k] == s.subrange(i, i + enc.len() as int)[k]);
    }
    assert(s[i] == enc[0]);
    match u {
        SpecValue::Int(n) => {
            lemma_int_token_inverse(s, i, n);
        }
        SpecValue::Str(b) => {
            lemma_str_token_inverse(s, i, b);
            assert(s[i] != 105);
        }
        SpecValue::List(us) => {
            assert(s[i] == 108);
            assert(!is_digit(s[i]) && s[i] != 105);
            let body = raw_encode_elems(us, us.len() as int);
            lemma_elems_split(us, 0);
            assert(raw_elems_from(us, 0) == body);
            assert(enc =~= seq![108u8] + (raw_elems_from(us, 0) + seq![101u8]));
            let rf = raw_elems_from(us, 0);
            assert forall|m: int|
                0 <= m < rf.len() + 1 implies s.subrange(i + 1, i + 1 + rf.len() + 1)[m] == (rf
                + seq![101u8])[m] by {
                assert(s[i + 1 + m] == enc[1 + m]);
                assert(enc[1 + m] == (seq![108u8] + (rf + seq![101u8]))[1 + m]);
            }
            assert(s.subrange(i + 1, i + 1 + rf.len() + 1) =~= rf + seq![101u8]);
            lemma_size_of_elems_mono(us, 0, us.len() as int);
            lemma_decode_elems_raw(s, i + 1, us, 0);
            assert(us.skip(0) =~= us);
        }
        SpecValue::Dict(ps) => {
            assert(s[i] == 100);
            assert(!is_digit(s[i]) && s[i] != 105 && s[i] != 108);
            lemma_pairs_split(ps, 0);
            assert(enc =~= seq![100u8] + (raw_pairs_from(ps, 0) + seq![101u8]));
            let rf = raw_pairs_from(ps, 0);
            assert forall|m: int|
                0 <= m < rf.len() + 1 implies s.subrange(i + 1, i + 1 + rf.len() + 1)[m] == (rf
                + seq![101u8])[m] by {
                assert(s[i + 1 + m] == enc[1 + m]);
                assert(enc[1 + m] == (seq![100u8] + (rf + seq![101u8]))[1 + m]);
            }
            assert(s.subrange(i + 1, i + 1 + rf.len() + 1) =~= rf + seq![101u8]);
            lemma_size_of_pairs_mono(ps, 0, ps.len() as int);
            lemma_decode_pairs_raw(s, i + 1, ps, 0);
            assert(ps.skip(0) =~= ps);
        }
    }
}

/// As `lemma_decode_raw_encode`, for the run of list elements from
/// index `k` on, terminated by `e`.
proof fn lemma_decode_elems_raw(s: Seq<u8>, i: int, us: Seq<SpecValue>, k: int)
    requires
        forall|m: int| 0 <= m < us.len() ==> wf(#[trigger] us[m]),
        0 <= k <= us.len(),
        0 <= i,
        i + raw_elems_from(us, k).len() + 1 <= s.len(),
        s.subrange(i, i + raw_elems_from(us, k).len() + 1) == raw_elems_from(us, k) + seq![101u8],
    ensures
        spec_decode_elems(s, i) == Ok::<(Seq<SpecValue>, int), DecodeError>(
            (us.skip(k), i + raw_elems_from(us, k).len() + 1),
        ),
    decreases size_of_elems(us, us.len() as int) - size_of_elems(us, k), 1int,
{
    let rest = raw_elems_from(us, k);
    assert(forall|m: int| 0 <= m < rest.len() + 1 ==> s[i + m] == #[trigger] (rest + seq![
        101u8,
    ])[m]) by {
        assert(forall|m: int|
            0 <= m < rest.len() + 1 ==> #[trigger] (rest + seq![101u8])[m] == s.subrange(
                i,
                i + rest.len() + 1,
            )[m]);
    }
    if k == us.len() {
        assert(rest =~= Seq::<u8>::empty());
        assert(s[i] == (rest + seq![101u8])[0]);
        assert(s[i] == 101);
        assert(us.skip(k) =~= Seq::<SpecValue>::empty());
    } else {
        let e0 = raw_encode(us[k]);
        let rf = raw_elems_from(us, k + 1);
        lemma_raw_encode_first(us[k]);
        assert(rest == e0 + rf);
        assert(rest + seq![101u8] =~= e0 + (rf + seq![101u8]));
        assert(s[i] == (rest + seq![101u8])[0]);
        assert(s[i] == e0[0]);
        assert(s[i] != 101);
        assert forall|m: int|
            0 <= m < e0.len() implies s.subrange(i, i + e0.len() as int)[m] == e0[m] by {
            assert(s[i + m] == (rest + seq![101u8])[m]);
            assert((e0 + (rf + seq![101u8]))[m] == e0[m]);
        }
        assert(s.subrange(i, i + e0.len() as int) =~= e0);
        assert(size_of_elems(us, k + 1) == size_of_elems(us, k) + size_of(us[k]));
        lemma_size_of_elems_mono(us, k + 1, us.len() as int);
        lemma_size_of_pos(us[k]);
        lemma_decode_raw_encode(s, i, us[k]);
        let j = i + e0.len() as int;
        assert forall|m: int|
            0 <= m < rf.len() + 1 implies s.subrange(j, j + rf.len() + 1)[m] == (rf + seq![
            101u8,
        ])[m] by {
            assert(s[i + (e0.len() + m)] == (rest + seq![101u8])[e0.len() + m]);
            assert((e0 + (rf + seq![101u8]))[e0.len() + m] == (rf + seq![101u8])[m]);
        }
        assert(s.subrange(j, j + rf.len() + 1) =~= rf + seq![101u8]);
        lemma_decode_elems_raw(s, j, us, k + 1);
        assert(seq![us[k]] + us.skip(k + 1) =~= us.skip(k));
        lemma_decode_offsets(s, i);
    }
}

/// As `lemma_decode_raw_encode`, for the run of dictionary pairs from
/// index `k` on, terminated by `e`.
proof fn lemma_decode_pairs_raw(s: Seq<u8>, i: int, ps: Seq<(Seq<u8>, SpecValue)>, k: int)
    requires
        forall|m: int| 0 <= m < ps.len() ==> wf(#[trigger] ps[m].1),
        0 <= k <= ps.len(),
        0 <= i,
        i + raw_pairs_from(ps, k).len() + 1 <= s.len(),
        s.subrange(i, i + raw_pairs_from(ps, k).len() + 1) == raw_pairs_from(ps, k) + seq![101u8],
    ensures
        spec_decode_pairs(s, i) == Ok::<(Seq<(Seq<u8>, SpecValue)>, int), DecodeError>(
            (ps.skip(k), i + raw_pairs_from(ps, k).len() + 1),
        ),
    decreases size_of_pairs(ps, ps.len() as int) - size_of_pairs(ps, k), 1int,
{
    let rest = raw_pairs_from(ps, k);
    assert(forall|m: int| 0 <= m < rest.len() + 1 ==> s[i + m] == #[trigger] (rest + seq![
        101u8,
    ])[m]) by {
        assert(forall|m: int|
            0 <= m < rest.len() + 1 ==> #[trigger] (rest + seq![101u8])[m] == s.subrange(
                i,
                i + rest.len() + 1,
            )[m]);
    }
    if k == ps.len() {
        assert(rest =~= Seq::<u8>::empty());
        assert(s[i] == (rest + seq![101u8])[0]);
        assert(s[i] == 101);
        assert(ps.skip(k) =~= Seq::<(Seq<u8>, SpecValue)>::empty());
    } else {
        let ke = str_encode(ps[k].0);
        let ve = raw_encode(ps[k].1);
        let rf = raw_pairs_from(ps, k + 1);
        lemma_raw_encode_first(ps[k].1);
        lemma_nat_digits(ps[k].0.len() as int);
        assert(rest == ke + ve + rf);
        assert(rest + seq![101u8] =~= ke + (ve + (rf + seq![101u8])));
        assert(s[i] == (rest + seq![101u8])[0]);
        assert(s[i] == ke[0]);
        assert forall|m: int|
            0 <= m < ke.len() implies s.subrange(i, i + ke.len() as int)[m] == ke[m] by {
            assert(s[i + m] == (rest + seq![101u8])[m]);
            assert((ke + (ve + (rf + seq![101u8])))[m] == ke[m]);
        }
        assert(s.subrange(i, i + ke.len() as int) =~= ke);
        lemma_str_token_inverse(s, i, ps[k].0);
        assert(s[i] != 101);
        let j = i + ke.len() as int;
        assert forall|m: int|
            0 <= m < ve.len() implies s.subrange(j, j + ve.len() as int)[m] == ve[m] by {
            assert(s[i + (ke.len() + m)] == (rest + seq![101u8])[ke.len() + m]);
            assert((ke + (ve + (rf + seq![101u8])))[ke.len() + m] == (ve + (rf + seq![
                101u8,
            ]))[m]);
            assert((ve + (rf + seq![101u8]))[m] == ve[m]);
        }
        assert(s.subrange(j, j + ve.len() as int) =~= ve);
        assert(size_of_pairs(ps, k + 1) == size_of_pairs(ps, k) + size_of(ps[k].1));
        lemma_size_of_pairs_mono(ps, k + 1, ps.len() as int);
        lemma_size_of_pos(ps[k].1);
        lemma_decode_raw_encode(s, j, ps[k].1);
        let m2 = j + ve.len() as int;
        assert forall|m: int|
            0 <= m < rf.len() + 1 implies s.subrange(m2, m2 + rf.len() + 1)[m] == (rf + seq![
            101u8,
        ])[m] by {
            assert(s[i + (ke.len() + ve.len() + m)] == (rest + seq![101u8])[ke.len() + ve.len()
                + m]);
            assert((ke + (ve + (rf + seq![101u8])))[ke.len() + ve.len() + m] == (ve + (rf + seq![
                101u8,
            ]))[ve.len() + m]);
            assert((ve + (rf + seq![101u8]))[ve.len() + m] == (rf + seq![101u8])[m]);
        }
        assert(s.subrange(m2, m2 + rf.len() + 1) =~= rf + seq![101u8]);
        lemma_decode_pairs_raw(s, m2, ps, k + 1);
        assert(seq![(ps[k].0, ps[k].1)] + ps.skip(k + 1) =~= ps.skip(k));
        lemma_decode_offsets(s, i);
        lemma_decode_offsets(s, j);
    }
}

/// Byte-lexicographic order is total.
pub proof fn lemma_lex_total(a: Seq<u8>, b: Seq<u8>)
    ensures
        lex_le(a, b) || lex_le(b, a),
    decreases a.len(),
{
    if a.len() > 0 && b.len() > 0 && a[0] == b[0] {
        lemma_lex_total(a.drop_first(), b.drop_first());
    }
}

/// What stands last after an insertion: the displaced last pair, or the
/// new one.
proof fn lemma_insert_pair_last(qs: Seq<(Seq<u8>, SpecValue)>, p: (Seq<u8>, SpecValue))
    ensures
        insert_pair(qs, p).last() == if qs.len() > 0 && !lex_le(qs.last().0, p.0) {
            qs.last()
        } else {
            p
        },
        insert_pair(qs, p).len() == qs.len() + 1,
{
    lemma_insert_pair_len(qs, p);
}

/// Inserting into a sorted run keeps it sorted.
pub proof fn lemma_insert_sorted(qs: Seq<(Seq<u8>, SpecValue)>, p: (Seq<u8>, SpecValue))
    requires
        sorted_pairs(qs),
    ensures
        sorted_pairs(insert_pair(qs, p)),
    decreases qs.len(),
{
    lemma_insert_pair_len(qs, p);
    let r = insert_pair(qs, p);
    if qs.len() == 0 {
        assert(sorted_pairs(r));
    } else if lex_le(qs.last().0, p.0) {
        assert(r == qs.push(p));
        assert forall|i: int| 0 <= i < r.len() - 1 implies lex_le(#[trigger] r[i].0, r[i + 1].0) by {
            if i < qs.len() - 1 {
                assert(r[i] == qs[i] && r[i + 1] == qs[i + 1]);
                assert(lex_le(qs[i].0, qs[i + 1].0));
            } else {
                assert(r[i] == qs.last() && r[i + 1] == p);
            }
        }
    } else {
        let d = qs.drop_last();
        assert(sorted_pairs(d)) by {
            assert(forall|i: int| 0 <= i < d.len() ==> #[trigger] d[i] == qs[i]);
        }
        lemma_insert_sorted(d, p);
        lemma_insert_pair_len(d, p);
        lemma_insert_pair_last(d, p);
        let inner = insert_pair(d, p);
        assert(r == inner.push(qs.last()));
        lemma_lex_total(qs.last().0, p.0);
        assert(lex_le(inner.last().0, qs.last().0)) by {
            if d.len() > 0 && !lex_le(d.last().0, p.0) {
                assert(inner.last() == d.last());
                assert(lex_le(qs[qs.len() - 2].0, qs[qs.len() - 1].0));
            } else {
                assert(inner.last() == p);
            }
        }
        assert forall|i: int| 0 <= i < r.len() - 1 implies lex_le(#[trigger] r[i].0, r[i + 1].0) by {
            if i < inner.len() - 1 {
                assert(r[i] == inner[i] && r[i + 1] == inner[i + 1]);
                assert(lex_le(inner[i].0, inner[i + 1].0));
            } else {
                assert(r[i] == inner.last() && r[i + 1] == qs.last());
            }
        }
    }
}

/// Sorting yields a sorted run.
pub proof fn lemma_sort_sorted(ps: Seq<(Seq<u8>, SpecValue)>)
    ensures
        sorted_pairs(sort_pairs(ps)),
    decreases ps.len(),
{
    if ps.len() > 0 {
        lemma_sort_sorted(ps.drop_last());
        lemma_insert_sorted(sort_pairs(ps.drop_last()), ps.last());
    }
}

/// Sorting an already sorted run changes nothing.
pub proof fn lemma_sort_of_sorted(ps: Seq<(Seq<u8>, SpecValue)>)
    requires
        sorted_pairs(ps),
    ensures
        sort_pairs(ps) == ps,
    decreases ps.len(),
{
    if ps.len() > 0 {
        let d = ps.drop_last();
        assert(sorted_pairs(d)) by {
            assert(forall|i: int| 0 <= i < d.len() ==> #[trigger] d[i] == ps[i]);
        }
        lemma_sort_of_sorted(d);
        if d.len() > 0 {
            assert(lex_le(ps[ps.len() - 2].0, ps[ps.len() - 1].0));
            assert(lex_le(d.last().0, ps.last().0));
        }
        assert(insert_pair(d, ps.last()) == d.push(ps.last()));
        assert(d.push(ps.last()) =~= ps);
    }
}

/// Every pair of an insertion result is the new pair or one of the
/// original run.
proof fn lemma_insert_pair_membership(qs: Seq<(Seq<u8>, SpecValue)>, p: (Seq<u8>, SpecValue))
    ensures
        forall|m: int|
            0 <= m < insert_pair(qs, p).len() ==> (#[trigger] insert_pair(qs, p)[m] == p
                || qs.contains(insert_pair(qs, p)[m])),
    decreases qs.len(),
{
    lemma_insert_pair_len(qs, p);
    let r = insert_pair(qs, p);
    if qs.len() == 0 {
    } else if lex_le(qs.last().0, p.0) {
        assert forall|m: int| 0 <= m < r.len() implies (#[trigger] r[m] == p || qs.contains(
            r[m],
        )) by {
            if m < qs.len() {
                assert(r[m] == qs[m]);
            }
        }
    } else {
        let d = qs.drop_last();
        lemma_insert_pair_membership(d, p);
        lemma_insert_pair_len(d, p);
        let inner = insert_pair(d, p);
        assert forall|m: int| 0 <= m < r.len() implies (#[trigger] r[m] == p || qs.contains(
            r[m],
        )) by {
            if m < inner.len() {
                assert(r[m] == inner[m]);
                if inner[m] != p {
                    let w = choose|w: int| 0 <= w < d.len() && d[w] == inner[m];
                    assert(qs[w] == inner[m]);
                }
            } else {
                assert(r[m] == qs.last());
                assert(qs[qs.len() - 1] == qs.last());
            }
        }
    }
}

/// Every pair of a sorted run is one of the original run.
proof fn lemma_sort_pairs_membership(ps: Seq<(Seq<u8>, SpecValue)>)
    ensures
        forall|m: int|
            0 <= m < sort_pairs(ps).len() ==> ps.contains(#[trigger] sort_pairs(ps)[m]),
    decreases ps.len(),
{
    lemma_sort_pairs_len(ps);
    if ps.len() > 0 {
        let d = ps.drop_last();
        lemma_sort_pairs_membership(d);
        lemma_sort_pairs_len(d);
        lemma_insert_pair_membership(sort_pairs(d), ps.last());
        let r = sort_pairs(ps);
        assert forall|m: int| 0 <= m < r.len() implies ps.contains(#[trigger] r[m]) by {
            if r[m] == ps.last() {
                assert(ps[ps.len() - 1] == ps.last());
            } else {
                let w = choose|w: int| 0 <= w < sort_pairs(d).len() && sort_pairs(d)[w] == r[m];
                let w2 = choose|w2: int| 0 <= w2 < d.len() && d[w2] == sort_pairs(d)[w];
                assert(ps[w2] == r[m]);
            }
        }
    }
}

/// A value in canonical shape: every dictionary in it, at any depth,
/// sorted ascending by key.
pub open spec fn normalized(v: SpecValue) -> bool
    decreases v,
{
    match v {
        SpecValue::Int(_) => true,
        SpecValue::Str(_) => true,
        SpecValue::List(es) => forall|i: int| 0 <= i < es.len() ==> normalized(#[trigger] es[i]),
        SpecValue::Dict(ps) => sorted_pairs(ps) && forall|i: int|
            0 <= i < ps.len() ==> normalized(#[trigger] ps[i].1),
    }
}

/// Canonical re-encoding sorts keys: normalization puts every
/// dictionary, at any depth, in ascending byte-lexicographic key order.
pub proof fn lemma_normalize_normalized(v: SpecValue)
    ensures
        normalized(normalize(v)),
    decreases v,
{
    broadcast use group_norm_views;

    match v {
        SpecValue::Int(_) => {}
        SpecValue::Str(_) => {}
        SpecValue::List(es) => {
            let ns = norm_elems(es, es.len() as int);
            assert forall|i: int| 0 <= i < ns.len() implies normalized(#[trigger] ns[i]) by {
                lemma_normalize_normalized(es[i]);
            }
        }
        SpecValue::Dict(ps) => {
            let np = norm_pairs(ps, ps.len() as int);
            let sp = sort_pairs(np);
            lemma_sort_sorted(np);
            lemma_sort_pairs_len(np);
            lemma_sort_pairs_membership(np);
            assert forall|i: int| 0 <= i < sp.len() implies normalized(#[trigger] sp[i].1) by {
                let w = choose|w: int| 0 <= w < np.len() && np[w] == sp[i];
                assert(np[w] == (ps[w].0, normalize(ps[w].1)));
                lemma_normalize_normalized(ps[w].1);
            }
        }
    }
}

/// Normalization does not touch a value already in canonical shape.
pub proof fn lemma_normalized_id(v: SpecValue)
    requires
        normalized(v),
    ensures
        normalize(v) == v,
    decreases v,
{
    broadcast use group_norm_views;

    match v {
        SpecValue::Int(_) => {}
        SpecValue::Str(_) => {}
        SpecValue::List(es) => {
            let ns = norm_elems(es, es.len() as int);
            assert forall|i: int| 0 <= i < es.len() implies #[trigger] ns[i] == es[i] by {
                lemma_normalized_id(es[i]);
            }
            assert(ns =~= es);
        }
        SpecValue::Dict(ps) => {
            let np = norm_pairs(ps, ps.len() as int);
            assert forall|i: int| 0 <= i < ps.len() implies #[trigger] np[i] == ps[i] by {
                lemma_normalized_id(ps[i].1);
            }
            assert(np =~= ps);
            lemma_sort_of_sorted(ps);
        }
    }
}

/// Normalization keeps every integer in range.
pub proof fn lemma_normalize_wf(v: SpecValue)
    requires
        wf(v),
    ensures
        wf(normalize(v)),
    decreases v,
{
    broadcast use group_norm_views;

    match v {
        SpecValue::Int(_) => {}
        SpecValue::Str(_) => {}
        SpecValue::List(es) => {
            let ns = norm_elems(es, es.len() as int);
            assert forall|i: int| 0 <= i < ns.len() implies wf(#[trigger] ns[i]) by {
                lemma_normalize_wf(es[i]);
            }
        }
        SpecValue::Dict(ps) => {
            let np = norm_pairs(ps, ps.len() as int);
            let sp = sort_pairs(np);
            lemma_sort_pairs_len(np);
            lemma_sort_pairs_membership(np);
            assert forall|i: int| 0 <= i < sp.len() implies wf(#[trigger] sp[i].1) by {
                let w = choose|w: int| 0 <= w < np.len() && np[w] == sp[i];
                assert(np[w] == (ps[w].0, normalize(ps[w].1)));
                lemma_normalize_wf(ps[w].1);
            }
        }
    }
}

/// Whatever the decoder accepts is well formed: every integer it reads
/// fits a signed 64-bit word.
pub proof fn lemma_spec_decode_wf(s: Seq<u8>, i: int)
    ensures
        spec_decode(s, i) matches Ok((v, j)) ==> wf(v),
        spec_decode_elems(s, i) matches Ok((vs, j)) ==> forall|m: int|
            0 <= m < vs.len() ==> wf(#[trigger] vs[m]),
        spec_decode_pairs(s, i) matches Ok((qs, j)) ==> forall|m: int|
            0 <= m < qs.len() ==> wf(#[trigger] qs[m].1),
{
    lemma_decode_wf_value(s, i);
    lemma_decode_wf_elems(s, i);
    lemma_decode_wf_pairs(s, i);
}

proof fn lemma_int_token_wf(s: Seq<u8>, i: int)
    requires
        0 <= i < s.len(),
    ensures
        spec_int_token(s, i) matches Ok((n, j)) ==> i64::MIN <= n <= i64::MAX,
{
    if i + 1 < s.len() {
        let neg = s[i + 1] == 45;
        let dstart = if neg {
            i + 2
        } else {
            i + 1
        };
        if dstart < s.len() {
            lemma_digits_end(s, dstart);
            let dend = digits_end(s, dstart);
            lemma_digits_val_nonneg(s.subrange(dstart, dend));
        }
    }
}

proof fn lemma_decode_wf_value(s: Seq<u8>, i: int)
    ensures
        spec_decode(s, i) matches Ok((v, j)) ==> wf(v),
    decreases s.len() - i, 2int,
{
    if 0 <= i < s.len() {
        if s[i] == 105 {
            lemma_int_token_wf(s, i);
        }
        if s[i] == 108 {
            lemma_decode_wf_elems(s, i + 1);
        }
        if s[i] == 100 {
            lemma_decode_wf_pairs(s, i + 1);
        }
    }
}

proof fn lemma_decode_wf_elems(s: Seq<u8>, i: int)
    ensures
        spec_decode_elems(s, i) matches Ok((vs, j)) ==> forall|m: int|
            0 <= m < vs.len() ==> wf(#[trigger] vs[m]),
    decreases s.len() - i, 3int,
{
    if 0 <= i < s.len() && s[i] != 101 {
        lemma_decode_wf_value(s, i);
        lemma_decode_offsets(s, i);
        match spec_decode(s, i) {
            Ok((v, j)) => {
                if i < j <= s.len() {
                    lemma_decode_wf_elems(s, j);
                    match spec_decode_elems(s, j) {
                        Ok((vs2, k)) => {
                            let whole = seq![v] + vs2;
                            assert forall|m: int| 0 <= m < whole.len() implies wf(
                                #[trigger] whole[m],
                            ) by {
                                if m > 0 {
                                    assert(whole[m] == vs2[m - 1]);
                                }
                            }
                        }
                        Err(_) => {}
                    }
                }
            }
            Err(_) => {}
        }
    }
}

proof fn lemma_decode_wf_pairs(s: Seq<u8>, i: int)
    ensures
        spec_decode_pairs(s, i) matches Ok((qs, j)) ==> forall|m: int|
            0 <= m < qs.len() ==> wf(#[trigger] qs[m].1),
    decreases s.len() - i, 3int,
{
    if 0 <= i < s.len() && s[i] != 101 && is_digit(s[i]) {
        crate::decode::lemma_str_token_offsets(s, i);
        match spec_str_token(s, i) {
            Ok((key, j)) => {
                if i < j <= s.len() {
                    lemma_decode_wf_value(s, j);
                    lemma_decode_offsets(s, j);
                    match spec_decode(s, j) {
                        Ok((v, m)) => {
                            if j <= m <= s.len() {
                                lemma_decode_wf_pairs(s, m);
                                match spec_decode_pairs(s, m) {
                                    Ok((qs2, k)) => {
                                        let whole = seq![(key, v)] + qs2;
                                        assert forall|m2: int| 0 <= m2 < whole.len() implies wf(
                                            #[trigger] whole[m2].1,
                                        ) by {
                                            if m2 > 0 {
                                                assert(whole[m2] == qs2[m2 - 1]);
                                            }
                                        }
                                    }
                                    Err(_) => {}
                                }
                            }
                        }
                        Err(_) => {}
                    }
                }
            }
            Err(_) => {}
        }
    }
}

/// Round-trip: the bytes the encoder produces decode without error to
/// the canonical shape of the encoded value, and re-encoding that shape
/// reproduces the bytes exactly. For any canonical byte sequence — any
/// output of the encoder — decoding and re-encoding is the identity.
pub proof fn lemma_round_trip(v: SpecValue)
    requires
        wf(v),
    ensures
        spec_decode(spec_encode(v), 0) == Ok::<(SpecValue, int), DecodeError>(
            (normalize(v), spec_encode(v).len() as int),
        ),
        spec_encode(normalize(v)) == spec_encode(v),
{
    lemma_normalize_wf(v);
    let s = spec_encode(v);
    assert(s.subrange(0, s.len() as int) =~= s);
    lemma_decode_raw_encode(s, 0, normalize(v));
    lemma_normalize_normalized(v);
    lemma_normalized_id(normalize(v));
}

/// Normalization idempotence: decoding any decodable byte sequence and
/// encoding it canonically yields bytes that decode and re-encode to
/// themselves — `encode(decode(encode(decode(s)))) == encode(decode(s))`.
pub proof fn lemma_normalization_idempotence(s: Seq<u8>)
    requires
        spec_decode(s, 0) is Ok,
    ensures
        ({
            let v = spec_decode(s, 0)->Ok_0.0;
            &&& spec_decode(spec_encode(v), 0) is Ok
            &&& spec_encode(spec_decode(spec_encode(v), 0)->Ok_0.0) == spec_encode(v)
        }),
{
    let v = spec_decode(s, 0)->Ok_0.0;
    lemma_spec_decode_wf(s, 0);
    lemma_round_trip(v);
}

} // verus!
