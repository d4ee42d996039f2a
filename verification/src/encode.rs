//! Encoding of bencode in canonical form: minimal decimal integers, and
//! dictionary keys emitted in ascending byte-lexicographic order whatever
//! order they were stored in.

use vstd::prelude::*;

use crate::value::{SpecValue, Value, views_of, pair_views_of};

verus! {

broadcast use vstd::std_specs::vec::group_vec_axioms, vstd::seq::group_seq_axioms, crate::value::group_value_views;

/// The minimal decimal numeral of a non-negative number.
pub open spec fn nat_digits(n: int) -> Seq<u8>
    recommends
        n >= 0,
    decreases n,
{
    if n < 10 {
        seq![(48 + n) as u8]
    } else {
        nat_digits(n / 10).push((48 + n % 10) as u8)
    }
}

/// The minimal decimal form of an integer: a `-` sign for negative
/// values, no leading zeros, no `-0`.
pub open spec fn int_digits(n: int) -> Seq<u8> {
    if n < 0 {
        seq![45u8] + nat_digits(-n)
    } else {
        nat_digits(n)
    }
}

/// The encoding of a byte string: decimal length, `:`, the raw bytes.
pub open spec fn str_encode(b: Seq<u8>) -> Seq<u8> {
    nat_digits(b.len() as int) + seq![58u8] + b
}

/// The bytes a value encodes to, with dictionary pairs emitted in stored
/// order. Canonical encoding is `raw_encode` after `normalize`.
pub open spec fn raw_encode(v: SpecValue) -> Seq<u8>
    decreases v, 0int, 0int,
{
    match v {
        SpecValue::Int(n) => seq![105u8] + int_digits(n) + seq![101u8],
        SpecValue::Str(b) => str_encode(b),
        SpecValue::List(es) => seq![108u8] + raw_encode_elems(es, es.len() as int) + seq![101u8],
        SpecValue::Dict(ps) => seq![100u8] + raw_encode_pairs(ps, ps.len() as int) + seq![101u8],
    }
}

/// The concatenated encodings of the first `k` elements of `es`.
pub open spec fn raw_encode_elems(es: Seq<SpecValue>, k: int) -> Seq<u8>
    decreases es, 1int, k,
    via raw_encode_elems_decreases
{
    if k <= 0 || k > es.len() {
        Seq::empty()
    } else {
        raw_encode_elems(es, k - 1) + raw_encode(es[k - 1])
    }
}

#[via_fn]
proof fn raw_encode_elems_decreases(es: Seq<SpecValue>, k: int) {
    if 0 < k <= es.len() {
        assert(decreases_to!(es => es[k - 1]));
    }
}

/// The concatenated encodings of the first `k` key/value pairs of `ps`.
pub open spec fn raw_encode_pairs(ps: Seq<(Seq<u8>, SpecValue)>, k: int) -> Seq<u8>
    decreases ps, 1int, k,
    via raw_encode_pairs_decreases
{
    if k <= 0 || k > ps.len() {
        Seq::empty()
    } else {
        raw_encode_pairs(ps, k - 1) + str_encode(ps[k - 1].0) + raw_encode(ps[k - 1].1)
    }
}

#[via_fn]
proof fn raw_encode_pairs_decreases(ps: Seq<(Seq<u8>, SpecValue)>, k: int) {
    if 0 < k <= ps.len() {
        assert(decreases_to!(ps => ps[k - 1]));
    }
}

/// Ascending byte-lexicographic order on byte strings: `a` is less than
/// or equal to `b` when `a` is a prefix of `b` or `a` is smaller at the
/// first differing byte.
pub open spec fn lex_le(a: Seq<u8>, b: Seq<u8>) -> bool
    decreases a.len(),
{
    if a.len() == 0 {
        true
    } else if b.len() == 0 {
        false
    } else if a[0] < b[0] {
        true
    } else if a[0] > b[0] {
        false
    } else {
        lex_le(a.drop_first(), b.drop_first())
    }
}

/// Whether consecutive keys are in ascending byte-lexicographic order.
pub open spec fn sorted_pairs(ps: Seq<(Seq<u8>, SpecValue)>) -> bool {
    forall|i: int| 0 <= i < ps.len() - 1 ==> lex_le(#[trigger] ps[i].0, ps[i + 1].0)
}

/// Inserts `p` after every stored pair whose key is less than or equal
/// to `p`'s, so that equal keys keep their stored order.
pub open spec fn insert_pair(ps: Seq<(Seq<u8>, SpecValue)>, p: (Seq<u8>, SpecValue)) -> Seq<
    (Seq<u8>, SpecValue),
>
    decreases ps.len(),
{
    if ps.len() == 0 {
        seq![p]
    } else if lex_le(ps.last().0, p.0) {
        ps.push(p)
    } else {
        insert_pair(ps.drop_last(), p).push(ps.last())
    }
}

/// Stable insertion sort of dictionary pairs by key.
pub open spec fn sort_pairs(ps: Seq<(Seq<u8>, SpecValue)>) -> Seq<(Seq<u8>, SpecValue)>
    decreases ps.len(),
{
    if ps.len() == 0 {
        Seq::empty()
    } else {
        insert_pair(sort_pairs(ps.drop_last()), ps.last())
    }
}

/// The canonical shape of a value: every dictionary in it, at any depth,
/// sorted by key.
pub open spec fn normalize(v: SpecValue) -> SpecValue
    decreases v, 0int, 0int,
{
    match v {
        SpecValue::Int(n) => SpecValue::Int(n),
        SpecValue::Str(b) => SpecValue::Str(b),
        SpecValue::List(es) => SpecValue::List(norm_elems(es, es.len() as int)),
        SpecValue::Dict(ps) => SpecValue::Dict(sort_pairs(norm_pairs(ps, ps.len() as int))),
    }
}

/// The first `k` elements of `es`, each normalized.
pub open spec fn norm_elems(es: Seq<SpecValue>, k: int) -> Seq<SpecValue>
    decreases es, 1int, k,
    via norm_elems_decreases
{
    if k <= 0 || k > es.len() {
        Seq::empty()
    } else {
        norm_elems(es, k - 1).push(normalize(es[k - 1]))
    }
}

#[via_fn]
proof fn norm_elems_decreases(es: Seq<SpecValue>, k: int) {
    if 0 < k <= es.len() {
        assert(decreases_to!(es => es[k - 1]));
    }
}

/// The first `k` pairs of `ps`, values normalized, keys kept.
pub open spec fn norm_pairs(ps: Seq<(Seq<u8>, SpecValue)>, k: int) -> Seq<(Seq<u8>, SpecValue)>
    decreases ps, 1int, k,
    via norm_pairs_decreases
{
    if k <= 0 || k > ps.len() {
        Seq::empty()
    } else {
        norm_pairs(ps, k - 1).push((ps[k - 1].0, normalize(ps[k - 1].1)))
    }
}

#[via_fn]
proof fn norm_pairs_decreases(ps: Seq<(Seq<u8>, SpecValue)>, k: int) {
    if 0 < k <= ps.len() {
        assert(decreases_to!(ps => ps[k - 1]));
    }
}

/// The canonical bencode bytes of a value.
pub open spec fn spec_encode(v: SpecValue) -> Seq<u8> {
    raw_encode(normalize(v))
}

/// A size measure on models: containers are larger than everything they
/// hold, which justifies recursing into elements fetched by index.
pub open spec fn size_of(v: SpecValue) -> nat
    decreases v, 0int, 0int,
{
    match v {
        SpecValue::Int(_) => 1,
        SpecValue::Str(_) => 1,
        SpecValue::List(es) => 1 + size_of_elems(es, es.len() as int),
        SpecValue::Dict(ps) => 1 + size_of_pairs(ps, ps.len() as int),
    }
}

/// The total size of the first `k` elements of `es`.
pub open spec fn size_of_elems(es: Seq<SpecValue>, k: int) -> nat
    decreases es, 1int, k,
    via size_of_elems_decreases
{
    if k <= 0 || k > es.len() {
        0
    } else {
        size_of_elems(es, k - 1) + size_of(es[k - 1])
    }
}

#[via_fn]
proof fn size_of_elems_decreases(es: Seq<SpecValue>, k: int) {
    if 0 < k <= es.len() {
        assert(decreases_to!(es => es[k - 1]));
    }
}

/// The total size of the first `k` pairs of `ps`.
pub open spec fn size_of_pairs(ps: Seq<(Seq<u8>, SpecValue)>, k: int) -> nat
    decreases ps, 1int, k,
    via size_of_pairs_decreases
{
    if k <= 0 || k > ps.len() {
        0
    } else {
        size_of_pairs(ps, k - 1) + size_of(ps[k - 1].1)
    }
}

#[via_fn]
proof fn size_of_pairs_decreases(ps: Seq<(Seq<u8>, SpecValue)>, k: int) {
    if 0 < k <= ps.len() {
        assert(decreases_to!(ps => ps[k - 1]));
    }
}

/// Each element's size is bounded by the total over any prefix that
/// contains it.
proof fn lemma_size_of_elem_le(es: Seq<SpecValue>, j: int, k: int)
    requires
        0 <= j < k <= es.len(),
    ensures
        size_of(es[j]) <= size_of_elems(es, k),
    decreases k,
{
    if j < k - 1 {
        lemma_size_of_elem_le(es, j, k - 1);
    }
}

/// Each pair's value size is bounded by the total over any prefix that
/// contains it.
proof fn lemma_size_of_pair_le(ps: Seq<(Seq<u8>, SpecValue)>, j: int, k: int)
    requires
        0 <= j < k <= ps.len(),
    ensures
        size_of(ps[j].1) <= size_of_pairs(ps, k),
    decreases k,
{
    if j < k - 1 {
        lemma_size_of_pair_le(ps, j, k - 1);
    }
}

/// How many elements `norm_elems` yields.
pub broadcast proof fn lemma_norm_elems_len(es: Seq<SpecValue>, k: int)
    requires
        0 <= k <= es.len(),
    ensures
        (#[trigger] norm_elems(es, k)).len() == k,
    decreases k,
{
    if k > 0 {
        lemma_norm_elems_len(es, k - 1);
    }
}

/// Which element `norm_elems` puts at each position.
pub broadcast proof fn lemma_norm_elems_index(es: Seq<SpecValue>, k: int, i: int)
    requires
        0 <= i < k <= es.len(),
    ensures
        (#[trigger] norm_elems(es, k)[i]) == normalize(es[i]),
    decreases k,
{
    lemma_norm_elems_len(es, k - 1);
    if i < k - 1 {
        lemma_norm_elems_index(es, k - 1, i);
    }
}

/// How many pairs `norm_pairs` yields.
pub broadcast proof fn lemma_norm_pairs_len(ps: Seq<(Seq<u8>, SpecValue)>, k: int)
    requires
        0 <= k <= ps.len(),
    ensures
        (#[trigger] norm_pairs(ps, k)).len() == k,
    decreases k,
{
    if k > 0 {
        lemma_norm_pairs_len(ps, k - 1);
    }
}

/// Which pair `norm_pairs` puts at each position.
pub broadcast proof fn lemma_norm_pairs_index(ps: Seq<(Seq<u8>, SpecValue)>, k: int, i: int)
    requires
        0 <= i < k <= ps.len(),
    ensures
        (#[trigger] norm_pairs(ps, k)[i]) == (ps[i].0, normalize(ps[i].1)),
    decreases k,
{
    lemma_norm_pairs_len(ps, k - 1);
    if i < k - 1 {
        lemma_norm_pairs_index(ps, k - 1, i);
    }
}

pub broadcast group group_norm_views {
    lemma_norm_elems_len,
    lemma_norm_elems_index,
    lemma_norm_pairs_len,
    lemma_norm_pairs_index,
}

/// Where `insert_pair` puts the new pair: after every pair it is scanned
/// past, which is exactly the longest suffix of keys greater than its
/// own.
pub proof fn lemma_insert_pair_at(ps: Seq<(Seq<u8>, SpecValue)>, p: (Seq<u8>, SpecValue), q: int)
    requires
        0 <= q <= ps.len(),
        q > 0 ==> lex_le(ps[q - 1].0, p.0),
        forall|m: int| q <= m < ps.len() ==> !lex_le(#[trigger] ps[m].0, p.0),
    ensures
        insert_pair(ps, p) == ps.subrange(0, q) + seq![p] + ps.subrange(q, ps.len() as int),
    decreases ps.len(),
{
    if q == ps.len() {
        assert(insert_pair(ps, p) =~= ps.subrange(0, q) + seq![p] + ps.subrange(
            q,
            ps.len() as int,
        ));
    } else {
        assert(!lex_le(ps.last().0, p.0));
        assert(forall|m: int|
            q <= m < ps.drop_last().len() ==> !lex_le(#[trigger] ps.drop_last()[m].0, p.0));
        lemma_insert_pair_at(ps.drop_last(), p, q);
        assert(insert_pair(ps.drop_last(), p).push(ps.last()) =~= ps.subrange(0, q) + seq![p]
            + ps.subrange(q, ps.len() as int));
    }
}

/// The pairs of `pv` rearranged according to `perm`.
pub open spec fn map_perm(pv: Seq<(Seq<u8>, SpecValue)>, perm: Seq<usize>) -> Seq<
    (Seq<u8>, SpecValue),
> {
    Seq::new(perm.len(), |j: int| pv[perm[j] as int])
}

/// Compares two byte strings in byte-lexicographic order.
fn bytes_le(a: &Vec<u8>, b: &Vec<u8>) -> (r: bool)
    ensures
        r == lex_le(a@, b@),
{
    let mut i: usize = 0;
    proof {
        assert(a@.skip(0) =~= a@);
        assert(b@.skip(0) =~= b@);
    }
    loop
        invariant
            i <= a@.len(),
            i <= b@.len(),
            lex_le(a@, b@) == lex_le(a@.skip(i as int), b@.skip(i as int)),
        decreases a@.len() - i,
    {
        if i == a.len() {
            return true;
        }
        if i == b.len() {
            return false;
        }
        let x = a[i];
        let y = b[i];
        if x < y {
            return true;
        }
        if x > y {
            return false;
        }
        proof {
            assert(a@.skip(i as int).drop_first() =~= a@.skip(i as int + 1));
            assert(b@.skip(i as int).drop_first() =~= b@.skip(i as int + 1));
        }
        i = i + 1;
    }
}

/// Appends the minimal decimal numeral of `x`.
fn push_u64_digits(x: u64, out: &mut Vec<u8>)
    ensures
        final(out)@ == old(out)@ + nat_digits(x as int),
    decreases x,
{
    if x < 10 {
        out.push(48 + x as u8);
    } else {
        push_u64_digits(x / 10, out);
        out.push(48 + (x % 10) as u8);
        proof {
            assert(old(out)@ + nat_digits(x as int / 10) + seq![(48 + x as int % 10) as u8]
                =~= old(out)@ + nat_digits(x as int));
        }
    }
}

/// Appends the encoding of a byte string: length, colon, raw bytes.
fn push_str_token(b: &Vec<u8>, out: &mut Vec<u8>)
    ensures
        final(out)@ == old(out)@ + str_encode(b@),
{
    push_u64_digits(b.len() as u64, out);
    out.push(58);
    let ghost mid = out@;
    let mut k: usize = 0;
    while k < b.len()
        invariant
            k <= b@.len(),
            out@ == mid + b@.subrange(0, k as int),
            mid == old(out)@ + nat_digits(b@.len() as int) + seq![58u8],
        decreases b@.len() - k,
    {
        out.push(b[k]);
        proof {
            assert(mid + b@.subrange(0, k as int) + seq![b@[k as int]] =~= mid + b@.subrange(
                0,
                k as int + 1,
            ));
        }
        k = k + 1;
    }
    proof {
        assert(b@.subrange(0, b@.len() as int) =~= b@);
        assert(old(out)@ + nat_digits(b@.len() as int) + seq![58u8] + b@ =~= old(out)@ + str_encode(
            b@,
        ));
    }
}

/// Computes the stable ascending order of the pairs' keys: the
/// permutation that `sort_pairs` applies.
fn sort_order(ps: &Vec<(Vec<u8>, Value)>) -> (perm: Vec<usize>)
    ensures
        perm@.len() == ps@.len(),
        forall|j: int| 0 <= j < perm@.len() ==> (#[trigger] perm@[j]) < ps@.len(),
        map_perm(pair_views_of(ps@), perm@) == sort_pairs(pair_views_of(ps@)),
{
    let ghost pv = pair_views_of(ps@);
    let mut perm: Vec<usize> = Vec::new();
    proof {
        assert(map_perm(pv, perm@) =~= sort_pairs(pv.subrange(0, 0)));
    }
    let mut i: usize = 0;
    while i < ps.len()
        invariant
            i <= ps@.len(),
            perm@.len() == i,
            pv == pair_views_of(ps@),
            pv.len() == ps@.len(),
            forall|j: int| 0 <= j < perm@.len() ==> (#[trigger] perm@[j]) < i,
            map_perm(pv, perm@) == sort_pairs(pv.subrange(0, i as int)),
        decreases ps@.len() - i,
    {
        let ghost perm0 = perm@;
        let mut q: usize = perm.len();
        loop
            invariant
                q <= perm@.len(),
                perm@ == perm0,
                perm@.len() == i,
                i < ps@.len(),
                pv == pair_views_of(ps@),
                pv.len() == ps@.len(),
                forall|j: int| 0 <= j < perm@.len() ==> (#[trigger] perm@[j]) < i,
                forall|m: int|
                    q <= m < perm@.len() ==> !lex_le(
                        #[trigger] pv[perm@[m] as int].0,
                        pv[i as int].0,
                    ),
            ensures
                q <= perm@.len(),
                perm@ == perm0,
                q > 0 ==> lex_le(pv[perm@[q - 1] as int].0, pv[i as int].0),
                forall|m: int|
                    q <= m < perm@.len() ==> !lex_le(
                        #[trigger] pv[perm@[m] as int].0,
                        pv[i as int].0,
                    ),
            decreases q,
        {
            if q == 0 {
                break ;
            }
            let idx = perm[q - 1];
            if bytes_le(&ps[idx].0, &ps[i].0) {
                break ;
            }
            q = q - 1;
        }
        proof {
            assert(pv.subrange(0, i + 1).drop_last() =~= pv.subrange(0, i as int));
            lemma_insert_pair_at(map_perm(pv, perm@), pv[i as int], q as int);
        }
        perm.insert(q, i);
        proof {
            assert(map_perm(pv, perm@) =~= map_perm(pv, perm0).subrange(0, q as int) + seq![
                pv[i as int],
            ] + map_perm(pv, perm0).subrange(q as int, perm0.len() as int));
        }
        i = i + 1;
    }
    proof {
        assert(pv.subrange(0, pv.len() as int) =~= pv);
    }
    perm
}

/// Appends the canonical encoding of `v`.
fn encode_into(v: &Value, out: &mut Vec<u8>)
    ensures
        final(out)@ == old(out)@ + spec_encode(v.deep_view()),
    decreases size_of(v.deep_view()),
{
    broadcast use group_norm_views;

    match v {
        Value::Integer(n) => {
            let n = *n;
            out.push(105);
            if n >= 0 {
                push_u64_digits(n as u64, out);
            } else {
                out.push(45);
                let abs: u64 = if n == i64::MIN {
                    9223372036854775808u64
                } else {
                    (-n) as u64
                };
                push_u64_digits(abs, out);
            }
            out.push(101);
            proof {
                assert(old(out)@ + seq![105u8] + int_digits(n as int) + seq![101u8] =~= old(out)@
                    + spec_encode(v.deep_view()));
                if n < 0 {
                    assert(seq![45u8] + nat_digits(-(n as int)) =~= int_digits(n as int));
                    assert(old(out)@ + seq![105u8] + seq![45u8] + nat_digits(-(n as int)) =~= old(
                        out,
                    )@ + seq![105u8] + int_digits(n as int));
                }
            }
        },
        Value::ByteString(b) => {
            push_str_token(b, out);
        },
        Value::List(es) => {
            let ghost vs = views_of(es@);
            let ghost nes = norm_elems(vs, vs.len() as int);
            out.push(108);
            let ghost mid = out@;
            let mut j: usize = 0;
            while j < es.len()
                invariant
                    size_of(v.deep_view()) == 1 + size_of_elems(vs, vs.len() as int),
                    j <= es@.len(),
                    vs == views_of(es@),
                    vs.len() == es@.len(),
                    nes == norm_elems(vs, vs.len() as int),
                    mid == old(out)@ + seq![108u8],
                    out@ == mid + raw_encode_elems(nes, j as int),
                decreases es@.len() - j,
            {
                let ghost pre = out@;
                proof {
                    broadcast use group_norm_views;

                    assert(size_of(es@[j as int].deep_view()) < size_of(v.deep_view())) by {
                        assert(es@[j as int].deep_view() == vs[j as int]);
                        lemma_size_of_elem_le(vs, j as int, vs.len() as int);
                    }
                }
                encode_into(&es[j], out);
                proof {
                    broadcast use group_norm_views;

                    assert(nes[j as int] == normalize(vs[j as int]));
                    assert(vs[j as int] == es@[j as int].deep_view());
                    assert(raw_encode_elems(nes, j as int + 1) == raw_encode_elems(nes, j as int)
                        + raw_encode(nes[j as int]));
                    assert(mid + raw_encode_elems(nes, j as int) + raw_encode(nes[j as int]) =~= mid
                        + raw_encode_elems(nes, j as int + 1));
                }
                j = j + 1;
            }
            out.push(101);
            proof {
                assert(nes.len() == es@.len());
                assert(old(out)@ + seq![108u8] + raw_encode_elems(nes, nes.len() as int) + seq![
                    101u8,
                ] =~= old(out)@ + spec_encode(v.deep_view()));
            }
        },
        Value::Dictionary(ps) => {
            let ghost pv = pair_views_of(ps@);
            let ghost npv = norm_pairs(pv, pv.len() as int);
            let ghost spv = sort_pairs(npv);
            proof {
                lemma_sort_norm_commute(pv);
                lemma_sort_pairs_len(pv);
                lemma_sort_pairs_len(npv);
            }
            let perm = sort_order(ps);
            out.push(100);
            let ghost mid = out@;
            let mut j: usize = 0;
            while j < perm.len()
                invariant
                    size_of(v.deep_view()) == 1 + size_of_pairs(pv, pv.len() as int),
                    j <= perm@.len(),
                    perm@.len() == ps@.len(),
                    forall|m: int| 0 <= m < perm@.len() ==> (#[trigger] perm@[m]) < ps@.len(),
                    pv == pair_views_of(ps@),
                    pv.len() == ps@.len(),
                    npv == norm_pairs(pv, pv.len() as int),
                    spv == sort_pairs(npv),
                    spv == norm_pairs(sort_pairs(pv), sort_pairs(pv).len() as int),
                    spv.len() == ps@.len(),
                    sort_pairs(pv).len() == pv.len(),
                    map_perm(pv, perm@) == sort_pairs(pv),
                    mid == old(out)@ + seq![100u8],
                    out@ == mid + raw_encode_pairs(spv, j as int),
                decreases perm@.len() - j,
            {
                let idx = perm[j];
                push_str_token(&ps[idx].0, out);
                let ghost pre = out@;
                proof {
                    broadcast use group_norm_views;

                    assert(size_of(ps@[idx as int].1.deep_view()) < size_of(v.deep_view())) by {
                        assert(ps@[idx as int].1.deep_view() == pv[idx as int].1);
                        lemma_size_of_pair_le(pv, idx as int, pv.len() as int);
                    }
                }
                encode_into(&ps[idx].1, out);
                proof {
                    broadcast use group_norm_views;

                    assert(sort_pairs(pv)[j as int] == pv[idx as int]);
                    assert(spv[j as int] == (
                        sort_pairs(pv)[j as int].0,
                        normalize(sort_pairs(pv)[j as int].1),
                    ));
                    assert(pv[idx as int] == (ps@[idx as int].0@, ps@[idx as int].1.deep_view()));
                    assert(raw_encode_pairs(spv, j as int + 1) == raw_encode_pairs(spv, j as int)
                        + str_encode(spv[j as int].0) + raw_encode(spv[j as int].1));
                    assert(mid + raw_encode_pairs(spv, j as int) + str_encode(spv[j as int].0)
                        + raw_encode(spv[j as int].1) =~= mid + raw_encode_pairs(
                        spv,
                        j as int + 1,
                    ));
                }
                j = j + 1;
            }
            out.push(101);
            proof {
                assert(old(out)@ + seq![100u8] + raw_encode_pairs(spv, spv.len() as int) + seq![
                    101u8,
                ] =~= old(out)@ + spec_encode(v.deep_view()));
            }
        },
    }
}

/// Sorting pairs and then normalizing their values is the same as
/// normalizing the values and then sorting: the sort looks at keys only,
/// and normalization keeps every key in place.
pub proof fn lemma_sort_norm_commute(pv: Seq<(Seq<u8>, SpecValue)>)
    ensures
        sort_pairs(norm_pairs(pv, pv.len() as int)) == norm_pairs(
            sort_pairs(pv),
            sort_pairs(pv).len() as int,
        ),
    decreases pv.len(),
{
    broadcast use group_norm_views;

    lemma_sort_pairs_len(pv);
    if pv.len() == 0 {
        assert(sort_pairs(norm_pairs(pv, 0)) =~= norm_pairs(sort_pairs(pv), 0));
    } else {
        let d = pv.drop_last();
        lemma_sort_norm_commute(d);
        lemma_sort_pairs_len(d);
        assert(norm_pairs(pv, pv.len() as int).drop_last() =~= norm_pairs(d, d.len() as int));
        assert(norm_pairs(pv, pv.len() as int).last() == (pv.last().0, normalize(pv.last().1)));
        lemma_insert_norm_commute(sort_pairs(d), pv.last());
    }
}

/// Inserting a pair and then normalizing values commutes with
/// normalizing first and inserting the normalized pair.
proof fn lemma_insert_norm_commute(qs: Seq<(Seq<u8>, SpecValue)>, p: (Seq<u8>, SpecValue))
    ensures
        insert_pair(norm_pairs(qs, qs.len() as int), (p.0, normalize(p.1))) == norm_pairs(
            insert_pair(qs, p),
            insert_pair(qs, p).len() as int,
        ),
    decreases qs.len(),
{
    broadcast use group_norm_views;

    lemma_insert_pair_len(qs, p);
    if qs.len() == 0 {
        assert(insert_pair(norm_pairs(qs, 0), (p.0, normalize(p.1))) =~= norm_pairs(
            insert_pair(qs, p),
            insert_pair(qs, p).len() as int,
        ));
    } else {
        let nqs = norm_pairs(qs, qs.len() as int);
        assert(nqs.last() == (qs.last().0, normalize(qs.last().1)));
        if lex_le(qs.last().0, p.0) {
            assert(insert_pair(qs, p) == qs.push(p));
            assert(insert_pair(nqs, (p.0, normalize(p.1))) == nqs.push((p.0, normalize(p.1))));
            assert(nqs.push((p.0, normalize(p.1))) =~= norm_pairs(
                qs.push(p),
                qs.push(p).len() as int,
            ));
        } else {
            lemma_insert_norm_commute(qs.drop_last(), p);
            lemma_insert_pair_len(qs.drop_last(), p);
            assert(nqs.drop_last() =~= norm_pairs(qs.drop_last(), qs.drop_last().len() as int));
            assert(insert_pair(nqs, (p.0, normalize(p.1))) == insert_pair(
                nqs.drop_last(),
                (p.0, normalize(p.1)),
            ).push(nqs.last()));
            assert(insert_pair(qs.drop_last(), p).push(qs.last()) == insert_pair(qs, p));
            assert(norm_pairs(
                insert_pair(qs.drop_last(), p),
                insert_pair(qs.drop_last(), p).len() as int,
            ).push((qs.last().0, normalize(qs.last().1))) =~= norm_pairs(
                insert_pair(qs, p),
                insert_pair(qs, p).len() as int,
            ));
        }
    }
}

/// Inserting adds exactly one pair.
pub proof fn lemma_insert_pair_len(ps: Seq<(Seq<u8>, SpecValue)>, p: (Seq<u8>, SpecValue))
    ensures
        insert_pair(ps, p).len() == ps.len() + 1,
    decreases ps.len(),
{
    if ps.len() > 0 && !lex_le(ps.last().0, p.0) {
        lemma_insert_pair_len(ps.drop_last(), p);
    }
}

/// Sorting keeps the number of pairs.
pub proof fn lemma_sort_pairs_len(ps: Seq<(Seq<u8>, SpecValue)>)
    ensures
        sort_pairs(ps).len() == ps.len(),
    decreases ps.len(),
{
    if ps.len() > 0 {
        lemma_sort_pairs_len(ps.drop_last());
        lemma_insert_pair_len(sort_pairs(ps.drop_last()), ps.last());
    }
}

/// Encodes a value into canonical bencode bytes: minimal integers, and
/// every dictionary's keys in ascending byte-lexicographic order.
pub fn encode(v: &Value) -> (out: Vec<u8>)
    ensures
        out@ == spec_encode(v.deep_view()),
{
    let mut out: Vec<u8> = Vec::new();
    encode_into(v, &mut out);
    proof {
        assert(Seq::<u8>::empty() + spec_encode(v.deep_view()) =~= spec_encode(v.deep_view()));
    }
    out
}

} // verus!
