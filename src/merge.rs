//! Deep merge of two JSON values, and the key order that objects keep.

use vstd::prelude::*;
use crate::json::{Json, JsonV, copy_json, lemma_view_shape};

verus! {

broadcast use vstd::std_specs::vec::axiom_vec_index_decreases;

/// Lexicographic order of keys by code point, the order of `String`'s `Ord`.
pub open spec fn key_lt(a: Seq<char>, b: Seq<char>) -> bool
    decreases a.len(),
{
    if a.len() == 0 {
        b.len() > 0
    } else if b.len() == 0 {
        false
    } else if a[0] != b[0] {
        a[0] < b[0]
    } else {
        key_lt(a.drop_first(), b.drop_first())
    }
}

/// No key is below itself.
pub proof fn lemma_key_lt_irreflexive(a: Seq<char>)
    ensures
        !key_lt(a, a),
    decreases a.len(),
{
    if a.len() > 0 {
        lemma_key_lt_irreflexive(a.drop_first());
    }
}

/// Two different keys are ordered one way or the other, and never both ways.
pub proof fn lemma_key_lt_total(a: Seq<char>, b: Seq<char>)
    ensures
        a != b ==> key_lt(a, b) || key_lt(b, a),
        !(key_lt(a, b) && key_lt(b, a)),
    decreases a.len(),
{
    if a.len() > 0 && b.len() > 0 && a[0] == b[0] {
        lemma_key_lt_total(a.drop_first(), b.drop_first());
        if a.drop_first() == b.drop_first() {
            assert(a =~= seq![a[0]] + a.drop_first());
            assert(b =~= seq![b[0]] + b.drop_first());
        }
    } else if a.len() == 0 && b.len() == 0 {
        assert(a =~= b);
    }
}

/// The order of keys is transitive.
pub proof fn lemma_key_lt_transitive(a: Seq<char>, b: Seq<char>, c: Seq<char>)
    requires
        key_lt(a, b),
        key_lt(b, c),
    ensures
        key_lt(a, c),
    decreases a.len(),
{
    if a.len() > 0 && a[0] == b[0] && b[0] == c[0] {
        lemma_key_lt_transitive(a.drop_first(), b.drop_first(), c.drop_first());
    }
}

/// Keys that agree on their first `k` characters compare as their rests do.
proof fn lemma_key_lt_skip(a: Seq<char>, b: Seq<char>, k: int)
    requires
        0 <= k <= a.len(),
        k <= b.len(),
        a.take(k) == b.take(k),
    ensures
        key_lt(a, b) == key_lt(a.skip(k), b.skip(k)),
    decreases k,
{
    if k > 0 {
        assert(a[0] == a.take(k)[0]);
        assert(b[0] == b.take(k)[0]);
        assert(a.drop_first().take(k - 1) =~= a.take(k).drop_first());
        assert(b.drop_first().take(k - 1) =~= b.take(k).drop_first());
        lemma_key_lt_skip(a.drop_first(), b.drop_first(), k - 1);
        assert(a.drop_first().skip(k - 1) =~= a.skip(k));
        assert(b.drop_first().skip(k - 1) =~= b.skip(k));
    } else {
        assert(a.skip(0) =~= a);
        assert(b.skip(0) =~= b);
    }
}

/// Compares two keys: negative, zero or positive as `a` is below, equal to
/// or above `b`.
pub fn compare_keys(a: &String, b: &String) -> (r: i8)
    ensures
        r < 0 <==> key_lt(a@, b@),
        r == 0 <==> a@ == b@,
        r > 0 <==> key_lt(b@, a@),
{
    let sa = a.as_str();
    let sb = b.as_str();
    let na = sa.unicode_len();
    let nb = sb.unicode_len();
    let mut k: usize = 0;
    while k < na && k < nb
        invariant
            sa@ == a@,
            sb@ == b@,
            na == a@.len(),
            nb == b@.len(),
            k <= na,
            k <= nb,
            a@.take(k as int) == b@.take(k as int),
        decreases na - k,
    {
        let ca = sa.get_char(k);
        let cb = sb.get_char(k);
        if ca != cb {
            proof {
                lemma_key_lt_skip(a@, b@, k as int);
                lemma_key_lt_skip(b@, a@, k as int);
                assert(a@.skip(k as int)[0] == ca);
                assert(b@.skip(k as int)[0] == cb);
                assert(a@ != b@);
                lemma_key_lt_total(a@, b@);
            }
            if ca < cb {
                return -1;
            } else {
                return 1;
            }
        }
        proof {
            assert(a@.take(k + 1) =~= a@.take(k as int).push(ca));
            assert(b@.take(k + 1) =~= b@.take(k as int).push(cb));
        }
        k = k + 1;
    }
    proof {
        lemma_key_lt_skip(a@, b@, k as int);
        lemma_key_lt_skip(b@, a@, k as int);
        lemma_key_lt_total(a@, b@);
        if na == nb {
            assert(a@ =~= a@.take(k as int));
            assert(b@ =~= b@.take(k as int));
        }
    }
    if na < nb {
        -1
    } else if na > nb {
        1
    } else {
        0
    }
}

/// Keys in strictly increasing order.
pub open spec fn keys_sorted(ks: Seq<Seq<char>>) -> bool {
    forall|i: int, j: int| 0 <= i < j < ks.len() ==> key_lt(#[trigger] ks[i], #[trigger] ks[j])
}

/// Every object in the value, at any depth, has its keys in strictly
/// increasing order and one value per key.
pub open spec fn well_formed(j: JsonV) -> bool
    decreases j,
{
    match j {
        // The length conjunct keeps the arm from being a bare quantifier,
        // which Verus does not unfold here.
        JsonV::Array(items) => {
            &&& items.len() >= 0
            &&& forall|i: int| 0 <= i < items.len() ==> well_formed(#[trigger] items[i])
        },
        JsonV::Object(keys, vals) => {
            &&& keys.len() == vals.len()
            &&& keys_sorted(keys)
            &&& forall|i: int| 0 <= i < vals.len() ==> well_formed(#[trigger] vals[i])
        },
        _ => true,
    }
}

/// The position of `k` in `ks`, or -1 where it does not occur.
pub open spec fn index_of_key(ks: Seq<Seq<char>>, k: Seq<char>) -> int {
    if exists|i: int| 0 <= i < ks.len() && ks[i] == k {
        choose|i: int| 0 <= i < ks.len() && ks[i] == k
    } else {
        -1
    }
}

/// In sorted keys, a key that stands at `i` is found at `i`.
pub proof fn lemma_index_of_sorted(ks: Seq<Seq<char>>, i: int)
    requires
        keys_sorted(ks),
        0 <= i < ks.len(),
    ensures
        index_of_key(ks, ks[i]) == i,
{
    let c = choose|c: int| 0 <= c < ks.len() && ks[c] == ks[i];
    lemma_key_lt_irreflexive(ks[i]);
    if c < i {
        assert(key_lt(ks[c], ks[i]));
    } else if c > i {
        assert(key_lt(ks[i], ks[c]));
    }
}

/// The keys of both sequences, merged in increasing order, a shared key once.
pub open spec fn union_keys(ka: Seq<Seq<char>>, kb: Seq<Seq<char>>) -> Seq<Seq<char>>
    decreases ka.len() + kb.len(),
{
    if ka.len() == 0 {
        kb
    } else if kb.len() == 0 {
        ka
    } else if key_lt(ka[0], kb[0]) {
        seq![ka[0]] + union_keys(ka.drop_first(), kb)
    } else if key_lt(kb[0], ka[0]) {
        seq![kb[0]] + union_keys(ka, kb.drop_first())
    } else {
        seq![ka[0]] + union_keys(ka.drop_first(), kb.drop_first())
    }
}

/// `over` deep-merged into `base`: where both are objects, the result has
/// the keys of both; a key of both holds the merge of the two values, a key
/// of one side keeps that side's value. In every other case `over` replaces
/// `base` whole.
pub open spec fn merged(base: JsonV, over: JsonV) -> JsonV
    decreases base,
{
    match base {
        JsonV::Object(ka, va) => match over {
            JsonV::Object(kb, vb) => {
                let ks = union_keys(ka, kb);
                JsonV::Object(
                    ks,
                    Seq::new(
                        ks.len(),
                        |i: int|
                            {
                                let ia = index_of_key(ka, ks[i]);
                                let ib = index_of_key(kb, ks[i]);
                                if 0 <= ia < va.len() && 0 <= ib < vb.len() {
                                    merged(va[ia], vb[ib])
                                } else if 0 <= ib < vb.len() {
                                    vb[ib]
                                } else if 0 <= ia < va.len() {
                                    va[ia]
                                } else {
                                    JsonV::Null
                                }
                            },
                    ),
                )
            },
            _ => over,
        },
        _ => over,
    }
}

/// Whether every object in `j`, at any depth, has its keys in strictly
/// increasing order (see `well_formed`).
pub fn check_well_formed(j: &Json) -> (r: bool)
    ensures
        r == well_formed(j@),
    decreases j,
{
    proof {
        lemma_view_shape(j);
    }
    match j {
        Json::Array(items) => {
            let ghost vs = j@->Array_0;
            assert(forall|k: int| 0 <= k < items.len() ==> decreases_to!(j => #[trigger] items[k]));
            assert(j@ == JsonV::Array(vs));
            let mut i: usize = 0;
            while i < items.len()
                invariant
                    j == Json::Array(*items),
                    j@ == JsonV::Array(vs),
                    i <= items.len(),
                    forall|k: int| 0 <= k < items.len() ==> decreases_to!(j => #[trigger] items[k]),
                    vs.len() == items.len(),
                    forall|k: int| 0 <= k < items.len() ==> #[trigger] vs[k] == items[k]@,
                    forall|k: int| 0 <= k < i ==> well_formed(#[trigger] vs[k]),
                decreases items.len() - i,
            {
                if !check_well_formed(&items[i]) {
                    assert(!well_formed(vs[i as int]));
                    return false;
                }
                i = i + 1;
            }
            true
        },
        Json::Object(members) => {
            let ghost ks = j@->Object_0;
            let ghost vs = j@->Object_1;
            assert(forall|k: int|
                0 <= k < members.len() ==> decreases_to!(j => #[trigger] members[k].1));
            assert(j@ == JsonV::Object(ks, vs));
            let mut i: usize = 0;
            while i < members.len()
                invariant
                    j == Json::Object(*members),
                    j@ == JsonV::Object(ks, vs),
                    i <= members.len(),
                    forall|k: int|
                        0 <= k < members.len() ==> decreases_to!(j => #[trigger] members[k].1),
                    ks.len() == members.len(),
                    vs.len() == members.len(),
                    forall|k: int| 0 <= k < members.len() ==> #[trigger] ks[k] == members[k].0@,
                    forall|k: int| 0 <= k < members.len() ==> #[trigger] vs[k] == members[k].1@,
                    forall|k: int| 0 <= k < i ==> well_formed(#[trigger] vs[k]),
                    forall|a: int, b: int|
                        0 <= a < b < i ==> key_lt(#[trigger] ks[a], #[trigger] ks[b]),
                decreases members.len() - i,
            {
                if i > 0 {
                    if compare_keys(&members[i - 1].0, &members[i].0) >= 0 {
                        assert(j@ == JsonV::Object(ks, vs) && !key_lt(ks[i - 1], ks[i as int]));
                        assert(!keys_sorted(ks));
                        return false;
                    }
                    proof {
                        assert forall|a: int| 0 <= a < i implies key_lt(
                            #[trigger] ks[a],
                            ks[i as int],
                        ) by {
                            if a < i - 1 {
                                lemma_key_lt_transitive(ks[a], ks[i - 1], ks[i as int]);
                            }
                        }
                    }
                }
                if !check_well_formed(&members[i].1) {
                    assert(j@ == JsonV::Object(ks, vs) && !well_formed(vs[i as int]));
                    return false;
                }
                i = i + 1;
            }
            true
        },
        _ => true,
    }
}

/// The value that `merged` gives the key `k` in a merge of two objects.
pub open spec fn merged_member(
    ka: Seq<Seq<char>>,
    va: Seq<JsonV>,
    kb: Seq<Seq<char>>,
    vb: Seq<JsonV>,
    k: Seq<char>,
) -> JsonV {
    let ia = index_of_key(ka, k);
    let ib = index_of_key(kb, k);
    if 0 <= ia < va.len() && 0 <= ib < vb.len() {
        merged(va[ia], vb[ib])
    } else if 0 <= ib < vb.len() {
        vb[ib]
    } else if 0 <= ia < va.len() {
        va[ia]
    } else {
        JsonV::Null
    }
}

/// A key below every key of sorted keys from position `i` on is none of them.
proof fn lemma_absent_above(ks: Seq<Seq<char>>, i: int, k: Seq<char>)
    requires
        keys_sorted(ks),
        0 <= i,
        forall|c: int| 0 <= c < i && c < ks.len() ==> key_lt(#[trigger] ks[c], k),
        i < ks.len() ==> key_lt(k, ks[i]),
    ensures
        index_of_key(ks, k) == -1,
{
    assert forall|c: int| 0 <= c < ks.len() implies ks[c] != k by {
        lemma_key_lt_irreflexive(k);
        if c > i {
            lemma_key_lt_transitive(k, ks[i], ks[c]);
        }
    }
}

/// `over` deep-merged into a copy of `base` (see `merged`).
pub fn deep_merge(base: &Json, over: &Json) -> (r: Json)
    requires
        well_formed(base@),
        well_formed(over@),
    ensures
        r@ == merged(base@, over@),
    decreases base,
{
    proof {
        lemma_view_shape(base);
        lemma_view_shape(over);
    }
    let (xs, ys) = match base {
        Json::Object(xs) => match over {
            Json::Object(ys) => (xs, ys),
            _ => return copy_json(over),
        },
        _ => return copy_json(over),
    };
    let ghost ka = base@->Object_0;
    let ghost va = base@->Object_1;
    let ghost kb = over@->Object_0;
    let ghost vb = over@->Object_1;
    let ghost all = union_keys(ka, kb);
    assert(base@ == JsonV::Object(ka, va));
    assert(over@ == JsonV::Object(kb, vb));
    assert(forall|k: int| 0 <= k < va.len() ==> well_formed(#[trigger] va[k]));
    assert(forall|k: int| 0 <= k < vb.len() ==> well_formed(#[trigger] vb[k]));
    assert(forall|k: int| 0 <= k < xs.len() ==> decreases_to!(base => #[trigger] xs[k].1));
    let mut out: Vec<(String, Json)> = Vec::new();
    let ghost mut outk: Seq<Seq<char>> = Seq::empty();
    let mut i: usize = 0;
    let mut j: usize = 0;
    assert(ka.skip(0) =~= ka);
    assert(kb.skip(0) =~= kb);
    while i < xs.len() || j < ys.len()
        invariant
            base == Json::Object(*xs),
            over == Json::Object(*ys),
            well_formed(base@),
            well_formed(over@),
            forall|k: int| 0 <= k < xs.len() ==> decreases_to!(base => #[trigger] xs[k].1),
            keys_sorted(ka),
            keys_sorted(kb),
            forall|k: int| 0 <= k < va.len() ==> well_formed(#[trigger] va[k]),
            forall|k: int| 0 <= k < vb.len() ==> well_formed(#[trigger] vb[k]),
            ka.len() == xs.len() && va.len() == xs.len(),
            kb.len() == ys.len() && vb.len() == ys.len(),
            forall|k: int| 0 <= k < xs.len() ==> #[trigger] ka[k] == xs[k].0@,
            forall|k: int| 0 <= k < xs.len() ==> #[trigger] va[k] == xs[k].1@,
            forall|k: int| 0 <= k < ys.len() ==> #[trigger] kb[k] == ys[k].0@,
            forall|k: int| 0 <= k < ys.len() ==> #[trigger] vb[k] == ys[k].1@,
            i <= xs.len(),
            j <= ys.len(),
            all == outk + union_keys(ka.skip(i as int), kb.skip(j as int)),
            out.len() == outk.len(),
            forall|t: int| 0 <= t < out.len() ==> #[trigger] out[t].0@ == outk[t],
            forall|t: int|
                0 <= t < out.len() ==> #[trigger] out[t].1@ == merged_member(
                    ka,
                    va,
                    kb,
                    vb,
                    outk[t],
                ),
            i < xs.len() ==> forall|c: int| 0 <= c < j ==> key_lt(#[trigger] kb[c], ka[i as int]),
            j < ys.len() ==> forall|c: int| 0 <= c < i ==> key_lt(#[trigger] ka[c], kb[j as int]),
        decreases xs.len() + ys.len() - i - j,
    {
        let ghost sa = ka.skip(i as int);
        let ghost sb = kb.skip(j as int);
        assert(sa.len() > 0 ==> sa.drop_first() =~= ka.skip(i + 1) && sa[0] == ka[i as int]);
        assert(sb.len() > 0 ==> sb.drop_first() =~= kb.skip(j + 1) && sb[0] == kb[j as int]);
        let ord: i8 = if i == xs.len() {
            1
        } else if j == ys.len() {
            -1
        } else {
            compare_keys(&xs[i].0, &ys[j].0)
        };
        if ord < 0 {
            proof {
                lemma_index_of_sorted(ka, i as int);
                lemma_absent_above(kb, j as int, ka[i as int]);
                if i + 1 < xs.len() {
                    assert(key_lt(ka[i as int], ka[i + 1]));
                    assert forall|c: int| 0 <= c < j implies key_lt(#[trigger] kb[c], ka[i + 1]) by {
                        lemma_key_lt_transitive(kb[c], ka[i as int], ka[i + 1]);
                    }
                }
                outk = outk.push(ka[i as int]);
            }
            out.push((xs[i].0.clone(), copy_json(&xs[i].1)));
            i = i + 1;
        } else if ord > 0 {
            proof {
                lemma_index_of_sorted(kb, j as int);
                lemma_absent_above(ka, i as int, kb[j as int]);
                if j + 1 < ys.len() {
                    assert(key_lt(kb[j as int], kb[j + 1]));
                    assert forall|c: int| 0 <= c < i implies key_lt(#[trigger] ka[c], kb[j + 1]) by {
                        lemma_key_lt_transitive(ka[c], kb[j as int], kb[j + 1]);
                    }
                }
                outk = outk.push(kb[j as int]);
            }
            out.push((ys[j].0.clone(), copy_json(&ys[j].1)));
            j = j + 1;
        } else {
            proof {
                lemma_index_of_sorted(ka, i as int);
                lemma_index_of_sorted(kb, j as int);
                lemma_key_lt_total(ka[i as int], kb[j as int]);
                if i + 1 < xs.len() {
                    assert(key_lt(ka[i as int], ka[i + 1]));
                    assert forall|c: int| 0 <= c < j + 1 implies key_lt(#[trigger] kb[c], ka[i + 1]) by {
                        if c < j {
                            lemma_key_lt_transitive(kb[c], ka[i as int], ka[i + 1]);
                        }
                    }
                }
                if j + 1 < ys.len() {
                    assert(key_lt(kb[j as int], kb[j + 1]));
                    assert forall|c: int| 0 <= c < i + 1 implies key_lt(#[trigger] ka[c], kb[j + 1]) by {
                        if c < i {
                            lemma_key_lt_transitive(ka[c], kb[j as int], kb[j + 1]);
                        }
                    }
                }
                outk = outk.push(ka[i as int]);
            }
            assert(well_formed(va[i as int]) && va[i as int] == xs[i as int].1@);
            assert(well_formed(vb[j as int]) && vb[j as int] == ys[j as int].1@);
            let v = deep_merge(&xs[i].1, &ys[j].1);
            out.push((xs[i].0.clone(), v));
            i = i + 1;
            j = j + 1;
        }
        proof {
            assert(all == outk + union_keys(ka.skip(i as int), kb.skip(j as int)));
        }
    }
    proof {
        assert(ka.skip(i as int).len() == 0 && kb.skip(j as int).len() == 0);
        assert(all =~= outk);
    }
    let r = Json::Object(out);
    proof {
        lemma_view_shape(&r);
        assert(r@->Object_0 =~= merged(base@, over@)->Object_0);
        assert(r@->Object_1 =~= merged(base@, over@)->Object_1);
    }
    r
}

} // verus!
