//! Properties of the join and of the deep merge, stated over the specs that
//! the executable functions are proved to meet.

use vstd::prelude::*;
use crate::join::{MergeMode, join_from, join_spec, scan_block};
use crate::json::JsonV;
use crate::merge::{index_of_key, merged, merged_member, union_keys};
use crate::record::{DecodedV, JoinErrorV, key_of, keyed_record, record_of};

verus! {

/// Joining the same inputs with the same options twice gives the same
/// lines, or the same error.
pub proof fn lemma_join_deterministic(
    left1: Seq<DecodedV>,
    left2: Seq<DecodedV>,
    key1: Seq<char>,
    right1: Seq<DecodedV>,
    right2: Seq<DecodedV>,
    key2: Seq<char>,
    allow_no_key: bool,
    merge: Option<MergeMode>,
)
    requires
        left1 == left2,
        right1 == right2,
    ensures
        join_spec(left1, key1, right1, key2, allow_no_key, merge) == join_spec(
            left2,
            key1,
            right2,
            key2,
            allow_no_key,
            merge,
        ),
{
}

/// With missing keys allowed, a record without the key field has the key
/// `null`; without, it gives a missing-key error naming the key and holding
/// the record.
pub proof fn lemma_missing_key_policy(rec: JsonV, key: Seq<char>)
    requires
        rec is Object,
        index_of_key(rec->Object_0, key) == -1,
    ensures
        key_of(rec, key, true) == Ok::<JsonV, JoinErrorV>(JsonV::Null),
        key_of(rec, key, false) == Err::<JsonV, JoinErrorV>(JoinErrorV::MissingKey(key, rec)),
{
}

/// Every record of `right` from `t` on is read as a record with a key.
pub open spec fn all_keyed_from(right: Seq<DecodedV>, key: Seq<char>, allow: bool, t: int) -> bool {
    forall|k: int| t <= k < right.len() ==> (#[trigger] keyed_record(right[k], key, allow)) is Ok
}

/// A block scan over records that all have keys succeeds.
proof fn lemma_scan_ok(
    right: Seq<DecodedV>,
    key: Seq<char>,
    allow: bool,
    merge: Option<MergeMode>,
    lrec: JsonV,
    lkey: JsonV,
    t: int,
    prev: Option<JsonV>,
)
    requires
        0 <= t,
        all_keyed_from(right, key, allow, t),
    ensures
        scan_block(right, key, allow, merge, lrec, lkey, t, prev) is Ok,
    decreases right.len() - t,
{
    if t < right.len() {
        let r = keyed_record(right[t], key, allow);
        assert(r is Ok);
        lemma_scan_ok(right, key, allow, merge, lrec, lkey, t + 1, Some(r->Ok_0.1));
    }
}

/// Without missing keys allowed, a left record that lacks the key field
/// makes the join fail; where every other record it could read before is
/// sound, the error is the missing-key error for that record.
pub proof fn lemma_missing_left_key_fails(
    left: Seq<DecodedV>,
    key1: Seq<char>,
    right: Seq<DecodedV>,
    key2: Seq<char>,
    merge: Option<MergeMode>,
    j: int,
)
    requires
        0 <= j < left.len(),
        record_of(left[j]) is Ok,
        key_of(record_of(left[j])->Ok_0, key1, false) is Err,
    ensures
        join_spec(left, key1, right, key2, false, merge) is Err,
        (forall|k: int| 0 <= k < j ==> (#[trigger] keyed_record(left[k], key1, false)) is Ok)
            && all_keyed_from(right, key2, false, 0) ==> join_spec(
            left,
            key1,
            right,
            key2,
            false,
            merge,
        ) == Err::<Seq<Seq<char>>, JoinErrorV>(
            JoinErrorV::MissingKey(key1, record_of(left[j])->Ok_0),
        ),
{
    lemma_missing_from(left, key1, right, key2, merge, j, 0, 0, 0);
}

proof fn lemma_missing_from(
    left: Seq<DecodedV>,
    key1: Seq<char>,
    right: Seq<DecodedV>,
    key2: Seq<char>,
    merge: Option<MergeMode>,
    j: int,
    i: int,
    bs: int,
    be: int,
)
    requires
        0 <= i <= j < left.len(),
        0 <= bs,
        0 <= be,
        record_of(left[j]) is Ok,
        key_of(record_of(left[j])->Ok_0, key1, false) is Err,
    ensures
        join_from(left, key1, right, key2, false, merge, i, bs, be) is Err,
        (forall|k: int| 0 <= k < j ==> (#[trigger] keyed_record(left[k], key1, false)) is Ok)
            && all_keyed_from(right, key2, false, 0) ==> join_from(
            left,
            key1,
            right,
            key2,
            false,
            merge,
            i,
            bs,
            be,
        ) == Err::<Seq<Seq<char>>, JoinErrorV>(
            JoinErrorV::MissingKey(key1, record_of(left[j])->Ok_0),
        ),
    decreases j - i,
{
    let kr = keyed_record(left[i], key1, false);
    if i < j && kr is Ok {
        let (lrec, lkey) = kr->Ok_0;
        let prev = keyed_record(left[i - 1], key1, false);
        let start = if i > 0 && prev is Ok && prev->Ok_0.1 != lkey {
            be
        } else {
            bs
        };
        let sc = scan_block(right, key2, false, merge, lrec, lkey, start, None);
        if all_keyed_from(right, key2, false, 0) {
            lemma_scan_ok(right, key2, false, merge, lrec, lkey, start, None);
        }
        if sc is Ok {
            let end = sc->Ok_0.0;
            lemma_scan_end_nonneg(right, key2, false, merge, lrec, lkey, start, None);
            lemma_missing_from(left, key1, right, key2, merge, j, i + 1, start, end);
        }
    }
}

proof fn lemma_scan_end_nonneg(
    right: Seq<DecodedV>,
    key: Seq<char>,
    allow: bool,
    merge: Option<MergeMode>,
    lrec: JsonV,
    lkey: JsonV,
    t: int,
    prev: Option<JsonV>,
)
    requires
        0 <= t,
    ensures
        scan_block(right, key, allow, merge, lrec, lkey, t, prev) is Ok ==> scan_block(
            right,
            key,
            allow,
            merge,
            lrec,
            lkey,
            t,
            prev,
        )->Ok_0.0 >= t,
    decreases right.len() - t,
{
    if t < right.len() {
        let r = keyed_record(right[t], key, allow);
        if r is Ok {
            lemma_scan_end_nonneg(right, key, allow, merge, lrec, lkey, t + 1, Some(r->Ok_0.1));
        }
    }
}

/// The value of field `k` of an object, if it has one.
pub open spec fn member(j: JsonV, k: Seq<char>) -> Option<JsonV> {
    match j {
        JsonV::Object(ks, vs) => {
            let i = index_of_key(ks, k);
            if 0 <= i < vs.len() {
                Some(vs[i])
            } else {
                None
            }
        },
        _ => None,
    }
}

/// A key is among the merged keys exactly when it is among either side's.
pub proof fn lemma_union_keys_members(ka: Seq<Seq<char>>, kb: Seq<Seq<char>>, k: Seq<char>)
    ensures
        union_keys(ka, kb).contains(k) <==> ka.contains(k) || kb.contains(k),
    decreases ka.len() + kb.len(),
{
    if ka.len() > 0 && kb.len() > 0 {
        let u = union_keys(ka, kb);
        if crate::merge::key_lt(ka[0], kb[0]) {
            lemma_union_keys_members(ka.drop_first(), kb, k);
            assert(ka =~= seq![ka[0]] + ka.drop_first());
            assert(u == seq![ka[0]] + union_keys(ka.drop_first(), kb));
            if u.contains(k) {
                let t = choose|t: int| 0 <= t < u.len() && u[t] == k;
                if t > 0 {
                    assert(union_keys(ka.drop_first(), kb)[t - 1] == k);
                }
            }
            if ka.contains(k) {
                let t = choose|t: int| 0 <= t < ka.len() && ka[t] == k;
                if t > 0 {
                    assert(ka.drop_first()[t - 1] == k);
                } else {
                    assert(u[0] == k);
                }
            }
            if union_keys(ka.drop_first(), kb).contains(k) {
                let t = choose|t: int|
                    0 <= t < union_keys(ka.drop_first(), kb).len() && union_keys(
                        ka.drop_first(),
                        kb,
                    )[t] == k;
                assert(u[t + 1] == k);
            }
            if ka.drop_first().contains(k) {
                let t = choose|t: int| 0 <= t < ka.drop_first().len() && ka.drop_first()[t] == k;
                assert(ka[t + 1] == k);
            }
        } else if crate::merge::key_lt(kb[0], ka[0]) {
            lemma_union_keys_members(ka, kb.drop_first(), k);
            assert(u == seq![kb[0]] + union_keys(ka, kb.drop_first()));
            if u.contains(k) {
                let t = choose|t: int| 0 <= t < u.len() && u[t] == k;
                if t > 0 {
                    assert(union_keys(ka, kb.drop_first())[t - 1] == k);
                }
            }
            if kb.contains(k) {
                let t = choose|t: int| 0 <= t < kb.len() && kb[t] == k;
                if t > 0 {
                    assert(kb.drop_first()[t - 1] == k);
                } else {
                    assert(u[0] == k);
                }
            }
            if union_keys(ka, kb.drop_first()).contains(k) {
                let t = choose|t: int|
                    0 <= t < union_keys(ka, kb.drop_first()).len() && union_keys(
                        ka,
                        kb.drop_first(),
                    )[t] == k;
                assert(u[t + 1] == k);
            }
            if kb.drop_first().contains(k) {
                let t = choose|t: int| 0 <= t < kb.drop_first().len() && kb.drop_first()[t] == k;
                assert(kb[t + 1] == k);
            }
        } else {
            crate::merge::lemma_key_lt_total(ka[0], kb[0]);
            lemma_union_keys_members(ka.drop_first(), kb.drop_first(), k);
            let r = union_keys(ka.drop_first(), kb.drop_first());
            assert(u == seq![ka[0]] + r);
            if u.contains(k) {
                let t = choose|t: int| 0 <= t < u.len() && u[t] == k;
                if t > 0 {
                    assert(r[t - 1] == k);
                }
            }
            if ka.contains(k) {
                let t = choose|t: int| 0 <= t < ka.len() && ka[t] == k;
                if t > 0 {
                    assert(ka.drop_first()[t - 1] == k);
                } else {
                    assert(u[0] == k);
                }
            }
            if kb.contains(k) {
                let t = choose|t: int| 0 <= t < kb.len() && kb[t] == k;
                if t > 0 {
                    assert(kb.drop_first()[t - 1] == k);
                } else {
                    assert(u[0] == k);
                }
            }
            if r.contains(k) {
                let t = choose|t: int| 0 <= t < r.len() && r[t] == k;
                assert(u[t + 1] == k);
            }
            if ka.drop_first().contains(k) {
                let t = choose|t: int| 0 <= t < ka.drop_first().len() && ka.drop_first()[t] == k;
                assert(ka[t + 1] == k);
            }
            if kb.drop_first().contains(k) {
                let t = choose|t: int| 0 <= t < kb.drop_first().len() && kb.drop_first()[t] == k;
                assert(kb[t + 1] == k);
            }
        }
    }
}

/// In a merge of two objects where `over`'s fields win (`over` is the left
/// record for `PreferLeft`, the right one for `PreferRight`): the result has
/// exactly the fields of both; a field of `base` alone keeps its value; a
/// field of `over` alone keeps its value; a field of both holds `over`'s
/// value, except where both values are objects, which are merged the same
/// way, field by field.
pub proof fn lemma_merge_fields(base: JsonV, over: JsonV, k: Seq<char>)
    requires
        base is Object,
        over is Object,
        base->Object_0.len() == base->Object_1.len(),
        over->Object_0.len() == over->Object_1.len(),
    ensures
        merged(base, over) is Object,
        member(merged(base, over), k) is Some <==> member(base, k) is Some || member(over, k)
            is Some,
        member(over, k) is None ==> member(merged(base, over), k) == member(base, k),
        member(base, k) is None ==> member(merged(base, over), k) == member(over, k),
        member(base, k) is Some && member(over, k) is Some ==> member(merged(base, over), k)
            == Some(merged(member(base, k)->0, member(over, k)->0)),
        member(base, k) is Some && member(over, k) is Some && !(member(base, k)->0 is Object
            && member(over, k)->0 is Object) ==> member(merged(base, over), k) == member(over, k),
{
    let (ka, va) = (base->Object_0, base->Object_1);
    let (kb, vb) = (over->Object_0, over->Object_1);
    let m = merged(base, over);
    let ks = union_keys(ka, kb);
    lemma_union_keys_members(ka, kb, k);
    if ks.contains(k) {
        let t = index_of_key(ks, k);
        assert(0 <= t < ks.len() && ks[t] == k);
        assert(m->Object_1[t] == merged_member(ka, va, kb, vb, ks[t]));
    }
    let ia = index_of_key(ka, k);
    let ib = index_of_key(kb, k);
    if ka.contains(k) {
        assert(0 <= ia < ka.len());
    }
    if kb.contains(k) {
        assert(0 <= ib < kb.len());
    }
    if !ks.contains(k) {
        assert(index_of_key(ks, k) == -1);
    }
}

} // verus!
