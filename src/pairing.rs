//! What the join emits on inputs whose every record reads with a key: each
//! left record is paired with the matching records of one right-hand block,
//! and, where that block holds all of its matches, the output is the nested
//! loop over both sides with the Cartesian count per key.

use vstd::prelude::*;
use crate::join::{MergeMode, join_from, join_spec, pair_text, scan_block};
use crate::json::JsonV;
use crate::laws::all_keyed_from;
use crate::record::{DecodedV, keyed_record};

verus! {

/// The key of record `t` of a side, where it reads with one.
pub open spec fn key_at(side: Seq<DecodedV>, key: Seq<char>, allow: bool, t: int) -> JsonV {
    keyed_record(side[t], key, allow)->Ok_0.1
}

/// Record `t` of a side, where it reads with a key.
pub open spec fn record_at(side: Seq<DecodedV>, key: Seq<char>, allow: bool, t: int) -> JsonV {
    keyed_record(side[t], key, allow)->Ok_0.0
}

/// The lines for the right records in `[a, b)` whose key is `lkey`, each
/// paired with `lrec`, in order.
pub open spec fn matches_between(
    right: Seq<DecodedV>,
    key: Seq<char>,
    allow: bool,
    merge: Option<MergeMode>,
    lrec: JsonV,
    lkey: JsonV,
    a: int,
    b: int,
) -> Seq<Seq<char>>
    decreases b - a,
{
    if a < 0 || a >= b || a >= right.len() {
        Seq::empty()
    } else {
        (if key_at(right, key, allow, a) == lkey {
            seq![pair_text(lrec, record_at(right, key, allow, a), merge)]
        } else {
            Seq::empty()
        }) + matches_between(right, key, allow, merge, lrec, lkey, a + 1, b)
    }
}

/// The end of the run of records with key `k` that goes on at `t`.
pub open spec fn run_end_from(right: Seq<DecodedV>, key: Seq<char>, allow: bool, t: int, k: JsonV) -> int
    decreases right.len() - t,
{
    if t < 0 || t >= right.len() || key_at(right, key, allow, t) != k {
        t
    } else {
        run_end_from(right, key, allow, t + 1, k)
    }
}

/// Where the block (run of equal keys) that starts at `s` ends.
pub open spec fn block_end(right: Seq<DecodedV>, key: Seq<char>, allow: bool, s: int) -> int {
    if 0 <= s < right.len() {
        run_end_from(right, key, allow, s + 1, key_at(right, key, allow, s))
    } else {
        s
    }
}

/// Where the right-hand block that left record `i` is compared with starts:
/// the first block for the first record, the same block as the previous
/// record's where the key repeats, the next block where it changes.
pub open spec fn block_of(
    left: Seq<DecodedV>,
    key1: Seq<char>,
    right: Seq<DecodedV>,
    key2: Seq<char>,
    allow: bool,
    i: int,
) -> int
    decreases i,
{
    if i <= 0 {
        0
    } else if key_at(left, key1, allow, i) == key_at(left, key1, allow, i - 1) {
        block_of(left, key1, right, key2, allow, i - 1)
    } else {
        block_end(right, key2, allow, block_of(left, key1, right, key2, allow, i - 1))
    }
}

/// The lines for left record `i`: the matching records of its block.
pub open spec fn lines_of_record(
    left: Seq<DecodedV>,
    key1: Seq<char>,
    right: Seq<DecodedV>,
    key2: Seq<char>,
    allow: bool,
    merge: Option<MergeMode>,
    i: int,
) -> Seq<Seq<char>> {
    let s = block_of(left, key1, right, key2, allow, i);
    matches_between(
        right,
        key2,
        allow,
        merge,
        record_at(left, key1, allow, i),
        key_at(left, key1, allow, i),
        s,
        block_end(right, key2, allow, s),
    )
}

/// The lines for the left records from `i` on, in order.
pub open spec fn block_lines_from(
    left: Seq<DecodedV>,
    key1: Seq<char>,
    right: Seq<DecodedV>,
    key2: Seq<char>,
    allow: bool,
    merge: Option<MergeMode>,
    i: int,
) -> Seq<Seq<char>>
    decreases left.len() - i,
{
    if i < 0 || i >= left.len() {
        Seq::empty()
    } else {
        lines_of_record(left, key1, right, key2, allow, merge, i) + block_lines_from(
            left,
            key1,
            right,
            key2,
            allow,
            merge,
            i + 1,
        )
    }
}

/// Every record of both sides reads as a record with a key.
pub open spec fn all_keyed(
    left: Seq<DecodedV>,
    key1: Seq<char>,
    right: Seq<DecodedV>,
    key2: Seq<char>,
    allow: bool,
) -> bool {
    all_keyed_from(left, key1, allow, 0) && all_keyed_from(right, key2, allow, 0)
}

proof fn lemma_run_end_bounds(right: Seq<DecodedV>, key: Seq<char>, allow: bool, t: int, k: JsonV)
    requires
        0 <= t <= right.len(),
    ensures
        t <= run_end_from(right, key, allow, t, k) <= right.len(),
    decreases right.len() - t,
{
    if t < right.len() && key_at(right, key, allow, t) == k {
        lemma_run_end_bounds(right, key, allow, t + 1, k);
    }
}

proof fn lemma_block_end_bounds(right: Seq<DecodedV>, key: Seq<char>, allow: bool, s: int)
    requires
        0 <= s <= right.len(),
    ensures
        s <= block_end(right, key, allow, s) <= right.len(),
{
    if s < right.len() {
        lemma_run_end_bounds(right, key, allow, s + 1, key_at(right, key, allow, s));
    }
}

proof fn lemma_block_of_bounds(
    left: Seq<DecodedV>,
    key1: Seq<char>,
    right: Seq<DecodedV>,
    key2: Seq<char>,
    allow: bool,
    i: int,
)
    ensures
        0 <= block_of(left, key1, right, key2, allow, i) <= right.len(),
    decreases i,
{
    if i > 0 {
        lemma_block_of_bounds(left, key1, right, key2, allow, i - 1);
        lemma_block_end_bounds(right, key2, allow, block_of(left, key1, right, key2, allow, i - 1));
    }
}

proof fn lemma_scan_run(
    right: Seq<DecodedV>,
    key: Seq<char>,
    allow: bool,
    merge: Option<MergeMode>,
    lrec: JsonV,
    lkey: JsonV,
    t: int,
    k: JsonV,
)
    requires
        0 <= t <= right.len(),
        all_keyed_from(right, key, allow, 0),
    ensures
        scan_block(right, key, allow, merge, lrec, lkey, t, Some(k)) == Ok::<
            (int, Seq<Seq<char>>),
            crate::record::JoinErrorV,
        >(
            (
                run_end_from(right, key, allow, t, k),
                matches_between(
                    right,
                    key,
                    allow,
                    merge,
                    lrec,
                    lkey,
                    t,
                    run_end_from(right, key, allow, t, k),
                ),
            ),
        ),
    decreases right.len() - t,
{
    if t < right.len() {
        assert(keyed_record(right[t], key, allow) is Ok);
        if key_at(right, key, allow, t) == k {
            lemma_scan_run(right, key, allow, merge, lrec, lkey, t + 1, k);
            lemma_run_end_bounds(right, key, allow, t + 1, k);
        }
    }
}

proof fn lemma_scan_block_start(
    right: Seq<DecodedV>,
    key: Seq<char>,
    allow: bool,
    merge: Option<MergeMode>,
    lrec: JsonV,
    lkey: JsonV,
    s: int,
)
    requires
        0 <= s <= right.len(),
        all_keyed_from(right, key, allow, 0),
    ensures
        scan_block(right, key, allow, merge, lrec, lkey, s, None) == Ok::<
            (int, Seq<Seq<char>>),
            crate::record::JoinErrorV,
        >(
            (
                block_end(right, key, allow, s),
                matches_between(
                    right,
                    key,
                    allow,
                    merge,
                    lrec,
                    lkey,
                    s,
                    block_end(right, key, allow, s),
                ),
            ),
        ),
{
    if s < right.len() {
        assert(keyed_record(right[s], key, allow) is Ok);
        let k = key_at(right, key, allow, s);
        lemma_scan_run(right, key, allow, merge, lrec, lkey, s + 1, k);
        lemma_run_end_bounds(right, key, allow, s + 1, k);
    }
}

proof fn lemma_join_from_blocks(
    left: Seq<DecodedV>,
    key1: Seq<char>,
    right: Seq<DecodedV>,
    key2: Seq<char>,
    allow: bool,
    merge: Option<MergeMode>,
    i: int,
    bs: int,
    be: int,
)
    requires
        0 <= i <= left.len(),
        all_keyed(left, key1, right, key2, allow),
        i == 0 ==> bs == 0,
        i > 0 ==> bs == block_of(left, key1, right, key2, allow, i - 1) && be == block_end(
            right,
            key2,
            allow,
            block_of(left, key1, right, key2, allow, i - 1),
        ),
    ensures
        join_from(left, key1, right, key2, allow, merge, i, bs, be) == Ok::<
            Seq<Seq<char>>,
            crate::record::JoinErrorV,
        >(block_lines_from(left, key1, right, key2, allow, merge, i)),
    decreases left.len() - i,
{
    if i < left.len() {
        assert(keyed_record(left[i], key1, allow) is Ok);
        if i > 0 {
            assert(keyed_record(left[i - 1], key1, allow) is Ok);
        }
        let s = block_of(left, key1, right, key2, allow, i);
        lemma_block_of_bounds(left, key1, right, key2, allow, i);
        lemma_scan_block_start(
            right,
            key2,
            allow,
            merge,
            record_at(left, key1, allow, i),
            key_at(left, key1, allow, i),
            s,
        );
        lemma_join_from_blocks(
            left,
            key1,
            right,
            key2,
            allow,
            merge,
            i + 1,
            s,
            block_end(right, key2, allow, s),
        );
    }
}

/// On inputs whose every record reads with a key, the join emits, for each
/// left record in order, its pairs with the records of its right-hand block
/// (`block_of`) whose key equals its own, in order.
pub proof fn lemma_join_output(
    left: Seq<DecodedV>,
    key1: Seq<char>,
    right: Seq<DecodedV>,
    key2: Seq<char>,
    allow: bool,
    merge: Option<MergeMode>,
)
    requires
        all_keyed(left, key1, right, key2, allow),
    ensures
        join_spec(left, key1, right, key2, allow, merge) == Ok::<
            Seq<Seq<char>>,
            crate::record::JoinErrorV,
        >(block_lines_from(left, key1, right, key2, allow, merge, 0)),
{
    lemma_join_from_blocks(left, key1, right, key2, allow, merge, 0, 0, 0);
}

/// Every right record whose key equals a left record's lies in the block
/// that left record is compared with. (Sorted inputs can break this: with
/// left keys 1, 3 and right keys 1, 2, 3, the record with key 3 is compared
/// with the block of key 2.)
pub open spec fn blocks_hold_matches(
    left: Seq<DecodedV>,
    key1: Seq<char>,
    right: Seq<DecodedV>,
    key2: Seq<char>,
    allow: bool,
) -> bool {
    forall|i: int, t: int|
        #![trigger key_at(left, key1, allow, i), key_at(right, key2, allow, t)]
        0 <= i < left.len() && 0 <= t < right.len() && key_at(right, key2, allow, t) == key_at(
            left,
            key1,
            allow,
            i,
        ) ==> block_of(left, key1, right, key2, allow, i) <= t < block_end(
            right,
            key2,
            allow,
            block_of(left, key1, right, key2, allow, i),
        )
}

/// The lines of the nested loop from left record `i` on: each left record
/// in order, paired with every right record of equal key, in order.
pub open spec fn nested_lines_from(
    left: Seq<DecodedV>,
    key1: Seq<char>,
    right: Seq<DecodedV>,
    key2: Seq<char>,
    allow: bool,
    merge: Option<MergeMode>,
    i: int,
) -> Seq<Seq<char>>
    decreases left.len() - i,
{
    if i < 0 || i >= left.len() {
        Seq::empty()
    } else {
        matches_between(
            right,
            key2,
            allow,
            merge,
            record_at(left, key1, allow, i),
            key_at(left, key1, allow, i),
            0,
            right.len() as int,
        ) + nested_lines_from(left, key1, right, key2, allow, merge, i + 1)
    }
}

proof fn lemma_matches_split(
    right: Seq<DecodedV>,
    key: Seq<char>,
    allow: bool,
    merge: Option<MergeMode>,
    lrec: JsonV,
    lkey: JsonV,
    a: int,
    b: int,
    c: int,
)
    requires
        0 <= a <= b <= c <= right.len(),
    ensures
        matches_between(right, key, allow, merge, lrec, lkey, a, c) == matches_between(
            right,
            key,
            allow,
            merge,
            lrec,
            lkey,
            a,
            b,
        ) + matches_between(right, key, allow, merge, lrec, lkey, b, c),
    decreases b - a,
{
    if a < b {
        lemma_matches_split(right, key, allow, merge, lrec, lkey, a + 1, b, c);
        let here = if key_at(right, key, allow, a) == lkey {
            seq![pair_text(lrec, record_at(right, key, allow, a), merge)]
        } else {
            Seq::empty()
        };
        assert(here + (matches_between(right, key, allow, merge, lrec, lkey, a + 1, b)
            + matches_between(right, key, allow, merge, lrec, lkey, b, c)) =~= (here
            + matches_between(right, key, allow, merge, lrec, lkey, a + 1, b))
            + matches_between(right, key, allow, merge, lrec, lkey, b, c));
    } else {
        assert(Seq::<Seq<char>>::empty() + matches_between(right, key, allow, merge, lrec, lkey, b, c)
            =~= matches_between(right, key, allow, merge, lrec, lkey, b, c));
    }
}

proof fn lemma_matches_none(
    right: Seq<DecodedV>,
    key: Seq<char>,
    allow: bool,
    merge: Option<MergeMode>,
    lrec: JsonV,
    lkey: JsonV,
    a: int,
    b: int,
)
    requires
        0 <= a <= b <= right.len(),
        forall|t: int| a <= t < b ==> #[trigger] key_at(right, key, allow, t) != lkey,
    ensures
        matches_between(right, key, allow, merge, lrec, lkey, a, b) == Seq::<Seq<char>>::empty(),
    decreases b - a,
{
    if a < b {
        lemma_matches_none(right, key, allow, merge, lrec, lkey, a + 1, b);
        assert(Seq::<Seq<char>>::empty() + Seq::<Seq<char>>::empty() =~= Seq::<Seq<char>>::empty());
    }
}

proof fn lemma_record_lines_all_matches(
    left: Seq<DecodedV>,
    key1: Seq<char>,
    right: Seq<DecodedV>,
    key2: Seq<char>,
    allow: bool,
    merge: Option<MergeMode>,
    i: int,
)
    requires
        0 <= i < left.len(),
        blocks_hold_matches(left, key1, right, key2, allow),
    ensures
        lines_of_record(left, key1, right, key2, allow, merge, i) == matches_between(
            right,
            key2,
            allow,
            merge,
            record_at(left, key1, allow, i),
            key_at(left, key1, allow, i),
            0,
            right.len() as int,
        ),
{
    let s = block_of(left, key1, right, key2, allow, i);
    lemma_block_of_bounds(left, key1, right, key2, allow, i);
    lemma_block_end_bounds(right, key2, allow, s);
    let e = block_end(right, key2, allow, s);
    let lrec = record_at(left, key1, allow, i);
    let lkey = key_at(left, key1, allow, i);
    let n = right.len() as int;
    lemma_matches_split(right, key2, allow, merge, lrec, lkey, 0, s, n);
    lemma_matches_split(right, key2, allow, merge, lrec, lkey, s, e, n);
    assert forall|t: int| 0 <= t < s implies #[trigger] key_at(right, key2, allow, t) != lkey by {
        if key_at(right, key2, allow, t) == lkey {
            assert(s <= t);
        }
    }
    assert forall|t: int| e <= t < n implies #[trigger] key_at(right, key2, allow, t) != lkey by {
        if key_at(right, key2, allow, t) == lkey {
            assert(t < e);
        }
    }
    lemma_matches_none(right, key2, allow, merge, lrec, lkey, 0, s);
    lemma_matches_none(right, key2, allow, merge, lrec, lkey, e, n);
    let mid = matches_between(right, key2, allow, merge, lrec, lkey, s, e);
    assert(Seq::<Seq<char>>::empty() + (mid + Seq::<Seq<char>>::empty()) =~= mid);
}

proof fn lemma_nested_from(
    left: Seq<DecodedV>,
    key1: Seq<char>,
    right: Seq<DecodedV>,
    key2: Seq<char>,
    allow: bool,
    merge: Option<MergeMode>,
    i: int,
)
    requires
        0 <= i <= left.len(),
        blocks_hold_matches(left, key1, right, key2, allow),
    ensures
        block_lines_from(left, key1, right, key2, allow, merge, i) == nested_lines_from(
            left,
            key1,
            right,
            key2,
            allow,
            merge,
            i,
        ),
    decreases left.len() - i,
{
    if i < left.len() {
        lemma_record_lines_all_matches(left, key1, right, key2, allow, merge, i);
        lemma_nested_from(left, key1, right, key2, allow, merge, i + 1);
    }
}

/// Where every record reads with a key and each left record's block holds
/// all of its matches, the join emits the nested loop: the left records in
/// order, each paired with every right record of equal key, in order.
pub proof fn lemma_join_is_nested_loop(
    left: Seq<DecodedV>,
    key1: Seq<char>,
    right: Seq<DecodedV>,
    key2: Seq<char>,
    allow: bool,
    merge: Option<MergeMode>,
)
    requires
        all_keyed(left, key1, right, key2, allow),
        blocks_hold_matches(left, key1, right, key2, allow),
    ensures
        join_spec(left, key1, right, key2, allow, merge) == Ok::<
            Seq<Seq<char>>,
            crate::record::JoinErrorV,
        >(nested_lines_from(left, key1, right, key2, allow, merge, 0)),
{
    lemma_join_output(left, key1, right, key2, allow, merge);
    lemma_nested_from(left, key1, right, key2, allow, merge, 0);
}

/// How many records in `[a, b)` of a side have key `k`.
pub open spec fn count_key_between(
    side: Seq<DecodedV>,
    key: Seq<char>,
    allow: bool,
    k: JsonV,
    a: int,
    b: int,
) -> nat
    decreases b - a,
{
    if a < 0 || a >= b || a >= side.len() {
        0
    } else {
        (if key_at(side, key, allow, a) == k {
            1nat
        } else {
            0nat
        }) + count_key_between(side, key, allow, k, a + 1, b)
    }
}

/// How many lines the join emits for the left records from `i` on whose key
/// is `k`.
pub open spec fn emitted_for_key(
    left: Seq<DecodedV>,
    key1: Seq<char>,
    right: Seq<DecodedV>,
    key2: Seq<char>,
    allow: bool,
    merge: Option<MergeMode>,
    k: JsonV,
    i: int,
) -> nat
    decreases left.len() - i,
{
    if i < 0 || i >= left.len() {
        0
    } else {
        (if key_at(left, key1, allow, i) == k {
            lines_of_record(left, key1, right, key2, allow, merge, i).len()
        } else {
            0nat
        }) + emitted_for_key(left, key1, right, key2, allow, merge, k, i + 1)
    }
}

proof fn lemma_matches_len(
    right: Seq<DecodedV>,
    key: Seq<char>,
    allow: bool,
    merge: Option<MergeMode>,
    lrec: JsonV,
    lkey: JsonV,
    a: int,
    b: int,
)
    ensures
        matches_between(right, key, allow, merge, lrec, lkey, a, b).len() == count_key_between(
            right,
            key,
            allow,
            lkey,
            a,
            b,
        ),
    decreases b - a,
{
    if !(a < 0 || a >= b || a >= right.len()) {
        lemma_matches_len(right, key, allow, merge, lrec, lkey, a + 1, b);
    }
}

proof fn lemma_emitted_from(
    left: Seq<DecodedV>,
    key1: Seq<char>,
    right: Seq<DecodedV>,
    key2: Seq<char>,
    allow: bool,
    merge: Option<MergeMode>,
    k: JsonV,
    i: int,
)
    requires
        0 <= i <= left.len(),
        blocks_hold_matches(left, key1, right, key2, allow),
    ensures
        emitted_for_key(left, key1, right, key2, allow, merge, k, i) == count_key_between(
            left,
            key1,
            allow,
            k,
            i,
            left.len() as int,
        ) * count_key_between(right, key2, allow, k, 0, right.len() as int),
    decreases left.len() - i,
{
    if i < left.len() {
        lemma_emitted_from(left, key1, right, key2, allow, merge, k, i + 1);
        let cr = count_key_between(right, key2, allow, k, 0, right.len() as int);
        let cl = count_key_between(left, key1, allow, k, i + 1, left.len() as int);
        if key_at(left, key1, allow, i) == k {
            lemma_record_lines_all_matches(left, key1, right, key2, allow, merge, i);
            lemma_matches_len(
                right,
                key2,
                allow,
                merge,
                record_at(left, key1, allow, i),
                k,
                0,
                right.len() as int,
            );
            assert(cr + cl * cr == (1 + cl) * cr) by (nonlinear_arith);
            assert(count_key_between(left, key1, allow, k, i, left.len() as int) == 1 + cl);
            assert(emitted_for_key(left, key1, right, key2, allow, merge, k, i) == cr + cl * cr);
        } else {
            assert(count_key_between(left, key1, allow, k, i, left.len() as int) == cl);
        }
    } else {
        let cr = count_key_between(right, key2, allow, k, 0, right.len() as int);
        assert(0 * cr == 0) by (nonlinear_arith);
    }
}

/// Where every record reads with a key and each left record's block holds
/// all of its matches, the number of lines emitted for a key is the number
/// of left records with that key times the number of right records with it
/// (so zero for a key of one side only).
pub proof fn lemma_pairs_per_key(
    left: Seq<DecodedV>,
    key1: Seq<char>,
    right: Seq<DecodedV>,
    key2: Seq<char>,
    allow: bool,
    merge: Option<MergeMode>,
    k: JsonV,
)
    requires
        all_keyed(left, key1, right, key2, allow),
        blocks_hold_matches(left, key1, right, key2, allow),
    ensures
        join_spec(left, key1, right, key2, allow, merge) == Ok::<
            Seq<Seq<char>>,
            crate::record::JoinErrorV,
        >(block_lines_from(left, key1, right, key2, allow, merge, 0)),
        emitted_for_key(left, key1, right, key2, allow, merge, k, 0) == count_key_between(
            left,
            key1,
            allow,
            k,
            0,
            left.len() as int,
        ) * count_key_between(right, key2, allow, k, 0, right.len() as int),
{
    lemma_join_output(left, key1, right, key2, allow, merge);
    lemma_emitted_from(left, key1, right, key2, allow, merge, k, 0);
}

} // verus!
