//! The merge-join engine: each left record is compared with one block of
//! right records (a run of equal keys), which is replayed for a left record
//! that repeats its predecessor's key and left behind when the left key
//! changes.

use vstd::prelude::*;
use crate::json::{Json, JsonV, copy_json, json_eq};
use crate::merge::{deep_merge, merged, well_formed};
use crate::record::{
    Decoded,
    DecodedV,
    JoinError,
    JoinErrorV,
    decoded_well_formed,
    keyed_record,
    read_keyed,
};
use crate::render::{text_of, write_json};

verus! {

/// Which side wins where a merged pair has a field on both sides.
#[derive(Debug)]
pub enum MergeMode {
    PreferLeft,
    PreferRight,
}

/// What the join does with records and pairs.
#[derive(Debug)]
pub struct Opts {
    /// A record without the key field has the key `null`, rather than
    /// ending the join with an error.
    pub allow_no_key: bool,
    /// Emit each pair merged into one object, with this side winning; or,
    /// where absent, as a two-element array.
    pub merge: Option<MergeMode>,
}

/// The output line for a matched pair.
pub open spec fn pair_text(left: JsonV, right: JsonV, merge: Option<MergeMode>) -> Seq<char> {
    match merge {
        None => "["@ + text_of(left) + ","@ + text_of(right) + "]"@,
        Some(MergeMode::PreferLeft) => text_of(merged(right, left)),
        Some(MergeMode::PreferRight) => text_of(merged(left, right)),
    }
}

/// The output line for a matched pair (see `pair_text`).
pub fn pair_line(left: &Json, right: &Json, merge: &Option<MergeMode>) -> (r: String)
    requires
        well_formed(left@),
        well_formed(right@),
    ensures
        r@ == pair_text(left@, right@, *merge),
{
    let mut out = String::new();
    match merge {
        None => {
            out.append("[");
            write_json(left, &mut out);
            out.append(",");
            write_json(right, &mut out);
            out.append("]");
        },
        Some(MergeMode::PreferLeft) => {
            let m = deep_merge(right, left);
            write_json(&m, &mut out);
        },
        Some(MergeMode::PreferRight) => {
            let m = deep_merge(left, right);
            write_json(&m, &mut out);
        },
    }
    out
}

/// Scans the right-hand block that starts at `start` for the left record
/// `lrec` with key `lkey`: the records from `start` on while their key stays
/// that of the first one. Gives where the next block starts and the lines
/// for the records whose key equals `lkey`; or the first error met, which
/// may come from the record just after the block, read to find its end.
pub open spec fn scan_block(
    right: Seq<DecodedV>,
    key: Seq<char>,
    opts_allow: bool,
    merge: Option<MergeMode>,
    lrec: JsonV,
    lkey: JsonV,
    t: int,
    prev: Option<JsonV>,
) -> Result<(int, Seq<Seq<char>>), JoinErrorV>
    decreases right.len() - t,
{
    if t < 0 || t >= right.len() {
        Ok((t, Seq::empty()))
    } else {
        match keyed_record(right[t], key, opts_allow) {
            Err(e) => Err(e),
            Ok((rrec, rkey)) => if prev is Some && prev->0 != rkey {
                Ok((t, Seq::empty()))
            } else {
                let here = if lkey == rkey {
                    seq![pair_text(lrec, rrec, merge)]
                } else {
                    Seq::empty()
                };
                match scan_block(right, key, opts_allow, merge, lrec, lkey, t + 1, Some(rkey)) {
                    Err(e) => Err(e),
                    Ok((end, more)) => Ok((end, here + more)),
                }
            },
        }
    }
}

/// The lines of the join from left record `i` on, where the current right
/// block starts at `block_start` and the one after it at `block_end`; or the
/// first error met.
pub open spec fn join_from(
    left: Seq<DecodedV>,
    key1: Seq<char>,
    right: Seq<DecodedV>,
    key2: Seq<char>,
    allow: bool,
    merge: Option<MergeMode>,
    i: int,
    block_start: int,
    block_end: int,
) -> Result<Seq<Seq<char>>, JoinErrorV>
    decreases left.len() - i,
{
    if i < 0 || i >= left.len() {
        Ok(Seq::empty())
    } else {
        match keyed_record(left[i], key1, allow) {
            Err(e) => Err(e),
            Ok((lrec, lkey)) => {
                let prev = keyed_record(left[i - 1], key1, allow);
                let start = if i > 0 && prev is Ok && prev->Ok_0.1 != lkey {
                    block_end
                } else {
                    block_start
                };
                match scan_block(right, key2, allow, merge, lrec, lkey, start, None) {
                    Err(e) => Err(e),
                    Ok((end, lines)) => match join_from(
                        left,
                        key1,
                        right,
                        key2,
                        allow,
                        merge,
                        i + 1,
                        start,
                        end,
                    ) {
                        Err(e) => Err(e),
                        Ok(rest) => Ok(lines + rest),
                    },
                }
            },
        }
    }
}

/// The output of joining `left` on `key1` with `right` on `key2`.
pub open spec fn join_spec(
    left: Seq<DecodedV>,
    key1: Seq<char>,
    right: Seq<DecodedV>,
    key2: Seq<char>,
    allow: bool,
    merge: Option<MergeMode>,
) -> Result<Seq<Seq<char>>, JoinErrorV> {
    join_from(left, key1, right, key2, allow, merge, 0, 0, 0)
}

/// The views of a list of decoded lines.
pub open spec fn views_of(v: Seq<Decoded>) -> Seq<DecodedV> {
    Seq::new(v.len(), |i: int| v[i]@)
}

/// The view of a list of output lines.
pub open spec fn lines_view(v: Seq<String>) -> Seq<Seq<char>> {
    Seq::new(v.len(), |i: int| v[i]@)
}

/// `lines` followed by the lines of `rest`, or the error of `rest`.
pub open spec fn after_lines(lines: Seq<Seq<char>>, rest: Result<Seq<Seq<char>>, JoinErrorV>) -> Result<
    Seq<Seq<char>>,
    JoinErrorV,
> {
    match rest {
        Err(e) => Err(e),
        Ok(more) => Ok(lines + more),
    }
}

/// `lines` followed by the lines of a block scan, or its error.
pub open spec fn after_block(
    lines: Seq<Seq<char>>,
    rest: Result<(int, Seq<Seq<char>>), JoinErrorV>,
) -> Result<(int, Seq<Seq<char>>), JoinErrorV> {
    match rest {
        Err(e) => Err(e),
        Ok((end, more)) => Ok((end, lines + more)),
    }
}

proof fn lemma_after_block_assoc(
    h: Seq<Seq<char>>,
    x: Seq<Seq<char>>,
    r: Result<(int, Seq<Seq<char>>), JoinErrorV>,
)
    ensures
        after_block(h, after_block(x, r)) == after_block(h + x, r),
{
    if let Ok((end, more)) = r {
        assert(h + (x + more) =~= (h + x) + more);
    }
}

/// Scans the right-hand block that starts at `start` for one left record,
/// appending the matched lines to `out` (see `scan_block`).
fn scan_right(
    right: &Vec<Decoded>,
    key2: &str,
    opts: &Opts,
    lrec: &Json,
    lkey: &Json,
    start: usize,
    out: &mut Vec<String>,
) -> (r: Result<usize, JoinError>)
    requires
        start <= right.len(),
        well_formed(lrec@),
        forall|k: int| 0 <= k < right.len() ==> decoded_well_formed(#[trigger] right[k]@),
    ensures
        ({
            let scan = scan_block(
                views_of(right@),
                key2@,
                opts.allow_no_key,
                opts.merge,
                lrec@,
                lkey@,
                start as int,
                None,
            );
            match r {
                Ok(end) => end <= right.len() && after_block(lines_view(old(out)@), scan) == Ok::<
                    (int, Seq<Seq<char>>),
                    JoinErrorV,
                >((end as int, lines_view(final(out)@))),
                Err(e) => scan == Err::<(int, Seq<Seq<char>>), JoinErrorV>(e@),
            }
        }),
{
    let ghost rv = views_of(right@);
    let ghost out0 = lines_view(out@);
    let ghost scan_at = |t: int, p: Option<JsonV>|
        scan_block(rv, key2@, opts.allow_no_key, opts.merge, lrec@, lkey@, t, p);
    let ghost whole = scan_at(start as int, None);
    let mut t: usize = start;
    let mut prev: Option<Json> = None;
    let ghost mut prevk: Option<JsonV> = None;
    let ghost mut here: Seq<Seq<char>> = Seq::empty();
    assert(lines_view(out@) =~= out0 + here);
    while t < right.len()
        invariant
            start <= t <= right.len(),
            rv == views_of(right@),
            well_formed(lrec@),
            forall|k: int| 0 <= k < right.len() ==> decoded_well_formed(#[trigger] right[k]@),
            scan_at == (|t: int, p: Option<JsonV>|
                scan_block(rv, key2@, opts.allow_no_key, opts.merge, lrec@, lkey@, t, p)),
            whole == scan_at(start as int, None),
            whole == after_block(here, scan_at(t as int, prevk)),
            prev is Some <==> prevk is Some,
            prev is Some ==> prev->0@ == prevk->0,
            lines_view(out@) == out0 + here,
            out0 == lines_view(old(out)@),
        decreases right.len() - t,
    {
        assert(rv[t as int] == right[t as int]@);
        let (rrec, rkey) = match read_keyed(&right[t], key2, opts.allow_no_key) {
            Ok(p) => p,
            Err(e) => return Err(e),
        };
        let boundary = match &prev {
            Some(p) => !json_eq(p, &rkey),
            None => false,
        };
        if boundary {
            proof {
                assert(prevk->0 != rkey@);
                assert(here + Seq::<Seq<char>>::empty() =~= here);
                assert(out0 + here + Seq::<Seq<char>>::empty() =~= out0 + here);
            }
            return Ok(t);
        }
        assert(well_formed(rrec@));
        let ghost here0 = here;
        let ghost add: Seq<Seq<char>> = if lkey@ == rkey@ {
            seq![pair_text(lrec@, rrec@, opts.merge)]
        } else {
            Seq::empty()
        };
        if json_eq(lkey, &rkey) {
            let line = pair_line(lrec, rrec, &opts.merge);
            let ghost before = out@;
            out.push(line);
            proof {
                assert(lines_view(out@) =~= lines_view(before).push(line@));
                here = here + seq![line@];
                assert(lines_view(out@) =~= out0 + here);
            }
        }
        proof {
            lemma_after_block_assoc(here0, add, scan_at(t + 1, Some(rkey@)));
            assert(here == here0 + add);
            prevk = Some(rkey@);
        }
        prev = Some(rkey);
        t = t + 1;
    }
    proof {
        assert(here + Seq::<Seq<char>>::empty() =~= here);
        assert(out0 + here + Seq::<Seq<char>>::empty() =~= out0 + here);
        lemma_after_block_assoc(out0, here, scan_at(t as int, prevk));
    }
    Ok(t)
}

proof fn lemma_after_lines_assoc(
    h: Seq<Seq<char>>,
    x: Seq<Seq<char>>,
    r: Result<Seq<Seq<char>>, JoinErrorV>,
)
    ensures
        after_lines(h, after_lines(x, r)) == after_lines(h + x, r),
{
    if let Ok(more) = r {
        assert(h + (x + more) =~= (h + x) + more);
    }
}

/// Joins `left` on field `key1` with `right` on field `key2`: for each left
/// record in order, the lines for the matching records of its right-hand
/// block, in order (see `join_from`). Each line is one record pair, rendered
/// or merged as `opts.merge` says. The first error met ends the join.
pub fn join(
    left: &Vec<Decoded>,
    key1: &str,
    right: &Vec<Decoded>,
    key2: &str,
    opts: &Opts,
) -> (r: Result<Vec<String>, JoinError>)
    requires
        forall|k: int| 0 <= k < left.len() ==> decoded_well_formed(#[trigger] left[k]@),
        forall|k: int| 0 <= k < right.len() ==> decoded_well_formed(#[trigger] right[k]@),
    ensures
        ({
            let spec_result = join_spec(
                views_of(left@),
                key1@,
                views_of(right@),
                key2@,
                opts.allow_no_key,
                opts.merge,
            );
            match r {
                Ok(lines) => spec_result == Ok::<Seq<Seq<char>>, JoinErrorV>(lines_view(lines@)),
                Err(e) => spec_result == Err::<Seq<Seq<char>>, JoinErrorV>(e@),
            }
        }),
{
    let ghost lv = views_of(left@);
    let ghost rv = views_of(right@);
    let ghost from_at = |i: int, bs: int, be: int|
        join_from(lv, key1@, rv, key2@, opts.allow_no_key, opts.merge, i, bs, be);
    let ghost whole = from_at(0, 0, 0);
    let mut out: Vec<String> = Vec::new();
    let mut block_start: usize = 0;
    let mut block_end: usize = 0;
    let mut prev: Option<Json> = None;
    let mut i: usize = 0;
    assert(lines_view(out@) =~= Seq::<Seq<char>>::empty());
    assert(Seq::<Seq<char>>::empty() + Seq::<Seq<char>>::empty() =~= Seq::<Seq<char>>::empty());
    while i < left.len()
        invariant
            lv == views_of(left@),
            rv == views_of(right@),
            forall|k: int| 0 <= k < left.len() ==> decoded_well_formed(#[trigger] left[k]@),
            forall|k: int| 0 <= k < right.len() ==> decoded_well_formed(#[trigger] right[k]@),
            from_at == (|i: int, bs: int, be: int|
                join_from(lv, key1@, rv, key2@, opts.allow_no_key, opts.merge, i, bs, be)),
            i <= left.len(),
            block_start <= right.len(),
            block_end <= right.len(),
            whole == from_at(0, 0, 0),
            whole == after_lines(
                lines_view(out@),
                from_at(i as int, block_start as int, block_end as int),
            ),
            i == 0 ==> prev is None,
            i > 0 ==> prev is Some && keyed_record(lv[i - 1], key1@, opts.allow_no_key) is Ok
                && keyed_record(lv[i - 1], key1@, opts.allow_no_key)->Ok_0.1 == prev->0@,
        decreases left.len() - i,
    {
        assert(lv[i as int] == left[i as int]@);
        let (lrec, lkey) = match read_keyed(&left[i], key1, opts.allow_no_key) {
            Ok(p) => p,
            Err(e) => return Err(e),
        };
        let start = match &prev {
            Some(p) => if json_eq(p, &lkey) {
                block_start
            } else {
                block_end
            },
            None => block_start,
        };
        assert(well_formed(lrec@));
        let ghost before = lines_view(out@);
        let end = match scan_right(right, key2, opts, lrec, &lkey, start, &mut out) {
            Ok(end) => end,
            Err(e) => return Err(e),
        };
        proof {
            let sc = scan_block(
                rv,
                key2@,
                opts.allow_no_key,
                opts.merge,
                lrec@,
                lkey@,
                start as int,
                None,
            );
            let x = sc->Ok_0.1;
            assert(lines_view(out@) =~= before + x);
            lemma_after_lines_assoc(before, x, from_at(i + 1, start as int, end as int));
        }
        block_start = start;
        block_end = end;
        prev = Some(lkey);
        i = i + 1;
    }
    proof {
        assert(lines_view(out@) + Seq::<Seq<char>>::empty() =~= lines_view(out@));
    }
    Ok(out)
}

} // verus!
