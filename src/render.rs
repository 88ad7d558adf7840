//! Compact JSON text of a value: no whitespace, members in stored order.

use vstd::prelude::*;
use crate::json::{Json, JsonV, lemma_view_shape};

verus! {

broadcast use vstd::std_specs::vec::axiom_vec_index_decreases;

/// The JSON string literal that serde_json writes for a string: quotes around
/// it and its special characters escaped.
pub uninterp spec fn quoted(s: Seq<char>) -> Seq<char>;

/// Relies on serde_json::to_string on a `str`, which writes the escaped
/// string literal and cannot fail for a `str`.
#[verifier::external_body]
fn quote(s: &str) -> (r: String)
    ensures
        r@ == quoted(s@),
{
    serde_json::to_string(s).unwrap_or_default()
}

/// The compact JSON text of a value.
pub open spec fn text_of(j: JsonV) -> Seq<char>
    decreases j,
{
    match j {
        JsonV::Null => "null"@,
        JsonV::Bool(b) => if b {
            "true"@
        } else {
            "false"@
        },
        JsonV::Number(t) => t,
        JsonV::Str(s) => quoted(s),
        JsonV::Array(items) => "["@ + items_text(items) + "]"@,
        JsonV::Object(keys, vals) => "{"@ + members_text(keys, vals) + "}"@,
    }
}

/// The texts of the elements, separated by commas.
pub open spec fn items_text(items: Seq<JsonV>) -> Seq<char>
    decreases items,
{
    if items.len() == 0 {
        Seq::empty()
    } else if items.len() == 1 {
        text_of(items[0])
    } else {
        items_text(items.drop_last()) + ","@ + text_of(items.last())
    }
}

/// The texts of the members, each `"key":value`, separated by commas.
pub open spec fn members_text(keys: Seq<Seq<char>>, vals: Seq<JsonV>) -> Seq<char>
    decreases vals,
{
    if vals.len() == 0 || keys.len() != vals.len() {
        Seq::empty()
    } else if vals.len() == 1 {
        quoted(keys[0]) + ":"@ + text_of(vals[0])
    } else {
        members_text(keys.drop_last(), vals.drop_last()) + ","@ + quoted(keys.last()) + ":"@
            + text_of(vals.last())
    }
}

/// Appends the compact JSON text of `j` to `out`.
pub fn write_json(j: &Json, out: &mut String)
    ensures
        final(out)@ == old(out)@ + text_of(j@),
    decreases j,
{
    proof {
        lemma_view_shape(j);
    }
    match j {
        Json::Null => out.append("null"),
        Json::Bool(b) => if *b {
            out.append("true")
        } else {
            out.append("false")
        },
        Json::Number(t) => out.append(t.as_str()),
        Json::Str(s) => {
            let q = quote(s.as_str());
            out.append(q.as_str());
        },
        Json::Array(items) => {
            let ghost start = out@;
            let ghost vs = j@->Array_0;
            assert(forall|k: int| 0 <= k < items.len() ==> decreases_to!(j => #[trigger] items[k]));
            out.append("[");
            let mut i: usize = 0;
            while i < items.len()
                invariant
                    j == Json::Array(*items),
                    i <= items.len(),
                    forall|k: int| 0 <= k < items.len() ==> decreases_to!(j => #[trigger] items[k]),
                    vs.len() == items.len(),
                    forall|k: int| 0 <= k < items.len() ==> #[trigger] vs[k] == items[k]@,
                    out@ == start + "["@ + items_text(vs.take(i as int)),
                decreases items.len() - i,
            {
                assert(vs.take(i + 1).drop_last() =~= vs.take(i as int));
                if i > 0 {
                    out.append(",");
                }
                write_json(&items[i], out);
                i = i + 1;
            }
            assert(vs.take(i as int) =~= vs);
            out.append("]");
        },
        Json::Object(members) => {
            let ghost start = out@;
            let ghost ks = j@->Object_0;
            let ghost vs = j@->Object_1;
            assert(forall|k: int|
                0 <= k < members.len() ==> decreases_to!(j => #[trigger] members[k].1));
            out.append("{");
            let mut i: usize = 0;
            while i < members.len()
                invariant
                    j == Json::Object(*members),
                    i <= members.len(),
                    forall|k: int|
                        0 <= k < members.len() ==> decreases_to!(j => #[trigger] members[k].1),
                    ks.len() == members.len(),
                    vs.len() == members.len(),
                    forall|k: int| 0 <= k < members.len() ==> #[trigger] ks[k] == members[k].0@,
                    forall|k: int| 0 <= k < members.len() ==> #[trigger] vs[k] == members[k].1@,
                    out@ == start + "{"@ + members_text(ks.take(i as int), vs.take(i as int)),
                decreases members.len() - i,
            {
                assert(vs.take(i + 1).drop_last() =~= vs.take(i as int));
                assert(ks.take(i + 1).drop_last() =~= ks.take(i as int));
                if i > 0 {
                    out.append(",");
                }
                let q = quote(members[i].0.as_str());
                out.append(q.as_str());
                out.append(":");
                write_json(&members[i].1, out);
                i = i + 1;
            }
            assert(vs.take(i as int) =~= vs);
            assert(ks.take(i as int) =~= ks);
            out.append("}");
        },
    }
}

} // verus!
