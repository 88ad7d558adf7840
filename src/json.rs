//! The JSON value tree that records, keys and merged output are made of.

use vstd::prelude::*;

verus! {

broadcast use vstd::std_specs::vec::axiom_vec_index_decreases;

/// A JSON value. Numbers hold their canonical text (as the decoder printed
/// them); object members are kept in strictly increasing key order.
#[derive(Debug)]
pub enum Json {
    Null,
    Bool(bool),
    Number(String),
    Str(String),
    Array(Vec<Json>),
    Object(Vec<(String, Json)>),
}

/// The mathematical value of a `Json`.
pub enum JsonV {
    Null,
    Bool(bool),
    Number(Seq<char>),
    Str(Seq<char>),
    Array(Seq<JsonV>),
    /// Member keys and member values, position by position.
    Object(Seq<Seq<char>>, Seq<JsonV>),
}

impl View for Json {
    type V = JsonV;

    open spec fn view(&self) -> JsonV
        decreases self,
    {
        match self {
            Json::Null => JsonV::Null,
            Json::Bool(b) => JsonV::Bool(*b),
            Json::Number(t) => JsonV::Number(t@),
            Json::Str(s) => JsonV::Str(s@),
            Json::Array(items) => JsonV::Array(
                Seq::new(
                    items.len() as nat,
                    |i: int|
                        if 0 <= i < items.len() {
                            items[i].view()
                        } else {
                            JsonV::Null
                        },
                ),
            ),
            Json::Object(members) => JsonV::Object(
                Seq::new(members.len() as nat, |i: int| members[i].0@),
                Seq::new(
                    members.len() as nat,
                    |i: int|
                        if 0 <= i < members.len() {
                            members[i].1.view()
                        } else {
                            JsonV::Null
                        },
                ),
            ),
        }
    }
}

/// The view keeps the variant, the scalars, and the number and order of
/// elements and members.
pub proof fn lemma_view_shape(j: &Json)
    ensures
        j is Null <==> j@ is Null,
        j is Bool <==> j@ is Bool,
        j is Number <==> j@ is Number,
        j is Str <==> j@ is Str,
        j is Array <==> j@ is Array,
        j is Object <==> j@ is Object,
        j is Bool ==> j@->Bool_0 == j->Bool_0,
        j is Number ==> j@->Number_0 == j->Number_0@,
        j is Str ==> j@->Str_0 == j->Str_0@,
        j is Array ==> j@->Array_0.len() == j->Array_0.len(),
        j is Array ==> forall|i: int|
            0 <= i < j->Array_0.len() ==> #[trigger] j@->Array_0[i] == j->Array_0[i]@,
        j is Object ==> j@->Object_0.len() == j->Object_0.len(),
        j is Object ==> j@->Object_1.len() == j->Object_0.len(),
        j is Object ==> forall|i: int|
            0 <= i < j->Object_0.len() ==> #[trigger] j@->Object_0[i] == j->Object_0[i].0@,
        j is Object ==> forall|i: int|
            0 <= i < j->Object_0.len() ==> #[trigger] j@->Object_1[i] == j->Object_0[i].1@,
{
}

/// Structural equality of two JSON values: same variant, equal scalars,
/// element-wise equal arrays, and objects with the same members in the same
/// (key) order.
pub fn json_eq(a: &Json, b: &Json) -> (r: bool)
    ensures
        r == (a@ == b@),
    decreases a,
{
    proof {
        lemma_view_shape(a);
        lemma_view_shape(b);
    }
    match a {
        Json::Null => match b {
            Json::Null => true,
            _ => false,
        },
        Json::Bool(x) => match b {
            Json::Bool(y) => *x == *y,
            _ => false,
        },
        Json::Number(x) => match b {
            Json::Number(y) => *x == *y,
            _ => false,
        },
        Json::Str(x) => match b {
            Json::Str(y) => *x == *y,
            _ => false,
        },
        Json::Array(xs) => {
            let ys = match b {
                Json::Array(ys) => ys,
                _ => return false,
            };
            if xs.len() != ys.len() {
                assert(a@->Array_0.len() != b@->Array_0.len());
                return false;
            }
            let mut i: usize = 0;
            while i < xs.len()
                invariant
                    a == Json::Array(*xs),
                    b == Json::Array(*ys),
                    xs.len() == ys.len(),
                    i <= xs.len(),
                    forall|k: int| 0 <= k < i ==> xs[k]@ == ys[k]@,
                decreases xs.len() - i,
            {
                proof {
                    assert(decreases_to!(a => xs[i as int]));
                }
                if !json_eq(&xs[i], &ys[i]) {
                    assert(a@->Array_0[i as int] != b@->Array_0[i as int]);
                    return false;
                }
                i = i + 1;
            }
            assert(a@->Array_0 =~= b@->Array_0);
            true
        },
        Json::Object(xs) => {
            let ys = match b {
                Json::Object(ys) => ys,
                _ => return false,
            };
            if xs.len() != ys.len() {
                assert(a@->Object_0.len() != b@->Object_0.len());
                return false;
            }
            let mut i: usize = 0;
            while i < xs.len()
                invariant
                    a == Json::Object(*xs),
                    b == Json::Object(*ys),
                    xs.len() == ys.len(),
                    i <= xs.len(),
                    forall|k: int| 0 <= k < i ==> xs[k].0@ == ys[k].0@ && xs[k].1@ == ys[k].1@,
                decreases xs.len() - i,
            {
                proof {
                    assert(decreases_to!(a => xs[i as int].1));
                }
                if xs[i].0 != ys[i].0 || !json_eq(&xs[i].1, &ys[i].1) {
                    assert(a@->Object_0[i as int] != b@->Object_0[i as int] || a@->Object_1[i as int]
                        != b@->Object_1[i as int]);
                    return false;
                }
                i = i + 1;
            }
            assert(a@->Object_0 =~= b@->Object_0);
            assert(a@->Object_1 =~= b@->Object_1);
            true
        },
    }
}

/// A copy of `j` with the same value.
pub fn copy_json(j: &Json) -> (r: Json)
    ensures
        r@ == j@,
    decreases j,
{
    proof {
        lemma_view_shape(j);
    }
    let r = match j {
        Json::Null => Json::Null,
        Json::Bool(b) => Json::Bool(*b),
        Json::Number(t) => Json::Number(t.clone()),
        Json::Str(s) => Json::Str(s.clone()),
        Json::Array(items) => {
            assert(forall|k: int| 0 <= k < items.len() ==> decreases_to!(j => #[trigger] items[k]));
            let mut out: Vec<Json> = Vec::new();
            let mut i: usize = 0;
            while i < items.len()
                invariant
                    j == Json::Array(*items),
                    i <= items.len(),
                    forall|k: int| 0 <= k < items.len() ==> decreases_to!(j => #[trigger] items[k]),
                    out.len() == i,
                    forall|k: int| 0 <= k < i ==> #[trigger] out[k]@ == items[k]@,
                decreases items.len() - i,
            {
                out.push(copy_json(&items[i]));
                i = i + 1;
            }
            let r = Json::Array(out);
            proof {
                lemma_view_shape(&r);
                assert(r@->Array_0 =~= j@->Array_0);
            }
            r
        },
        Json::Object(members) => {
            assert(forall|k: int|
                0 <= k < members.len() ==> decreases_to!(j => #[trigger] members[k].1));
            let mut out: Vec<(String, Json)> = Vec::new();
            let mut i: usize = 0;
            while i < members.len()
                invariant
                    j == Json::Object(*members),
                    i <= members.len(),
                    forall|k: int|
                        0 <= k < members.len() ==> decreases_to!(j => #[trigger] members[k].1),
                    out.len() == i,
                    forall|k: int| 0 <= k < i ==> #[trigger] out[k].0@ == members[k].0@,
                    forall|k: int| 0 <= k < i ==> #[trigger] out[k].1@ == members[k].1@,
                decreases members.len() - i,
            {
                out.push((members[i].0.clone(), copy_json(&members[i].1)));
                i = i + 1;
            }
            let r = Json::Object(out);
            proof {
                lemma_view_shape(&r);
                assert(r@->Object_0 =~= j@->Object_0);
                assert(r@->Object_1 =~= j@->Object_1);
            }
            r
        },
    };
    r
}

} // verus!
