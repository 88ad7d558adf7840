//! Records: decoded lines, the checks on them, key extraction, and the errors
//! that end a join.

use vstd::prelude::*;
use crate::json::{Json, JsonV, copy_json, lemma_view_shape};
use crate::merge::{check_well_formed, index_of_key, keys_sorted, lemma_index_of_sorted, well_formed};
use crate::render::{text_of, write_json};

verus! {

/// One input line as the JSON decoder left it.
#[derive(Debug)]
pub enum Decoded {
    /// The line held this JSON value.
    Value(Json),
    /// The line was not valid JSON; its text, as read.
    Invalid(String),
}

pub enum DecodedV {
    Value(JsonV),
    Invalid(Seq<char>),
}

impl View for Decoded {
    type V = DecodedV;

    open spec fn view(&self) -> DecodedV {
        match self {
            Decoded::Value(j) => DecodedV::Value(j@),
            Decoded::Invalid(s) => DecodedV::Invalid(s@),
        }
    }
}

/// Why a join stopped.
#[derive(Debug)]
pub enum JoinError {
    /// A line that is not valid JSON, with its text.
    Parse(String),
    /// A line whose value is not an object, with that value.
    Schema(Json),
    /// A record without the key field, with the key's name and the record.
    MissingKey(String, Json),
}

pub enum JoinErrorV {
    Parse(Seq<char>),
    Schema(JsonV),
    MissingKey(Seq<char>, JsonV),
}

impl View for JoinError {
    type V = JoinErrorV;

    open spec fn view(&self) -> JoinErrorV {
        match self {
            JoinError::Parse(s) => JoinErrorV::Parse(s@),
            JoinError::Schema(j) => JoinErrorV::Schema(j@),
            JoinError::MissingKey(k, j) => JoinErrorV::MissingKey(k@, j@),
        }
    }
}

/// The text that describes an error.
pub open spec fn message_of(e: JoinErrorV) -> Seq<char> {
    match e {
        JoinErrorV::Parse(line) => "Failed to parse JSON: "@ + line,
        JoinErrorV::Schema(v) => "JSON in row is not Object type: "@ + text_of(v),
        JoinErrorV::MissingKey(k, v) => "Key '"@ + k + "' does not exist: "@ + text_of(v),
    }
}

impl JoinError {
    /// The text that describes this error.
    pub fn message(&self) -> (r: String)
        ensures
            r@ == message_of(self@),
    {
        let mut out = String::new();
        match self {
            JoinError::Parse(line) => {
                out.append("Failed to parse JSON: ");
                out.append(line.as_str());
            },
            JoinError::Schema(v) => {
                out.append("JSON in row is not Object type: ");
                write_json(v, &mut out);
            },
            JoinError::MissingKey(k, v) => {
                out.append("Key '");
                out.append(k.as_str());
                out.append("' does not exist: ");
                write_json(v, &mut out);
            },
        }
        out
    }
}

/// A decoded line as a record: the value where it is an object; a parse
/// error for an invalid line; a schema error for any other value.
pub open spec fn record_of(d: DecodedV) -> Result<JsonV, JoinErrorV> {
    match d {
        DecodedV::Invalid(line) => Err(JoinErrorV::Parse(line)),
        DecodedV::Value(v) => if v is Object {
            Ok(v)
        } else {
            Err(JoinErrorV::Schema(v))
        },
    }
}

/// The key of a record: the value of its field `key`; where there is none,
/// `null` if that is allowed and a missing-key error if not.
pub open spec fn key_of(rec: JsonV, key: Seq<char>, allow_no_key: bool) -> Result<
    JsonV,
    JoinErrorV,
> {
    let i = match rec {
        JsonV::Object(ks, vs) => index_of_key(ks, key),
        _ => -1,
    };
    if rec is Object && 0 <= i < rec->Object_1.len() {
        Ok(rec->Object_1[i])
    } else if allow_no_key {
        Ok(JsonV::Null)
    } else {
        Err(JoinErrorV::MissingKey(key, rec))
    }
}

/// A line read as a record together with its key.
pub open spec fn keyed_record(d: DecodedV, key: Seq<char>, allow_no_key: bool) -> Result<
    (JsonV, JsonV),
    JoinErrorV,
> {
    match record_of(d) {
        Err(e) => Err(e),
        Ok(rec) => match key_of(rec, key, allow_no_key) {
            Err(e) => Err(e),
            Ok(k) => Ok((rec, k)),
        },
    }
}

/// A decoded line whose value, if it has one, is well formed.
pub open spec fn decoded_well_formed(d: DecodedV) -> bool {
    d is Value ==> well_formed(d->Value_0)
}

/// Whether every decoded value among `lines` is well formed.
pub fn lines_well_formed(lines: &Vec<Decoded>) -> (r: bool)
    ensures
        r == forall|k: int| 0 <= k < lines.len() ==> decoded_well_formed(#[trigger] lines[k]@),
{
    let mut i: usize = 0;
    while i < lines.len()
        invariant
            i <= lines.len(),
            forall|k: int| 0 <= k < i ==> decoded_well_formed(#[trigger] lines[k]@),
        decreases lines.len() - i,
    {
        if let Decoded::Value(v) = &lines[i] {
            if !check_well_formed(v) {
                assert(!decoded_well_formed(lines[i as int]@));
                return false;
            }
        }
        i = i + 1;
    }
    true
}

/// Checks that a decoded line is an object record.
pub fn decode_record(d: &Decoded) -> (r: Result<&Json, JoinError>)
    ensures
        match r {
            Ok(j) => record_of(d@) == Ok::<JsonV, JoinErrorV>(j@),
            Err(e) => record_of(d@) == Err::<JsonV, JoinErrorV>(e@),
        },
{
    match d {
        Decoded::Invalid(line) => Err(JoinError::Parse(line.clone())),
        Decoded::Value(v) => {
            proof {
                lemma_view_shape(v);
            }
            match v {
                Json::Object(_) => Ok(v),
                _ => Err(JoinError::Schema(copy_json(v))),
            }
        },
    }
}

/// The key of a record (see `key_of`).
pub fn extract_key(rec: &Json, key: &str, allow_no_key: bool) -> (r: Result<Json, JoinError>)
    requires
        well_formed(rec@),
    ensures
        match r {
            Ok(k) => key_of(rec@, key@, allow_no_key) == Ok::<JsonV, JoinErrorV>(k@),
            Err(e) => key_of(rec@, key@, allow_no_key) == Err::<JsonV, JoinErrorV>(e@),
        },
{
    proof {
        lemma_view_shape(rec);
    }
    let name = String::from_str(key);
    if let Json::Object(members) = rec {
        let mut i: usize = 0;
        while i < members.len()
            invariant
                rec == Json::Object(*members),
                keys_sorted(rec@->Object_0),
                i <= members.len(),
                name@ == key@,
                forall|k: int| 0 <= k < i ==> members[k].0@ != key@,
            decreases members.len() - i,
        {
            if members[i].0 == name {
                proof {
                    lemma_index_of_sorted(rec@->Object_0, i as int);
                }
                return Ok(copy_json(&members[i].1));
            }
            i = i + 1;
        }
        proof {
            assert(!(exists|c: int| 0 <= c < rec@->Object_0.len() && rec@->Object_0[c] == key@));
        }
    }
    if allow_no_key {
        Ok(Json::Null)
    } else {
        Err(JoinError::MissingKey(name, copy_json(rec)))
    }
}

/// A line read as a record, with its key (see `keyed_record`).
pub fn read_keyed<'a>(d: &'a Decoded, key: &str, allow_no_key: bool) -> (r: Result<
    (&'a Json, Json),
    JoinError,
>)
    requires
        decoded_well_formed(d@),
    ensures
        match r {
            Ok((rec, k)) => keyed_record(d@, key@, allow_no_key) == Ok::<
                (JsonV, JsonV),
                JoinErrorV,
            >((rec@, k@)),
            Err(e) => keyed_record(d@, key@, allow_no_key) == Err::<(JsonV, JsonV), JoinErrorV>(
                e@,
            ),
        },
{
    let rec = match decode_record(d) {
        Ok(rec) => rec,
        Err(e) => return Err(e),
    };
    match extract_key(rec, key, allow_no_key) {
        Ok(k) => Ok((rec, k)),
        Err(e) => Err(e),
    }
}

} // verus!
