//! The class table of a model: the `names` object of the metadata block,
//! each key read as an integer class index and each value as the class name.

use vstd::prelude::*;
use serde_json::Value;
use std::collections::HashMap;
use crate::text::{parse_trimmed_i64, parse_i64, trim};

verus! {

broadcast use vstd::std_specs::hash::group_hash_axioms;

#[verifier::external_type_specification]
#[verifier::external_body]
pub struct ExJsonError(serde_json::Error);

/// A member of a JSON object: its key, and its value where that is a string.
pub struct JsonMember {
    pub key: String,
    pub text: Option<String>,
}

/// A member of the top-level JSON object: its key, its value where that is
/// a string, and the members of its value where that is an object.
pub struct JsonField {
    pub key: String,
    pub text: Option<String>,
    pub members: Option<Vec<JsonMember>>,
}

pub open spec fn text_view(t: Option<String>) -> Option<Seq<char>> {
    match t {
        Some(s) => Some(s@),
        None => None,
    }
}

pub open spec fn member_view(m: JsonMember) -> (Seq<char>, Option<Seq<char>>) {
    (m.key@, text_view(m.text))
}

pub open spec fn members_view(ms: Seq<JsonMember>) -> Seq<(Seq<char>, Option<Seq<char>>)> {
    ms.map_values(|m: JsonMember| member_view(m))
}

pub open spec fn field_view(f: JsonField) -> (Seq<char>, Option<Seq<char>>, Option<Seq<(Seq<char>, Option<Seq<char>>)>>) {
    (
        f.key@,
        text_view(f.text),
        match f.members {
            Some(v) => Some(members_view(v@)),
            None => None,
        },
    )
}

pub open spec fn fields_view(fs: Option<Vec<JsonField>>) -> Option<
    Seq<(Seq<char>, Option<Seq<char>>, Option<Seq<(Seq<char>, Option<Seq<char>>)>>)>,
> {
    match fs {
        Some(v) => Some(v@.map_values(|f: JsonField| field_view(f))),
        None => None,
    }
}

/// What `serde_json` reads from the bytes: `None` where they are not JSON;
/// else `Some(None)` where the value is not an object, and otherwise the
/// object's members in key order, each with its value's text where that
/// value is a string, and its value's own members (key and, for a string,
/// the text) where that value is an object.
pub uninterp spec fn json_top_fields(bytes: Seq<u8>) -> Option<
    Option<Seq<(Seq<char>, Option<Seq<char>>, Option<Seq<(Seq<char>, Option<Seq<char>>)>>)>>,
>;

/// Calls `serde_json::from_slice::<Value>` and hands out the top-level
/// object's members, with the text of those that are strings and the members
/// of those that are objects, as plain strings. Nothing about JSON syntax is stated: the contract ties the result
/// to the bytes through `json_top_fields` alone.
#[verifier::external_body]
fn read_json_fields(bytes: &[u8]) -> (r: Result<Option<Vec<JsonField>>, serde_json::Error>)
    ensures
        match r {
            Ok(fs) => json_top_fields(bytes@) == Some(fields_view(fs)),
            Err(_) => json_top_fields(bytes@) is None,
        },
{
    let top = match serde_json::from_slice::<Value>(bytes) {
        Ok(Value::Object(top)) => top,
        Ok(_) => return Ok(None),
        Err(e) => return Err(e),
    };
    Ok(Some(top.into_iter().map(|(key, v)| match v {
        Value::Object(m) => JsonField { key, text: None, members: Some(m.into_iter().map(|(key, v)| match v {
            Value::String(s) => JsonMember { key, text: Some(s) },
            _ => JsonMember { key, text: None },
        }).collect()) },
        Value::String(s) => JsonField { key, text: Some(s), members: None },
        _ => JsonField { key, text: None, members: None },
    }).collect()))
}

/// Why the class table could not be read.
#[derive(Debug)]
pub enum MetadataError {
    /// The metadata block is not JSON.
    Json(serde_json::Error),
    /// The metadata has no `names` member whose value is an object.
    NoNamesObject,
    /// A key of `names`, trimmed, is not an integer.
    BadClassKey(String),
    /// The value of this key of `names` is not a string.
    NotClassName(String),
}

/// What reading the class table comes to.
pub enum TableOutcome {
    NotJson,
    NoNamesObject,
    BadClassKey(Seq<char>),
    NotClassName(Seq<char>),
    Table(Map<i64, Seq<char>>),
}

/// The member list of the first top-level member named `names`: `None` where
/// there is none, or its value is not an object.
pub open spec fn names_members(
    fields: Seq<(Seq<char>, Option<Seq<char>>, Option<Seq<(Seq<char>, Option<Seq<char>>)>>)>,
) -> Option<Seq<(Seq<char>, Option<Seq<char>>)>>
    decreases fields.len(),
{
    if fields.len() == 0 {
        None
    } else if fields[0].0 == "names"@ {
        fields[0].2
    } else {
        names_members(fields.drop_first())
    }
}

/// The table built from the members in order: each key, trimmed and read as
/// an `i64`, maps to its text; a later key overwrites an earlier equal one.
/// The first member whose key is no integer, or whose value is no string,
/// stops it.
pub open spec fn table_outcome(ms: Seq<(Seq<char>, Option<Seq<char>>)>) -> TableOutcome
    decreases ms.len(),
{
    if ms.len() == 0 {
        TableOutcome::Table(Map::empty())
    } else {
        match table_outcome(ms.drop_last()) {
            TableOutcome::Table(t) => {
                let (k, v) = ms.last();
                match parse_i64(trim(k)) {
                    None => TableOutcome::BadClassKey(k),
                    Some(i) => match v {
                        None => TableOutcome::NotClassName(k),
                        Some(text) => TableOutcome::Table(t.insert(i, text)),
                    },
                }
            },
            other => other,
        }
    }
}

/// What reading the class table from a metadata block comes to.
pub open spec fn names_outcome(meta: Seq<u8>) -> TableOutcome {
    match json_top_fields(meta) {
        None => TableOutcome::NotJson,
        Some(None) => TableOutcome::NoNamesObject,
        Some(Some(fields)) => match names_members(fields) {
            None => TableOutcome::NoNamesObject,
            Some(ms) => table_outcome(ms),
        },
    }
}

pub open spec fn table_view(m: Map<i64, String>) -> Map<i64, Seq<char>> {
    m.map_values(|s: String| s@)
}

fn names_key() -> (s: String)
    ensures
        s@ == "names"@,
{
    String::from_str("names")
}

/// Builds the table from the members of `names`.
fn table_from_members(ms: &Vec<JsonMember>) -> (r: Result<HashMap<i64, String>, MetadataError>)
    ensures
        match r {
            Ok(h) => table_outcome(members_view(ms@)) == TableOutcome::Table(table_view(h@)),
            Err(MetadataError::BadClassKey(k)) => table_outcome(members_view(ms@))
                == TableOutcome::BadClassKey(k@),
            Err(MetadataError::NotClassName(k)) => table_outcome(members_view(ms@))
                == TableOutcome::NotClassName(k@),
            Err(_) => false,
        },
{
    let mut table: HashMap<i64, String> = HashMap::new();
    let n = ms.len();
    proof {
        assert(table_view(table@) =~= Map::empty());
        assert(members_view(ms@.take(0)) =~= Seq::empty());
    }
    for i in 0..n
        invariant
            n == ms.len(),
            table_outcome(members_view(ms@.take(i as int))) == TableOutcome::Table(
                table_view(table@),
            ),
    {
        proof {
            assert(members_view(ms@.take(i + 1)).drop_last() =~= members_view(ms@.take(i as int)));
            assert(members_view(ms@.take(i + 1)).last() == member_view(ms@[i as int]));
        }
        let m = &ms[i];
        match parse_trimmed_i64(m.key.as_str()) {
            None => {
                proof {
                    lemma_outcome_stops(members_view(ms@), (i + 1) as int);
                    assert(members_view(ms@).take(i + 1) =~= members_view(ms@.take(i + 1)));
                }
                return Err(MetadataError::BadClassKey(m.key.clone()));
            },
            Some(k) => match &m.text {
                None => {
                    proof {
                        lemma_outcome_stops(members_view(ms@), (i + 1) as int);
                        assert(members_view(ms@).take(i + 1) =~= members_view(ms@.take(i + 1)));
                    }
                    return Err(MetadataError::NotClassName(m.key.clone()));
                },
                Some(text) => {
                    let ghost before = table@;
                    table.insert(k, text.clone());
                    proof {
                        assert(table_view(table@) =~= table_view(before).insert(k, text@));
                    }
                },
            },
        }
    }
    proof {
        assert(ms@.take(n as int) =~= ms@);
    }
    Ok(table)
}

/// Once a member stops the table, the members after it change nothing.
proof fn lemma_outcome_stops(ms: Seq<(Seq<char>, Option<Seq<char>>)>, k: int)
    requires
        0 <= k <= ms.len(),
        !(table_outcome(ms.take(k)) is Table),
    ensures
        table_outcome(ms) == table_outcome(ms.take(k)),
    decreases ms.len() - k,
{
    if k < ms.len() {
        assert(ms.drop_last().take(k) =~= ms.take(k));
        lemma_outcome_stops(ms.drop_last(), k);
    } else {
        assert(ms.take(k) =~= ms);
    }
}

/// Reads the class table of a model from its metadata block, as the loader
/// does: the JSON object's `names` member maps each key, trimmed and read as
/// an integer, to its string value.
pub fn names_table(meta: &[u8]) -> (r: Result<HashMap<i64, String>, MetadataError>)
    ensures
        match r {
            Ok(h) => names_outcome(meta@) == TableOutcome::Table(table_view(h@)),
            Err(MetadataError::Json(_)) => names_outcome(meta@) is NotJson,
            Err(MetadataError::NoNamesObject) => names_outcome(meta@) is NoNamesObject,
            Err(MetadataError::BadClassKey(k)) => names_outcome(meta@)
                == TableOutcome::BadClassKey(k@),
            Err(MetadataError::NotClassName(k)) => names_outcome(meta@)
                == TableOutcome::NotClassName(k@),
        },
{
    let fields = match read_json_fields(meta) {
        Err(e) => return Err(MetadataError::Json(e)),
        Ok(None) => return Err(MetadataError::NoNamesObject),
        Ok(Some(f)) => f,
    };
    let ghost fv = fields_view(Some(fields)).unwrap();
    let key = names_key();
    let n = fields.len();
    let mut i: usize = 0;
    assert(fv.skip(0) =~= fv);
    while i < n
        invariant
            n == fields.len(),
            i <= n,
            fv == fields@.map_values(|f: JsonField| field_view(f)),
            key@ == "names"@,
            json_top_fields(meta@) == Some(Some(fv)),
            names_members(fv) == names_members(fv.skip(i as int)),
        decreases n - i,
    {
        proof {
            assert(fv.skip(i as int).drop_first() =~= fv.skip(i + 1));
            assert(fv.skip(i as int)[0] == field_view(fields@[i as int]));
        }
        if fields[i].key == key {
            assert(fv.skip(i as int)[0].0 == "names"@);
            return match &fields[i].members {
                None => Err(MetadataError::NoNamesObject),
                Some(ms) => {
                    proof {
                        assert(field_view(fields@[i as int]).2 == Some(members_view(ms@)));
                        assert(names_members(fv.skip(i as int)) == Some(members_view(ms@)));
                        assert(json_top_fields(meta@) == Some(Some(fv)));
                    }
                    table_from_members(ms)
                },
            };
        }
        i = i + 1;
    }
    Err(MetadataError::NoNamesObject)
}

/// Reads a JSON document's top-level members: `None` where the document is
/// not an object.
pub fn read_fields(json: &[u8]) -> (r: Result<Option<Vec<JsonField>>, MetadataError>)
    ensures
        match r {
            Ok(fs) => json_top_fields(json@) == Some(fields_view(fs)),
            Err(MetadataError::Json(_)) => json_top_fields(json@) is None,
            Err(_) => false,
        },
{
    match read_json_fields(json) {
        Ok(fs) => Ok(fs),
        Err(e) => Err(MetadataError::Json(e)),
    }
}

/// The first top-level member named `names` decides the class table's
/// members, wherever it stands among the others: the members of its value
/// where that is an object.
pub proof fn lemma_names_members_first(fields: Seq<(Seq<char>, Option<Seq<char>>, Option<Seq<(Seq<char>, Option<Seq<char>>)>>)>, j: int)
    requires
        0 <= j < fields.len(),
        fields[j].0 == "names"@,
        forall|i: int| 0 <= i < j ==> #[trigger] fields[i].0 != "names"@,
    ensures
        names_members(fields) == fields[j].2,
    decreases j,
{
    if j > 0 {
        assert forall|i: int| 0 <= i < j - 1 implies #[trigger] fields.drop_first()[i].0
            != "names"@ by {
            assert(fields.drop_first()[i] == fields[i + 1]);
        }
        assert(fields[0].0 != "names"@);
        lemma_names_members_first(fields.drop_first(), j - 1);
    }
}

/// Where no top-level member is named `names`, there is no class table.
pub proof fn lemma_names_members_absent(fields: Seq<(Seq<char>, Option<Seq<char>>, Option<Seq<(Seq<char>, Option<Seq<char>>)>>)>)
    requires
        forall|i: int| 0 <= i < fields.len() ==> #[trigger] fields[i].0 != "names"@,
    ensures
        names_members(fields) is None,
    decreases fields.len(),
{
    if fields.len() > 0 {
        assert forall|i: int| 0 <= i < fields.len() - 1 implies #[trigger] fields.drop_first()[i].0
            != "names"@ by {
            assert(fields.drop_first()[i] == fields[i + 1]);
        }
        assert(fields[0].0 != "names"@);
        lemma_names_members_absent(fields.drop_first());
    }
}

} // verus!
