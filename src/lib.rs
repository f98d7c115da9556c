use vstd::prelude::*;
use vstd::string::StringExecFns;

pub mod buffer;
pub mod errors;
pub mod json;
pub mod jsondiff;
pub mod number;
pub mod text;

use crate::buffer::ByteBuffer;
use crate::errors::{JsonDiffError, JsonDiffErrorType};
use crate::json::{parse, parse_json, Json, JsonValue};
use crate::jsondiff::{diff, diff_text, find_key, find_member, join};

verus! {

/// The value under key `k` of an object (its first member with that key).
pub open spec fn prop_of(j: Json, k: Seq<char>) -> Option<Json> {
    match j {
        Json::Obj(ms) => {
            let i = find_key(ms, k);
            if 0 <= i < ms.len() {
                Some(ms[i].1)
            } else {
                None
            }
        },
        _ => None,
    }
}

/// The sections of a dataset, in the order they are compared and reported.
pub open spec fn dataset_props() -> Seq<Seq<char>> {
    seq!["taxons"@, "characters"@, "states"@, "books"@]
}

/// How section `p` of two dataset values compares: the entry `"p":fragment`
/// where it differs, `None` where it does not, an error where either value
/// lacks it.
pub open spec fn section(a: Json, b: Json, p: Seq<char>) -> Result<Option<Seq<char>>, JsonDiffErrorType> {
    match (prop_of(a, p), prop_of(b, p)) {
        (Some(x), Some(y)) => match diff(x, y, true, false) {
            Some(d) => Ok(Some("\""@ + p + "\":"@ + d)),
            None => Ok(None),
        },
        _ => Err(JsonDiffErrorType::PropertyMissing),
    }
}

/// The reported sections among the first `n`, or the error of a missing one.
pub open spec fn dataset_entries(a: Json, b: Json, n: nat) -> Result<Seq<Seq<char>>, JsonDiffErrorType>
    decreases n,
{
    if n == 0 {
        Ok(Seq::empty())
    } else {
        match dataset_entries(a, b, (n - 1) as nat) {
            Err(e) => Err(e),
            Ok(es) => match section(a, b, dataset_props()[n - 1]) {
                Err(e) => Err(e),
                Ok(Some(e)) => Ok(es.push(e)),
                Ok(None) => Ok(es),
            },
        }
    }
}

/// The difference between two dataset documents: each section compared with
/// empty array sections forced, the sections that differ gathered in one
/// object; empty where none differs.
pub open spec fn dataset_diff(old_src: Seq<char>, new_src: Seq<char>) -> Result<Seq<char>, JsonDiffErrorType> {
    match parse(old_src) {
        Err(e) => Err(e),
        Ok(a) => match parse(new_src) {
            Err(e) => Err(e),
            Ok(b) => match dataset_entries(a, b, 4) {
                Err(e) => Err(e),
                Ok(es) => if es.len() == 0 {
                    Ok(Seq::empty())
                } else {
                    Ok("{"@ + join(es) + "}"@)
                },
            },
        },
    }
}

fn get_prop<'a>(obj: &'a JsonValue, key: &str) -> (r: Option<&'a JsonValue>)
    ensures
        match r {
            Some(v) => prop_of(obj@, key@) == Some(v@),
            None => prop_of(obj@, key@) == None::<Json>,
        },
{
    match obj {
        JsonValue::Object(fields) => {
            let k = String::from_str(key);
            proof {
                crate::json::lemma_members_model(fields@);
            }
            match find_member(fields, &k) {
                Some(i) => Some(&fields[i].1),
                None => None,
            }
        },
        _ => None,
    }
}

fn dataset_prop(n: usize) -> (r: &'static str)
    requires
        n < 4,
    ensures
        r@ == dataset_props()[n as int],
{
    if n == 0 {
        "taxons"
    } else if n == 1 {
        "characters"
    } else if n == 2 {
        "states"
    } else {
        "books"
    }
}

/// The entry of section `n` of two dataset values.
fn section_text(old_val: &JsonValue, new_val: &JsonValue, n: usize) -> (r: Result<Option<String>, JsonDiffErrorType>)
    requires
        n < 4,
    ensures
        match section(old_val@, new_val@, dataset_props()[n as int]) {
            Ok(Some(e)) => r matches Ok(Some(t)) && t@ == e,
            Ok(None) => r matches Ok(None),
            Err(e) => r == Err::<Option<String>, JsonDiffErrorType>(e),
        },
{
    let prop = dataset_prop(n);
    let old_p = match get_prop(old_val, prop) {
        Some(v) => v,
        None => {
            return Err(JsonDiffErrorType::PropertyMissing);
        },
    };
    let new_p = match get_prop(new_val, prop) {
        Some(v) => v,
        None => {
            return Err(JsonDiffErrorType::PropertyMissing);
        },
    };
    match diff_text(old_p, new_p, true, false) {
        Some(d) => {
            let mut e = String::new();
            e.append("\"");
            e.append(prop);
            e.append("\":");
            e.append(d.as_str());
            proof {
                assert(e@ =~= "\""@ + prop@ + "\":"@ + d@);
            }
            Ok(Some(e))
        },
        None => Ok(None),
    }
}

/// Compares two dataset documents and writes the difference to `buf`.
pub fn diff_json_strs<B: ByteBuffer>(old_json: &str, new_json: &str, buf: &mut B) -> (r: Result<(), JsonDiffError>)
    ensures
        match dataset_diff(old_json@, new_json@) {
            Ok(t) => r is Ok && final(buf).text() == old(buf).text() + t,
            Err(e) => r == Err::<(), JsonDiffError>(JsonDiffError { error_type: e }) && final(buf).text()
                == old(buf).text(),
        },
{
    let old_val = match parse_json(old_json) {
        Ok(v) => v,
        Err(e) => {
            return Err(e);
        },
    };
    let new_val = match parse_json(new_json) {
        Ok(v) => v,
        Err(e) => {
            return Err(e);
        },
    };
    let ghost a = old_val@;
    let ghost b = new_val@;
    let mut entries = String::new();
    let mut count: usize = 0;
    let mut n: usize = 0;
    while n < 4
        invariant
            a == old_val@,
            b == new_val@,
            parse(old_json@) == Ok::<Json, JsonDiffErrorType>(a),
            parse(new_json@) == Ok::<Json, JsonDiffErrorType>(b),
            buf.text() == old(buf).text(),
            n <= 4,
            count <= n,
            dataset_entries(a, b, n as nat) is Ok,
            entries@ == join(dataset_entries(a, b, n as nat)->Ok_0),
            count == dataset_entries(a, b, n as nat)->Ok_0.len(),
        decreases 4 - n,
    {
        let ghost es = dataset_entries(a, b, n as nat)->Ok_0;
        match section_text(&old_val, &new_val, n) {
            Ok(Some(e)) => {
                if count > 0 {
                    entries.append(",");
                }
                entries.append(e.as_str());
                count = count + 1;
                proof {
                    assert(es.push(e@).drop_last() =~= es);
                    if es.len() == 0 {
                        assert(entries@ =~= join(es.push(e@)));
                    }
                }
            },
            Ok(None) => {},
            Err(e) => {
                proof {
                    lemma_dataset_error(a, b, (n + 1) as nat, 4);
                }
                return Err(JsonDiffError { error_type: e });
            },
        }
        n += 1;
    }
    if count > 0 {
        buf.push_str("{");
        buf.push_str(entries.as_str());
        buf.push_str("}");
        proof {
            assert(buf.text() =~= old(buf).text() + ("{"@ + entries@ + "}"@));
        }
    } else {
        proof {
            assert(buf.text() =~= old(buf).text() + Seq::<char>::empty());
        }
    }
    Ok(())
}

proof fn lemma_dataset_error(a: Json, b: Json, n: nat, m: nat)
    requires
        n <= m,
        dataset_entries(a, b, n) == Err::<Seq<Seq<char>>, JsonDiffErrorType>(JsonDiffErrorType::PropertyMissing),
    ensures
        dataset_entries(a, b, m) == Err::<Seq<Seq<char>>, JsonDiffErrorType>(JsonDiffErrorType::PropertyMissing),
    decreases m - n,
{
    if n < m {
        lemma_dataset_error(a, b, n, (m - 1) as nat);
    }
}

} // verus!
