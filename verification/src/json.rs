//! JSON, as far as settings are read from it and written to it: the fields of an object,
//! each with the text of its value.

use vstd::prelude::*;

use crate::text::{owned, same_str};

verus! {

/// The value that a text holds, printed over several lines; nothing where it holds none.
pub uninterp spec fn json_pretty(text: Seq<char>) -> Option<Seq<char>>;

/// The fields of the object that a text holds, each with the text of its value; nothing where
/// it holds no object.
pub uninterp spec fn json_fields(text: Seq<char>) -> Option<Seq<(Seq<char>, Seq<char>)>>;

/// The object with these fields, printed over several lines; nothing where one of the texts
/// holds no value.
pub uninterp spec fn json_object(fields: Seq<(Seq<char>, Seq<char>)>) -> Option<Seq<char>>;

/// The string that a text holds; nothing where it holds no string.
pub uninterp spec fn json_string(text: Seq<char>) -> Option<Seq<char>>;

/// A string as JSON.
pub uninterp spec fn json_quoted(s: Seq<char>) -> Seq<char>;

pub open spec fn field_views(v: Seq<(String, String)>) -> Seq<(Seq<char>, Seq<char>)> {
    Seq::new(v.len(), |i: int| (v[i].0@, v[i].1@))
}

/// `serde_json::from_str` to a value and `to_string_pretty` of it: the text, or nothing where
/// there is no value to read; a function of the text alone.
#[verifier::external_body]
pub(crate) fn read_pretty(text: &str) -> (r: Option<String>)
    ensures
        match r {
            Some(t) => json_pretty(text@) == Some(t@),
            None => json_pretty(text@) is None,
        },
{
    let v: serde_json::Value = serde_json::from_str(text).ok()?;
    serde_json::to_string_pretty(&v).ok()
}

/// `serde_json::from_str` to a value and `as_object` of it: the fields, each with the text that
/// `to_string` gives of its value, or nothing where there is no object to read; a function of
/// the text alone. No field is there twice, and what can be read can be printed.
#[verifier::external_body]
pub(crate) fn read_fields(text: &str) -> (r: Option<Vec<(String, String)>>)
    ensures
        match r {
            Some(f) => json_fields(text@) == Some(field_views(f@)),
            None => json_fields(text@) is None,
        },
        r matches Some(f) ==> single_fields(field_views(f@)),
        r is Some ==> json_pretty(text@) is Some,
{
    let v: serde_json::Value = serde_json::from_str(text).ok()?;
    Some(v.as_object()?.iter().map(|(k, x)| (k.clone(), x.to_string())).collect())
}

/// `serde_json::from_str` of each text to a value, `Map::insert` and `to_string_pretty`: the
/// text of the object, or nothing where a text cannot be read; a function of the fields alone.
/// What a later reading of the text gives is left open: a fraction can come back with another
/// last digit, and values that are nested too deep are not read.
#[verifier::external_body]
pub(crate) fn write_object(fields: &Vec<(String, String)>) -> (r: Option<String>)
    requires
        single_fields(field_views(fields@)),
    ensures
        match r {
            Some(t) => json_object(field_views(fields@)) == Some(t@),
            None => json_object(field_views(fields@)) is None,
        },
{
    let mut m = serde_json::Map::new();
    for (k, x) in fields {
        m.insert(k.clone(), serde_json::from_str(x).ok()?);
    }
    serde_json::to_string_pretty(&m).ok()
}

/// `serde_json::from_str` to a value and `as_str` of it: the string, or nothing where there is
/// none to read; a function of the text alone.
#[verifier::external_body]
pub(crate) fn read_string(text: &str) -> (r: Option<String>)
    ensures
        match r {
            Some(s) => json_string(text@) == Some(s@),
            None => json_string(text@) is None,
        },
{
    let v: serde_json::Value = serde_json::from_str(text).ok()?;
    Some(v.as_str()?.to_string())
}

/// `to_string` of `serde_json::Value::String`: the string in quotes, a function of the string
/// alone, which is read from it again.
#[verifier::external_body]
pub(crate) fn quoted(s: &str) -> (r: String)
    ensures
        r@ == json_quoted(s@),
        json_string(r@) == Some(s@),
{
    serde_json::Value::String(s.to_string()).to_string()
}

// ── Fields ───────────────────────────────────────────────────────────────────

/// No field is there twice.
pub open spec fn single_fields(fields: Seq<(Seq<char>, Seq<char>)>) -> bool {
    forall|i: int, j: int| 0 <= i < j < fields.len() ==> (#[trigger] fields[i]).0 != (#[trigger] fields[j]).0
}

/// The text of the value of a field.
pub open spec fn field_of(fields: Seq<(Seq<char>, Seq<char>)>, name: Seq<char>) -> Option<Seq<char>>
    decreases fields.len(),
{
    if fields.len() == 0 {
        None
    } else if fields[0].0 == name {
        Some(fields[0].1)
    } else {
        field_of(fields.drop_first(), name)
    }
}

/// The fields with one of them set: in its place where it is there, else at the end.
pub open spec fn with_field(fields: Seq<(Seq<char>, Seq<char>)>, name: Seq<char>, value: Seq<char>) -> Seq<
    (Seq<char>, Seq<char>),
>
    decreases fields.len(),
{
    if fields.len() == 0 {
        seq![(name, value)]
    } else if fields[0].0 == name {
        seq![(name, value)] + fields.drop_first()
    } else {
        seq![fields[0]] + with_field(fields.drop_first(), name, value)
    }
}

/// The string in a field of the object that a text holds.
pub open spec fn json_text(text: Seq<char>, field: Seq<char>) -> Option<Seq<char>> {
    match json_fields(text) {
        Some(f) => match field_of(f, field) {
            Some(v) => json_string(v),
            None => None,
        },
        None => None,
    }
}

/// The truth value in a field of the object that a text holds.
pub open spec fn json_flag(text: Seq<char>, field: Seq<char>) -> Option<bool> {
    match json_fields(text) {
        Some(f) => match field_of(f, field) {
            Some(v) => if v == "true"@ {
                Some(true)
            } else if v == "false"@ {
                Some(false)
            } else {
                None
            },
            None => None,
        },
        None => None,
    }
}

proof fn lemma_field_place(fields: Seq<(Seq<char>, Seq<char>)>, name: Seq<char>, i: int)
    requires
        0 <= i <= fields.len(),
        forall|k: int| 0 <= k < i ==> (#[trigger] fields[k]).0 != name,
        i < fields.len() ==> fields[i].0 == name,
    ensures
        field_of(fields, name) == if i < fields.len() {
            Some(fields[i].1)
        } else {
            None
        },
        forall|v: Seq<char>| #[trigger] with_field(fields, name, v) == if i < fields.len() {
            fields.update(i, (name, v))
        } else {
            fields.push((name, v))
        },
    decreases fields.len(),
{
    if fields.len() > 0 && i > 0 {
        let t = fields.drop_first();
        assert forall|k: int| 0 <= k < i - 1 implies (#[trigger] t[k]).0 != name by {
            assert(t[k] == fields[k + 1]);
        }
        assert(fields[0].0 != name);
        lemma_field_place(t, name, i - 1);
    }
    assert forall|v: Seq<char>| #[trigger] with_field(fields, name, v) == if i < fields.len() {
        fields.update(i, (name, v))
    } else {
        fields.push((name, v))
    } by {
        if fields.len() == 0 {
            assert(with_field(fields, name, v) =~= fields.push((name, v)));
        } else if i == 0 {
            assert(with_field(fields, name, v) =~= fields.update(0, (name, v)));
        } else {
            let t = fields.drop_first();
            assert(with_field(fields, name, v) =~= seq![fields[0]] + with_field(t, name, v));
            if i < fields.len() {
                assert(seq![fields[0]] + t.update(i - 1, (name, v)) =~= fields.update(i, (name, v)));
            } else {
                assert(seq![fields[0]] + t.push((name, v)) =~= fields.push((name, v)));
            }
        }
    }
}

/// The place of a field; the number of fields where it is not there.
fn place_of(fields: &Vec<(String, String)>, name: &str) -> (r: usize)
    ensures
        r <= fields@.len(),
        forall|k: int| 0 <= k < r ==> (#[trigger] field_views(fields@)[k]).0 != name@,
        r < fields@.len() ==> field_views(fields@)[r as int].0 == name@,
{
    let mut i: usize = 0;
    while i < fields.len()
        invariant
            i <= fields@.len(),
            forall|k: int| 0 <= k < i ==> (#[trigger] field_views(fields@)[k]).0 != name@,
        decreases fields@.len() - i,
    {
        if same_str(&fields[i].0, name) {
            return i;
        }
        i += 1;
    }
    i
}

/// The text of the value of a field.
pub fn find_field<'a>(fields: &'a Vec<(String, String)>, name: &str) -> (r: Option<&'a String>)
    ensures
        match r {
            Some(v) => field_of(field_views(fields@), name@) == Some(v@),
            None => field_of(field_views(fields@), name@) is None,
        },
{
    let i: usize = place_of(fields, name);
    proof {
        lemma_field_place(field_views(fields@), name@, i as int);
    }
    if i < fields.len() {
        Some(&fields[i].1)
    } else {
        None
    }
}

/// Sets a field.
pub fn set_field(fields: &mut Vec<(String, String)>, name: &str, value: String)
    ensures
        field_views(final(fields)@) == with_field(field_views(old(fields)@), name@, value@),
{
    let i: usize = place_of(fields, name);
    let ghost before = field_views(fields@);
    proof {
        lemma_field_place(before, name@, i as int);
    }
    if i < fields.len() {
        fields.set(i, (owned(name), value));
        assert(field_views(fields@) =~= before.update(i as int, (name@, value@)));
    } else {
        fields.push((owned(name), value));
        assert(field_views(fields@) =~= before.push((name@, value@)));
    }
}

/// The string in a field of the object that a text holds.
pub fn text_field(text: &str, field: &str) -> (r: Option<String>)
    ensures
        match r {
            Some(s) => json_text(text@, field@) == Some(s@),
            None => json_text(text@, field@) is None,
        },
{
    match read_fields(text) {
        Some(f) => match find_field(&f, field) {
            Some(v) => read_string(v),
            None => None,
        },
        None => None,
    }
}

/// The truth value that a text holds.
pub fn truth_of(text: &str) -> (r: Option<bool>)
    ensures
        r == if text@ == "true"@ {
            Some(true)
        } else if text@ == "false"@ {
            Some(false)
        } else {
            None
        },
{
    proof {
        reveal_strlit("true");
        reveal_strlit("false");
    }
    if same_str(text, "true") {
        Some(true)
    } else if same_str(text, "false") {
        Some(false)
    } else {
        None
    }
}

/// The truth value in a field of the object that a text holds.
pub fn flag_field(text: &str, field: &str) -> (r: Option<bool>)
    ensures
        r == json_flag(text@, field@),
{
    match read_fields(text) {
        Some(f) => match find_field(&f, field) {
            Some(v) => truth_of(v),
            None => None,
        },
        None => None,
    }
}

// ── Laws ─────────────────────────────────────────────────────────────────────

/// A field that is set is there with its new value, every other field keeps its own, and no
/// field comes to be there twice.
pub proof fn other_fields_stay(fields: Seq<(Seq<char>, Seq<char>)>, name: Seq<char>, value: Seq<char>, other: Seq<char>)
    ensures
        field_of(with_field(fields, name, value), name) == Some(value),
        other != name ==> field_of(with_field(fields, name, value), other) == field_of(fields, other),
        single_fields(fields) ==> single_fields(with_field(fields, name, value)),
    decreases fields.len(),
{
    let w = with_field(fields, name, value);
    if fields.len() == 0 {
        assert(w.drop_first() =~= fields);
    } else {
        let t = fields.drop_first();
        other_fields_stay(t, name, value, other);
        if fields[0].0 == name {
            assert(w.drop_first() =~= t);
        } else {
            assert(w.drop_first() =~= with_field(t, name, value));
        }
        if single_fields(fields) {
            lemma_still_single(fields, name, value);
        }
    }
}

proof fn lemma_still_single(fields: Seq<(Seq<char>, Seq<char>)>, name: Seq<char>, value: Seq<char>)
    requires
        single_fields(fields),
    ensures
        single_fields(with_field(fields, name, value)),
{
    let w = with_field(fields, name, value);
    let i = lemma_find(fields, name);
    lemma_field_place(fields, name, i);
    assert forall|a: int, b: int| 0 <= a < b < w.len() implies (#[trigger] w[a]).0 != (#[trigger] w[b]).0 by {
        if b < fields.len() {
            assert(fields[a].0 != fields[b].0);
        }
    }
}

proof fn lemma_find(fields: Seq<(Seq<char>, Seq<char>)>, name: Seq<char>) -> (i: int)
    ensures
        0 <= i <= fields.len(),
        forall|k: int| 0 <= k < i ==> (#[trigger] fields[k]).0 != name,
        i < fields.len() ==> fields[i].0 == name,
    decreases fields.len(),
{
    if fields.len() == 0 || fields[0].0 == name {
        0
    } else {
        let t = fields.drop_first();
        let i = lemma_find(t, name);
        assert forall|k: int| 0 <= k < i + 1 implies (#[trigger] fields[k]).0 != name by {
            if k > 0 {
                assert(t[k - 1] == fields[k]);
            }
        }
        if i < t.len() {
            assert(t[i] == fields[i + 1]);
        }
        i + 1
    }
}

/// The first field of a name is the one that is found; a name without a field is not found.
pub proof fn the_first_field_counts(fields: Seq<(Seq<char>, Seq<char>)>, i: int, name: Seq<char>)
    ensures
        0 <= i < fields.len() && fields[i].0 == name && (forall|j: int| 0 <= j < i ==> (#[trigger] fields[j]).0 != name)
            ==> field_of(fields, name) == Some(fields[i].1),
        (forall|j: int| 0 <= j < fields.len() ==> (#[trigger] fields[j]).0 != name) ==> field_of(fields, name) is None,
    decreases fields.len(),
{
    if fields.len() > 0 && fields[0].0 != name {
        let d = fields.drop_first();
        the_first_field_counts(d, i - 1, name);
        assert(forall|j: int| 0 <= j < d.len() ==> d[j] == fields[j + 1]);
        if 0 <= i < fields.len() && fields[i].0 == name && (forall|j: int| 0 <= j < i ==> (#[trigger] fields[j]).0 != name) {
            assert(i > 0);
            assert(forall|j: int| 0 <= j < i - 1 ==> (#[trigger] d[j]).0 != name);
        }
    }
}

/// A text and a truth value are read from a field only where they are one.
pub proof fn fields_are_read_by_kind(text: Seq<char>, f: Seq<(Seq<char>, Seq<char>)>, name: Seq<char>, v: Seq<char>)
    requires
        json_fields(text) == Some(f),
        field_of(f, name) == Some(v),
    ensures
        json_text(text, name) == json_string(v),
        v == "true"@ ==> json_flag(text, name) == Some(true),
        v == "false"@ ==> json_flag(text, name) == Some(false),
        v != "true"@ && v != "false"@ ==> json_flag(text, name) is None,
{
    reveal_strlit("true");
    reveal_strlit("false");
    assert("true"@.len() != "false"@.len());
}

} // verus!
