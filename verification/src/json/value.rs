use vstd::prelude::*;

use crate::json::laws::spec_distinct_keys;
use crate::text::str_equal;

verus! {

/// A JSON value. A number holds its text; an object holds its members in order (an
/// object read from text, or built by `JsonValue::object`, holds each key once).
#[derive(Debug, PartialEq)]
pub enum JsonValue {
    String(String),
    Number(String),
    Null,
    True,
    False,
    Array(Vec<JsonValue>),
    Object(Vec<(String, JsonValue)>),
}

/// A JSON value as a mathematical value.
pub enum JsonData {
    Str(Seq<char>),
    Num(Seq<char>),
    Null,
    True,
    False,
    Array(Seq<JsonData>),
    Object(Seq<(Seq<char>, JsonData)>),
}

/// The mathematical value of a JSON value.
pub open spec fn data_of(v: JsonValue) -> JsonData
    decreases v,
{
    match v {
        JsonValue::String(s) => JsonData::Str(s@),
        JsonValue::Number(s) => JsonData::Num(s@),
        JsonValue::Null => JsonData::Null,
        JsonValue::True => JsonData::True,
        JsonValue::False => JsonData::False,
        JsonValue::Array(items) => JsonData::Array(data_of_items(items@)),
        JsonValue::Object(members) => JsonData::Object(data_of_members(members@)),
    }
}

/// The mathematical values of a sequence of JSON values.
pub open spec fn data_of_items(items: Seq<JsonValue>) -> Seq<JsonData>
    decreases items,
{
    if items.len() == 0 {
        Seq::empty()
    } else {
        data_of_items(items.drop_last()).push(data_of(items.last()))
    }
}

/// The mathematical values of a sequence of object members.
pub open spec fn data_of_members(members: Seq<(String, JsonValue)>) -> Seq<(Seq<char>, JsonData)>
    decreases members,
{
    if members.len() == 0 {
        Seq::empty()
    } else {
        data_of_members(members.drop_last()).push(
            (members.last().0@, data_of(members.last().1)),
        )
    }
}

impl JsonValue {
    /// An object of the members in order; `None` when a key is given twice.
    pub fn object(members: Vec<(String, JsonValue)>) -> (r: Option<JsonValue>)
        ensures
            r is Some <==> spec_distinct_keys(data_of_members(members@)),
            r matches Some(v) ==> v.data() == JsonData::Object(data_of_members(members@)),
    {
        let ghost ms = data_of_members(members@);
        proof {
            lemma_data_of_members(members@);
        }
        let n = members.len();
        let mut i: usize = 0;
        while i < n
            invariant
                n == members@.len(),
                ms == data_of_members(members@),
                ms.len() == n,
                forall|k: int| 0 <= k < n ==> ms[k].0 == (#[trigger] members@[k]).0@,
                i <= n,
                forall|a: int, c: int| 0 <= a < c < n && a < i ==> ms[a].0 != ms[c].0,
            decreases n - i,
        {
            let mut j: usize = i + 1;
            while j < n
                invariant
                    n == members@.len(),
                    ms == data_of_members(members@),
                    ms.len() == n,
                    forall|k: int| 0 <= k < n ==> ms[k].0 == (#[trigger] members@[k]).0@,
                    i < n,
                    i + 1 <= j <= n,
                    forall|c: int| i < c < j ==> ms[i as int].0 != ms[c].0,
                decreases n - j,
            {
                if str_equal(members[i].0.as_str(), members[j].0.as_str()) {
                    proof {
                        assert(ms[i as int].0 == members@[i as int].0@);
                        assert(ms[j as int].0 == members@[j as int].0@);
                        assert(ms[i as int].0 == ms[j as int].0);
                        assert(!spec_distinct_keys(ms));
                    }
                    return None;
                }
                proof {
                    assert(ms[i as int].0 == members@[i as int].0@);
                    assert(ms[j as int].0 == members@[j as int].0@);
                }
                j = j + 1;
            }
            i = i + 1;
        }
        Some(JsonValue::Object(members))
    }

    /// The mathematical value.
    pub open spec fn data(self) -> JsonData {
        data_of(self)
    }
}

/// The text of a value: strings between quotes as they are, numbers as their text,
/// arrays and objects with `,` between their parts, and `colon` between a key and its
/// value.
pub open spec fn spec_render(d: JsonData, colon: Seq<char>) -> Seq<char>
    decreases d,
{
    match d {
        JsonData::Str(s) => seq!['"'] + s + seq!['"'],
        JsonData::Num(t) => t,
        JsonData::Null => seq!['n', 'u', 'l', 'l'],
        JsonData::True => seq!['t', 'r', 'u', 'e'],
        JsonData::False => seq!['f', 'a', 'l', 's', 'e'],
        JsonData::Array(items) => seq!['['] + spec_render_items(items, colon) + seq![']'],
        JsonData::Object(ms) => seq!['{'] + spec_render_members(ms, colon) + seq!['}'],
    }
}

/// The texts of values, with `,` between them.
pub open spec fn spec_render_items(items: Seq<JsonData>, colon: Seq<char>) -> Seq<char>
    decreases items,
{
    if items.len() == 0 {
        Seq::empty()
    } else if items.len() == 1 {
        spec_render(items[0], colon)
    } else {
        spec_render(items[0], colon) + seq![','] + spec_render_items(items.drop_first(), colon)
    }
}

/// The text of a member: `"key"`, `colon`, then the value.
pub open spec fn spec_render_member(m: (Seq<char>, JsonData), colon: Seq<char>) -> Seq<char>
    decreases m,
{
    seq!['"'] + m.0 + seq!['"'] + colon + spec_render(m.1, colon)
}

/// The texts of members, with `,` between them.
pub open spec fn spec_render_members(ms: Seq<(Seq<char>, JsonData)>, colon: Seq<char>) -> Seq<
    char,
>
    decreases ms,
{
    if ms.len() == 0 {
        Seq::empty()
    } else if ms.len() == 1 {
        spec_render_member(ms[0], colon)
    } else {
        spec_render_member(ms[0], colon) + seq![','] + spec_render_members(ms.drop_first(), colon)
    }
}

/// Rendering one more value after others puts a `,` before it.
pub proof fn lemma_render_items_push(items: Seq<JsonData>, x: JsonData, colon: Seq<char>)
    ensures
        spec_render_items(items.push(x), colon) == if items.len() == 0 {
            spec_render(x, colon)
        } else {
            spec_render_items(items, colon) + seq![','] + spec_render(x, colon)
        },
    decreases items.len(),
{
    if items.len() > 0 {
        assert(items.push(x).drop_first() =~= items.drop_first().push(x));
        lemma_render_items_push(items.drop_first(), x, colon);
        if items.len() == 1 {
            assert(items.drop_first() =~= Seq::<JsonData>::empty());
        }
    }
}

/// Rendering one more member after others puts a `,` before it.
pub proof fn lemma_render_members_push(
    ms: Seq<(Seq<char>, JsonData)>,
    m: (Seq<char>, JsonData),
    colon: Seq<char>,
)
    ensures
        spec_render_members(ms.push(m), colon) == if ms.len() == 0 {
            spec_render_member(m, colon)
        } else {
            spec_render_members(ms, colon) + seq![','] + spec_render_member(m, colon)
        },
    decreases ms.len(),
{
    if ms.len() > 0 {
        assert(ms.push(m).drop_first() =~= ms.drop_first().push(m));
        lemma_render_members_push(ms.drop_first(), m, colon);
        if ms.len() == 1 {
            assert(ms.drop_first() =~= Seq::<(Seq<char>, JsonData)>::empty());
        }
    }
}

/// The mathematical values of items, element by element.
pub proof fn lemma_data_of_items(items: Seq<JsonValue>)
    ensures
        data_of_items(items).len() == items.len(),
        forall|i: int| 0 <= i < items.len() ==> data_of_items(items)[i] == data_of(items[i]),
    decreases items.len(),
{
    if items.len() > 0 {
        lemma_data_of_items(items.drop_last());
        assert forall|i: int| 0 <= i < items.len() - 1 implies items.drop_last()[i]
            == items[i] by {}
    }
}

/// The mathematical values of members, member by member.
pub proof fn lemma_data_of_members(ms: Seq<(String, JsonValue)>)
    ensures
        data_of_members(ms).len() == ms.len(),
        forall|i: int|
            0 <= i < ms.len() ==> data_of_members(ms)[i] == (ms[i].0@, data_of(ms[i].1)),
    decreases ms.len(),
{
    if ms.len() > 0 {
        lemma_data_of_members(ms.drop_last());
        assert forall|i: int| 0 <= i < ms.len() - 1 implies ms.drop_last()[i] == ms[i] by {}
    }
}


/// Appends a literal text.
fn append_lit(out: &mut String, lit: &str)
    ensures
        final(out)@ == old(out)@ + lit@,
{
    out.append(lit);
}

impl JsonValue {
    /// Appends the text of the value, with `colon` between each key and its value.
    #[verifier::loop_isolation(false)]
    pub fn write_json(&self, out: &mut String, colon: &str)
        ensures
            final(out)@ == old(out)@ + spec_render(self.data(), colon@),
        decreases self,
    {
        proof {
            reveal_strlit("\"");
            reveal_strlit(",");
            reveal_strlit("[");
            reveal_strlit("]");
            reveal_strlit("{");
            reveal_strlit("}");
            reveal_strlit("null");
            reveal_strlit("true");
            reveal_strlit("false");
        }
        match self {
            JsonValue::String(s) => {
                append_lit(out, "\"");
                out.append(s.as_str());
                append_lit(out, "\"");
            },
            JsonValue::Number(t) => {
                out.append(t.as_str());
            },
            JsonValue::Null => {
                append_lit(out, "null");
            },
            JsonValue::True => {
                append_lit(out, "true");
            },
            JsonValue::False => {
                append_lit(out, "false");
            },
            JsonValue::Array(items) => {
                append_lit(out, "[");
                let ghost start = out@;
                let ghost ds = data_of_items(items@);
                proof {
                    lemma_data_of_items(items@);
                    assert(ds.subrange(0, 0) =~= Seq::<JsonData>::empty());
                }
                let mut i: usize = 0;
                while i < items.len()
                    invariant
                        0 <= i <= items@.len(),
                        ds == data_of_items(items@),
                        ds.len() == items@.len(),
                        forall|k: int| 0 <= k < items@.len() ==> ds[k] == data_of(items@[k]),
                        out@ == start + spec_render_items(ds.subrange(0, i as int), colon@),
                    decreases items@.len() - i,
                {
                    if i > 0 {
                        append_lit(out, ",");
                    }
                    proof {
                        assert(decreases_to!(*self => *items));
                    }
                    items[i].write_json(out, colon);
                    proof {
                        let p = ds.subrange(0, i + 1);
                        assert(p =~= ds.subrange(0, i as int).push(data_of(items@[i as int])));
                        lemma_render_items_push(ds.subrange(0, i as int), data_of(items@[i as int]), colon@);
                        assert(out@ =~= start + spec_render_items(p, colon@));
                    }
                    i = i + 1;
                }
                proof {
                    assert(ds.subrange(0, i as int) =~= ds);
                }
                append_lit(out, "]");
            },
            JsonValue::Object(ms) => {
                append_lit(out, "{");
                let ghost start = out@;
                let ghost ds = data_of_members(ms@);
                proof {
                    lemma_data_of_members(ms@);
                    assert(ds.subrange(0, 0) =~= Seq::<(Seq<char>, JsonData)>::empty());
                }
                let mut i: usize = 0;
                while i < ms.len()
                    invariant
                        0 <= i <= ms@.len(),
                        ds == data_of_members(ms@),
                        ds.len() == ms@.len(),
                        forall|k: int|
                            0 <= k < ms@.len() ==> ds[k] == (ms@[k].0@, data_of(ms@[k].1)),
                        out@ == start + spec_render_members(ds.subrange(0, i as int), colon@),
                    decreases ms@.len() - i,
                {
                    if i > 0 {
                        append_lit(out, ",");
                    }
                    append_lit(out, "\"");
                    out.append(ms[i].0.as_str());
                    append_lit(out, "\"");
                    out.append(colon);
                    proof {
                        assert(decreases_to!(*self => *ms));
                    }
                    ms[i].1.write_json(out, colon);
                    proof {
                        let p = ds.subrange(0, i + 1);
                        let m = (ms@[i as int].0@, data_of(ms@[i as int].1));
                        assert(p =~= ds.subrange(0, i as int).push(m));
                        lemma_render_members_push(ds.subrange(0, i as int), m, colon@);
                        assert(out@ =~= start + spec_render_members(p, colon@));
                    }
                    i = i + 1;
                }
                proof {
                    assert(ds.subrange(0, i as int) =~= ds);
                }
                append_lit(out, "}");
            },
        }
    }
}

} // verus!
