//! JSON values and their compact text, as the OCI blobs of a build hold them.
//!
//! Objects keep their members in key order, so equal objects have equal text.
use vstd::prelude::*;
use vstd::string::*;

use crate::digest::{hex_digit, hex_encode, hex_spec};
use crate::text::{chars_of, concat, seq_lt, str_eq, str_lt, substring, views};

verus! {

/// A JSON value held by the library.
#[derive(Debug)]
pub enum JsonValue {
    Null,
    Bool(bool),
    /// A number, kept as its JSON text.
    Number(String),
    Str(String),
    Array(Vec<JsonValue>),
    /// Members in the order written. Objects that stand for maps keep their keys in
    /// strictly increasing order (see `canonical`).
    Object(Vec<(String, JsonValue)>),
}

/// The abstract value of a JSON value.
pub enum Json {
    Null,
    Bool(bool),
    Number(Seq<char>),
    Str(Seq<char>),
    Array(Seq<Json>),
    Object(Seq<(Seq<char>, Json)>),
}

pub open spec fn jv(v: JsonValue) -> Json
    decreases v,
{
    match v {
        JsonValue::Null => Json::Null,
        JsonValue::Bool(b) => Json::Bool(b),
        JsonValue::Number(n) => Json::Number(n@),
        JsonValue::Str(s) => Json::Str(s@),
        JsonValue::Array(a) => Json::Array(jv_items(a@)),
        JsonValue::Object(o) => Json::Object(jv_pairs(o@)),
    }
}

pub open spec fn jv_items(s: Seq<JsonValue>) -> Seq<Json>
    decreases s,
{
    if s.len() == 0 {
        Seq::empty()
    } else {
        jv_items(s.drop_last()).push(jv(s.last()))
    }
}

pub open spec fn jv_pairs(s: Seq<(String, JsonValue)>) -> Seq<(Seq<char>, Json)>
    decreases s,
{
    if s.len() == 0 {
        Seq::empty()
    } else {
        jv_pairs(s.drop_last()).push((s.last().0@, jv(s.last().1)))
    }
}

impl Clone for JsonValue {
    /// A copy with the same abstract value.
    fn clone(&self) -> (r: Self)
        ensures
            jv(r) == jv(*self),
        decreases self,
    {
        match self {
            JsonValue::Null => JsonValue::Null,
            JsonValue::Bool(b) => JsonValue::Bool(*b),
            JsonValue::Number(n) => JsonValue::Number(n.clone()),
            JsonValue::Str(s) => JsonValue::Str(s.clone()),
            JsonValue::Array(items) => {
                let mut out: Vec<JsonValue> = Vec::new();
                let mut i: usize = 0;
                while i < items.len()
                    invariant
                        i <= items.len(),
                        out.len() == i,
                        forall|k: int| 0 <= k < i ==> #[trigger] jv(out@[k]) == jv(items@[k]),
                        *self == JsonValue::Array(*items),
                    decreases items.len() - i,
                {
                    assert(decreases_to!(*self => (*self)->Array_0));
                    assert(decreases_to!(*items => items@));
                    assert(decreases_to!(items@ => items@[i as int]));
                    let item = items[i].clone();
                    out.push(item);
                    i = i + 1;
                }
                proof {
                    lemma_jv_items_pointwise(out@, items@);
                }
                JsonValue::Array(out)
            },
            JsonValue::Object(members) => {
                let mut out: Vec<(String, JsonValue)> = Vec::new();
                let mut i: usize = 0;
                while i < members.len()
                    invariant
                        i <= members.len(),
                        out.len() == i,
                        forall|k: int| 0 <= k < i ==> same_member(#[trigger] out@[k], members@[k]),
                        *self == JsonValue::Object(*members),
                    decreases members.len() - i,
                {
                    assert(decreases_to!(*self => (*self)->Object_0));
                    assert(decreases_to!(*members => members@));
                    assert(decreases_to!(members@ => members@[i as int]));
                    assert(decreases_to!(members@[i as int] => members@[i as int].1));
                    let key = members[i].0.clone();
                    let value = members[i].1.clone();
                    out.push((key, value));
                    i = i + 1;
                }
                proof {
                    lemma_jv_pairs_pointwise(out@, members@);
                }
                JsonValue::Object(out)
            },
        }
    }
}

proof fn lemma_jv_items_pointwise(a: Seq<JsonValue>, b: Seq<JsonValue>)
    requires
        a.len() == b.len(),
        forall|k: int| 0 <= k < a.len() ==> #[trigger] jv(a[k]) == jv(b[k]),
    ensures
        jv_items(a) == jv_items(b),
    decreases a.len(),
{
    if a.len() > 0 {
        lemma_jv_items_pointwise(a.drop_last(), b.drop_last());
        assert(jv(a[a.len() - 1]) == jv(b[b.len() - 1]));
    }
}

spec fn same_member(a: (String, JsonValue), b: (String, JsonValue)) -> bool {
    a.0@ == b.0@ && jv(a.1) == jv(b.1)
}

proof fn lemma_jv_pairs_pointwise(a: Seq<(String, JsonValue)>, b: Seq<(String, JsonValue)>)
    requires
        a.len() == b.len(),
        forall|k: int| 0 <= k < a.len() ==> same_member(#[trigger] a[k], b[k]),
    ensures
        jv_pairs(a) == jv_pairs(b),
    decreases a.len(),
{
    if a.len() > 0 {
        lemma_jv_pairs_pointwise(a.drop_last(), b.drop_last());
        assert(same_member(a[a.len() - 1], b[b.len() - 1]));
    }
}

/// The keys of a member list.
pub open spec fn pair_keys(ps: Seq<(Seq<char>, Json)>) -> Seq<Seq<char>> {
    ps.map_values(|p: (Seq<char>, Json)| p.0)
}

/// Whether member keys strictly increase.
pub open spec fn keys_sorted(ps: Seq<(Seq<char>, Json)>) -> bool {
    forall|i: int, j: int| 0 <= i < j < ps.len() ==> seq_lt(#[trigger] ps[i].0, #[trigger] ps[j].0)
}

/// The value of the first member with key `k`.
pub open spec fn pairs_get(ps: Seq<(Seq<char>, Json)>, k: Seq<char>) -> Option<Json>
    decreases ps.len(),
{
    if ps.len() == 0 {
        None
    } else if ps[0].0 == k {
        Some(ps[0].1)
    } else {
        pairs_get(ps.drop_first(), k)
    }
}

/// The members with `(k, v)` placed in key order, replacing a member with key `k`.
pub open spec fn pairs_insert(ps: Seq<(Seq<char>, Json)>, k: Seq<char>, v: Json) -> Seq<(Seq<char>, Json)>
    decreases ps.len(),
{
    if ps.len() == 0 {
        seq![(k, v)]
    } else if ps[0].0 == k {
        seq![(k, v)] + ps.drop_first()
    } else if seq_lt(k, ps[0].0) {
        seq![(k, v)] + ps
    } else {
        seq![ps[0]] + pairs_insert(ps.drop_first(), k, v)
    }
}

/// How a character is written inside a JSON string.
pub open spec fn escape_char(c: char) -> Seq<char> {
    if c == '"' {
        seq!['\\', '"']
    } else if c == '\\' {
        seq!['\\', '\\']
    } else if c == '\n' {
        seq!['\\', 'n']
    } else if c == '\r' {
        seq!['\\', 'r']
    } else if c == '\t' {
        seq!['\\', 't']
    } else if (c as u32) == 8 {
        seq!['\\', 'b']
    } else if (c as u32) == 12 {
        seq!['\\', 'f']
    } else if (c as u32) < 32 {
        seq!['\\', 'u', '0', '0', hex_digit((c as u32) as int / 16), hex_digit((c as u32) as int % 16)]
    } else {
        seq![c]
    }
}

pub open spec fn escape(s: Seq<char>) -> Seq<char>
    decreases s.len(),
{
    if s.len() == 0 {
        Seq::empty()
    } else {
        escape(s.drop_last()) + escape_char(s.last())
    }
}

pub open spec fn quoted(s: Seq<char>) -> Seq<char> {
    seq!['"'] + escape(s) + seq!['"']
}

/// Compact JSON text: no whitespace, members in the order held.
pub open spec fn json_text(j: Json) -> Seq<char>
    decreases j,
{
    match j {
        Json::Null => seq!['n', 'u', 'l', 'l'],
        Json::Bool(b) => if b {
            seq!['t', 'r', 'u', 'e']
        } else {
            seq!['f', 'a', 'l', 's', 'e']
        },
        Json::Number(n) => n,
        Json::Str(s) => quoted(s),
        Json::Array(items) => seq!['['] + items_text(items) + seq![']'],
        Json::Object(ps) => seq!['{'] + pairs_text(ps) + seq!['}'],
    }
}

pub open spec fn items_text(s: Seq<Json>) -> Seq<char>
    decreases s,
{
    if s.len() == 0 {
        Seq::empty()
    } else if s.len() == 1 {
        json_text(s[0])
    } else {
        items_text(s.drop_last()) + seq![','] + json_text(s.last())
    }
}

pub open spec fn pairs_text(s: Seq<(Seq<char>, Json)>) -> Seq<char>
    decreases s,
{
    if s.len() == 0 {
        Seq::empty()
    } else if s.len() == 1 {
        quoted(s[0].0) + seq![':'] + json_text(s[0].1)
    } else {
        pairs_text(s.drop_last()) + seq![','] + quoted(s.last().0) + seq![':'] + json_text(s.last().1)
    }
}

/// Appends a literal.
fn push_lit(out: &mut String, lit: &str)
    ensures
        final(out)@ == old(out)@ + lit@,
{
    out.append(lit);
}

/// The written form of the character at `i` of `s`.
fn escape_piece(s: &str, i: usize, c: char) -> (r: String)
    requires
        i < s@.len(),
        s@.len() <= usize::MAX,
        s@[i as int] == c,
    ensures
        r@ == escape_char(c),
{
    proof {
        reveal_strlit("\\\"");
        reveal_strlit("\\\\");
        reveal_strlit("\\n");
        reveal_strlit("\\r");
        reveal_strlit("\\t");
        reveal_strlit("\\b");
        reveal_strlit("\\f");
        reveal_strlit("\\u00");
    }
    if c == '"' {
        assert("\\\""@ =~= seq!['\\', '"']);
        "\\\"".to_owned()
    } else if c == '\\' {
        assert("\\\\"@ =~= seq!['\\', '\\']);
        "\\\\".to_owned()
    } else if c == '\n' {
        assert("\\n"@ =~= seq!['\\', 'n']);
        "\\n".to_owned()
    } else if c == '\r' {
        assert("\\r"@ =~= seq!['\\', 'r']);
        "\\r".to_owned()
    } else if c == '\t' {
        assert("\\t"@ =~= seq!['\\', 't']);
        "\\t".to_owned()
    } else if (c as u32) == 8 {
        assert("\\b"@ =~= seq!['\\', 'b']);
        "\\b".to_owned()
    } else if (c as u32) == 12 {
        assert("\\f"@ =~= seq!['\\', 'f']);
        "\\f".to_owned()
    } else if (c as u32) < 32 {
        let byte: u8 = c as u8;
        let bytes: [u8; 1] = [byte];
        let digits = hex_encode(&bytes);
        proof {
            assert(bytes@ =~= seq![byte]);
            assert(seq![byte].drop_last() =~= Seq::<u8>::empty());
            assert(hex_spec(Seq::<u8>::empty()) == Seq::<char>::empty());
            assert(hex_spec(seq![byte]) == hex_spec(seq![byte].drop_last()) + seq![hex_digit(byte as int / 16), hex_digit(byte as int % 16)]);
            assert(digits@ =~= seq![hex_digit(byte as int / 16), hex_digit(byte as int % 16)]);
            assert("\\u00"@ =~= seq!['\\', 'u', '0', '0']);
        }
        let r = concat("\\u00", digits.as_str());
        assert(r@ =~= escape_char(c));
        r
    } else {
        let r = substring(s, i, i + 1);
        assert(r@ =~= seq![c]);
        r
    }
}

/// Appends `s` written as a quoted JSON string.
pub fn write_quoted(s: &str, out: &mut String)
    ensures
        final(out)@ == old(out)@ + quoted(s@),
{
    proof {
        reveal_strlit("\"");
        assert("\""@ =~= seq!['"']);
    }
    let ghost start = out@;
    push_lit(out, "\"");
    let cs = chars_of(s);
    let mut i: usize = 0;
    while i < cs.len()
        invariant
            cs@ == s@,
            i <= cs@.len(),
            out@ == start + seq!['"'] + escape(s@.take(i as int)),
        decreases cs@.len() - i,
    {
        assert(cs@.len() == cs.len());
        let piece = escape_piece(s, i, cs[i]);
        out.append(piece.as_str());
        proof {
            assert(s@.take(i + 1).drop_last() =~= s@.take(i as int));
            assert(s@.take(i + 1).last() == cs@[i as int]);
            assert(out@ =~= start + seq!['"'] + escape(s@.take(i + 1)));
        }
        i = i + 1;
    }
    proof {
        reveal_strlit("\"");
        assert("\""@ =~= seq!['"']);
        assert(s@.take(i as int) =~= s@);
    }
    push_lit(out, "\"");
    assert(out@ =~= start + quoted(s@));
}

/// Appends the compact text of `v`.
pub fn write_json(v: &JsonValue, out: &mut String)
    ensures
        final(out)@ == old(out)@ + json_text(jv(*v)),
    decreases v,
{
    proof {
        reveal_strlit("null");
        reveal_strlit("true");
        reveal_strlit("false");
        reveal_strlit("[");
        reveal_strlit("]");
        reveal_strlit("{");
        reveal_strlit("}");
        reveal_strlit(",");
        reveal_strlit(":");
        assert("null"@ =~= seq!['n', 'u', 'l', 'l']);
        assert("true"@ =~= seq!['t', 'r', 'u', 'e']);
        assert("false"@ =~= seq!['f', 'a', 'l', 's', 'e']);
        assert("["@ =~= seq!['[']);
        assert("]"@ =~= seq![']']);
        assert("{"@ =~= seq!['{']);
        assert("}"@ =~= seq!['}']);
    }
    let ghost start = out@;
    match v {
        JsonValue::Null => push_lit(out, "null"),
        JsonValue::Bool(b) => {
            if *b {
                push_lit(out, "true")
            } else {
                push_lit(out, "false")
            }
        },
        JsonValue::Number(n) => out.append(n.as_str()),
        JsonValue::Str(s) => write_quoted(s.as_str(), out),
        JsonValue::Array(items) => {
            push_lit(out, "[");
            let mut i: usize = 0;
            while i < items.len()
                invariant
                    i <= items@.len(),
                    out@ == start + seq!['['] + items_text(jv_items(items@.take(i as int))),
                    forall|j: int| 0 <= j < items@.len() ==> decreases_to!(*v => #[trigger] items@[j]),
                decreases items@.len() - i,
            {
                proof {
                    reveal_strlit(",");
                    assert(","@ =~= seq![',']);
                    assert(items@.take(i + 1).drop_last() =~= items@.take(i as int));
                    assert(items@.take(i + 1).last() == items@[i as int]);
                    lemma_jv_items_len(items@.take(i as int));
                }
                let ghost before = out@;
                if i > 0 {
                    push_lit(out, ",");
                }
                assert(decreases_to!(*v => items@[i as int]));
                write_json(&items[i], out);
                proof {
                    let t = jv_items(items@.take(i + 1));
                    assert(t == jv_items(items@.take(i as int)).push(jv(items@[i as int])));
                    assert(t.drop_last() =~= jv_items(items@.take(i as int)));
                    if i == 0 {
                        assert(items_text(t) == json_text(t[0]));
                    }
                    assert(out@ =~= start + seq!['['] + items_text(t));
                }
                i = i + 1;
            }
            proof {
                reveal_strlit("]");
                assert("]"@ =~= seq![']']);
                assert(items@.take(i as int) =~= items@);
            }
            push_lit(out, "]");
        },
        JsonValue::Object(members) => {
            push_lit(out, "{");
            let mut i: usize = 0;
            while i < members.len()
                invariant
                    i <= members@.len(),
                    out@ == start + seq!['{'] + pairs_text(jv_pairs(members@.take(i as int))),
                    forall|j: int| 0 <= j < members@.len() ==> decreases_to!(*v => #[trigger] members@[j].1),
                decreases members@.len() - i,
            {
                proof {
                    reveal_strlit(",");
                    reveal_strlit(":");
                    assert(","@ =~= seq![',']);
                    assert(":"@ =~= seq![':']);
                    assert(members@.take(i + 1).drop_last() =~= members@.take(i as int));
                    assert(members@.take(i + 1).last() == members@[i as int]);
                    lemma_jv_pairs_len(members@.take(i as int));
                }
                if i > 0 {
                    push_lit(out, ",");
                }
                write_quoted(members[i].0.as_str(), out);
                push_lit(out, ":");
                assert(decreases_to!(*v => members@[i as int].1));
                write_json(&members[i].1, out);
                proof {
                    let t = jv_pairs(members@.take(i + 1));
                    assert(t == jv_pairs(members@.take(i as int)).push((members@[i as int].0@, jv(members@[i as int].1))));
                    assert(t.drop_last() =~= jv_pairs(members@.take(i as int)));
                    assert(out@ =~= start + seq!['{'] + pairs_text(t));
                }
                i = i + 1;
            }
            proof {
                reveal_strlit("}");
                assert("}"@ =~= seq!['}']);
                assert(members@.take(i as int) =~= members@);
            }
            push_lit(out, "}");
        },
    }
}

pub proof fn lemma_jv_items_len(s: Seq<JsonValue>)
    ensures
        jv_items(s).len() == s.len(),
        forall|i: int| 0 <= i < s.len() ==> #[trigger] jv_items(s)[i] == jv(s[i]),
    decreases s.len(),
{
    if s.len() > 0 {
        lemma_jv_items_len(s.drop_last());
    }
}

pub proof fn lemma_jv_pairs_len(s: Seq<(String, JsonValue)>)
    ensures
        jv_pairs(s).len() == s.len(),
        forall|i: int| 0 <= i < s.len() ==> #[trigger] jv_pairs(s)[i] == (s[i].0@, jv(s[i].1)),
    decreases s.len(),
{
    if s.len() > 0 {
        lemma_jv_pairs_len(s.drop_last());
    }
}

/// The compact text of `v`.
pub fn to_json_text(v: &JsonValue) -> (r: String)
    ensures
        r@ == json_text(jv(*v)),
{
    let mut out = String::new();
    write_json(v, &mut out);
    assert(out@ =~= json_text(jv(*v)));
    out
}

} // verus!

verus! {

proof fn lemma_pairs_insert_at(ps: Seq<(Seq<char>, Json)>, k: Seq<char>, v: Json, i: int)
    requires
        0 <= i <= ps.len(),
        forall|j: int| 0 <= j < i ==> seq_lt(#[trigger] ps[j].0, k),
        i < ps.len() ==> !seq_lt(ps[i].0, k),
    ensures
        pairs_insert(ps, k, v) == if i < ps.len() && ps[i].0 == k {
            ps.take(i) + seq![(k, v)] + ps.skip(i + 1)
        } else {
            ps.take(i) + seq![(k, v)] + ps.skip(i)
        },
    decreases i,
{
    if i == 0 {
        if ps.len() > 0 {
            crate::text::lemma_seq_lt_trichotomy(ps[0].0, k);
            assert(ps.take(0) + seq![(k, v)] + ps.skip(1) =~= seq![(k, v)] + ps.drop_first());
        }
        assert(ps.take(0) + seq![(k, v)] + ps.skip(0) =~= seq![(k, v)] + ps);
    } else {
        let rest = ps.drop_first();
        assert forall|j: int| 0 <= j < i - 1 implies seq_lt(#[trigger] rest[j].0, k) by {
            assert(rest[j] == ps[j + 1]);
        }
        lemma_pairs_insert_at(rest, k, v, i - 1);
        assert(seq_lt(ps[0].0, k));
        crate::text::lemma_seq_lt_irreflexive(k);
        crate::text::lemma_seq_lt_trichotomy(ps[0].0, k);
        if i < ps.len() && ps[i].0 == k {
            assert(ps.take(i) + seq![(k, v)] + ps.skip(i + 1) =~= seq![ps[0]] + (rest.take(i - 1) + seq![(k, v)] + rest.skip(i)));
        } else {
            assert(ps.take(i) + seq![(k, v)] + ps.skip(i) =~= seq![ps[0]] + (rest.take(i - 1) + seq![(k, v)] + rest.skip(i - 1)));
        }
    }
}

proof fn lemma_pairs_get_at(ps: Seq<(Seq<char>, Json)>, k: Seq<char>, i: int)
    requires
        0 <= i <= ps.len(),
        forall|j: int| 0 <= j < i ==> #[trigger] ps[j].0 != k,
    ensures
        i < ps.len() && ps[i].0 == k ==> pairs_get(ps, k) == Some(ps[i].1),
        i == ps.len() ==> pairs_get(ps, k) is None,
    decreases i,
{
    if i > 0 {
        let rest = ps.drop_first();
        assert forall|j: int| 0 <= j < i - 1 implies #[trigger] rest[j].0 != k by {
            assert(rest[j] == ps[j + 1]);
        }
        lemma_pairs_get_at(rest, k, i - 1);
    }
}

/// The member with key `key`.
pub fn obj_get<'a>(members: &'a Vec<(String, JsonValue)>, key: &str) -> (r: Option<&'a JsonValue>)
    ensures
        match r {
            Some(v) => pairs_get(jv_pairs(members@), key@) == Some(jv(*v)),
            None => pairs_get(jv_pairs(members@), key@) is None,
        },
{
    proof {
        lemma_jv_pairs_len(members@);
    }
    let ghost ps = jv_pairs(members@);
    let mut i: usize = 0;
    while i < members.len()
        invariant
            ps == jv_pairs(members@),
            ps.len() == members@.len(),
            forall|j: int| 0 <= j < members@.len() ==> #[trigger] ps[j] == (members@[j].0@, jv(members@[j].1)),
            i <= members@.len(),
            forall|j: int| 0 <= j < i ==> #[trigger] ps[j].0 != key@,
        decreases members@.len() - i,
    {
        if str_eq(members[i].0.as_str(), key) {
            proof {
                lemma_pairs_get_at(ps, key@, i as int);
            }
            return Some(&members[i].1);
        }
        assert(ps[i as int].0 != key@);
        i = i + 1;
    }
    proof {
        lemma_pairs_get_at(ps, key@, i as int);
    }
    None
}

proof fn lemma_jv_pairs_ext(a: Seq<(String, JsonValue)>, b: Seq<(Seq<char>, Json)>)
    requires
        a.len() == b.len(),
        forall|j: int| 0 <= j < a.len() ==> b[j] == (a[j].0@, jv(a[j].1)),
    ensures
        jv_pairs(a) == b,
{
    lemma_jv_pairs_len(a);
    assert(jv_pairs(a) =~= b);
}

/// Places `(key, value)` among the members in key order, replacing a member with that key.
pub fn obj_insert(members: &mut Vec<(String, JsonValue)>, key: String, value: JsonValue)
    ensures
        jv_pairs(final(members)@) == pairs_insert(jv_pairs(old(members)@), key@, jv(value)),
        keys_sorted(jv_pairs(old(members)@)) ==> keys_sorted(jv_pairs(final(members)@)),
{
    proof {
        lemma_jv_pairs_len(members@);
    }
    let ghost ps = jv_pairs(members@);
    let ghost k = key@;
    let ghost jval = jv(value);
    let mut i: usize = 0;
    while i < members.len() && str_lt(members[i].0.as_str(), key.as_str())
        invariant
            ps == jv_pairs(members@),
            ps.len() == members@.len(),
            forall|j: int| 0 <= j < members@.len() ==> #[trigger] ps[j] == (members@[j].0@, jv(members@[j].1)),
            i <= members@.len(),
            k == key@,
            forall|j: int| 0 <= j < i ==> seq_lt(#[trigger] ps[j].0, k),
        decreases members@.len() - i,
    {
        assert(ps[i as int].0 == members@[i as int].0@);
        i = i + 1;
    }
    proof {
        if i < members@.len() {
            assert(ps[i as int].0 == members@[i as int].0@);
        }
        lemma_pairs_insert_at(ps, k, jval, i as int);
        if keys_sorted(ps) {
            lemma_pairs_insert_sorted(ps, k, jval);
        }
    }
    if i < members.len() && str_eq(members[i].0.as_str(), key.as_str()) {
        members.set(i, (key, value));
        proof {
            let target = ps.take(i as int) + seq![(k, jval)] + ps.skip(i + 1);
            assert forall|j: int| 0 <= j < members@.len() implies target[j] == (members@[j].0@, jv(members@[j].1)) by {
                if j < i {
                } else if j > i {
                }
            }
            lemma_jv_pairs_ext(members@, target);
        }
    } else {
        members.insert(i, (key, value));
        proof {
            let target = ps.take(i as int) + seq![(k, jval)] + ps.skip(i as int);
            assert forall|j: int| 0 <= j < members@.len() implies target[j] == (members@[j].0@, jv(members@[j].1)) by {
                if j < i {
                } else if j > i {
                    assert(members@[j] == old(members)@[j - 1]);
                }
            }
            lemma_jv_pairs_ext(members@, target);
        }
    }
}

proof fn lemma_pairs_insert_sorted(ps: Seq<(Seq<char>, Json)>, k: Seq<char>, v: Json)
    requires
        keys_sorted(ps),
    ensures
        keys_sorted(pairs_insert(ps, k, v)),
        forall|q: Seq<char>| #[trigger] pair_keys(pairs_insert(ps, k, v)).contains(q) ==> q == k || pair_keys(ps).contains(q),
    decreases ps.len(),
{
    let r = pairs_insert(ps, k, v);
    if ps.len() > 0 {
        let rest = ps.drop_first();
        assert forall|i: int, j: int| 0 <= i < j < rest.len() implies seq_lt(#[trigger] rest[i].0, #[trigger] rest[j].0) by {
            assert(rest[i] == ps[i + 1]);
            assert(rest[j] == ps[j + 1]);
        }
        lemma_pairs_insert_sorted(rest, k, v);
        crate::text::lemma_seq_lt_trichotomy(k, ps[0].0);
        if ps[0].0 == k {
            assert forall|i: int, j: int| 0 <= i < j < r.len() implies seq_lt(#[trigger] r[i].0, #[trigger] r[j].0) by {
                assert(r[j] == ps[j]);
                if i > 0 {
                    assert(r[i] == ps[i]);
                }
            }
        } else if seq_lt(k, ps[0].0) {
            assert forall|i: int, j: int| 0 <= i < j < r.len() implies seq_lt(#[trigger] r[i].0, #[trigger] r[j].0) by {
                assert(r[j] == ps[j - 1]);
                if i > 0 {
                    assert(r[i] == ps[i - 1]);
                } else if j - 1 > 0 {
                    crate::text::lemma_seq_lt_transitive(k, ps[0].0, ps[j - 1].0);
                }
            }
        } else {
            let tail = pairs_insert(rest, k, v);
            assert(r == seq![ps[0]] + tail);
            assert forall|i: int, j: int| 0 <= i < j < r.len() implies seq_lt(#[trigger] r[i].0, #[trigger] r[j].0) by {
                assert(r[j] == tail[j - 1]);
                if i > 0 {
                    assert(r[i] == tail[i - 1]);
                } else {
                    let q = tail[j - 1].0;
                    assert(pair_keys(tail)[j - 1] == q);
                    assert(pair_keys(tail).contains(q));
                    if q != k {
                        let t = choose|t: int| 0 <= t < pair_keys(rest).len() && pair_keys(rest)[t] == q;
                        assert(rest[t] == ps[t + 1]);
                    }
                }
            }
        }
        assert forall|q: Seq<char>| #[trigger] pair_keys(r).contains(q) implies q == k || pair_keys(ps).contains(q) by {
            let t = choose|t: int| 0 <= t < pair_keys(r).len() && pair_keys(r)[t] == q;
            if ps[0].0 == k {
                if t > 0 {
                    assert(pair_keys(ps)[t] == q);
                }
            } else if seq_lt(k, ps[0].0) {
                if t > 0 {
                    assert(pair_keys(ps)[t - 1] == q);
                }
            } else {
                let tail = pairs_insert(rest, k, v);
                if t == 0 {
                    assert(pair_keys(ps)[0] == q);
                } else {
                    assert(pair_keys(tail)[t - 1] == q);
                    assert(pair_keys(tail).contains(q));
                    if q != k {
                        let s = choose|s: int| 0 <= s < pair_keys(rest).len() && pair_keys(rest)[s] == q;
                        assert(pair_keys(ps)[s + 1] == q);
                    }
                }
            }
        }
    } else {
        assert(pair_keys(r) =~= seq![k]);
    }
}


} // verus!

verus! {

/// Whether every object inside the value keeps its members in strictly increasing key order,
/// as JSON maps do.
pub open spec fn canonical(j: Json) -> bool
    decreases j,
{
    match j {
        Json::Array(items) => forall|i: int| 0 <= i < items.len() ==> canonical(#[trigger] items[i]),
        Json::Object(ps) => keys_sorted(ps) && forall|i: int| 0 <= i < ps.len() ==> canonical(#[trigger] ps[i].1),
        _ => true,
    }
}

pub proof fn lemma_pairs_get_member(ps: Seq<(Seq<char>, Json)>, k: Seq<char>)
    ensures
        pairs_get(ps, k) matches Some(v) ==> exists|i: int| 0 <= i < ps.len() && ps[i].1 == v,
    decreases ps.len(),
{
    if ps.len() > 0 && ps[0].0 != k {
        lemma_pairs_get_member(ps.drop_first(), k);
        if let Some(v) = pairs_get(ps, k) {
            let i = choose|i: int| 0 <= i < ps.drop_first().len() && ps.drop_first()[i].1 == v;
            assert(ps[i + 1].1 == v);
        }
    } else if ps.len() > 0 {
        assert(ps[0].1 == ps[0].1);
    }
}

/// After placing `(k, v)`, the member with key `k` is `v`.
pub proof fn lemma_pairs_get_insert(ps: Seq<(Seq<char>, Json)>, k: Seq<char>, v: Json)
    ensures
        pairs_get(pairs_insert(ps, k, v), k) == Some(v),
    decreases ps.len(),
{
    if ps.len() > 0 && ps[0].0 != k && !seq_lt(k, ps[0].0) {
        lemma_pairs_get_insert(ps.drop_first(), k, v);
        let r = pairs_insert(ps, k, v);
        assert(r.drop_first() =~= pairs_insert(ps.drop_first(), k, v));
    }
}

/// Inserting a canonical value into a canonical object keeps it canonical.
pub proof fn lemma_insert_canonical(ps: Seq<(Seq<char>, Json)>, k: Seq<char>, v: Json)
    requires
        canonical(Json::Object(ps)),
        canonical(v),
    ensures
        canonical(Json::Object(pairs_insert(ps, k, v))),
    decreases ps.len(),
{
    lemma_pairs_insert_sorted(ps, k, v);
    let r = pairs_insert(ps, k, v);
    if ps.len() > 0 {
        let rest = ps.drop_first();
        assert(keys_sorted(rest)) by {
            assert forall|i: int, j: int| 0 <= i < j < rest.len() implies seq_lt(#[trigger] rest[i].0, #[trigger] rest[j].0) by {
                assert(rest[i] == ps[i + 1]);
                assert(rest[j] == ps[j + 1]);
            }
        }
        assert forall|i: int| 0 <= i < rest.len() implies canonical(#[trigger] rest[i].1) by {
            assert(rest[i] == ps[i + 1]);
        }
        lemma_insert_canonical(rest, k, v);
        assert forall|i: int| 0 <= i < r.len() implies canonical(#[trigger] r[i].1) by {
            if ps[0].0 == k {
                if i > 0 {
                    assert(r[i] == ps[i]);
                }
            } else if seq_lt(k, ps[0].0) {
                if i > 0 {
                    assert(r[i] == ps[i - 1]);
                }
            } else {
                let tail = pairs_insert(rest, k, v);
                if i > 0 {
                    assert(r[i] == tail[i - 1]);
                }
            }
        }
    }
}

/// A copy of a JSON value.
pub fn duplicate_json(v: &JsonValue) -> (r: JsonValue)
    ensures
        jv(r) == jv(*v),
    decreases v,
{
    match v {
        JsonValue::Null => JsonValue::Null,
        JsonValue::Bool(b) => JsonValue::Bool(*b),
        JsonValue::Number(n) => JsonValue::Number(n.clone()),
        JsonValue::Str(s) => JsonValue::Str(s.clone()),
        JsonValue::Array(items) => {
            let mut out: Vec<JsonValue> = Vec::new();
            let mut i: usize = 0;
            while i < items.len()
                invariant
                    i <= items@.len(),
                    jv_items(out@) == jv_items(items@.take(i as int)),
                    forall|j: int| 0 <= j < items@.len() ==> decreases_to!(*v => #[trigger] items@[j]),
                decreases items@.len() - i,
            {
                assert(decreases_to!(*v => items@[i as int]));
                let c = duplicate_json(&items[i]);
                let ghost before = out@;
                out.push(c);
                proof {
                    assert(out@.drop_last() =~= before);
                    assert(items@.take(i + 1).drop_last() =~= items@.take(i as int));
                }
                i = i + 1;
            }
            assert(items@.take(i as int) =~= items@);
            JsonValue::Array(out)
        },
        JsonValue::Object(members) => {
            let mut out: Vec<(String, JsonValue)> = Vec::new();
            let mut i: usize = 0;
            while i < members.len()
                invariant
                    i <= members@.len(),
                    jv_pairs(out@) == jv_pairs(members@.take(i as int)),
                    forall|j: int| 0 <= j < members@.len() ==> decreases_to!(*v => #[trigger] members@[j].1),
                decreases members@.len() - i,
            {
                assert(decreases_to!(*v => members@[i as int].1));
                let c = duplicate_json(&members[i].1);
                let k = members[i].0.clone();
                let ghost before = out@;
                out.push((k, c));
                proof {
                    assert(out@.drop_last() =~= before);
                    assert(members@.take(i + 1).drop_last() =~= members@.take(i as int));
                }
                i = i + 1;
            }
            assert(members@.take(i as int) =~= members@);
            JsonValue::Object(out)
        },
    }
}

} // verus!
