//! The JSON tree model.  `JsonValue` is the executable representation used
//! throughout the engine; its mathematical view is `SpecJson`, a ghost tree
//! over sequences.  Numbers that are not 64-bit signed integers are carried
//! as their textual form in the `Num` variant, so the engine can pass them
//! through without interpreting them.

use vstd::prelude::*;
use crate::text::{spec_dec_int, dec_digit, i64_dec_chars, chars_string};

verus! {

pub enum SpecJson {
    Null,
    Bool(bool),
    Int(i64),
    Num(Seq<char>),
    Str(Seq<char>),
    Arr(Seq<SpecJson>),
    Obj(Seq<(Seq<char>, SpecJson)>),
}

pub enum JsonValue {
    Null,
    Bool(bool),
    Int(i64),
    Num(String),
    Str(String),
    Arr(Vec<JsonValue>),
    Obj(Vec<(String, JsonValue)>),
}

/// The mathematical value of a tree.
pub open spec fn jv_view(v: JsonValue) -> SpecJson
    decreases v,
{
    match v {
        JsonValue::Null => SpecJson::Null,
        JsonValue::Bool(b) => SpecJson::Bool(b),
        JsonValue::Int(n) => SpecJson::Int(n),
        JsonValue::Num(t) => SpecJson::Num(t@),
        JsonValue::Str(s) => SpecJson::Str(s@),
        JsonValue::Arr(items) => {
            proof {
                assert(decreases_to!(v => items));
                assert(decreases_to!(items => items@));
            }
            SpecJson::Arr(arr_view(items@))
        },
        JsonValue::Obj(fields) => {
            proof {
                assert(decreases_to!(v => fields));
                assert(decreases_to!(fields => fields@));
            }
            SpecJson::Obj(obj_view(fields@))
        },
    }
}

pub open spec fn arr_view(s: Seq<JsonValue>) -> Seq<SpecJson>
    decreases s,
{
    if s.len() == 0 {
        Seq::empty()
    } else {
        proof {
            assert(decreases_to!(s => s.subrange(0, s.len() - 1)));
            assert(decreases_to!(s => s[s.len() - 1]));
        }
        arr_view(s.subrange(0, s.len() - 1)).push(jv_view(s[s.len() - 1]))
    }
}

pub open spec fn obj_view(s: Seq<(String, JsonValue)>) -> Seq<(Seq<char>, SpecJson)>
    decreases s,
{
    if s.len() == 0 {
        Seq::empty()
    } else {
        proof {
            assert(decreases_to!(s => s.subrange(0, s.len() - 1)));
            assert(decreases_to!(s => s[s.len() - 1]));
            assert(decreases_to!(s[s.len() - 1] => s[s.len() - 1].1));
        }
        obj_view(s.subrange(0, s.len() - 1)).push(
            (s[s.len() - 1].0@, jv_view(s[s.len() - 1].1)),
        )
    }
}

pub broadcast proof fn lemma_arr_view(s: Seq<JsonValue>)
    ensures
        (#[trigger] arr_view(s)).len() == s.len(),
        forall|i: int| 0 <= i < s.len() ==> arr_view(s)[i] == jv_view(s[i]),
    decreases s.len(),
{
    if s.len() > 0 {
        lemma_arr_view(s.subrange(0, s.len() - 1));
        assert forall|i: int| 0 <= i < s.len() implies arr_view(s)[i] == jv_view(s[i]) by {
            if i < s.len() - 1 {
                assert(s.subrange(0, s.len() - 1)[i] == s[i]);
            }
        }
    }
}

pub broadcast proof fn lemma_obj_view(s: Seq<(String, JsonValue)>)
    ensures
        (#[trigger] obj_view(s)).len() == s.len(),
        forall|i: int| 0 <= i < s.len() ==> obj_view(s)[i] == (s[i].0@, jv_view(s[i].1)),
    decreases s.len(),
{
    if s.len() > 0 {
        lemma_obj_view(s.subrange(0, s.len() - 1));
        assert forall|i: int| 0 <= i < s.len() implies obj_view(s)[i] == (
            s[i].0@,
            jv_view(s[i].1),
        ) by {
            if i < s.len() - 1 {
                assert(s.subrange(0, s.len() - 1)[i] == s[i]);
            }
        }
    }
}

impl View for JsonValue {
    type V = SpecJson;

    open spec fn view(&self) -> SpecJson {
        jv_view(*self)
    }
}

// ---------------------------------------------------------------------------
// Object field lookup
// ---------------------------------------------------------------------------

/// The value under the first field named `k`, if any.
pub open spec fn spec_obj_get(fields: Seq<(Seq<char>, SpecJson)>, k: Seq<char>) -> Option<
    SpecJson,
>
    decreases fields.len(),
{
    if fields.len() == 0 {
        None
    } else if fields[0].0 == k {
        Some(fields[0].1)
    } else {
        spec_obj_get(fields.subrange(1, fields.len() as int), k)
    }
}

/// Lookup on a whole value: `None` unless the value is an object with the
/// field.
pub open spec fn spec_get(v: SpecJson, k: Seq<char>) -> Option<SpecJson> {
    match v {
        SpecJson::Obj(fields) => spec_obj_get(fields, k),
        _ => None,
    }
}

impl JsonValue {
    /// First field of an object named `key`; `None` for non-objects.
    pub fn get<'a>(&'a self, key: &str) -> (r: Option<&'a JsonValue>)
        ensures
            match r {
                Some(v) => spec_get(self@, key@) == Some(v@),
                None => spec_get(self@, key@) is None,
            },
    {
        let k: String = key.to_owned();
        match self {
            JsonValue::Obj(fields) => {
                let ghost fv = obj_view(fields@);
                proof {
                    lemma_obj_view(fields@);
                    assert(fv.subrange(0, fv.len() as int) =~= fv);
                }
                let mut i: usize = 0;
                while i < fields.len()
                    invariant
                        i <= fields@.len(),
                        k@ == key@,
                        self@ == SpecJson::Obj(fv),
                        fv == obj_view(fields@),
                        fv.len() == fields@.len(),
                        forall|j: int| 0 <= j < fields@.len() ==> fv[j] == (
                            fields@[j].0@,
                            fields@[j].1@,
                        ),
                        spec_obj_get(fv, key@) == spec_obj_get(
                            fv.subrange(i as int, fv.len() as int),
                            key@,
                        ),
                    decreases fields@.len() - i,
                {
                    let ghost tail = fv.subrange(i as int, fv.len() as int);
                    proof {
                        assert(tail[0] == fv[i as int]);
                        assert(tail.subrange(1, tail.len() as int) =~= fv.subrange(
                            i + 1 as int,
                            fv.len() as int,
                        ));
                    }
                    if fields[i].0 == k {
                        return Some(&fields[i].1);
                    }
                    i = i + 1;
                }
                None
            },
            _ => None,
        }
    }

    /// A structurally identical copy.
    pub fn deep_clone(&self) -> (r: JsonValue)
        ensures
            r@ == self@,
        decreases self,
    {
        match self {
            JsonValue::Null => JsonValue::Null,
            JsonValue::Bool(b) => JsonValue::Bool(*b),
            JsonValue::Int(n) => JsonValue::Int(*n),
            JsonValue::Num(t) => JsonValue::Num(t.clone()),
            JsonValue::Str(s) => JsonValue::Str(s.clone()),
            JsonValue::Arr(items) => {
                let mut out: Vec<JsonValue> = Vec::new();
                let mut i: usize = 0;
                while i < items.len()
                    invariant
                        i <= items@.len(),
                        *self == JsonValue::Arr(*items),
                        out@.len() == i,
                        forall|j: int| 0 <= j < i ==> out@[j]@ == items@[j]@,
                    decreases items@.len() - i,
                {
                    proof {
                        let sj = *self;
                        assert(decreases_to!(sj => sj->Arr_0));
                        assert(decreases_to!(*items => items@));
                        assert(decreases_to!(items@ => items@[i as int]));
                    }
                    let c = items[i].deep_clone();
                    out.push(c);
                    i = i + 1;
                }
                let r = JsonValue::Arr(out);
                proof {
                    lemma_arr_view(out@);
                    lemma_arr_view(items@);
                    assert(arr_view(out@) =~= arr_view(items@));
                }
                r
            },
            JsonValue::Obj(fields) => {
                let mut out: Vec<(String, JsonValue)> = Vec::new();
                let mut i: usize = 0;
                while i < fields.len()
                    invariant
                        i <= fields@.len(),
                        *self == JsonValue::Obj(*fields),
                        out@.len() == i,
                        forall|j: int| 0 <= j < i ==> out@[j].0@ == fields@[j].0@
                            && out@[j].1@ == fields@[j].1@,
                    decreases fields@.len() - i,
                {
                    proof {
                        let sj = *self;
                        assert(decreases_to!(sj => sj->Obj_0));
                        assert(decreases_to!(*fields => fields@));
                        assert(decreases_to!(fields@ => fields@[i as int]));
                        assert(decreases_to!(fields@[i as int] => fields@[i as int].1));
                    }
                    let key = fields[i].0.clone();
                    let val = fields[i].1.deep_clone();
                    out.push((key, val));
                    i = i + 1;
                }
                let r = JsonValue::Obj(out);
                proof {
                    lemma_obj_view(out@);
                    lemma_obj_view(fields@);
                    assert(obj_view(out@) =~= obj_view(fields@));
                }
                r
            },
        }
    }

    /// The raw text of a string value; empty for anything else.  This is the
    /// form used for stored-object identifiers.
    pub fn str_or_empty(&self) -> (r: String)
        ensures
            r@ == spec_str_or_empty(self@),
    {
        match self {
            JsonValue::Str(s) => s.clone(),
            _ => String::new(),
        }
    }
}

pub open spec fn spec_str_or_empty(v: SpecJson) -> Seq<char> {
    match v {
        SpecJson::Str(s) => s,
        _ => Seq::empty(),
    }
}

// ---------------------------------------------------------------------------
// Serialization
// ---------------------------------------------------------------------------

pub open spec fn hex_digit(n: int) -> char {
    if n < 10 {
        dec_digit(n)
    } else {
        ('a' as u32 + (n - 10) as u32) as char
    }
}

/// How one character appears inside a JSON string literal.
pub open spec fn esc_char(c: char) -> Seq<char> {
    if c == '"' {
        seq!['\\', '"']
    } else if c == '\\' {
        seq!['\\', '\\']
    } else if c == '\u{8}' {
        seq!['\\', 'b']
    } else if c == '\u{c}' {
        seq!['\\', 'f']
    } else if c == '\n' {
        seq!['\\', 'n']
    } else if c == '\r' {
        seq!['\\', 'r']
    } else if c == '\t' {
        seq!['\\', 't']
    } else if (c as u32) < 32 {
        seq!['\\', 'u', '0', '0', hex_digit(c as u32 as int / 16), hex_digit(
            c as u32 as int % 16,
        )]
    } else {
        seq![c]
    }
}

pub open spec fn spec_escape(s: Seq<char>) -> Seq<char>
    decreases s.len(),
{
    if s.len() == 0 {
        Seq::empty()
    } else {
        esc_char(s[0]) + spec_escape(s.subrange(1, s.len() as int))
    }
}

pub proof fn lemma_escape_singleton(c: char)
    ensures
        spec_escape(seq![c]) == esc_char(c),
{
    let s = seq![c];
    assert(s.len() == 1);
    assert(s[0] == c);
    assert(s.subrange(1, 1) =~= Seq::<char>::empty());
    assert(spec_escape(Seq::<char>::empty()) == Seq::<char>::empty());
    assert(esc_char(c) + Seq::<char>::empty() =~= esc_char(c));
}

pub proof fn lemma_escape_append(a: Seq<char>, b: Seq<char>)
    ensures
        spec_escape(a + b) == spec_escape(a) + spec_escape(b),
    decreases a.len(),
{
    if a.len() == 0 {
        assert(a + b =~= b);
        assert(spec_escape(a) + spec_escape(b) =~= spec_escape(b));
    } else {
        lemma_escape_append(a.subrange(1, a.len() as int), b);
        assert((a + b).subrange(1, (a + b).len() as int) =~= a.subrange(1, a.len() as int)
            + b);
        assert((a + b)[0] == a[0]);
        assert(esc_char(a[0]) + (spec_escape(a.subrange(1, a.len() as int)) + spec_escape(
            b,
        )) =~= (esc_char(a[0]) + spec_escape(a.subrange(1, a.len() as int))) + spec_escape(
            b,
        ));
    }
}

/// The compact JSON text of a value.
pub open spec fn spec_ser(v: SpecJson) -> Seq<char>
    decreases v,
{
    match v {
        SpecJson::Null => seq!['n', 'u', 'l', 'l'],
        SpecJson::Bool(b) => if b {
            seq!['t', 'r', 'u', 'e']
        } else {
            seq!['f', 'a', 'l', 's', 'e']
        },
        SpecJson::Int(n) => spec_dec_int(n as int),
        SpecJson::Num(t) => t,
        SpecJson::Str(s) => seq!['"'] + spec_escape(s) + seq!['"'],
        SpecJson::Arr(items) => seq!['['] + spec_ser_items(items) + seq![']'],
        SpecJson::Obj(fields) => seq!['{'] + spec_ser_fields(fields) + seq!['}'],
    }
}

pub open spec fn spec_ser_items(items: Seq<SpecJson>) -> Seq<char>
    decreases items,
{
    if items.len() == 0 {
        Seq::empty()
    } else if items.len() == 1 {
        spec_ser(items[0])
    } else {
        spec_ser(items[0]) + seq![','] + spec_ser_items(items.subrange(1, items.len() as int))
    }
}

pub open spec fn spec_ser_field(f: (Seq<char>, SpecJson)) -> Seq<char>
    decreases f,
{
    seq!['"'] + spec_escape(f.0) + seq!['"', ':'] + spec_ser(f.1)
}

pub open spec fn spec_ser_fields(fields: Seq<(Seq<char>, SpecJson)>) -> Seq<char>
    decreases fields,
{
    if fields.len() == 0 {
        Seq::empty()
    } else if fields.len() == 1 {
        spec_ser_field(fields[0])
    } else {
        spec_ser_field(fields[0]) + seq![','] + spec_ser_fields(
            fields.subrange(1, fields.len() as int),
        )
    }
}

pub proof fn lemma_ser_items_step(items: Seq<SpecJson>, i: int)
    requires
        0 <= i < items.len(),
    ensures
        spec_ser_items(items.subrange(0, i + 1)) == spec_ser_items(items.subrange(0, i)) + (
        if i == 0 {
            Seq::<char>::empty()
        } else {
            seq![',']
        }) + spec_ser(items[i]),
    decreases i,
{
    if i == 0 {
        let s1 = items.subrange(0, 1);
        assert(s1.len() == 1);
        assert(s1[0] == items[0]);
        assert(spec_ser_items(items.subrange(0, 0)) =~= Seq::<char>::empty());
        assert(spec_ser_items(items.subrange(0, 1)) =~= Seq::<char>::empty()
            + Seq::<char>::empty() + spec_ser(items[0]));
    } else {
        let t = items.subrange(1, items.len() as int);
        lemma_ser_items_step(t, i - 1);
        let a = items.subrange(0, i + 1);
        let b = items.subrange(0, i);
        assert(a.len() >= 2);
        assert(a[0] == items[0]);
        assert(b[0] == items[0]);
        assert(a.subrange(1, a.len() as int) =~= t.subrange(0, i));
        assert(b.subrange(1, b.len() as int) =~= t.subrange(0, i - 1));
        assert(t[i - 1] == items[i]);
        assert(spec_ser_items(a) == spec_ser(items[0]) + seq![','] + spec_ser_items(
            t.subrange(0, i),
        ));
        if i == 1 {
            assert(t.subrange(0, 1).len() == 1);
            assert(t.subrange(0, 1)[0] == t[0]);
            assert(spec_ser_items(b) == spec_ser(items[0]));
            assert(spec_ser_items(t.subrange(0, 1)) == spec_ser(t[0]));
            assert(spec_ser_items(t.subrange(0, 0)) =~= Seq::<char>::empty());
            assert(spec_ser_items(a) =~= spec_ser_items(b) + seq![','] + spec_ser(items[1]));
        } else {
            assert(spec_ser_items(b) == spec_ser(items[0]) + seq![','] + spec_ser_items(
                t.subrange(0, i - 1),
            ));
            assert(spec_ser_items(t.subrange(0, i)) == spec_ser_items(t.subrange(0, i - 1))
                + seq![','] + spec_ser(t[i - 1]));
            assert(spec_ser_items(a) =~= spec_ser_items(b) + seq![','] + spec_ser(items[i]));
        }
    }
}

pub proof fn lemma_ser_fields_step(fields: Seq<(Seq<char>, SpecJson)>, i: int)
    requires
        0 <= i < fields.len(),
    ensures
        spec_ser_fields(fields.subrange(0, i + 1)) == spec_ser_fields(fields.subrange(0, i))
            + (if i == 0 {
            Seq::<char>::empty()
        } else {
            seq![',']
        }) + spec_ser_field(fields[i]),
    decreases i,
{
    if i == 0 {
        let s1 = fields.subrange(0, 1);
        assert(s1.len() == 1);
        assert(s1[0] == fields[0]);
        assert(spec_ser_fields(fields.subrange(0, 0)) =~= Seq::<char>::empty());
        assert(spec_ser_fields(fields.subrange(0, 1)) =~= Seq::<char>::empty()
            + Seq::<char>::empty() + spec_ser_field(fields[0]));
    } else {
        let t = fields.subrange(1, fields.len() as int);
        lemma_ser_fields_step(t, i - 1);
        let a = fields.subrange(0, i + 1);
        let b = fields.subrange(0, i);
        assert(a.len() >= 2);
        assert(a[0] == fields[0]);
        assert(b[0] == fields[0]);
        assert(a.subrange(1, a.len() as int) =~= t.subrange(0, i));
        assert(b.subrange(1, b.len() as int) =~= t.subrange(0, i - 1));
        assert(t[i - 1] == fields[i]);
        assert(spec_ser_fields(a) == spec_ser_field(fields[0]) + seq![','] + spec_ser_fields(
            t.subrange(0, i),
        ));
        if i == 1 {
            assert(t.subrange(0, 1).len() == 1);
            assert(t.subrange(0, 1)[0] == t[0]);
            assert(spec_ser_fields(b) == spec_ser_field(fields[0]));
            assert(spec_ser_fields(t.subrange(0, 1)) == spec_ser_field(t[0]));
            assert(spec_ser_fields(t.subrange(0, 0)) =~= Seq::<char>::empty());
            assert(spec_ser_fields(a) =~= spec_ser_fields(b) + seq![','] + spec_ser_field(
                fields[1],
            ));
        } else {
            assert(spec_ser_fields(b) == spec_ser_field(fields[0]) + seq![',']
                + spec_ser_fields(t.subrange(0, i - 1)));
            assert(spec_ser_fields(t.subrange(0, i)) == spec_ser_fields(
                t.subrange(0, i - 1),
            ) + seq![','] + spec_ser_field(t[i - 1]));
            assert(spec_ser_fields(a) =~= spec_ser_fields(b) + seq![','] + spec_ser_field(
                fields[i],
            ));
        }
    }
}

fn push_hex_digit(out: &mut Vec<char>, d: u32)
    requires
        d < 16,
    ensures
        final(out)@ == old(out)@.push(hex_digit(d as int)),
{
    if d < 10 {
        out.push((48u8 + d as u8) as char);
    } else {
        out.push((97u8 + (d as u8 - 10)) as char);
    }
}

fn push_escaped(out: &mut Vec<char>, c: char)
    ensures
        final(out)@ == old(out)@ + esc_char(c),
{
    if c == '"' {
        out.push('\\');
        out.push('"');
    } else if c == '\\' {
        out.push('\\');
        out.push('\\');
    } else if c == '\u{8}' {
        out.push('\\');
        out.push('b');
    } else if c == '\u{c}' {
        out.push('\\');
        out.push('f');
    } else if c == '\n' {
        out.push('\\');
        out.push('n');
    } else if c == '\r' {
        out.push('\\');
        out.push('r');
    } else if c == '\t' {
        out.push('\\');
        out.push('t');
    } else if (c as u32) < 32 {
        out.push('\\');
        out.push('u');
        out.push('0');
        out.push('0');
        push_hex_digit(out, (c as u32) / 16);
        push_hex_digit(out, (c as u32) % 16);
    } else {
        out.push(c);
    }
    proof {
        assert(out@ =~= old(out)@ + esc_char(c));
    }
}

fn write_escaped(out: &mut Vec<char>, s: &String)
    ensures
        final(out)@ == old(out)@ + spec_escape(s@),
{
    let cs = crate::text::str_chars(s.as_str());
    let mut i: usize = 0;
    while i < cs.len()
        invariant
            i <= cs@.len(),
            cs@ == s@,
            out@ == old(out)@ + spec_escape(s@.subrange(0, i as int)),
        decreases cs@.len() - i,
    {
        push_escaped(out, cs[i]);
        proof {
            lemma_escape_append(s@.subrange(0, i as int), seq![s@[i as int]]);
            assert(s@.subrange(0, i as int) + seq![s@[i as int]] =~= s@.subrange(
                0,
                i + 1 as int,
            ));
            lemma_escape_singleton(s@[i as int]);
            assert(out@ =~= old(out)@ + spec_escape(s@.subrange(0, i + 1 as int)));
        }
        i = i + 1;
    }
    proof {
        assert(s@.subrange(0, s@.len() as int) =~= s@);
    }
}

/// Append the compact JSON text of `v` to `out`.
#[verifier::rlimit(50)]
pub fn write_json(v: &JsonValue, out: &mut Vec<char>)
    ensures
        final(out)@ == old(out)@ + spec_ser(v@),
    decreases v,
{
    match v {
        JsonValue::Null => {
            out.push('n');
            out.push('u');
            out.push('l');
            out.push('l');
            proof {
                assert(out@ =~= old(out)@ + spec_ser(v@));
            }
        },
        JsonValue::Bool(b) => {
            if *b {
                out.push('t');
                out.push('r');
                out.push('u');
                out.push('e');
            } else {
                out.push('f');
                out.push('a');
                out.push('l');
                out.push('s');
                out.push('e');
            }
            proof {
                assert(out@ =~= old(out)@ + spec_ser(v@));
            }
        },
        JsonValue::Int(n) => {
            let digits = i64_dec_chars(*n);
            let mut i: usize = 0;
            while i < digits.len()
                invariant
                    i <= digits@.len(),
                    digits@ == spec_dec_int(*n as int),
                    out@ == old(out)@ + digits@.subrange(0, i as int),
                decreases digits@.len() - i,
            {
                out.push(digits[i]);
                proof {
                    assert(out@ =~= old(out)@ + digits@.subrange(0, i + 1 as int));
                }
                i = i + 1;
            }
            proof {
                assert(digits@.subrange(0, digits@.len() as int) =~= digits@);
            }
        },
        JsonValue::Num(t) => {
            let cs = crate::text::str_chars(t.as_str());
            let mut i: usize = 0;
            while i < cs.len()
                invariant
                    i <= cs@.len(),
                    cs@ == t@,
                    out@ == old(out)@ + t@.subrange(0, i as int),
                decreases cs@.len() - i,
            {
                out.push(cs[i]);
                proof {
                    assert(out@ =~= old(out)@ + t@.subrange(0, i + 1 as int));
                }
                i = i + 1;
            }
            proof {
                assert(t@.subrange(0, t@.len() as int) =~= t@);
            }
        },
        JsonValue::Str(s) => {
            out.push('"');
            write_escaped(out, s);
            out.push('"');
            proof {
                assert(out@ =~= old(out)@ + spec_ser(v@));
            }
        },
        JsonValue::Arr(items) => {
            let ghost iv = arr_view(items@);
            proof {
                lemma_arr_view(items@);
            }
            out.push('[');
            let mut i: usize = 0;
            while i < items.len()
                invariant
                    i <= items@.len(),
                    *v == JsonValue::Arr(*items),
                    iv == arr_view(items@),
                    iv.len() == items@.len(),
                    forall|j: int| 0 <= j < items@.len() ==> iv[j] == items@[j]@,
                    out@ == old(out)@ + seq!['['] + spec_ser_items(iv.subrange(0, i as int)),
                decreases items@.len() - i,
            {
                if i > 0 {
                    out.push(',');
                }
                proof {
                    let vj = *v;
                    assert(decreases_to!(vj => vj->Arr_0));
                    assert(decreases_to!(*items => items@));
                    assert(decreases_to!(items@ => items@[i as int]));
                }
                write_json(&items[i], out);
                proof {
                    lemma_ser_items_step(iv, i as int);
                    assert(out@ =~= old(out)@ + seq!['['] + spec_ser_items(
                        iv.subrange(0, i + 1 as int),
                    ));
                }
                i = i + 1;
            }
            out.push(']');
            proof {
                assert(iv.subrange(0, iv.len() as int) =~= iv);
                assert(out@ =~= old(out)@ + spec_ser(v@));
            }
        },
        JsonValue::Obj(fields) => {
            let ghost fv = obj_view(fields@);
            proof {
                lemma_obj_view(fields@);
            }
            out.push('{');
            let mut i: usize = 0;
            while i < fields.len()
                invariant
                    i <= fields@.len(),
                    *v == JsonValue::Obj(*fields),
                    fv == obj_view(fields@),
                    fv.len() == fields@.len(),
                    forall|j: int| 0 <= j < fields@.len() ==> fv[j] == (
                        fields@[j].0@,
                        fields@[j].1@,
                    ),
                    out@ == old(out)@ + seq!['{'] + spec_ser_fields(fv.subrange(0, i as int)),
                decreases fields@.len() - i,
            {
                if i > 0 {
                    out.push(',');
                }
                out.push('"');
                write_escaped(out, &fields[i].0);
                out.push('"');
                out.push(':');
                proof {
                    let vj = *v;
                    assert(decreases_to!(vj => vj->Obj_0));
                    assert(decreases_to!(*fields => fields@));
                    assert(decreases_to!(fields@ => fields@[i as int]));
                    assert(decreases_to!(fields@[i as int] => fields@[i as int].1));
                }
                write_json(&fields[i].1, out);
                proof {
                    lemma_ser_fields_step(fv, i as int);
                    assert(fv[i as int] == (fields@[i as int].0@, fields@[i as int].1@));
                    assert(out@ =~= old(out)@ + seq!['{'] + spec_ser_fields(
                        fv.subrange(0, i + 1 as int),
                    ));
                }
                i = i + 1;
            }
            out.push('}');
            proof {
                assert(fv.subrange(0, fv.len() as int) =~= fv);
                assert(out@ =~= old(out)@ + spec_ser(v@));
            }
        },
    }
}

/// The compact JSON text of a value, as a `String`.
pub fn to_json_string(v: &JsonValue) -> (r: String)
    ensures
        r@ == spec_ser(v@),
{
    let mut out: Vec<char> = Vec::new();
    write_json(v, &mut out);
    chars_string(&out)
}

/// How a resolved value is spliced into a host string: raw text for strings,
/// JSON text for everything else.
pub open spec fn spec_text_of(v: SpecJson) -> Seq<char> {
    match v {
        SpecJson::Str(s) => s,
        _ => spec_ser(v),
    }
}

/// The characters that `v` contributes when spliced into a host string.
pub fn text_of(v: &JsonValue) -> (r: Vec<char>)
    ensures
        r@ == spec_text_of(v@),
{
    match v {
        JsonValue::Str(s) => crate::text::str_chars(s.as_str()),
        _ => {
            let mut out: Vec<char> = Vec::new();
            write_json(v, &mut out);
            out
        },
    }
}

} // verus!
