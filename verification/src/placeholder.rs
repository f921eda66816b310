//! The placeholder engine.  One scanner serves every substitution pass; the
//! caller picks a `Resolver`, which maps the content of a `{...}` token to a
//! replacement value or declines.
//!
//! A string that is itself a single placeholder is replaced by the resolved
//! value as-is, whatever its JSON type.  Inside a longer string, each
//! resolved span is spliced in as text (raw for strings, JSON text for other
//! values) and scanning continues after the splice; a declined span is kept
//! and scanning continues after its closing brace; an unmatched `{` ends the
//! scan of that string.

use vstd::prelude::*;
use crate::json::{JsonValue, SpecJson, spec_get, spec_text_of, text_of};
use crate::maps::{StrMap, JsonMap};
use crate::text::{spec_find, lemma_spec_find, lemma_spec_find_shift, find_char, subvec,
    chars_string, str_chars, push_range};

verus! {

// ---------------------------------------------------------------------------
// Resolvers
// ---------------------------------------------------------------------------

/// What a resolver consults, mathematically.
pub enum ResolverModel {
    /// `path.NAME` tokens against the extracted path parameters.
    PathParams(Map<Seq<char>, Seq<char>>),
    /// any token against the generated variables.
    Variables(Map<Seq<char>, SpecJson>),
    /// `payload.NAME` tokens against the request payload, then the defaults.
    Payload(SpecJson, Option<Map<Seq<char>, SpecJson>>),
}

/// A resolver the scanner can call.
pub enum Resolver<'a> {
    PathParams(&'a StrMap),
    Variables(&'a JsonMap),
    Payload(&'a JsonValue, Option<&'a JsonMap>),
}

impl<'a> View for Resolver<'a> {
    type V = ResolverModel;

    open spec fn view(&self) -> ResolverModel {
        match self {
            Resolver::PathParams(params) => ResolverModel::PathParams(params@),
            Resolver::Variables(vars) => ResolverModel::Variables(vars@),
            Resolver::Payload(payload, defaults) => ResolverModel::Payload(
                payload@,
                match defaults {
                    Some(d) => Some(d@),
                    None => None,
                },
            ),
        }
    }
}

pub open spec fn path_prefix() -> Seq<char> {
    seq!['p', 'a', 't', 'h', '.']
}

pub open spec fn payload_prefix() -> Seq<char> {
    seq!['p', 'a', 'y', 'l', 'o', 'a', 'd', '.']
}

/// What a resolver answers for the content of one `{...}` token.
pub open spec fn spec_resolve(m: ResolverModel, content: Seq<char>) -> Option<SpecJson> {
    match m {
        ResolverModel::PathParams(params) => {
            if content.len() >= 5 && content.subrange(0, 5) == path_prefix() && params.contains_key(
                content.subrange(5, content.len() as int),
            ) {
                Some(SpecJson::Str(params[content.subrange(5, content.len() as int)]))
            } else {
                None
            }
        },
        ResolverModel::Variables(vars) => {
            if vars.contains_key(content) {
                Some(vars[content])
            } else {
                None
            }
        },
        ResolverModel::Payload(payload, defaults) => {
            if content.len() >= 8 && content.subrange(0, 8) == payload_prefix() {
                let name = content.subrange(8, content.len() as int);
                if spec_get(payload, name) is Some {
                    spec_get(payload, name)
                } else {
                    match defaults {
                        Some(d) => if d.contains_key(name) {
                            Some(d[name])
                        } else {
                            None
                        },
                        None => None,
                    }
                }
            } else {
                None
            }
        },
    }
}

fn has_path_prefix(content: &Vec<char>) -> (r: bool)
    ensures
        r == (content@.len() >= 5 && content@.subrange(0, 5) == path_prefix()),
{
    if content.len() < 5 {
        return false;
    }
    let ok = content[0] == 'p' && content[1] == 'a' && content[2] == 't' && content[3] == 'h'
        && content[4] == '.';
    proof {
        let p = content@.subrange(0, 5);
        assert(p.len() == 5);
        assert(p[0] == content@[0] && p[1] == content@[1] && p[2] == content@[2] && p[3]
            == content@[3] && p[4] == content@[4]);
        if ok {
            assert(p =~= path_prefix());
        } else {
            assert(p != path_prefix());
        }
    }
    ok
}

fn has_payload_prefix(content: &Vec<char>) -> (r: bool)
    ensures
        r == (content@.len() >= 8 && content@.subrange(0, 8) == payload_prefix()),
{
    if content.len() < 8 {
        return false;
    }
    let ok = content[0] == 'p' && content[1] == 'a' && content[2] == 'y' && content[3] == 'l'
        && content[4] == 'o' && content[5] == 'a' && content[6] == 'd' && content[7] == '.';
    proof {
        let p = content@.subrange(0, 8);
        assert(p.len() == 8);
        assert(p[0] == content@[0] && p[1] == content@[1] && p[2] == content@[2] && p[3]
            == content@[3] && p[4] == content@[4] && p[5] == content@[5] && p[6]
            == content@[6] && p[7] == content@[7]);
        if ok {
            assert(p =~= payload_prefix());
        } else {
            assert(p != payload_prefix());
        }
    }
    ok
}

/// Ask the resolver about one token.
pub fn resolve(r: &Resolver, content: &Vec<char>) -> (res: Option<JsonValue>)
    ensures
        match res {
            Some(v) => spec_resolve(r@, content@) == Some(v@),
            None => spec_resolve(r@, content@) is None,
        },
{
    match r {
        Resolver::PathParams(params) => {
            if has_path_prefix(content) {
                let name = subvec(content, 5, content.len());
                let namestr = chars_string(&name);
                match params.get(namestr.as_str()) {
                    Some(v) => Some(JsonValue::Str(v.clone())),
                    None => None,
                }
            } else {
                None
            }
        },
        Resolver::Variables(vars) => {
            let namestr = chars_string(content);
            match vars.get(namestr.as_str()) {
                Some(v) => Some(v.deep_clone()),
                None => None,
            }
        },
        Resolver::Payload(payload, defaults) => {
            if has_payload_prefix(content) {
                let name = subvec(content, 8, content.len());
                let namestr = chars_string(&name);
                match payload.get(namestr.as_str()) {
                    Some(v) => Some(v.deep_clone()),
                    None => {
                        match defaults {
                            Some(d) => {
                                match d.get(namestr.as_str()) {
                                    Some(v) => Some(v.deep_clone()),
                                    None => None,
                                }
                            },
                            None => None,
                        }
                    },
                }
            } else {
                None
            }
        },
    }
}

// ---------------------------------------------------------------------------
// The scanner
// ---------------------------------------------------------------------------

/// Embedded substitution over one string.
pub open spec fn spec_scan(s: Seq<char>, m: ResolverModel) -> Seq<char>
    decreases s.len(),
{
    match spec_find(s, 0, '{') {
        None => s,
        Some(i) => match spec_find(s, i, '}') {
            None => s,
            Some(j) => {
                proof {
                    lemma_spec_find(s, 0, '{');
                    lemma_spec_find(s, i, '}');
                }
                let content = s.subrange(i + 1, j);
                match spec_resolve(m, content) {
                    Some(v) => s.subrange(0, i) + spec_text_of(v) + spec_scan(
                        s.subrange(j + 1, s.len() as int),
                        m,
                    ),
                    None => s.subrange(0, j + 1) + spec_scan(
                        s.subrange(j + 1, s.len() as int),
                        m,
                    ),
                }
            },
        },
    }
}

fn scan_from(s: &Vec<char>, from: usize, resolver: &Resolver) -> (r: Vec<char>)
    requires
        from <= s@.len(),
    ensures
        r@ == spec_scan(s@.subrange(from as int, s@.len() as int), resolver@),
    decreases s@.len() - from,
{
    let ghost tail = s@.subrange(from as int, s@.len() as int);
    proof {
        lemma_spec_find_shift(s@, from as int, 0, '{');
    }
    match find_char(s, from, '{') {
        None => {
            proof {
                assert(spec_find(tail, 0, '{') is None);
            }
            subvec(s, from, s.len())
        },
        Some(i) => {
            proof {
                assert(spec_find(tail, 0, '{') == Some(i - from));
                lemma_spec_find_shift(s@, from as int, i - from as int, '}');
            }
            match find_char(s, i, '}') {
                None => {
                    proof {
                        assert(spec_find(tail, i - from as int, '}') is None);
                    }
                    subvec(s, from, s.len())
                },
                Some(j) => {
                    proof {
                        assert(spec_find(tail, i - from as int, '}') == Some(j - from));
                        lemma_spec_find(tail, 0, '{');
                        lemma_spec_find(tail, i - from as int, '}');
                        assert(tail.subrange(i - from + 1, j - from) =~= s@.subrange(
                            i + 1 as int,
                            j as int,
                        ));
                        assert(tail.subrange(0, i - from as int) =~= s@.subrange(
                            from as int,
                            i as int,
                        ));
                        assert(tail.subrange(0, j - from + 1) =~= s@.subrange(
                            from as int,
                            j + 1 as int,
                        ));
                        assert(tail.subrange(j - from + 1, tail.len() as int) =~= s@.subrange(
                            j + 1 as int,
                            s@.len() as int,
                        ));
                    }
                    let n = s.len();
                    assert(j < n);
                    let content = subvec(s, i + 1, j);
                    match resolve(resolver, &content) {
                        Some(v) => {
                            let mut out = subvec(s, from, i);
                            let txt = text_of(&v);
                            push_range(&mut out, &txt, 0, txt.len());
                            let rest = scan_from(s, j + 1, resolver);
                            push_range(&mut out, &rest, 0, rest.len());
                            proof {
                                assert(txt@.subrange(0, txt@.len() as int) =~= txt@);
                                assert(rest@.subrange(0, rest@.len() as int) =~= rest@);
                            }
                            out
                        },
                        None => {
                            let mut out = subvec(s, from, j + 1);
                            let rest = scan_from(s, j + 1, resolver);
                            push_range(&mut out, &rest, 0, rest.len());
                            proof {
                                assert(rest@.subrange(0, rest@.len() as int) =~= rest@);
                            }
                            out
                        },
                    }
                },
            }
        },
    }
}

/// Embedded substitution over a whole string.
pub fn scan_chars(s: &Vec<char>, resolver: &Resolver) -> (r: Vec<char>)
    ensures
        r@ == spec_scan(s@, resolver@),
{
    let r = scan_from(s, 0, resolver);
    proof {
        assert(s@.subrange(0, s@.len() as int) =~= s@);
    }
    r
}

// ---------------------------------------------------------------------------
// Whole-tree substitution
// ---------------------------------------------------------------------------

/// Is the string one placeholder spanning the whole value?
pub open spec fn whole_placeholder(s: Seq<char>) -> bool {
    s.len() > 0 && s[0] == '{' && s[s.len() - 1] == '}'
}

/// Substitution over a whole JSON tree.  Strings are processed; array shapes,
/// object keys and other scalars pass through.
pub open spec fn spec_substitute(v: SpecJson, m: ResolverModel) -> SpecJson
    decreases v,
{
    match v {
        SpecJson::Str(s) => {
            if whole_placeholder(s) && spec_resolve(m, s.subrange(1, s.len() - 1)) is Some {
                spec_resolve(m, s.subrange(1, s.len() - 1))->Some_0
            } else {
                SpecJson::Str(spec_scan(s, m))
            }
        },
        SpecJson::Arr(items) => {
            proof {
                assert(decreases_to!(v => items));
            }
            SpecJson::Arr(spec_subst_items(items, m))
        },
        SpecJson::Obj(fields) => {
            proof {
                assert(decreases_to!(v => fields));
            }
            SpecJson::Obj(spec_subst_fields(fields, m))
        },
        _ => v,
    }
}

pub open spec fn spec_subst_items(items: Seq<SpecJson>, m: ResolverModel) -> Seq<SpecJson>
    decreases items,
{
    if items.len() == 0 {
        Seq::empty()
    } else {
        proof {
            assert(decreases_to!(items => items.subrange(0, items.len() - 1)));
            assert(decreases_to!(items => items[items.len() - 1]));
        }
        spec_subst_items(items.subrange(0, items.len() - 1), m).push(
            spec_substitute(items[items.len() - 1], m),
        )
    }
}

pub open spec fn spec_subst_fields(fields: Seq<(Seq<char>, SpecJson)>, m: ResolverModel) -> Seq<
    (Seq<char>, SpecJson),
>
    decreases fields,
{
    if fields.len() == 0 {
        Seq::empty()
    } else {
        proof {
            assert(decreases_to!(fields => fields.subrange(0, fields.len() - 1)));
            assert(decreases_to!(fields => fields[fields.len() - 1]));
            assert(decreases_to!(fields[fields.len() - 1] => fields[fields.len() - 1].1));
        }
        spec_subst_fields(fields.subrange(0, fields.len() - 1), m).push(
            (fields[fields.len() - 1].0, spec_substitute(fields[fields.len() - 1].1, m)),
        )
    }
}

pub proof fn lemma_subst_items(items: Seq<SpecJson>, m: ResolverModel)
    ensures
        spec_subst_items(items, m).len() == items.len(),
        forall|i: int| 0 <= i < items.len() ==> spec_subst_items(items, m)[i]
            == spec_substitute(items[i], m),
    decreases items.len(),
{
    if items.len() > 0 {
        lemma_subst_items(items.subrange(0, items.len() - 1), m);
        assert forall|i: int| 0 <= i < items.len() implies spec_subst_items(items, m)[i]
            == spec_substitute(items[i], m) by {
            if i < items.len() - 1 {
                assert(items.subrange(0, items.len() - 1)[i] == items[i]);
            }
        }
    }
}

pub proof fn lemma_subst_fields(fields: Seq<(Seq<char>, SpecJson)>, m: ResolverModel)
    ensures
        spec_subst_fields(fields, m).len() == fields.len(),
        forall|i: int| 0 <= i < fields.len() ==> spec_subst_fields(fields, m)[i] == (
            fields[i].0,
            spec_substitute(fields[i].1, m),
        ),
    decreases fields.len(),
{
    if fields.len() > 0 {
        lemma_subst_fields(fields.subrange(0, fields.len() - 1), m);
        assert forall|i: int| 0 <= i < fields.len() implies spec_subst_fields(fields, m)[i]
            == (fields[i].0, spec_substitute(fields[i].1, m)) by {
            if i < fields.len() - 1 {
                assert(fields.subrange(0, fields.len() - 1)[i] == fields[i]);
            }
        }
    }
}

/// Scan a JSON tree, substitute resolved placeholders, keep everything else.
pub fn replace_simple_placeholders(value: &JsonValue, resolver: &Resolver) -> (r: JsonValue)
    ensures
        r@ == spec_substitute(value@, resolver@),
    decreases value,
{
    match value {
        JsonValue::Str(s) => {
            let cs = str_chars(s.as_str());
            if cs.len() > 0 && cs[0] == '{' && cs[cs.len() - 1] == '}' {
                let content = subvec(&cs, 1, cs.len() - 1);
                let resolved = resolve(resolver, &content);
                match resolved {
                    Some(v) => {
                        return v;
                    },
                    None => {
                        let scanned = scan_chars(&cs, resolver);
                        return JsonValue::Str(chars_string(&scanned));
                    },
                }
            }
            let scanned = scan_chars(&cs, resolver);
            JsonValue::Str(chars_string(&scanned))
        },
        JsonValue::Arr(items) => {
            let ghost m = resolver@;
            let mut out: Vec<JsonValue> = Vec::new();
            let mut i: usize = 0;
            while i < items.len()
                invariant
                    i <= items@.len(),
                    *value == JsonValue::Arr(*items),
                    m == resolver@,
                    out@.len() == i,
                    forall|j: int| 0 <= j < i ==> out@[j]@ == spec_substitute(
                        items@[j]@,
                        m,
                    ),
                decreases items@.len() - i,
            {
                proof {
                    let vj = *value;
                    assert(decreases_to!(vj => vj->Arr_0));
                    assert(decreases_to!(*items => items@));
                    assert(decreases_to!(items@ => items@[i as int]));
                }
                let c = replace_simple_placeholders(&items[i], resolver);
                out.push(c);
                i = i + 1;
            }
            let r = JsonValue::Arr(out);
            proof {
                crate::json::lemma_arr_view(out@);
                crate::json::lemma_arr_view(items@);
                lemma_subst_items(crate::json::arr_view(items@), m);
                assert(crate::json::arr_view(out@) =~= spec_subst_items(
                    crate::json::arr_view(items@),
                    m,
                ));
            }
            r
        },
        JsonValue::Obj(fields) => {
            let ghost m = resolver@;
            let mut out: Vec<(String, JsonValue)> = Vec::new();
            let mut i: usize = 0;
            while i < fields.len()
                invariant
                    i <= fields@.len(),
                    *value == JsonValue::Obj(*fields),
                    m == resolver@,
                    out@.len() == i,
                    forall|j: int| 0 <= j < i ==> out@[j].0@ == fields@[j].0@ && out@[j].1@
                        == spec_substitute(fields@[j].1@, m),
                decreases fields@.len() - i,
            {
                proof {
                    let vj = *value;
                    assert(decreases_to!(vj => vj->Obj_0));
                    assert(decreases_to!(*fields => fields@));
                    assert(decreases_to!(fields@ => fields@[i as int]));
                    assert(decreases_to!(fields@[i as int] => fields@[i as int].1));
                }
                let key = fields[i].0.clone();
                let val = replace_simple_placeholders(&fields[i].1, resolver);
                out.push((key, val));
                i = i + 1;
            }
            let r = JsonValue::Obj(out);
            proof {
                crate::json::lemma_obj_view(out@);
                crate::json::lemma_obj_view(fields@);
                lemma_subst_fields(crate::json::obj_view(fields@), m);
                assert(crate::json::obj_view(out@) =~= spec_subst_fields(
                    crate::json::obj_view(fields@),
                    m,
                ));
            }
            r
        },
        JsonValue::Null => JsonValue::Null,
        JsonValue::Bool(b) => JsonValue::Bool(*b),
        JsonValue::Int(n) => JsonValue::Int(*n),
        JsonValue::Num(t) => JsonValue::Num(t.clone()),
    }
}

} // verus!
