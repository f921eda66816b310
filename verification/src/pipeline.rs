//! The response pipeline: per request it substitutes path parameters,
//! resolves cross-references, generates variables on POST, interpolates the
//! payload, persists the created object, and answers GET requests for a
//! cached response.  The stage order is load-bearing: path parameters may
//! appear inside cross-reference placeholders, and variables must exist
//! before the id becomes a storage key.

use vstd::prelude::*;
use crate::json::{JsonValue, SpecJson, spec_get, spec_text_of, spec_str_or_empty, text_of,
    lemma_obj_view, obj_view};
use crate::maps::JsonMap;
use crate::maps::StrMap;
use crate::types::{AppState, Route, RouteV, StoredObject, StoredObjectV, spec_appended};
use crate::pattern::{spec_extract, spec_extract_pairs, extract_path_parameters};
use crate::placeholder::{Resolver, ResolverModel, spec_substitute, replace_simple_placeholders};
use crate::vars::{spec_gen_ok, spec_all_warnings, vars_view, generate_variables, warnings_view,
    replace_variables_in_value};
use crate::crossref::{spec_crossref, resolve_cross_references};
use crate::text::{spec_replace_all, replace_all, str_chars, chars_string, subvec, push_range,
    upper_seq, eq_ignore_ascii_case};

verus! {

// ---------------------------------------------------------------------------
// Literal path-parameter replacement
// ---------------------------------------------------------------------------

/// The literal token that binds a path parameter into a host string.
pub open spec fn spec_path_pattern(name: Seq<char>) -> Seq<char> {
    seq!['{', 'p', 'a', 't', 'h', '.'] + name + seq!['}']
}

/// One literal replacement pass per binding, in iteration order.  Text that
/// a replacement introduces is not scanned again for the same binding, which
/// is the intended no-recursive-expansion policy.
pub open spec fn spec_preprocess_str(s: Seq<char>, pairs: Seq<(Seq<char>, Seq<char>)>) -> Seq<
    char,
>
    decreases pairs.len(),
{
    if pairs.len() == 0 {
        s
    } else {
        spec_preprocess_str(
            spec_replace_all(s, spec_path_pattern(pairs[0].0), pairs[0].1),
            pairs.subrange(1, pairs.len() as int),
        )
    }
}

pub open spec fn spec_preprocess(v: SpecJson, pairs: Seq<(Seq<char>, Seq<char>)>) -> SpecJson
    decreases v,
{
    match v {
        SpecJson::Str(s) => SpecJson::Str(spec_preprocess_str(s, pairs)),
        SpecJson::Arr(items) => {
            proof {
                assert(decreases_to!(v => items));
            }
            SpecJson::Arr(spec_preprocess_items(items, pairs))
        },
        SpecJson::Obj(fields) => {
            proof {
                assert(decreases_to!(v => fields));
            }
            SpecJson::Obj(spec_preprocess_fields(fields, pairs))
        },
        _ => v,
    }
}

pub open spec fn spec_preprocess_items(
    items: Seq<SpecJson>,
    pairs: Seq<(Seq<char>, Seq<char>)>,
) -> Seq<SpecJson>
    decreases items,
{
    if items.len() == 0 {
        Seq::empty()
    } else {
        proof {
            assert(decreases_to!(items => items.subrange(0, items.len() - 1)));
            assert(decreases_to!(items => items[items.len() - 1]));
        }
        spec_preprocess_items(items.subrange(0, items.len() - 1), pairs).push(
            spec_preprocess(items[items.len() - 1], pairs),
        )
    }
}

pub open spec fn spec_preprocess_fields(
    fields: Seq<(Seq<char>, SpecJson)>,
    pairs: Seq<(Seq<char>, Seq<char>)>,
) -> Seq<(Seq<char>, SpecJson)>
    decreases fields,
{
    if fields.len() == 0 {
        Seq::empty()
    } else {
        proof {
            assert(decreases_to!(fields => fields.subrange(0, fields.len() - 1)));
            assert(decreases_to!(fields => fields[fields.len() - 1]));
            assert(decreases_to!(fields[fields.len() - 1] => fields[fields.len() - 1].1));
        }
        spec_preprocess_fields(fields.subrange(0, fields.len() - 1), pairs).push(
            (fields[fields.len() - 1].0, spec_preprocess(fields[fields.len() - 1].1, pairs)),
        )
    }
}

pub proof fn lemma_preprocess_items(items: Seq<SpecJson>, pairs: Seq<(Seq<char>, Seq<char>)>)
    ensures
        spec_preprocess_items(items, pairs).len() == items.len(),
        forall|i: int| 0 <= i < items.len() ==> spec_preprocess_items(items, pairs)[i]
            == spec_preprocess(items[i], pairs),
    decreases items.len(),
{
    if items.len() > 0 {
        lemma_preprocess_items(items.subrange(0, items.len() - 1), pairs);
        assert forall|i: int| 0 <= i < items.len() implies spec_preprocess_items(
            items,
            pairs,
        )[i] == spec_preprocess(items[i], pairs) by {
            if i < items.len() - 1 {
                assert(items.subrange(0, items.len() - 1)[i] == items[i]);
            }
        }
    }
}

pub proof fn lemma_preprocess_fields(
    fields: Seq<(Seq<char>, SpecJson)>,
    pairs: Seq<(Seq<char>, Seq<char>)>,
)
    ensures
        spec_preprocess_fields(fields, pairs).len() == fields.len(),
        forall|i: int| 0 <= i < fields.len() ==> spec_preprocess_fields(fields, pairs)[i] == (
            fields[i].0,
            spec_preprocess(fields[i].1, pairs),
        ),
    decreases fields.len(),
{
    if fields.len() > 0 {
        lemma_preprocess_fields(fields.subrange(0, fields.len() - 1), pairs);
        assert forall|i: int| 0 <= i < fields.len() implies spec_preprocess_fields(
            fields,
            pairs,
        )[i] == (fields[i].0, spec_preprocess(fields[i].1, pairs)) by {
            if i < fields.len() - 1 {
                assert(fields.subrange(0, fields.len() - 1)[i] == fields[i]);
            }
        }
    }
}

fn path_pattern_chars(name: &String) -> (r: Vec<char>)
    ensures
        r@ == spec_path_pattern(name@),
{
    let mut r: Vec<char> = Vec::new();
    r.push('{');
    r.push('p');
    r.push('a');
    r.push('t');
    r.push('h');
    r.push('.');
    let nv = str_chars(name.as_str());
    push_range(&mut r, &nv, 0, nv.len());
    r.push('}');
    proof {
        assert(nv@.subrange(0, nv@.len() as int) =~= nv@);
        assert(r@ =~= spec_path_pattern(name@));
    }
    r
}

fn preprocess_str(s: &Vec<char>, params: &StrMap) -> (r: Vec<char>)
    ensures
        r@ == spec_preprocess_str(s@, params.pairs()),
{
    let ghost pp = params.pairs();
    proof {
        assert(pp.subrange(0, pp.len() as int) =~= pp);
    }
    let mut current = crate::text::subvec_full(s);
    let mut i: usize = 0;
    while i < params.entries.len()
        invariant
            i <= params.entries@.len(),
            pp == params.pairs(),
            pp.len() == params.entries@.len(),
            spec_preprocess_str(s@, pp) == spec_preprocess_str(
                current@,
                pp.subrange(i as int, pp.len() as int),
            ),
        decreases params.entries@.len() - i,
    {
        let ghost tail = pp.subrange(i as int, pp.len() as int);
        proof {
            assert(tail[0] == pp[i as int]);
            assert(pp[i as int] == (params.entries@[i as int].0@, params.entries@[i as int].1@));
            assert(tail.subrange(1, tail.len() as int) =~= pp.subrange(
                i + 1 as int,
                pp.len() as int,
            ));
        }
        let pat = path_pattern_chars(&params.entries[i].0);
        let to = str_chars(params.entries[i].1.as_str());
        current = replace_all(&current, &pat, &to);
        i = i + 1;
    }
    proof {
        assert(pp.subrange(pp.len() as int, pp.len() as int).len() == 0);
    }
    current
}

fn preprocess_path_parameters(value: &JsonValue, params: &StrMap) -> (r: JsonValue)
    ensures
        r@ == spec_preprocess(value@, params.pairs()),
    decreases value,
{
    match value {
        JsonValue::Str(s) => {
            let cs = str_chars(s.as_str());
            let replaced = preprocess_str(&cs, params);
            JsonValue::Str(chars_string(&replaced))
        },
        JsonValue::Arr(items) => {
            let ghost pp = params.pairs();
            let mut out: Vec<JsonValue> = Vec::new();
            let mut i: usize = 0;
            while i < items.len()
                invariant
                    i <= items@.len(),
                    *value == JsonValue::Arr(*items),
                    pp == params.pairs(),
                    out@.len() == i,
                    forall|j: int| 0 <= j < i ==> out@[j]@ == spec_preprocess(items@[j]@, pp),
                decreases items@.len() - i,
            {
                proof {
                    let vj = *value;
                    assert(decreases_to!(vj => vj->Arr_0));
                    assert(decreases_to!(*items => items@));
                    assert(decreases_to!(items@ => items@[i as int]));
                }
                let c = preprocess_path_parameters(&items[i], params);
                out.push(c);
                i = i + 1;
            }
            let r = JsonValue::Arr(out);
            proof {
                crate::json::lemma_arr_view(out@);
                crate::json::lemma_arr_view(items@);
                lemma_preprocess_items(crate::json::arr_view(items@), pp);
                assert(crate::json::arr_view(out@) =~= spec_preprocess_items(
                    crate::json::arr_view(items@),
                    pp,
                ));
            }
            r
        },
        JsonValue::Obj(fields) => {
            let ghost pp = params.pairs();
            let mut out: Vec<(String, JsonValue)> = Vec::new();
            let mut i: usize = 0;
            while i < fields.len()
                invariant
                    i <= fields@.len(),
                    *value == JsonValue::Obj(*fields),
                    pp == params.pairs(),
                    out@.len() == i,
                    forall|j: int| 0 <= j < i ==> out@[j].0@ == fields@[j].0@ && out@[j].1@
                        == spec_preprocess(fields@[j].1@, pp),
                decreases fields@.len() - i,
            {
                proof {
                    let vj = *value;
                    assert(decreases_to!(vj => vj->Obj_0));
                    assert(decreases_to!(*fields => fields@));
                    assert(decreases_to!(fields@ => fields@[i as int]));
                    assert(decreases_to!(fields@[i as int] => fields@[i as int].1));
                }
                let key = fields[i].0.clone();
                let val = preprocess_path_parameters(&fields[i].1, params);
                out.push((key, val));
                i = i + 1;
            }
            let r = JsonValue::Obj(out);
            proof {
                crate::json::lemma_obj_view(out@);
                crate::json::lemma_obj_view(fields@);
                lemma_preprocess_fields(crate::json::obj_view(fields@), pp);
                assert(crate::json::obj_view(out@) =~= spec_preprocess_fields(
                    crate::json::obj_view(fields@),
                    pp,
                ));
            }
            r
        },
        JsonValue::Null => JsonValue::Null,
        JsonValue::Bool(b) => JsonValue::Bool(*b),
        JsonValue::Int(n) => JsonValue::Int(*n),
        JsonValue::Num(t) => JsonValue::Num(t.clone()),
    }
}

/// Path-parameter substitution over a whole tree: a literal pass first, then
/// the scanner with a `path.NAME` resolver.
pub open spec fn spec_replace_path(
    v: SpecJson,
    pairs: Seq<(Seq<char>, Seq<char>)>,
    pmap: Map<Seq<char>, Seq<char>>,
) -> SpecJson {
    spec_substitute(spec_preprocess(v, pairs), ResolverModel::PathParams(pmap))
}

/// Substitute `{path.NAME}` tokens with the extracted bindings.
pub fn replace_path_parameters(value: &JsonValue, path_params: &StrMap) -> (r: JsonValue)
    ensures
        r@ == spec_replace_path(value@, path_params.pairs(), path_params@),
{
    let preprocessed = preprocess_path_parameters(value, path_params);
    let resolver = Resolver::PathParams(path_params);
    replace_simple_placeholders(&preprocessed, &resolver)
}

// ---------------------------------------------------------------------------
// Payload interpolation
// ---------------------------------------------------------------------------

/// Substitute `{payload.NAME}` tokens with payload fields, falling back to
/// the configured defaults.
pub fn interpolate_payload(
    template: &JsonValue,
    payload: &JsonValue,
    defaults: Option<&JsonMap>,
) -> (r: JsonValue)
    ensures
        r@ == spec_substitute(
            template@,
            ResolverModel::Payload(
                payload@,
                match defaults {
                    Some(d) => Some(d@),
                    None => None,
                },
            ),
        ),
{
    let resolver = Resolver::Payload(payload, defaults);
    replace_simple_placeholders(template, &resolver)
}

// ---------------------------------------------------------------------------
// Fixed bodies
// ---------------------------------------------------------------------------

pub open spec fn spec_script_error_body() -> SpecJson {
    SpecJson::Obj(
        seq![
            ("error"@, SpecJson::Str("Failed to execute Lua script"@)),
            ("status"@, SpecJson::Int(500)),
        ],
    )
}

/// The body answered when a script fails.
pub fn script_error_body() -> (r: JsonValue)
    ensures
        r@ == spec_script_error_body(),
{
    let mut fields: Vec<(String, JsonValue)> = Vec::new();
    fields.push(
        ("error".to_owned(), JsonValue::Str("Failed to execute Lua script".to_owned())),
    );
    fields.push(("status".to_owned(), JsonValue::Int(500)));
    let r = JsonValue::Obj(fields);
    proof {
        lemma_obj_view(r->Obj_0@);
        assert(obj_view(r->Obj_0@) =~= spec_script_error_body()->Obj_0);
    }
    r
}

pub open spec fn spec_no_template_body() -> SpecJson {
    SpecJson::Obj(
        seq![
            ("error"@, SpecJson::Str("No response template defined"@)),
            ("status"@, SpecJson::Int(500)),
        ],
    )
}

/// The body answered when a route has neither template nor script.
pub fn no_template_body() -> (r: JsonValue)
    ensures
        r@ == spec_no_template_body(),
{
    let mut fields: Vec<(String, JsonValue)> = Vec::new();
    fields.push(
        ("error".to_owned(), JsonValue::Str("No response template defined".to_owned())),
    );
    fields.push(("status".to_owned(), JsonValue::Int(500)));
    let r = JsonValue::Obj(fields);
    proof {
        lemma_obj_view(r->Obj_0@);
        assert(obj_view(r->Obj_0@) =~= spec_no_template_body()->Obj_0);
    }
    r
}

pub open spec fn spec_state_cleared_body() -> SpecJson {
    SpecJson::Obj(
        seq![
            ("status"@, SpecJson::Str("cleared"@)),
            ("message"@, SpecJson::Str("All stored state has been cleared"@)),
        ],
    )
}

/// The body answered by the control endpoint that empties all state.
pub fn state_cleared_body() -> (r: JsonValue)
    ensures
        r@ == spec_state_cleared_body(),
{
    let mut fields: Vec<(String, JsonValue)> = Vec::new();
    fields.push(("status".to_owned(), JsonValue::Str("cleared".to_owned())));
    fields.push(
        ("message".to_owned(), JsonValue::Str("All stored state has been cleared".to_owned())),
    );
    let r = JsonValue::Obj(fields);
    proof {
        lemma_obj_view(r->Obj_0@);
        assert(obj_view(r->Obj_0@) =~= spec_state_cleared_body()->Obj_0);
    }
    r
}

// ---------------------------------------------------------------------------
// Storage keys
// ---------------------------------------------------------------------------

/// Last index of `c` in `s`, if any.
pub open spec fn spec_rfind(s: Seq<char>, c: char) -> Option<int>
    decreases s.len(),
{
    if s.len() == 0 {
        None
    } else if s[s.len() - 1] == c {
        Some(s.len() - 1)
    } else {
        spec_rfind(s.subrange(0, s.len() - 1), c)
    }
}

pub fn rfind_char(s: &Vec<char>, c: char) -> (r: Option<usize>)
    ensures
        spec_rfind(s@, c) == (match r {
            Some(i) => Some(i as int),
            None => None::<int>,
        }),
        r matches Some(i) ==> i < s@.len(),
{
    let mut i: usize = s.len();
    proof {
        assert(s@.subrange(0, s@.len() as int) =~= s@);
    }
    while i > 0
        invariant
            i <= s@.len(),
            spec_rfind(s@, c) == spec_rfind(s@.subrange(0, i as int), c),
        decreases i,
    {
        i = i - 1;
        let ghost pre = s@.subrange(0, i + 1 as int);
        proof {
            assert(pre[pre.len() - 1] == s@[i as int]);
            assert(pre.subrange(0, pre.len() - 1) =~= s@.subrange(0, i as int));
        }
        if s[i] == c {
            return Some(i);
        }
    }
    None
}

/// The key under which a POST's response is cached: the route path, an
/// underscore, and the generated id's text.
pub open spec fn spec_storage_key(path: Seq<char>, idv: SpecJson) -> Seq<char> {
    path + seq!['_'] + spec_text_of(idv)
}

/// The key a GET looks up: the path before its last slash, an underscore,
/// and the last segment.
pub open spec fn spec_get_key(path: Seq<char>) -> Seq<char> {
    let k = spec_rfind(path, '/')->Some_0;
    path.subrange(0, k) + seq!['_'] + path.subrange(k + 1, path.len() as int)
}

// ---------------------------------------------------------------------------
// The pipeline
// ---------------------------------------------------------------------------

/// What one template-mode request leaves behind.
pub struct PipelineOutcome {
    pub body: SpecJson,
    pub storage: Map<Seq<char>, SpecJson>,
    pub objects: Map<Seq<char>, Seq<StoredObjectV>>,
}

pub open spec fn is_post_method(m: Seq<char>) -> bool {
    upper_seq(m) == upper_seq("POST"@)
}

pub open spec fn is_get_method(m: Seq<char>) -> bool {
    upper_seq(m) == upper_seq("GET"@)
}

/// Which generated-variable maps a request can see: a real generation for a
/// POST route with declarations and a template, the empty map otherwise.
pub open spec fn spec_route_gen(route: RouteV, g: Map<Seq<char>, SpecJson>) -> bool {
    if route.response is Some && is_post_method(route.method) && route.variables is Some {
        spec_gen_ok(route.variables->Some_0, g)
    } else {
        g == Map::<Seq<char>, SpecJson>::empty()
    }
}

/// The warnings a request emits: those of variable generation, where it
/// happens.
pub open spec fn spec_route_warnings(route: RouteV) -> Seq<Seq<char>> {
    if route.response is Some && is_post_method(route.method) && route.variables is Some {
        spec_all_warnings(route.variables->Some_0)
    } else {
        Seq::empty()
    }
}

/// The template-mode pipeline, given the generated-variable map `g`.
pub open spec fn spec_process(
    storage: Map<Seq<char>, SpecJson>,
    objects: Map<Seq<char>, Seq<StoredObjectV>>,
    defaults: Option<Map<Seq<char>, SpecJson>>,
    route: RouteV,
    path: Seq<char>,
    payload: Option<SpecJson>,
    g: Map<Seq<char>, SpecJson>,
) -> PipelineOutcome {
    match route.response {
        None => PipelineOutcome { body: spec_no_template_body(), storage, objects },
        Some(tpl) => {
            let pairs = spec_extract_pairs(route.path, path);
            let pmap = spec_extract(route.path, path);
            let b1 = spec_replace_path(tpl.body, pairs, pmap);
            let b2 = spec_crossref(b1, objects);
            if is_post_method(route.method) && route.variables is Some {
                let b3 = spec_substitute(b2, ResolverModel::Variables(g));
                let b4 = match payload {
                    Some(p) => spec_substitute(b3, ResolverModel::Payload(p, defaults)),
                    None => b3,
                };
                let b5 = match payload {
                    Some(p) => spec_substitute(b4, ResolverModel::Payload(p, defaults)),
                    None => b4,
                };
                if g.contains_key("id"@) {
                    let idv = g["id"@];
                    let key = spec_storage_key(route.path, idv);
                    let storage2 = storage.insert(key, b4);
                    let objects2 = if route.object_name is Some && (match route.store_object {
                        Some(b) => b,
                        None => true,
                    }) {
                        spec_appended(
                            objects,
                            route.object_name->Some_0,
                            StoredObjectV { id: spec_str_or_empty(idv), data: b4 },
                        )
                    } else {
                        objects
                    };
                    PipelineOutcome { body: b5, storage: storage2, objects: objects2 }
                } else {
                    PipelineOutcome { body: b5, storage, objects }
                }
            } else if is_get_method(route.method) && spec_rfind(path, '/') is Some
                && storage.contains_key(spec_get_key(path)) {
                PipelineOutcome { body: storage[spec_get_key(path)], storage, objects }
            } else {
                let b5 = match payload {
                    Some(p) => spec_substitute(b2, ResolverModel::Payload(p, defaults)),
                    None => b2,
                };
                PipelineOutcome { body: b5, storage, objects }
            }
        },
    }
}

/// Compute the response body for a template-mode request, performing the
/// POST side effects on the state.  Script routes are dispatched before this
/// function.
#[verifier::rlimit(100)]
pub fn process_response(
    state: &mut AppState,
    route: &Route,
    path: &str,
    payload: Option<&JsonValue>,
    warnings: &mut Vec<String>,
) -> (r: JsonValue)
    requires
        route@.lua_script is None,
    ensures
        final(state).config == old(state).config,
        final(state).lua_state == old(state).lua_state,
        warnings_view(final(warnings)@) == warnings_view(old(warnings)@) + spec_route_warnings(
            route@,
        ),
        exists|g: Map<Seq<char>, SpecJson>|
            {
                &&& #[trigger] spec_route_gen(route@, g)
                &&& r@ == spec_process(
                    old(state).storage@,
                    old(state).objects@,
                    old(state).config@.defaults,
                    route@,
                    path@,
                    match payload {
                        Some(p) => Some(p@),
                        None => None,
                    },
                    g,
                ).body
                &&& final(state).storage@ == spec_process(
                    old(state).storage@,
                    old(state).objects@,
                    old(state).config@.defaults,
                    route@,
                    path@,
                    match payload {
                        Some(p) => Some(p@),
                        None => None,
                    },
                    g,
                ).storage
                &&& final(state).objects@ == spec_process(
                    old(state).storage@,
                    old(state).objects@,
                    old(state).config@.defaults,
                    route@,
                    path@,
                    match payload {
                        Some(p) => Some(p@),
                        None => None,
                    },
                    g,
                ).objects
            },
{
    let ghost pv: Option<SpecJson> = match payload {
        Some(p) => Some(p@),
        None => None,
    };
    let path_params = extract_path_parameters(route.path.as_str(), path);
    match &route.response {
        None => {
            let r = no_template_body();
            proof {
                let g: Map<Seq<char>, SpecJson> = Map::empty();
                assert(spec_route_gen(route@, g));
                assert(warnings_view(warnings@) =~= warnings_view(old(warnings)@)
                    + spec_route_warnings(route@));
            }
            r
        },
        Some(template) => {
            let b0 = template.body.deep_clone();
            let b1 = replace_path_parameters(&b0, &path_params);
            let b2 = resolve_cross_references(&b1, &state.objects);
            let defaults: Option<&JsonMap> = match &state.config.defaults {
                Some(d) => Some(d),
                None => None,
            };
            let is_post = eq_ignore_ascii_case(route.method.as_str(), "POST");
            if is_post {
                match &route.variables {
                    Some(variables) => {
                        let g = generate_variables(variables, warnings);
                        let ghost gv = g@;
                        proof {
                            assert(vars_view(variables@) =~= route@.variables->Some_0);
                            assert(spec_route_gen(route@, gv));
                            assert(warnings_view(warnings@) =~= warnings_view(old(warnings)@)
                                + spec_route_warnings(route@));
                        }
                        let b3 = replace_variables_in_value(&b2, &g);
                        let b4 = match payload {
                            Some(p) => interpolate_payload(&b3, p, defaults),
                            None => b3,
                        };
                        match g.get("id") {
                            Some(id_value) => {
                                let idtext = text_of(id_value);
                                let mut keyc = str_chars(route.path.as_str());
                                keyc.push('_');
                                push_range(&mut keyc, &idtext, 0, idtext.len());
                                let key = chars_string(&keyc);
                                proof {
                                    assert(idtext@.subrange(0, idtext@.len() as int)
                                        =~= idtext@);
                                    assert(key@ =~= spec_storage_key(route@.path, gv["id"@]));
                                }
                                let obj_id = id_value.str_or_empty();
                                let obj_data = b4.deep_clone();
                                let stored = b4.deep_clone();
                                state.storage.insert(key, stored);
                                match &route.object_name {
                                    Some(object_name) => {
                                        let keep = match route.store_object {
                                            Some(b) => b,
                                            None => true,
                                        };
                                        if keep {
                                            let obj = StoredObject {
                                                id: obj_id,
                                                data: obj_data,
                                            };
                                            state.objects.append(object_name.as_str(), obj);
                                        }
                                    },
                                    None => {},
                                }
                            },
                            None => {},
                        }
                        let b5 = match payload {
                            Some(p) => interpolate_payload(&b4, p, defaults),
                            None => b4,
                        };
                        proof {
                            assert(spec_route_gen(route@, gv));
                        }
                        b5
                    },
                    None => {
                        let r = finish_without_variables(state, route, path, payload, b2,
                            defaults);
                        proof {
                            let g: Map<Seq<char>, SpecJson> = Map::empty();
                            assert(spec_route_gen(route@, g));
                            assert(warnings_view(warnings@) =~= warnings_view(old(warnings)@)
                                + spec_route_warnings(route@));
                        }
                        r
                    },
                }
            } else {
                let r = finish_without_variables(state, route, path, payload, b2, defaults);
                proof {
                    let g: Map<Seq<char>, SpecJson> = Map::empty();
                    assert(spec_route_gen(route@, g));
                    assert(warnings_view(warnings@) =~= warnings_view(old(warnings)@)
                        + spec_route_warnings(route@));
                }
                r
            }
        },
    }
}

/// The tail of the pipeline for requests without variable generation: the
/// GET cache lookup, then the final payload interpolation.
fn finish_without_variables(
    state: &AppState,
    route: &Route,
    path: &str,
    payload: Option<&JsonValue>,
    b2: JsonValue,
    defaults: Option<&JsonMap>,
) -> (r: JsonValue)
    requires
        (match defaults {
            Some(d) => state.config@.defaults == Some(d@),
            None => state.config@.defaults is None,
        }),
    ensures
        r@ == (if is_get_method(route@.method) && spec_rfind(path@, '/') is Some
            && state.storage@.contains_key(spec_get_key(path@)) {
            state.storage@[spec_get_key(path@)]
        } else {
            match payload {
                Some(p) => spec_substitute(
                    b2@,
                    ResolverModel::Payload(p@, state.config@.defaults),
                ),
                None => b2@,
            }
        }),
{
    let is_get = eq_ignore_ascii_case(route.method.as_str(), "GET");
    if is_get {
        let pc = str_chars(path);
        match rfind_char(&pc, '/') {
            Some(k) => {
                let mut keyc = subvec(&pc, 0, k);
                keyc.push('_');
                let n = pc.len();
                push_range(&mut keyc, &pc, k + 1, n);
                let key = chars_string(&keyc);
                proof {
                    assert(key@ =~= spec_get_key(path@));
                }
                match state.storage.get(key.as_str()) {
                    Some(cached) => {
                        return cached.deep_clone();
                    },
                    None => {},
                }
            },
            None => {},
        }
    }
    match payload {
        Some(p) => interpolate_payload(&b2, p, defaults),
        None => b2,
    }
}

// ---------------------------------------------------------------------------
// Status resolution
// ---------------------------------------------------------------------------

/// The HTTP status the transport sends: a nonnegative top-level integer
/// `status` field wins (500 outside the valid range), then the template's
/// status, then 200.
pub open spec fn spec_http_status(body: SpecJson, template_status: Option<u16>) -> u16 {
    match spec_get(body, "status"@) {
        Some(SpecJson::Int(n)) => if n >= 0 {
            if 100 <= n <= 999 {
                n as u16
            } else {
                500
            }
        } else {
            match template_status {
                Some(t) => t,
                None => 200,
            }
        },
        _ => match template_status {
            Some(t) => t,
            None => 200,
        },
    }
}

/// The HTTP body the transport sends: with a status override, the `body`
/// field where present, else the whole object; otherwise the body itself.
pub open spec fn spec_http_body(body: SpecJson) -> SpecJson {
    match spec_get(body, "status"@) {
        Some(SpecJson::Int(n)) => if n >= 0 {
            match spec_get(body, "body"@) {
                Some(b) => b,
                None => body,
            }
        } else {
            body
        },
        _ => body,
    }
}

/// Split a computed response into the HTTP status and body to send.
pub fn resolve_http_response(body: &JsonValue, template_status: Option<u16>) -> (r: (
    u16,
    JsonValue,
))
    ensures
        r.0 == spec_http_status(body@, template_status),
        r.1@ == spec_http_body(body@),
{
    match body.get("status") {
        Some(sv) => {
            match sv {
                JsonValue::Int(n) => {
                    let n = *n;
                    if n >= 0 {
                        let status: u16 = if 100 <= n && n <= 999 {
                            n as u16
                        } else {
                            500
                        };
                        let out = match body.get("body") {
                            Some(b) => b.deep_clone(),
                            None => body.deep_clone(),
                        };
                        return (status, out);
                    }
                },
                _ => {},
            }
        },
        None => {},
    }
    let status: u16 = match template_status {
        Some(t) => t,
        None => 200,
    };
    (status, body.deep_clone())
}

} // verus!
