//! Laws the engine guarantees, stated over the same spec functions that the
//! executable functions' contracts use.

use vstd::prelude::*;
use crate::json::{SpecJson, spec_text_of};
use crate::types::{RouteV, StoredObjectV, spec_appended};
use crate::placeholder::{ResolverModel, spec_resolve, spec_scan, spec_substitute,
    spec_subst_items, spec_subst_fields, lemma_subst_items, lemma_subst_fields};
use crate::crossref::{objects_prefix, spec_resolve_ref, spec_datas};
use crate::vars::gen_value_ok;
use crate::types::VariableConfigV;
use crate::pipeline::{spec_process, spec_storage_key, spec_get_key, spec_rfind, is_get_method,
    is_post_method};
use crate::text::{spec_find, lemma_spec_find, match_at, spec_find_sub, lemma_spec_find_sub, spec_replace_all};
use crate::pipeline::{spec_path_pattern, spec_preprocess_str, spec_preprocess,
    spec_preprocess_items, spec_preprocess_fields, lemma_preprocess_items,
    lemma_preprocess_fields, spec_replace_path};

verus! {

// ---------------------------------------------------------------------------
// Declined resolvers leave values unchanged
// ---------------------------------------------------------------------------

/// A resolver that declines every token leaves a string exactly as it was.
pub proof fn lemma_scan_declined(s: Seq<char>, m: ResolverModel)
    requires
        forall|c: Seq<char>| spec_resolve(m, c) is None,
    ensures
        spec_scan(s, m) == s,
    decreases s.len(),
{
    match spec_find(s, 0, '{') {
        None => {},
        Some(i) => {
            lemma_spec_find(s, 0, '{');
            match spec_find(s, i, '}') {
                None => {},
                Some(j) => {
                    lemma_spec_find(s, i, '}');
                    let rest = s.subrange(j + 1, s.len() as int);
                    lemma_scan_declined(rest, m);
                    assert(s.subrange(0, j + 1) + rest =~= s);
                },
            }
        },
    }
}

/// A resolver that declines every token leaves a whole tree exactly as it
/// was: every placeholder passes through.
pub proof fn lemma_substitute_declined(v: SpecJson, m: ResolverModel)
    requires
        forall|c: Seq<char>| spec_resolve(m, c) is None,
    ensures
        spec_substitute(v, m) == v,
    decreases v,
{
    match v {
        SpecJson::Str(s) => {
            lemma_scan_declined(s, m);
        },
        SpecJson::Arr(items) => {
            lemma_subst_items(items, m);
            assert forall|i: int| 0 <= i < items.len() implies spec_subst_items(items, m)[i]
                == items[i] by {
                assert(decreases_to!(v => items));
                assert(decreases_to!(items => items[i]));
                lemma_substitute_declined(items[i], m);
            }
            assert(spec_subst_items(items, m) =~= items);
        },
        SpecJson::Obj(fields) => {
            lemma_subst_fields(fields, m);
            assert forall|i: int| 0 <= i < fields.len() implies spec_subst_fields(
                fields,
                m,
            )[i] == fields[i] by {
                assert(decreases_to!(v => fields));
                assert(decreases_to!(fields => fields[i]));
                assert(decreases_to!(fields[i] => fields[i].1));
                lemma_substitute_declined(fields[i].1, m);
            }
            assert(spec_subst_fields(fields, m) =~= fields);
        },
        _ => {},
    }
}

// ---------------------------------------------------------------------------
// Integer variables stay in their range
// ---------------------------------------------------------------------------

/// Every value generated for an integer declaration with `min <= max` lies
/// in `[min, max]`.
pub proof fn lemma_integer_variable_range(cfg: VariableConfigV, v: SpecJson)
    requires
        cfg.var_type == "integer"@,
        gen_value_ok(cfg, v),
        (match cfg.min {
            Some(m) => m,
            None => 0,
        }) <= (match cfg.max {
            Some(m) => m,
            None => i64::MAX,
        }),
    ensures
        v matches SpecJson::Int(n) && (match cfg.min {
            Some(m) => m,
            None => 0,
        }) <= n <= (match cfg.max {
            Some(m) => m,
            None => i64::MAX,
        }),
{
    reveal_strlit("integer");
    reveal_strlit("uuid");
    assert("integer"@.len() != "uuid"@.len());
}

// ---------------------------------------------------------------------------
// Bulk references count the appends
// ---------------------------------------------------------------------------

/// A sequence of appends applied in order.
pub open spec fn spec_append_all(
    m: Map<Seq<char>, Seq<StoredObjectV>>,
    ops: Seq<(Seq<char>, StoredObjectV)>,
) -> Map<Seq<char>, Seq<StoredObjectV>>
    decreases ops.len(),
{
    if ops.len() == 0 {
        m
    } else {
        spec_append_all(
            spec_appended(m, ops[0].0, ops[0].1),
            ops.subrange(1, ops.len() as int),
        )
    }
}

/// How many of the appends target bucket `t`.
pub open spec fn spec_count_type(ops: Seq<(Seq<char>, StoredObjectV)>, t: Seq<char>) -> nat
    decreases ops.len(),
{
    if ops.len() == 0 {
        0
    } else {
        (if ops[0].0 == t {
            1nat
        } else {
            0nat
        }) + spec_count_type(ops.subrange(1, ops.len() as int), t)
    }
}

proof fn lemma_append_all_len(
    m: Map<Seq<char>, Seq<StoredObjectV>>,
    ops: Seq<(Seq<char>, StoredObjectV)>,
    t: Seq<char>,
)
    ensures
        spec_append_all(m, ops).contains_key(t) <==> (m.contains_key(t) || spec_count_type(
            ops,
            t,
        ) > 0),
        spec_append_all(m, ops).contains_key(t) ==> spec_append_all(m, ops)[t].len() == (
        if m.contains_key(t) {
            m[t].len()
        } else {
            0
        }) + spec_count_type(ops, t),
    decreases ops.len(),
{
    if ops.len() > 0 {
        let m2 = spec_appended(m, ops[0].0, ops[0].1);
        lemma_append_all_len(m2, ops.subrange(1, ops.len() as int), t);
    }
}

/// After a cleared store takes a sequence of appends, the bare bulk
/// reference `{objects.T}` resolves to an array whose length is exactly the
/// number of appends to bucket `T`.
pub proof fn lemma_bulk_reference_counts_appends(
    ops: Seq<(Seq<char>, StoredObjectV)>,
    t: Seq<char>,
)
    requires
        spec_count_type(ops, t) > 0,
    ensures
        ({
            let store = spec_append_all(Map::empty(), ops);
            let s = objects_prefix() + t + seq!['}'];
            &&& spec_resolve_ref(s, store) matches Some(SpecJson::Arr(items))
            &&& spec_resolve_ref(s, store)->Some_0->Arr_0.len() == spec_count_type(ops, t)
        }),
{
    let store = spec_append_all(Map::<Seq<char>, Seq<StoredObjectV>>::empty(), ops);
    lemma_append_all_len(Map::empty(), ops, t);
    let s = objects_prefix() + t + seq!['}'];
    assert(s.len() >= 10);
    assert(s.subrange(0, 9) =~= objects_prefix());
    assert(s[s.len() - 1] == '}');
    assert(s.subrange(9, s.len() - 1) =~= t);
    assert(store.contains_key(t));
    assert(spec_resolve_ref(s, store) == Some(SpecJson::Arr(spec_datas(store[t]))));
    assert(spec_datas(store[t]).len() == store[t].len());
}

// ---------------------------------------------------------------------------
// The keyed cache answers the GET that follows a POST
// ---------------------------------------------------------------------------

proof fn lemma_rfind_concat(a: Seq<char>, b: Seq<char>)
    requires
        forall|k: int| 0 <= k < b.len() ==> b[k] != '/',
    ensures
        spec_rfind(a + seq!['/'] + b, '/') == Some(a.len() as int),
    decreases b.len(),
{
    let s = a + seq!['/'] + b;
    if b.len() == 0 {
        assert(s.len() == a.len() + 1);
        assert(s[s.len() - 1] == '/');
    } else {
        assert(s[s.len() - 1] == b[b.len() - 1]);
        let b2 = b.subrange(0, b.len() - 1);
        assert(forall|k: int| 0 <= k < b2.len() ==> b2[k] == b[k]);
        lemma_rfind_concat(a, b2);
        assert(s.subrange(0, s.len() - 1) =~= a + seq!['/'] + b2);
    }
}

/// A GET whose path has a cached entry returns exactly that entry and
/// changes nothing.
pub proof fn lemma_get_returns_cached(
    storage: Map<Seq<char>, SpecJson>,
    objects: Map<Seq<char>, Seq<StoredObjectV>>,
    defaults: Option<Map<Seq<char>, SpecJson>>,
    route: RouteV,
    path: Seq<char>,
    payload: Option<SpecJson>,
)
    requires
        route.response is Some,
        is_get_method(route.method),
        spec_rfind(path, '/') is Some,
        storage.contains_key(spec_get_key(path)),
    ensures
        ({
            let out = spec_process(storage, objects, defaults, route, path, payload,
                Map::empty());
            &&& out.body == storage[spec_get_key(path)]
            &&& out.storage == storage
            &&& out.objects == objects
        }),
{
    reveal_strlit("GET");
    reveal_strlit("POST");
    assert("GET"@.len() == 3 && "POST"@.len() == 4);
    assert(crate::text::upper_seq("GET"@).len() == 3);
    assert(crate::text::upper_seq("POST"@).len() == 4);
    assert(crate::text::upper_seq(route.method).len() == 3);
    assert(!is_post_method(route.method));
}

/// Cache round trip: a POST that generates an `id` caches its body under
/// `{route.path}_{id}`; the GET for `{route.path}/{id}` then returns the
/// POST's response, as long as the cached entry and the POST's response
/// coincide (they differ only when the final payload pass still changes the
/// stored body).
pub proof fn lemma_cache_round_trip(
    storage: Map<Seq<char>, SpecJson>,
    objects: Map<Seq<char>, Seq<StoredObjectV>>,
    defaults: Option<Map<Seq<char>, SpecJson>>,
    post_route: RouteV,
    post_path: Seq<char>,
    payload: Option<SpecJson>,
    g: Map<Seq<char>, SpecJson>,
    get_route: RouteV,
    get_defaults: Option<Map<Seq<char>, SpecJson>>,
    get_payload: Option<SpecJson>,
)
    requires
        post_route.response is Some,
        is_post_method(post_route.method),
        post_route.variables is Some,
        g.contains_key("id"@),
        spec_find(spec_text_of(g["id"@]), 0, '/') is None,
        get_route.response is Some,
        is_get_method(get_route.method),
        ({
            let out = spec_process(storage, objects, defaults, post_route, post_path,
                payload, g);
            out.storage[spec_storage_key(post_route.path, g["id"@])] == out.body
        }),
    ensures
        ({
            let out = spec_process(storage, objects, defaults, post_route, post_path,
                payload, g);
            let get_path = post_route.path + seq!['/'] + spec_text_of(g["id"@]);
            spec_process(out.storage, out.objects, get_defaults, get_route, get_path,
                get_payload, Map::empty()).body == out.body
        }),
{
    let out = spec_process(storage, objects, defaults, post_route, post_path, payload, g);
    let idtext = spec_text_of(g["id"@]);
    let key = spec_storage_key(post_route.path, g["id"@]);
    assert(out.storage.contains_key(key));
    let get_path = post_route.path + seq!['/'] + idtext;
    lemma_spec_find(idtext, 0, '/');
    lemma_rfind_concat(post_route.path, idtext);
    assert(spec_rfind(get_path, '/') == Some(post_route.path.len() as int));
    assert(get_path.subrange(0, post_route.path.len() as int) =~= post_route.path);
    assert(get_path.subrange(post_route.path.len() as int + 1, get_path.len() as int) =~= idtext);
    assert(spec_get_key(get_path) =~= key);
    lemma_get_returns_cached(out.storage, out.objects, get_defaults, get_route, get_path,
        get_payload);
}

// ---------------------------------------------------------------------------
// Path-parameter substitution is idempotent
// ---------------------------------------------------------------------------

/// No brace characters at all.
pub open spec fn brace_free(s: Seq<char>) -> bool {
    forall|k: int| 0 <= k < s.len() ==> (#[trigger] s[k]) != '{' && s[k] != '}'
}

/// Between any two opening braces stands a closing one.  In particular no
/// opening brace is nested inside another unclosed one.
pub open spec fn clean(s: Seq<char>) -> bool {
    forall|p: int, q: int|
        0 <= p < q < s.len() && (#[trigger] s[p]) == '{' && (#[trigger] s[q]) == '{'
            ==> exists|r: int| p < r < q && s[r] == '}'
}

/// `{path.NAME}` occurs nowhere in `s`.
pub open spec fn no_occurrence(s: Seq<char>, name: Seq<char>) -> bool {
    forall|k: int| !(#[trigger] match_at(s, spec_path_pattern(name), k))
}

proof fn lemma_pattern_shape(name: Seq<char>)
    requires
        brace_free(name),
    ensures
        spec_path_pattern(name).len() == name.len() + 7,
        spec_path_pattern(name)[0] == '{',
        spec_path_pattern(name)[spec_path_pattern(name).len() - 1] == '}',
        forall|m: int|
            1 <= m < spec_path_pattern(name).len() - 1 ==> (#[trigger] spec_path_pattern(
                name,
            )[m]) != '{' && spec_path_pattern(name)[m] != '}',
{
    let pat = spec_path_pattern(name);
    assert forall|m: int| 1 <= m < pat.len() - 1 implies (#[trigger] pat[m]) != '{' && pat[m]
        != '}' by {
        if m >= 6 {
            assert(pat[m] == name[m - 6]);
        }
    }
}

/// An occurrence inside a subrange is an occurrence of the whole.
proof fn lemma_occ_in_subrange(s: Seq<char>, a: int, b: int, pat: Seq<char>, k: int)
    requires
        0 <= a <= b <= s.len(),
        match_at(s.subrange(a, b), pat, k),
    ensures
        match_at(s, pat, a + k),
{
    assert(s.subrange(a + k, a + k + pat.len() as int) =~= s.subrange(a, b).subrange(
        k,
        k + pat.len() as int,
    ));
}

/// A subrange of a clean string is clean.
proof fn lemma_clean_subrange(s: Seq<char>, a: int, b: int)
    requires
        0 <= a <= b <= s.len(),
        clean(s),
    ensures
        clean(s.subrange(a, b)),
{
    let t = s.subrange(a, b);
    assert forall|p: int, q: int|
        0 <= p < q < t.len() && (#[trigger] t[p]) == '{' && (#[trigger] t[q]) == '{'
            implies exists|r: int| p < r < q && t[r] == '}' by {
        assert(s[a + p] == '{' && s[a + q] == '{');
        let r0 = choose|r0: int| a + p < r0 < a + q && s[r0] == '}';
        assert(t[r0 - a] == '}');
        assert(p < r0 - a < q);
    }
}

/// Replacing every `{path.N1}` by a brace-free value in a clean string
/// keeps the string clean, removes every occurrence of `{path.N1}`, and
/// creates no occurrence of any other parameter token.
proof fn lemma_replace_all_props(s: Seq<char>, n1: Seq<char>, v: Seq<char>, n2: Seq<char>)
    requires
        clean(s),
        brace_free(v),
        brace_free(n1),
        brace_free(n2),
        n2 == n1 || no_occurrence(s, n2),
    ensures
        clean(spec_replace_all(s, spec_path_pattern(n1), v)),
        no_occurrence(spec_replace_all(s, spec_path_pattern(n1), v), n2),
    decreases s.len(),
{
    let pat1 = spec_path_pattern(n1);
    let pat2 = spec_path_pattern(n2);
    lemma_pattern_shape(n1);
    lemma_pattern_shape(n2);
    let result = spec_replace_all(s, pat1, v);
    match spec_find_sub(s, pat1, 0) {
        None => {
            assert(result == s);
            lemma_spec_find_sub(s, pat1, 0);
            if n2 == n1 {
                assert forall|k: int| !(#[trigger] match_at(s, pat2, k)) by {
                    if 0 <= k {
                        assert(!match_at(s, pat1, k));
                    }
                }
            }
        },
        Some(i) => {
            lemma_spec_find_sub(s, pat1, 0);
            let l1 = pat1.len() as int;
            let a = s.subrange(0, i);
            let s2 = s.subrange(i + l1, s.len() as int);
            let r2 = spec_replace_all(s2, pat1, v);
            assert(result == a + v + r2);
            assert(s[i] == '{') by {
                assert(s.subrange(i, i + l1)[0] == pat1[0]);
            }
            lemma_clean_subrange(s, i + l1, s.len() as int);
            if n2 == n1 {
                lemma_replace_all_props(s2, n1, v, n2);
            } else {
                assert forall|k: int| !(#[trigger] match_at(s2, pat2, k)) by {
                    if match_at(s2, pat2, k) {
                        lemma_occ_in_subrange(s, i + l1, s.len() as int, pat2, k);
                    }
                }
                lemma_replace_all_props(s2, n1, v, n2);
            }
            // every opening brace in the prefix is closed inside the prefix
            assert forall|p: int| 0 <= p < a.len() && (#[trigger] a[p]) == '{' implies exists|
                rr: int,
            | p < rr < a.len() && a[rr] == '}' by {
                assert(s[p] == '{');
                let r0 = choose|r0: int| p < r0 < i && s[r0] == '}';
                assert(a[r0] == '}');
            }
            lemma_clean_subrange(s, 0, i);
            lemma_concat_clean(a, v, r2);
            lemma_concat_no_occ(s, i, n1, v, r2, n2);
        },
    }
}

/// With every opening brace of `a` closed within `a`, `v` brace-free and
/// `r` clean, the concatenation is clean.
proof fn lemma_concat_clean(a: Seq<char>, v: Seq<char>, r: Seq<char>)
    requires
        clean(a),
        brace_free(v),
        clean(r),
        forall|p: int| 0 <= p < a.len() && (#[trigger] a[p]) == '{' ==> exists|rr: int|
            p < rr < a.len() && a[rr] == '}',
    ensures
        clean(a + v + r),
{
    let s = a + v + r;
    let la = a.len() as int;
    let lv = v.len() as int;
    assert forall|p: int, q: int|
        0 <= p < q < s.len() && (#[trigger] s[p]) == '{' && (#[trigger] s[q]) == '{'
            implies exists|rr: int| p < rr < q && s[rr] == '}' by {
        if q < la {
            let r0 = choose|r0: int| p < r0 < q && a[r0] == '}';
            assert(s[r0] == '}');
        } else if la <= q < la + lv {
            assert(v[q - la] == '{');
            assert(false);
        } else if p < la {
            // p inside `a`, q inside `r`: close within `a`
            assert(a[p] == '{');
            let r0 = choose|r0: int| p < r0 < la && a[r0] == '}';
            assert(s[r0] == '}');
            assert(p < r0 < q);
        } else if la <= p < la + lv {
            assert(v[p - la] == '{');
            assert(false);
        } else {
            // both inside `r`
            assert(r[p - la - lv] == '{' && r[q - la - lv] == '{');
            let r0 = choose|r0: int| p - la - lv < r0 < q - la - lv && r[r0] == '}';
            assert(s[la + lv + r0] == '}');
            assert(p < la + lv + r0 < q);
        }
    }
}

/// No occurrence of `{path.N2}` survives in prefix + value + processed
/// rest: none stood in the prefix or the rest, the value has no braces, and
/// a span across a junction would contradict cleanliness.
proof fn lemma_concat_no_occ(
    s: Seq<char>,
    i: int,
    n1: Seq<char>,
    v: Seq<char>,
    r2: Seq<char>,
    n2: Seq<char>,
)
    requires
        clean(s),
        brace_free(v),
        brace_free(n1),
        brace_free(n2),
        spec_find_sub(s, spec_path_pattern(n1), 0) == Some(i),
        n2 == n1 || no_occurrence(s, n2),
        no_occurrence(r2, n2),
    ensures
        no_occurrence(s.subrange(0, i) + v + r2, n2),
{
    let pat1 = spec_path_pattern(n1);
    let pat2 = spec_path_pattern(n2);
    lemma_pattern_shape(n1);
    lemma_pattern_shape(n2);
    lemma_spec_find_sub(s, pat1, 0);
    let a = s.subrange(0, i);
    let out = a + v + r2;
    let la = i;
    let lv = v.len() as int;
    let l2 = pat2.len() as int;
    assert(s[i] == '{') by {
        assert(s.subrange(i, i + pat1.len() as int)[0] == pat1[0]);
    }
    assert forall|k: int| !(#[trigger] match_at(out, pat2, k)) by {
        if match_at(out, pat2, k) {
            assert(out.subrange(k, k + l2) =~= pat2);
            assert(out[k] == pat2[0]) by {
                assert(out.subrange(k, k + l2)[0] == pat2[0]);
            }
            assert(out[k + l2 - 1] == pat2[l2 - 1]) by {
                assert(out.subrange(k, k + l2)[l2 - 1] == pat2[l2 - 1]);
            }
            assert(forall|m: int| 0 <= m < l2 ==> out[k + m] == pat2[m]) by {
                assert forall|m: int| 0 <= m < l2 implies out[k + m] == pat2[m] by {
                    assert(out.subrange(k, k + l2)[m] == pat2[m]);
                }
            }
            if k + l2 <= la {
                // entirely inside the prefix, hence inside `s`
                assert(match_at(s, pat2, k)) by {
                    assert(s.subrange(k, k + l2) =~= out.subrange(k, k + l2));
                }
                if n2 == n1 {
                    assert(k < i);
                    assert(!match_at(s, pat1, k));
                }
                assert(false);
            } else if k >= la + lv {
                assert(match_at(r2, pat2, k - la - lv)) by {
                    assert(r2.subrange(k - la - lv, k - la - lv + l2) =~= out.subrange(
                        k,
                        k + l2,
                    ));
                }
                assert(false);
            } else if la <= k {
                // starts inside the brace-free value
                assert(out[k] == v[k - la]);
                assert(false);
            } else {
                // spans the junction: out[k] is a `{` of the prefix
                assert(out[k] == a[k]);
                assert(s[k] == '{');
                assert(k < i);
                let r0 = choose|r0: int| k < r0 < i && s[r0] == '}';
                assert(out[r0] == a[r0]);
                assert(out[r0] == '}');
                let m = r0 - k;
                assert(0 < m);
                assert(m < i - k);
                assert(i - k < l2);
                assert(pat2[m] == out[k + m]);
                assert(pat2[m] == '}');
                assert(1 <= m < l2 - 1);
                assert(false);
            }
        }
    }
}

proof fn lemma_preprocess_str_preserves(
    s: Seq<char>,
    pairs: Seq<(Seq<char>, Seq<char>)>,
    n: Seq<char>,
)
    requires
        clean(s),
        forall|i: int| 0 <= i < pairs.len() ==> brace_free((#[trigger] pairs[i]).0)
            && brace_free(pairs[i].1),
        brace_free(n),
        no_occurrence(s, n),
    ensures
        clean(spec_preprocess_str(s, pairs)),
        no_occurrence(spec_preprocess_str(s, pairs), n),
    decreases pairs.len(),
{
    if pairs.len() > 0 {
        let s1 = spec_replace_all(s, spec_path_pattern(pairs[0].0), pairs[0].1);
        lemma_replace_all_props(s, pairs[0].0, pairs[0].1, n);
        let rest = pairs.subrange(1, pairs.len() as int);
        assert forall|i: int| 0 <= i < rest.len() implies brace_free((#[trigger] rest[i]).0)
            && brace_free(rest[i].1) by {
            assert(rest[i] == pairs[i + 1]);
        }
        lemma_preprocess_str_preserves(s1, rest, n);
    }
}

proof fn lemma_preprocess_str_removes(s: Seq<char>, pairs: Seq<(Seq<char>, Seq<char>)>)
    requires
        clean(s),
        forall|i: int| 0 <= i < pairs.len() ==> brace_free((#[trigger] pairs[i]).0)
            && brace_free(pairs[i].1),
    ensures
        clean(spec_preprocess_str(s, pairs)),
        forall|i: int| 0 <= i < pairs.len() ==> no_occurrence(
            spec_preprocess_str(s, pairs),
            (#[trigger] pairs[i]).0,
        ),
    decreases pairs.len(),
{
    if pairs.len() > 0 {
        let s1 = spec_replace_all(s, spec_path_pattern(pairs[0].0), pairs[0].1);
        lemma_replace_all_props(s, pairs[0].0, pairs[0].1, pairs[0].0);
        let rest = pairs.subrange(1, pairs.len() as int);
        assert forall|i: int| 0 <= i < rest.len() implies brace_free((#[trigger] rest[i]).0)
            && brace_free(rest[i].1) by {
            assert(rest[i] == pairs[i + 1]);
        }
        lemma_preprocess_str_removes(s1, rest);
        lemma_preprocess_str_preserves(s1, rest, pairs[0].0);
        assert forall|i: int| 0 <= i < pairs.len() implies no_occurrence(
            spec_preprocess_str(s, pairs),
            (#[trigger] pairs[i]).0,
        ) by {
            if i > 0 {
                assert(rest[i - 1] == pairs[i]);
                assert(no_occurrence(spec_preprocess_str(s1, rest), rest[i - 1].0));
            }
        }
    }
}

proof fn lemma_preprocess_str_identity(s: Seq<char>, pairs: Seq<(Seq<char>, Seq<char>)>)
    requires
        forall|i: int| 0 <= i < pairs.len() ==> no_occurrence(s, (#[trigger] pairs[i]).0),
    ensures
        spec_preprocess_str(s, pairs) == s,
    decreases pairs.len(),
{
    if pairs.len() > 0 {
        let pat = spec_path_pattern(pairs[0].0);
        assert(pat.len() > 0) by {
            assert(pat[0] == '{');
        }
        match spec_find_sub(s, pat, 0) {
            None => {},
            Some(i) => {
                lemma_spec_find_sub(s, pat, 0);
                assert(match_at(s, pat, i));
                assert(false);
            },
        }
        assert(spec_replace_all(s, pat, pairs[0].1) == s);
        let rest = pairs.subrange(1, pairs.len() as int);
        assert forall|i: int| 0 <= i < rest.len() implies no_occurrence(
            s,
            (#[trigger] rest[i]).0,
        ) by {
            assert(rest[i] == pairs[i + 1]);
        }
        lemma_preprocess_str_identity(s, rest);
    }
}

/// When a span's content is an accepted `path.N` token, the whole span is an
/// occurrence of the parameter pattern.
proof fn lemma_span_is_occurrence(s: Seq<char>, i: int, j: int, content: Seq<char>)
    requires
        0 <= i < j < s.len(),
        s[i] == '{',
        s[j] == '}',
        content == s.subrange(i + 1, j),
        content.len() >= 5,
        content.subrange(0, 5) == crate::placeholder::path_prefix(),
    ensures
        match_at(s, spec_path_pattern(content.subrange(5, content.len() as int)), i),
{
    let n = content.subrange(5, content.len() as int);
    let pat = spec_path_pattern(n);
    assert(pat.len() == n.len() + 7);
    assert(j - i + 1 == pat.len());
    assert forall|m: int| 0 <= m < pat.len() implies s.subrange(i, i + pat.len() as int)[m]
        == pat[m] by {
        if m == 0 {
        } else if m < 6 {
            assert(content.subrange(0, 5)[m - 1] == crate::placeholder::path_prefix()[m - 1]);
            assert(content[m - 1] == s[i + m]);
        } else if m < pat.len() - 1 {
            assert(pat[m] == n[m - 6]);
            assert(n[m - 6] == content[m - 1]);
            assert(content[m - 1] == s[i + m]);
        } else {
            assert(s[i + m] == s[j]);
        }
    }
    assert(s.subrange(i, i + pat.len() as int) =~= pat);
}

proof fn lemma_scan_no_bound(
    s: Seq<char>,
    pairs: Seq<(Seq<char>, Seq<char>)>,
    pmap: Map<Seq<char>, Seq<char>>,
)
    requires
        forall|i: int| 0 <= i < pairs.len() ==> no_occurrence(s, (#[trigger] pairs[i]).0),
        forall|n: Seq<char>| #[trigger] pmap.contains_key(n) ==> exists|i: int|
            0 <= i < pairs.len() && pairs[i].0 == n,
    ensures
        spec_scan(s, ResolverModel::PathParams(pmap)) == s,
    decreases s.len(),
{
    let m = ResolverModel::PathParams(pmap);
    match spec_find(s, 0, '{') {
        None => {},
        Some(i) => {
            lemma_spec_find(s, 0, '{');
            match spec_find(s, i, '}') {
                None => {},
                Some(j) => {
                    lemma_spec_find(s, i, '}');
                    let content = s.subrange(i + 1, j);
                    match spec_resolve(m, content) {
                        Some(_) => {
                            let n = content.subrange(5, content.len() as int);
                            assert(pmap.contains_key(n));
                            let i0 = choose|i0: int|
                                0 <= i0 < pairs.len() && pairs[i0].0 == n;
                            lemma_span_is_occurrence(s, i, j, content);
                            assert(match_at(s, spec_path_pattern(pairs[i0].0), i));
                            assert(false);
                        },
                        None => {
                            let rest = s.subrange(j + 1, s.len() as int);
                            assert forall|k: int| 0 <= k < pairs.len() implies no_occurrence(
                                rest,
                                (#[trigger] pairs[k]).0,
                            ) by {
                                assert forall|p: int| !(#[trigger] match_at(
                                    rest,
                                    spec_path_pattern(pairs[k].0),
                                    p,
                                )) by {
                                    if match_at(rest, spec_path_pattern(pairs[k].0), p) {
                                        lemma_occ_in_subrange(s, j + 1, s.len() as int,
                                            spec_path_pattern(pairs[k].0), p);
                                    }
                                }
                            }
                            lemma_scan_no_bound(rest, pairs, pmap);
                            assert(s.subrange(0, j + 1) + rest =~= s);
                        },
                    }
                },
            }
        },
    }
}

proof fn lemma_substitute_str_no_bound(
    s: Seq<char>,
    pairs: Seq<(Seq<char>, Seq<char>)>,
    pmap: Map<Seq<char>, Seq<char>>,
)
    requires
        forall|i: int| 0 <= i < pairs.len() ==> no_occurrence(s, (#[trigger] pairs[i]).0),
        forall|n: Seq<char>| #[trigger] pmap.contains_key(n) ==> exists|i: int|
            0 <= i < pairs.len() && pairs[i].0 == n,
    ensures
        spec_substitute(SpecJson::Str(s), ResolverModel::PathParams(pmap)) == SpecJson::Str(s),
{
    let m = ResolverModel::PathParams(pmap);
    if crate::placeholder::whole_placeholder(s) && spec_resolve(
        m,
        s.subrange(1, s.len() - 1),
    ) is Some {
        let content = s.subrange(1, s.len() - 1);
        let n = content.subrange(5, content.len() as int);
        assert(pmap.contains_key(n));
        let i0 = choose|i0: int| 0 <= i0 < pairs.len() && pairs[i0].0 == n;
        lemma_span_is_occurrence(s, 0, s.len() - 1, content);
        assert(match_at(s, spec_path_pattern(pairs[i0].0), 0));
        assert(false);
    }
    lemma_scan_no_bound(s, pairs, pmap);
}

/// All strings of a tree satisfy `clean`.
pub open spec fn tree_clean(v: SpecJson) -> bool
    decreases v,
{
    match v {
        SpecJson::Str(s) => clean(s),
        SpecJson::Arr(items) => {
            proof {
                assert(decreases_to!(v => items));
            }
            tree_clean_items(items)
        },
        SpecJson::Obj(fields) => {
            proof {
                assert(decreases_to!(v => fields));
            }
            tree_clean_fields(fields)
        },
        _ => true,
    }
}

pub open spec fn tree_clean_items(items: Seq<SpecJson>) -> bool
    decreases items,
{
    if items.len() == 0 {
        true
    } else {
        proof {
            assert(decreases_to!(items => items.subrange(0, items.len() - 1)));
            assert(decreases_to!(items => items[items.len() - 1]));
        }
        tree_clean_items(items.subrange(0, items.len() - 1)) && tree_clean(
            items[items.len() - 1],
        )
    }
}

pub open spec fn tree_clean_fields(fields: Seq<(Seq<char>, SpecJson)>) -> bool
    decreases fields,
{
    if fields.len() == 0 {
        true
    } else {
        proof {
            assert(decreases_to!(fields => fields.subrange(0, fields.len() - 1)));
            assert(decreases_to!(fields => fields[fields.len() - 1]));
            assert(decreases_to!(fields[fields.len() - 1] => fields[fields.len() - 1].1));
        }
        tree_clean_fields(fields.subrange(0, fields.len() - 1)) && tree_clean(
            fields[fields.len() - 1].1,
        )
    }
}

proof fn lemma_tree_clean_items(items: Seq<SpecJson>)
    ensures
        tree_clean_items(items) <==> (forall|i: int|
            0 <= i < items.len() ==> tree_clean(#[trigger] items[i])),
    decreases items.len(),
{
    if items.len() > 0 {
        lemma_tree_clean_items(items.subrange(0, items.len() - 1));
        if tree_clean_items(items) {
            assert forall|i: int| 0 <= i < items.len() implies tree_clean(
                #[trigger] items[i],
            ) by {
                if i < items.len() - 1 {
                    assert(items.subrange(0, items.len() - 1)[i] == items[i]);
                }
            }
        } else {
            if forall|i: int| 0 <= i < items.len() ==> tree_clean(#[trigger] items[i]) {
                assert forall|i: int| 0 <= i < items.len() - 1 implies tree_clean(
                    #[trigger] items.subrange(0, items.len() - 1)[i],
                ) by {
                    assert(items.subrange(0, items.len() - 1)[i] == items[i]);
                }
                assert(false);
            }
        }
    }
}

proof fn lemma_tree_clean_fields(fields: Seq<(Seq<char>, SpecJson)>)
    ensures
        tree_clean_fields(fields) <==> (forall|i: int|
            0 <= i < fields.len() ==> tree_clean((#[trigger] fields[i]).1)),
    decreases fields.len(),
{
    if fields.len() > 0 {
        lemma_tree_clean_fields(fields.subrange(0, fields.len() - 1));
        if tree_clean_fields(fields) {
            assert forall|i: int| 0 <= i < fields.len() implies tree_clean(
                (#[trigger] fields[i]).1,
            ) by {
                if i < fields.len() - 1 {
                    assert(fields.subrange(0, fields.len() - 1)[i] == fields[i]);
                }
            }
        } else {
            if forall|i: int| 0 <= i < fields.len() ==> tree_clean((#[trigger] fields[i]).1) {
                assert forall|i: int| 0 <= i < fields.len() - 1 implies tree_clean(
                    (#[trigger] fields.subrange(0, fields.len() - 1)[i]).1,
                ) by {
                    assert(fields.subrange(0, fields.len() - 1)[i] == fields[i]);
                }
                assert(false);
            }
        }
    }
}

/// No string of the tree holds an occurrence of any bound parameter token.
pub open spec fn tree_no_bound(v: SpecJson, pairs: Seq<(Seq<char>, Seq<char>)>) -> bool
    decreases v,
{
    match v {
        SpecJson::Str(s) => forall|i: int|
            0 <= i < pairs.len() ==> no_occurrence(s, (#[trigger] pairs[i]).0),
        SpecJson::Arr(items) => {
            proof {
                assert(decreases_to!(v => items));
            }
            tree_no_bound_items(items, pairs)
        },
        SpecJson::Obj(fields) => {
            proof {
                assert(decreases_to!(v => fields));
            }
            tree_no_bound_fields(fields, pairs)
        },
        _ => true,
    }
}

pub open spec fn tree_no_bound_items(
    items: Seq<SpecJson>,
    pairs: Seq<(Seq<char>, Seq<char>)>,
) -> bool
    decreases items,
{
    if items.len() == 0 {
        true
    } else {
        proof {
            assert(decreases_to!(items => items.subrange(0, items.len() - 1)));
            assert(decreases_to!(items => items[items.len() - 1]));
        }
        tree_no_bound_items(items.subrange(0, items.len() - 1), pairs) && tree_no_bound(
            items[items.len() - 1],
            pairs,
        )
    }
}

pub open spec fn tree_no_bound_fields(
    fields: Seq<(Seq<char>, SpecJson)>,
    pairs: Seq<(Seq<char>, Seq<char>)>,
) -> bool
    decreases fields,
{
    if fields.len() == 0 {
        true
    } else {
        proof {
            assert(decreases_to!(fields => fields.subrange(0, fields.len() - 1)));
            assert(decreases_to!(fields => fields[fields.len() - 1]));
            assert(decreases_to!(fields[fields.len() - 1] => fields[fields.len() - 1].1));
        }
        tree_no_bound_fields(fields.subrange(0, fields.len() - 1), pairs) && tree_no_bound(
            fields[fields.len() - 1].1,
            pairs,
        )
    }
}

proof fn lemma_tree_no_bound_items(items: Seq<SpecJson>, pairs: Seq<(Seq<char>, Seq<char>)>)
    ensures
        tree_no_bound_items(items, pairs) <==> (forall|i: int|
            0 <= i < items.len() ==> tree_no_bound(#[trigger] items[i], pairs)),
    decreases items.len(),
{
    if items.len() > 0 {
        lemma_tree_no_bound_items(items.subrange(0, items.len() - 1), pairs);
        if tree_no_bound_items(items, pairs) {
            assert forall|i: int| 0 <= i < items.len() implies tree_no_bound(
                #[trigger] items[i],
                pairs,
            ) by {
                if i < items.len() - 1 {
                    assert(items.subrange(0, items.len() - 1)[i] == items[i]);
                }
            }
        } else {
            if forall|i: int| 0 <= i < items.len() ==> tree_no_bound(
                #[trigger] items[i],
                pairs,
            ) {
                assert forall|i: int| 0 <= i < items.len() - 1 implies tree_no_bound(
                    #[trigger] items.subrange(0, items.len() - 1)[i],
                    pairs,
                ) by {
                    assert(items.subrange(0, items.len() - 1)[i] == items[i]);
                }
                assert(false);
            }
        }
    }
}

proof fn lemma_tree_no_bound_fields(
    fields: Seq<(Seq<char>, SpecJson)>,
    pairs: Seq<(Seq<char>, Seq<char>)>,
)
    ensures
        tree_no_bound_fields(fields, pairs) <==> (forall|i: int|
            0 <= i < fields.len() ==> tree_no_bound((#[trigger] fields[i]).1, pairs)),
    decreases fields.len(),
{
    if fields.len() > 0 {
        lemma_tree_no_bound_fields(fields.subrange(0, fields.len() - 1), pairs);
        if tree_no_bound_fields(fields, pairs) {
            assert forall|i: int| 0 <= i < fields.len() implies tree_no_bound(
                (#[trigger] fields[i]).1,
                pairs,
            ) by {
                if i < fields.len() - 1 {
                    assert(fields.subrange(0, fields.len() - 1)[i] == fields[i]);
                }
            }
        } else {
            if forall|i: int| 0 <= i < fields.len() ==> tree_no_bound(
                (#[trigger] fields[i]).1,
                pairs,
            ) {
                assert forall|i: int| 0 <= i < fields.len() - 1 implies tree_no_bound(
                    (#[trigger] fields.subrange(0, fields.len() - 1)[i]).1,
                    pairs,
                ) by {
                    assert(fields.subrange(0, fields.len() - 1)[i] == fields[i]);
                }
                assert(false);
            }
        }
    }
}

proof fn lemma_preprocess_tree_removes(v: SpecJson, pairs: Seq<(Seq<char>, Seq<char>)>)
    requires
        tree_clean(v),
        forall|i: int| 0 <= i < pairs.len() ==> brace_free((#[trigger] pairs[i]).0)
            && brace_free(pairs[i].1),
    ensures
        tree_no_bound(spec_preprocess(v, pairs), pairs),
    decreases v,
{
    match v {
        SpecJson::Str(s) => {
            lemma_preprocess_str_removes(s, pairs);
        },
        SpecJson::Arr(items) => {
            let out = spec_preprocess_items(items, pairs);
            lemma_preprocess_items(items, pairs);
            lemma_tree_clean_items(items);
            assert forall|i: int| 0 <= i < out.len() implies tree_no_bound(
                #[trigger] out[i],
                pairs,
            ) by {
                assert(decreases_to!(v => items));
                assert(decreases_to!(items => items[i]));
                lemma_preprocess_tree_removes(items[i], pairs);
            }
            lemma_tree_no_bound_items(out, pairs);
        },
        SpecJson::Obj(fields) => {
            let out = spec_preprocess_fields(fields, pairs);
            lemma_preprocess_fields(fields, pairs);
            lemma_tree_clean_fields(fields);
            assert forall|i: int| 0 <= i < out.len() implies tree_no_bound(
                (#[trigger] out[i]).1,
                pairs,
            ) by {
                assert(decreases_to!(v => fields));
                assert(decreases_to!(fields => fields[i]));
                assert(decreases_to!(fields[i] => fields[i].1));
                lemma_preprocess_tree_removes(fields[i].1, pairs);
            }
            lemma_tree_no_bound_fields(out, pairs);
        },
        _ => {},
    }
}

proof fn lemma_substitute_tree_no_bound(
    v: SpecJson,
    pairs: Seq<(Seq<char>, Seq<char>)>,
    pmap: Map<Seq<char>, Seq<char>>,
)
    requires
        tree_no_bound(v, pairs),
        forall|n: Seq<char>| #[trigger] pmap.contains_key(n) ==> exists|i: int|
            0 <= i < pairs.len() && pairs[i].0 == n,
    ensures
        spec_substitute(v, ResolverModel::PathParams(pmap)) == v,
    decreases v,
{
    match v {
        SpecJson::Str(s) => {
            lemma_substitute_str_no_bound(s, pairs, pmap);
        },
        SpecJson::Arr(items) => {
            lemma_subst_items(items, ResolverModel::PathParams(pmap));
            lemma_tree_no_bound_items(items, pairs);
            assert forall|i: int| 0 <= i < items.len() implies spec_subst_items(
                items,
                ResolverModel::PathParams(pmap),
            )[i] == items[i] by {
                assert(decreases_to!(v => items));
                assert(decreases_to!(items => items[i]));
                lemma_substitute_tree_no_bound(items[i], pairs, pmap);
            }
            assert(spec_subst_items(items, ResolverModel::PathParams(pmap)) =~= items);
        },
        SpecJson::Obj(fields) => {
            lemma_subst_fields(fields, ResolverModel::PathParams(pmap));
            lemma_tree_no_bound_fields(fields, pairs);
            assert forall|i: int| 0 <= i < fields.len() implies spec_subst_fields(
                fields,
                ResolverModel::PathParams(pmap),
            )[i] == fields[i] by {
                assert(decreases_to!(v => fields));
                assert(decreases_to!(fields => fields[i]));
                assert(decreases_to!(fields[i] => fields[i].1));
                lemma_substitute_tree_no_bound(fields[i].1, pairs, pmap);
            }
            assert(spec_subst_fields(fields, ResolverModel::PathParams(pmap)) =~= fields);
        },
        _ => {},
    }
}

proof fn lemma_preprocess_tree_identity(v: SpecJson, pairs: Seq<(Seq<char>, Seq<char>)>)
    requires
        tree_no_bound(v, pairs),
    ensures
        spec_preprocess(v, pairs) == v,
    decreases v,
{
    match v {
        SpecJson::Str(s) => {
            lemma_preprocess_str_identity(s, pairs);
        },
        SpecJson::Arr(items) => {
            lemma_preprocess_items(items, pairs);
            lemma_tree_no_bound_items(items, pairs);
            assert forall|i: int| 0 <= i < items.len() implies spec_preprocess_items(
                items,
                pairs,
            )[i] == items[i] by {
                assert(decreases_to!(v => items));
                assert(decreases_to!(items => items[i]));
                lemma_preprocess_tree_identity(items[i], pairs);
            }
            assert(spec_preprocess_items(items, pairs) =~= items);
        },
        SpecJson::Obj(fields) => {
            lemma_preprocess_fields(fields, pairs);
            lemma_tree_no_bound_fields(fields, pairs);
            assert forall|i: int| 0 <= i < fields.len() implies spec_preprocess_fields(
                fields,
                pairs,
            )[i] == fields[i] by {
                assert(decreases_to!(v => fields));
                assert(decreases_to!(fields => fields[i]));
                assert(decreases_to!(fields[i] => fields[i].1));
                lemma_preprocess_tree_identity(fields[i].1, pairs);
            }
            assert(spec_preprocess_fields(fields, pairs) =~= fields);
        },
        _ => {},
    }
}

/// Path-parameter substitution is idempotent: applying it twice with the
/// same bindings yields the same tree.  The bindings' names and values must
/// be free of brace characters, and the template's strings must not nest an
/// opening brace inside an unclosed one; with brace-laden bindings a second
/// pass can expand text that the first pass spliced in.
pub proof fn lemma_replace_path_params_idempotent(
    v: SpecJson,
    pairs: Seq<(Seq<char>, Seq<char>)>,
    pmap: Map<Seq<char>, Seq<char>>,
)
    requires
        tree_clean(v),
        forall|i: int| 0 <= i < pairs.len() ==> brace_free((#[trigger] pairs[i]).0)
            && brace_free(pairs[i].1),
        forall|n: Seq<char>| #[trigger] pmap.contains_key(n) ==> exists|i: int|
            0 <= i < pairs.len() && pairs[i].0 == n,
    ensures
        spec_replace_path(spec_replace_path(v, pairs, pmap), pairs, pmap) == spec_replace_path(
            v,
            pairs,
            pmap,
        ),
{
    let w = spec_preprocess(v, pairs);
    lemma_preprocess_tree_removes(v, pairs);
    lemma_substitute_tree_no_bound(w, pairs, pmap);
    lemma_preprocess_tree_identity(w, pairs);
}


/// No `{path.NAME}` token for a bound `NAME` survives path-parameter
/// substitution, under the same conditions.
pub proof fn lemma_no_bound_tokens_remain(
    v: SpecJson,
    pairs: Seq<(Seq<char>, Seq<char>)>,
    pmap: Map<Seq<char>, Seq<char>>,
)
    requires
        tree_clean(v),
        forall|i: int| 0 <= i < pairs.len() ==> brace_free((#[trigger] pairs[i]).0)
            && brace_free(pairs[i].1),
        forall|n: Seq<char>| #[trigger] pmap.contains_key(n) ==> exists|i: int|
            0 <= i < pairs.len() && pairs[i].0 == n,
    ensures
        tree_no_bound(spec_replace_path(v, pairs, pmap), pairs),
{
    let w = spec_preprocess(v, pairs);
    lemma_preprocess_tree_removes(v, pairs);
    lemma_substitute_tree_no_bound(w, pairs, pmap);
}

} // verus!
