//! Path patterns: splitting on `/`, matching a concrete path against a
//! pattern with `{name}` segments, extracting the bound parameters, and
//! picking the first matching route of a catalogue.

use vstd::prelude::*;
use crate::text::{spec_find, lemma_spec_find, lemma_spec_find_shift, find_char, subvec,
    chars_string, str_chars, eq_ignore_ascii_case, upper_seq};
use crate::maps::StrMap;
use crate::types::{Config, RouteV};

verus! {

// ---------------------------------------------------------------------------
// Splitting
// ---------------------------------------------------------------------------

/// The segments of `s` between occurrences of `c`; never empty.
pub open spec fn spec_split(s: Seq<char>, c: char) -> Seq<Seq<char>>
    decreases s.len(),
{
    match spec_find(s, 0, c) {
        None => seq![s],
        Some(i) => {
            proof {
                lemma_spec_find(s, 0, c);
            }
            seq![s.subrange(0, i)] + spec_split(s.subrange(i + 1, s.len() as int), c)
        },
    }
}

/// The views of a vector of character vectors.
pub open spec fn vecs_view(s: Seq<Vec<char>>) -> Seq<Seq<char>> {
    Seq::new(s.len(), |i: int| s[i]@)
}

fn split_from(s: &Vec<char>, from: usize, c: char) -> (r: Vec<Vec<char>>)
    requires
        from <= s@.len(),
    ensures
        vecs_view(r@) == spec_split(s@.subrange(from as int, s@.len() as int), c),
        r@.len() > 0,
    decreases s@.len() - from,
{
    let ghost tail = s@.subrange(from as int, s@.len() as int);
    proof {
        lemma_spec_find_shift(s@, from as int, 0, c);
    }
    match find_char(s, from, c) {
        None => {
            let mut r: Vec<Vec<char>> = Vec::new();
            r.push(subvec(s, from, s.len()));
            proof {
                assert(spec_find(tail, 0, c) is None);
                assert(vecs_view(r@) =~= seq![tail]);
            }
            r
        },
        Some(i) => {
            let n = s.len();
            assert(i < n);
            let head = subvec(s, from, i);
            let mut r = split_from(s, i + 1, c);
            let ghost restparts = vecs_view(r@);
            let ghost oldr = r@;
            r.insert(0, head);
            proof {
                assert(spec_find(tail, 0, c) == Some(i - from));
                lemma_spec_find(tail, 0, c);
                assert(tail.subrange(0, i - from) =~= s@.subrange(from as int, i as int));
                assert(tail.subrange(i - from + 1, tail.len() as int) =~= s@.subrange(
                    i + 1 as int,
                    s@.len() as int,
                ));
                assert(spec_split(tail, c) == seq![head@] + restparts);
                assert forall|j: int| 0 <= j < r@.len() implies #[trigger] vecs_view(r@)[j]
                    == (seq![head@] + restparts)[j] by {
                    if j > 0 {
                        assert(r@[j] == oldr[j - 1]);
                    }
                }
                assert(vecs_view(r@) =~= seq![head@] + restparts);
            }
            r
        },
    }
}

/// Split `s` on `c`.
pub fn split_char(s: &Vec<char>, c: char) -> (r: Vec<Vec<char>>)
    ensures
        vecs_view(r@) == spec_split(s@, c),
        r@.len() > 0,
{
    let r = split_from(s, 0, c);
    proof {
        assert(s@.subrange(0, s@.len() as int) =~= s@);
    }
    r
}

/// Character-vector equality.
pub fn chars_eq(a: &Vec<char>, b: &Vec<char>) -> (r: bool)
    ensures
        r == (a@ == b@),
{
    if a.len() != b.len() {
        return false;
    }
    let mut i: usize = 0;
    while i < a.len()
        invariant
            i <= a@.len(),
            a@.len() == b@.len(),
            forall|j: int| 0 <= j < i ==> a@[j] == b@[j],
        decreases a@.len() - i,
    {
        if a[i] != b[i] {
            return false;
        }
        i = i + 1;
    }
    proof {
        assert(a@ =~= b@);
    }
    true
}

// ---------------------------------------------------------------------------
// Pattern matching and parameter extraction
// ---------------------------------------------------------------------------

/// Is this pattern segment a `{name}` parameter?
pub open spec fn seg_is_param(seg: Seq<char>) -> bool {
    seg.len() > 0 && seg[0] == '{' && seg[seg.len() - 1] == '}'
}

/// The `name` of a `{name}` segment.
pub open spec fn seg_param_name(seg: Seq<char>) -> Seq<char> {
    seg.subrange(1, seg.len() - 1)
}

fn is_param_segment(seg: &Vec<char>) -> (r: bool)
    ensures
        r == seg_is_param(seg@),
{
    seg.len() > 0 && seg[0] == '{' && seg[seg.len() - 1] == '}'
}

/// A pattern matches a path when they have the same number of segments and
/// every pattern segment is a parameter or is equal to the path segment.
pub open spec fn spec_path_match(pat: Seq<char>, path: Seq<char>) -> bool {
    let pp = spec_split(pat, '/');
    let qq = spec_split(path, '/');
    pp.len() == qq.len() && (forall|i: int|
        0 <= i < pp.len() ==> (seg_is_param(#[trigger] pp[i]) || pp[i] == qq[i]))
}

pub fn path_matches_pattern(pattern: &str, path: &str) -> (r: bool)
    ensures
        r == spec_path_match(pattern@, path@),
{
    let pv = str_chars(pattern);
    let qv = str_chars(path);
    let pp = split_char(&pv, '/');
    let qq = split_char(&qv, '/');
    if pp.len() != qq.len() {
        return false;
    }
    let mut i: usize = 0;
    while i < pp.len()
        invariant
            i <= pp@.len(),
            pp@.len() == qq@.len(),
            vecs_view(pp@) == spec_split(pattern@, '/'),
            vecs_view(qq@) == spec_split(path@, '/'),
            forall|j: int| 0 <= j < i ==> (seg_is_param(#[trigger] vecs_view(pp@)[j])
                || vecs_view(pp@)[j] == vecs_view(qq@)[j]),
        decreases pp@.len() - i,
    {
        if !is_param_segment(&pp[i]) && !chars_eq(&pp[i], &qq[i]) {
            proof {
                assert(vecs_view(pp@)[i as int] == pp@[i as int]@);
                assert(vecs_view(qq@)[i as int] == qq@[i as int]@);
                assert(!(seg_is_param(spec_split(pattern@, '/')[i as int]) || spec_split(
                    pattern@,
                    '/',
                )[i as int] == spec_split(path@, '/')[i as int]));
            }
            return false;
        }
        i = i + 1;
    }
    true
}

/// The parameter bindings of the first `n` segments; a later binding of the
/// same name shadows an earlier one.
pub open spec fn spec_params_upto(pp: Seq<Seq<char>>, qq: Seq<Seq<char>>, n: int) -> Map<
    Seq<char>,
    Seq<char>,
>
    decreases n,
{
    if n <= 0 {
        Map::empty()
    } else {
        let m = spec_params_upto(pp, qq, n - 1);
        if seg_is_param(pp[n - 1]) {
            m.insert(seg_param_name(pp[n - 1]), qq[n - 1])
        } else {
            m
        }
    }
}

/// The same bindings as an ordered list, newest first.
pub open spec fn spec_param_pairs_upto(pp: Seq<Seq<char>>, qq: Seq<Seq<char>>, n: int) -> Seq<
    (Seq<char>, Seq<char>),
>
    decreases n,
{
    if n <= 0 {
        Seq::empty()
    } else {
        let p = spec_param_pairs_upto(pp, qq, n - 1);
        if seg_is_param(pp[n - 1]) {
            seq![(seg_param_name(pp[n - 1]), qq[n - 1])] + p
        } else {
            p
        }
    }
}

/// The bindings extracted by matching `path` against `pat`: empty unless the
/// segment counts agree.
pub open spec fn spec_extract(pat: Seq<char>, path: Seq<char>) -> Map<Seq<char>, Seq<char>> {
    let pp = spec_split(pat, '/');
    let qq = spec_split(path, '/');
    if pp.len() == qq.len() {
        spec_params_upto(pp, qq, pp.len() as int)
    } else {
        Map::empty()
    }
}

pub open spec fn spec_extract_pairs(pat: Seq<char>, path: Seq<char>) -> Seq<
    (Seq<char>, Seq<char>),
> {
    let pp = spec_split(pat, '/');
    let qq = spec_split(path, '/');
    if pp.len() == qq.len() {
        spec_param_pairs_upto(pp, qq, pp.len() as int)
    } else {
        Seq::empty()
    }
}

/// Capture each `{name}` pattern segment under `name`.
pub fn extract_path_parameters(pattern: &str, path: &str) -> (r: StrMap)
    ensures
        r@ == spec_extract(pattern@, path@),
        r.pairs() == spec_extract_pairs(pattern@, path@),
{
    let mut params = StrMap::new();
    let pv = str_chars(pattern);
    let qv = str_chars(path);
    let pp = split_char(&pv, '/');
    let qq = split_char(&qv, '/');
    if pp.len() != qq.len() {
        return params;
    }
    let mut i: usize = 0;
    while i < pp.len()
        invariant
            i <= pp@.len(),
            pp@.len() == qq@.len(),
            vecs_view(pp@) == spec_split(pattern@, '/'),
            vecs_view(qq@) == spec_split(path@, '/'),
            params@ == spec_params_upto(vecs_view(pp@), vecs_view(qq@), i as int),
            params.pairs() == spec_param_pairs_upto(vecs_view(pp@), vecs_view(qq@), i as int),
        decreases pp@.len() - i,
    {
        if is_param_segment(&pp[i]) {
            let seg = &pp[i];
            let name = subvec(seg, 1, seg.len() - 1);
            let namestr = chars_string(&name);
            let valstr = chars_string(&qq[i]);
            params.insert(namestr, valstr);
        }
        i = i + 1;
    }
    params
}

// ---------------------------------------------------------------------------
// Route lookup
// ---------------------------------------------------------------------------

/// Does a route answer this method and path?
pub open spec fn spec_route_matches(route: RouteV, method: Seq<char>, path: Seq<char>) -> bool {
    upper_seq(route.method) == upper_seq(method) && (route.path == path || spec_path_match(
        route.path,
        path,
    ))
}

/// Index of the first matching route, if any.
pub open spec fn spec_find_route(routes: Seq<RouteV>, method: Seq<char>, path: Seq<char>) -> Option<
    int,
>
    decreases routes.len(),
{
    if routes.len() == 0 {
        None
    } else if spec_route_matches(routes[0], method, path) {
        Some(0)
    } else {
        match spec_find_route(routes.subrange(1, routes.len() as int), method, path) {
            Some(i) => Some(i + 1),
            None => None,
        }
    }
}

/// The first route of the catalogue, in declaration order, that answers the
/// method (case-insensitively) and the path (literally or as a pattern).
pub fn find_matching_route(config: &Config, method: &str, path: &str) -> (r: Option<usize>)
    ensures
        spec_find_route(config@.routes, method@, path@) == (match r {
            Some(i) => Some(i as int),
            None => None::<int>,
        }),
        r matches Some(i) ==> i < config.routes@.len(),
{
    let ghost routes = config@.routes;
    proof {
        assert(routes.subrange(0, routes.len() as int) =~= routes);
    }
    let pathstr: String = path.to_owned();
    let mut i: usize = 0;
    while i < config.routes.len()
        invariant
            i <= config.routes@.len(),
            routes == config@.routes,
            routes.len() == config.routes@.len(),
            pathstr@ == path@,
            forall|j: int| 0 <= j < i ==> !spec_route_matches(routes[j], method@, path@),
            spec_find_route(routes, method@, path@) == (match spec_find_route(
                routes.subrange(i as int, routes.len() as int),
                method@,
                path@,
            ) {
                Some(x) => Some(x + i),
                None => None::<int>,
            }),
        decreases config.routes@.len() - i,
    {
        let ghost tail = routes.subrange(i as int, routes.len() as int);
        proof {
            assert(tail[0] == routes[i as int]);
            assert(tail.subrange(1, tail.len() as int) =~= routes.subrange(
                i + 1 as int,
                routes.len() as int,
            ));
        }
        let route = &config.routes[i];
        let methods_match = eq_ignore_ascii_case(route.method.as_str(), method);
        if methods_match && (route.path == pathstr || path_matches_pattern(
            route.path.as_str(),
            path,
        )) {
            return Some(i);
        }
        i = i + 1;
    }
    proof {
        assert(routes.subrange(routes.len() as int, routes.len() as int).len() == 0);
    }
    None
}

} // verus!
