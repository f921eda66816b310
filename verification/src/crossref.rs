//! Cross-references: `{objects...}` placeholders on whole string leaves read
//! the object store.  Four forms are tried in order — bare bucket, bucket
//! with field path, single object by id, single object's field — and each
//! form falls through to the next when its bucket or object is absent.

use vstd::prelude::*;
use crate::json::{JsonValue, SpecJson, spec_get};
use crate::types::{ObjectStore, StoredObject, StoredObjectV, objlist_view};
use crate::pattern::{spec_split, split_char, vecs_view};
use crate::text::{spec_find, lemma_spec_find, find_char, subvec, chars_string, str_chars};

verus! {

pub open spec fn objects_prefix() -> Seq<char> {
    seq!['{', 'o', 'b', 'j', 'e', 'c', 't', 's', '.']
}

// ---------------------------------------------------------------------------
// Field paths
// ---------------------------------------------------------------------------

/// Walk one object level per part; `None` as soon as a part is missing or an
/// intermediate value is not an object.
pub open spec fn spec_field_walk(v: SpecJson, parts: Seq<Seq<char>>) -> Option<SpecJson>
    decreases parts.len(),
{
    if parts.len() == 0 {
        Some(v)
    } else {
        match spec_get(v, parts[0]) {
            Some(x) => spec_field_walk(x, parts.subrange(1, parts.len() as int)),
            None => None,
        }
    }
}

/// The value under a dot-separated field path.
pub open spec fn spec_extract_field(v: SpecJson, fpath: Seq<char>) -> Option<SpecJson> {
    spec_field_walk(v, spec_split(fpath, '.'))
}

/// The value under the dot-separated path `fpath`, walking nested objects.
pub fn extract_field_value(data: &JsonValue, fpath: &Vec<char>) -> (r: Option<JsonValue>)
    ensures
        match r {
            Some(v) => spec_extract_field(data@, fpath@) == Some(v@),
            None => spec_extract_field(data@, fpath@) is None,
        },
{
    let parts = split_char(fpath, '.');
    let ghost pv = vecs_view(parts@);
    proof {
        assert(pv.subrange(0, pv.len() as int) =~= pv);
    }
    let mut current: &JsonValue = data;
    let mut i: usize = 0;
    while i < parts.len()
        invariant
            i <= parts@.len(),
            pv == vecs_view(parts@),
            pv == spec_split(fpath@, '.'),
            spec_field_walk(data@, pv) == spec_field_walk(
                current@,
                pv.subrange(i as int, pv.len() as int),
            ),
        decreases parts@.len() - i,
    {
        let ghost tail = pv.subrange(i as int, pv.len() as int);
        proof {
            assert(tail[0] == pv[i as int]);
            assert(tail.subrange(1, tail.len() as int) =~= pv.subrange(
                i + 1 as int,
                pv.len() as int,
            ));
        }
        let part = chars_string(&parts[i]);
        match current.get(part.as_str()) {
            Some(next) => {
                current = next;
            },
            None => {
                return None;
            },
        }
        i = i + 1;
    }
    proof {
        assert(pv.subrange(pv.len() as int, pv.len() as int).len() == 0);
    }
    Some(current.deep_clone())
}

// ---------------------------------------------------------------------------
// Reference forms over a bucket
// ---------------------------------------------------------------------------

/// The `data` of every object, in insertion order.
pub open spec fn spec_datas(objs: Seq<StoredObjectV>) -> Seq<SpecJson> {
    Seq::new(objs.len(), |i: int| objs[i].data)
}

/// The field value of every object that has the path; others are skipped.
pub open spec fn spec_field_values(objs: Seq<StoredObjectV>, fpath: Seq<char>) -> Seq<SpecJson>
    decreases objs.len(),
{
    if objs.len() == 0 {
        Seq::empty()
    } else {
        let rest = spec_field_values(objs.subrange(1, objs.len() as int), fpath);
        match spec_extract_field(objs[0].data, fpath) {
            Some(x) => seq![x] + rest,
            None => rest,
        }
    }
}

/// The data of the first object whose id is `id`, if any.
pub open spec fn spec_find_obj(objs: Seq<StoredObjectV>, id: Seq<char>) -> Option<SpecJson>
    decreases objs.len(),
{
    if objs.len() == 0 {
        None
    } else if objs[0].id == id {
        Some(objs[0].data)
    } else {
        spec_find_obj(objs.subrange(1, objs.len() as int), id)
    }
}

fn datas_of(list: &Vec<StoredObject>) -> (r: Vec<JsonValue>)
    ensures
        crate::json::arr_view(r@) == spec_datas(objlist_view(list@)),
{
    let mut out: Vec<JsonValue> = Vec::new();
    let mut i: usize = 0;
    while i < list.len()
        invariant
            i <= list@.len(),
            out@.len() == i,
            forall|j: int| 0 <= j < i ==> out@[j]@ == list@[j].data@,
        decreases list@.len() - i,
    {
        let d = list[i].data.deep_clone();
        out.push(d);
        i = i + 1;
    }
    proof {
        crate::json::lemma_arr_view(out@);
        assert(crate::json::arr_view(out@) =~= spec_datas(objlist_view(list@)));
    }
    out
}

fn field_values_of(list: &Vec<StoredObject>, fpath: &Vec<char>) -> (r: Vec<JsonValue>)
    ensures
        crate::json::arr_view(r@) == spec_field_values(objlist_view(list@), fpath@),
{
    let ghost ov = objlist_view(list@);
    proof {
        assert(ov.subrange(0, ov.len() as int) =~= ov);
    }
    let mut out: Vec<JsonValue> = Vec::new();
    let mut i: usize = 0;
    while i < list.len()
        invariant
            i <= list@.len(),
            ov == objlist_view(list@),
            ov.len() == list@.len(),
            forall|j: int| 0 <= j < list@.len() ==> ov[j] == list@[j]@,
            spec_field_values(ov, fpath@) == crate::json::arr_view(out@)
                + spec_field_values(ov.subrange(i as int, ov.len() as int), fpath@),
        decreases list@.len() - i,
    {
        let ghost tail = ov.subrange(i as int, ov.len() as int);
        let ghost oldout = out@;
        proof {
            assert(tail[0] == ov[i as int]);
            assert(tail.subrange(1, tail.len() as int) =~= ov.subrange(
                i + 1 as int,
                ov.len() as int,
            ));
        }
        match extract_field_value(&list[i].data, fpath) {
            Some(v) => {
                out.push(v);
                proof {
                    crate::json::lemma_arr_view(out@);
                    crate::json::lemma_arr_view(oldout);
                    assert(crate::json::arr_view(out@) =~= crate::json::arr_view(oldout)
                        + seq![spec_extract_field(ov[i as int].data, fpath@)->Some_0]);
                    assert(crate::json::arr_view(oldout) + (seq![
                        spec_extract_field(ov[i as int].data, fpath@)->Some_0,
                    ] + spec_field_values(ov.subrange(i + 1 as int, ov.len() as int), fpath@))
                        =~= (crate::json::arr_view(oldout) + seq![
                        spec_extract_field(ov[i as int].data, fpath@)->Some_0,
                    ]) + spec_field_values(ov.subrange(i + 1 as int, ov.len() as int), fpath@));
                }
            },
            None => {
            },
        }
        i = i + 1;
    }
    proof {
        assert(ov.subrange(ov.len() as int, ov.len() as int).len() == 0);
        assert(spec_field_values(ov.subrange(ov.len() as int, ov.len() as int), fpath@)
            =~= Seq::<SpecJson>::empty());
        assert(crate::json::arr_view(out@) + Seq::<SpecJson>::empty() =~= crate::json::arr_view(
            out@,
        ));
    }
    out
}

fn find_obj_in<'a>(list: &'a Vec<StoredObject>, id: &String) -> (r: Option<&'a JsonValue>)
    ensures
        match r {
            Some(v) => spec_find_obj(objlist_view(list@), id@) == Some(v@),
            None => spec_find_obj(objlist_view(list@), id@) is None,
        },
{
    let ghost ov = objlist_view(list@);
    proof {
        assert(ov.subrange(0, ov.len() as int) =~= ov);
    }
    let mut i: usize = 0;
    while i < list.len()
        invariant
            i <= list@.len(),
            ov == objlist_view(list@),
            ov.len() == list@.len(),
            forall|j: int| 0 <= j < list@.len() ==> ov[j] == list@[j]@,
            spec_find_obj(ov, id@) == spec_find_obj(
                ov.subrange(i as int, ov.len() as int),
                id@,
            ),
        decreases list@.len() - i,
    {
        let ghost tail = ov.subrange(i as int, ov.len() as int);
        proof {
            assert(tail[0] == ov[i as int]);
            assert(tail.subrange(1, tail.len() as int) =~= ov.subrange(
                i + 1 as int,
                ov.len() as int,
            ));
        }
        if list[i].id == *id {
            return Some(&list[i].data);
        }
        i = i + 1;
    }
    proof {
        assert(ov.subrange(ov.len() as int, ov.len() as int).len() == 0);
    }
    None
}

// ---------------------------------------------------------------------------
// The reference string
// ---------------------------------------------------------------------------

/// What a whole-string `{objects...}` reference resolves to, if anything.
/// The forms are tried in order; a form whose bucket or object is absent
/// falls through to the next.
pub open spec fn spec_resolve_ref(
    s: Seq<char>,
    store: Map<Seq<char>, Seq<StoredObjectV>>,
) -> Option<SpecJson> {
    let n = s.len() as int;
    if n < 10 || s.subrange(0, 9) != objects_prefix() || s[n - 1] != '}' {
        None
    } else {
        let content = s.subrange(9, n - 1);
        if store.contains_key(content) {
            // bare bucket: the array of all objects' data
            Some(SpecJson::Arr(spec_datas(store[content])))
        } else {
            let dot = spec_find(content, 0, '.');
            if dot is Some && store.contains_key(content.subrange(0, dot->Some_0)) {
                // bucket with field path: per-object field values
                Some(
                    SpecJson::Arr(
                        spec_field_values(
                            store[content.subrange(0, dot->Some_0)],
                            content.subrange(dot->Some_0 + 1, content.len() as int),
                        ),
                    ),
                )
            } else {
                spec_resolve_ref_singular(s, store)
            }
        }
    }
}

/// The two singular forms, tried after the bulk forms.
pub open spec fn spec_resolve_ref_singular(
    s: Seq<char>,
    store: Map<Seq<char>, Seq<StoredObjectV>>,
) -> Option<SpecJson> {
    let n = s.len() as int;
    let content2 = s.subrange(9, n - 2);
    let br2 = spec_find(content2, 0, '[');
    let by_id = if n >= 11 && s[n - 2] == ']' && br2 is Some && store.contains_key(
        content2.subrange(0, br2->Some_0),
    ) {
        spec_find_obj(
            store[content2.subrange(0, br2->Some_0)],
            content2.subrange(br2->Some_0 + 1, content2.len() as int),
        )
    } else {
        None
    };
    if by_id is Some {
        by_id
    } else {
        let content = s.subrange(9, n - 1);
        let br = spec_find(content, 0, '[');
        let cb = spec_find(content, 0, ']');
        if spec_find_pair(s, 0, ']', '.') is Some && br is Some && cb is Some && br->Some_0
            < cb->Some_0 && store.contains_key(content.subrange(0, br->Some_0)) {
            match spec_find_obj(
                store[content.subrange(0, br->Some_0)],
                content.subrange(br->Some_0 + 1, cb->Some_0),
            ) {
                Some(data) => spec_extract_field(
                    data,
                    content.subrange(cb->Some_0 + 2, content.len() as int),
                ),
                None => None,
            }
        } else {
            None
        }
    }
}

/// First index `p >= from` with `s[p] == a` and `s[p + 1] == b`.
pub open spec fn spec_find_pair(s: Seq<char>, from: int, a: char, b: char) -> Option<int>
    decreases s.len() - from,
{
    if from < 0 || from + 1 >= s.len() {
        None
    } else if s[from] == a && s[from + 1] == b {
        Some(from)
    } else {
        spec_find_pair(s, from + 1, a, b)
    }
}

fn find_pair(s: &Vec<char>, a: char, b: char) -> (r: Option<usize>)
    ensures
        spec_find_pair(s@, 0, a, b) == (match r {
            Some(i) => Some(i as int),
            None => None::<int>,
        }),
{
    if s.len() == 0 {
        return None;
    }
    let n = s.len();
    let mut i: usize = 0;
    while i + 1 < n
        invariant
            n == s@.len(),
            i < n,
            spec_find_pair(s@, 0, a, b) == spec_find_pair(s@, i as int, a, b),
        decreases s@.len() - i,
    {
        if s[i] == a && s[i + 1] == b {
            return Some(i);
        }
        i = i + 1;
    }
    None
}

fn has_objects_prefix(s: &Vec<char>) -> (r: bool)
    ensures
        r == (s@.len() >= 9 && s@.subrange(0, 9) == objects_prefix()),
{
    if s.len() < 9 {
        return false;
    }
    let ok = s[0] == '{' && s[1] == 'o' && s[2] == 'b' && s[3] == 'j' && s[4] == 'e' && s[5]
        == 'c' && s[6] == 't' && s[7] == 's' && s[8] == '.';
    proof {
        let p = s@.subrange(0, 9);
        assert(p.len() == 9);
        assert(p[0] == s@[0] && p[1] == s@[1] && p[2] == s@[2] && p[3] == s@[3] && p[4]
            == s@[4] && p[5] == s@[5] && p[6] == s@[6] && p[7] == s@[7] && p[8] == s@[8]);
        if ok {
            assert(p =~= objects_prefix());
        } else {
            assert(p != objects_prefix());
        }
    }
    ok
}

/// Resolve one whole-string reference against the store.
fn resolve_reference_string(s: &Vec<char>, objects: &ObjectStore) -> (r: Option<JsonValue>)
    ensures
        match r {
            Some(v) => spec_resolve_ref(s@, objects@) == Some(v@),
            None => spec_resolve_ref(s@, objects@) is None,
        },
{
    let n = s.len();
    if n < 10 || !has_objects_prefix(s) || s[n - 1] != '}' {
        return None;
    }
    let content = subvec(s, 9, n - 1);
    let contentstr = chars_string(&content);

    // bare bucket
    match objects.get_bucket(contentstr.as_str()) {
        Some(list) => {
            let datas = datas_of(list);
            return Some(JsonValue::Arr(datas));
        },
        None => {},
    }

    // bucket with field path
    match find_char(&content, 0, '.') {
        Some(d) => {
            let tname = chars_string(&subvec(&content, 0, d));
            match objects.get_bucket(tname.as_str()) {
                Some(list) => {
                    let fpath = subvec(&content, d + 1, content.len());
                    let values = field_values_of(list, &fpath);
                    return Some(JsonValue::Arr(values));
                },
                None => {},
            }
        },
        None => {},
    }

    resolve_reference_singular(s, objects)
}

fn resolve_reference_singular(s: &Vec<char>, objects: &ObjectStore) -> (r: Option<JsonValue>)
    requires
        s@.len() >= 10,
        s@.subrange(0, 9) == objects_prefix(),
        s@[s@.len() - 1] == '}',
    ensures
        match r {
            Some(v) => spec_resolve_ref_singular(s@, objects@) == Some(v@),
            None => spec_resolve_ref_singular(s@, objects@) is None,
        },
{
    let n = s.len();

    // single object by id
    if n >= 11 && s[n - 2] == ']' {
        let content2 = subvec(s, 9, n - 2);
        match find_char(&content2, 0, '[') {
            Some(b) => {
                let tname = chars_string(&subvec(&content2, 0, b));
                match objects.get_bucket(tname.as_str()) {
                    Some(list) => {
                        let id = chars_string(&subvec(&content2, b + 1, content2.len()));
                        match find_obj_in(list, &id) {
                            Some(data) => {
                                return Some(data.deep_clone());
                            },
                            None => {},
                        }
                    },
                    None => {},
                }
            },
            None => {},
        }
    }

    // single object's field
    let content = subvec(s, 9, n - 1);
    let pair = find_pair(s, ']', '.');
    let br = find_char(&content, 0, '[');
    let cb = find_char(&content, 0, ']');
    match (pair, br, cb) {
        (Some(_), Some(b), Some(c)) => {
            if b < c {
                let tname = chars_string(&subvec(&content, 0, b));
                match objects.get_bucket(tname.as_str()) {
                    Some(list) => {
                        let id = chars_string(&subvec(&content, b + 1, c));
                        match find_obj_in(list, &id) {
                            Some(data) => {
                                proof {
                                    lemma_pair_bounds(s@, content@);
                                }
                                let fpath = subvec(&content, c + 2, content.len());
                                return extract_field_value(data, &fpath);
                            },
                            None => {
                                return None;
                            },
                        }
                    },
                    None => {
                        return None;
                    },
                }
            } else {
                return None;
            }
        },
        _ => {
            return None;
        },
    }
}

/// With a `"]."` pair somewhere in `s`, the first `]` of the content lies at
/// least two characters before its end.
proof fn lemma_pair_bounds(s: Seq<char>, content: Seq<char>)
    requires
        s.len() >= 10,
        s.subrange(0, 9) == objects_prefix(),
        s[s.len() - 1] == '}',
        content == s.subrange(9, s.len() - 1),
        spec_find_pair(s, 0, ']', '.') is Some,
        spec_find(content, 0, ']') is Some,
    ensures
        spec_find(content, 0, ']')->Some_0 + 2 <= content.len(),
{
    let p = spec_find_pair(s, 0, ']', '.')->Some_0;
    lemma_spec_find_pair(s, 0, ']', '.');
    lemma_spec_find(content, 0, ']');
    let cb = spec_find(content, 0, ']')->Some_0;
    // the pair's `]` lies inside the content, so the first `]` cannot be at
    // the content's last position
    assert(objects_prefix()[8] == '.');
    assert(forall|k: int| 0 <= k < 9 ==> s[k] == objects_prefix()[k]);
    assert(p >= 8);
    if p == 8 {
        assert(s[8] == '.');
        assert(false);
    }
    assert(p - 9 < content.len());
    assert(content[p - 9] == ']');
    if p - 9 == content.len() - 1 {
        assert(s[p + 1] == s[s.len() - 1]);
        assert(false);
    }
    assert(cb <= p - 9);
}

proof fn lemma_spec_find_pair(s: Seq<char>, from: int, a: char, b: char)
    requires
        0 <= from <= s.len(),
    ensures
        match spec_find_pair(s, from, a, b) {
            Some(p) => from <= p && p + 1 < s.len() && s[p] == a && s[p + 1] == b,
            None => true,
        },
    decreases s.len() - from,
{
    if from + 1 < s.len() && !(s[from] == a && s[from + 1] == b) {
        lemma_spec_find_pair(s, from + 1, a, b);
    }
}

// ---------------------------------------------------------------------------
// The tree walk
// ---------------------------------------------------------------------------

/// Cross-reference resolution over a whole tree.
pub open spec fn spec_crossref(v: SpecJson, store: Map<Seq<char>, Seq<StoredObjectV>>) -> SpecJson
    decreases v,
{
    match v {
        SpecJson::Str(s) => match spec_resolve_ref(s, store) {
            Some(r) => r,
            None => SpecJson::Str(s),
        },
        SpecJson::Arr(items) => {
            proof {
                assert(decreases_to!(v => items));
            }
            SpecJson::Arr(spec_crossref_items(items, store))
        },
        SpecJson::Obj(fields) => {
            proof {
                assert(decreases_to!(v => fields));
            }
            SpecJson::Obj(spec_crossref_fields(fields, store))
        },
        _ => v,
    }
}

pub open spec fn spec_crossref_items(
    items: Seq<SpecJson>,
    store: Map<Seq<char>, Seq<StoredObjectV>>,
) -> Seq<SpecJson>
    decreases items,
{
    if items.len() == 0 {
        Seq::empty()
    } else {
        proof {
            assert(decreases_to!(items => items.subrange(0, items.len() - 1)));
            assert(decreases_to!(items => items[items.len() - 1]));
        }
        spec_crossref_items(items.subrange(0, items.len() - 1), store).push(
            spec_crossref(items[items.len() - 1], store),
        )
    }
}

pub open spec fn spec_crossref_fields(
    fields: Seq<(Seq<char>, SpecJson)>,
    store: Map<Seq<char>, Seq<StoredObjectV>>,
) -> Seq<(Seq<char>, SpecJson)>
    decreases fields,
{
    if fields.len() == 0 {
        Seq::empty()
    } else {
        proof {
            assert(decreases_to!(fields => fields.subrange(0, fields.len() - 1)));
            assert(decreases_to!(fields => fields[fields.len() - 1]));
            assert(decreases_to!(fields[fields.len() - 1] => fields[fields.len() - 1].1));
        }
        spec_crossref_fields(fields.subrange(0, fields.len() - 1), store).push(
            (fields[fields.len() - 1].0, spec_crossref(fields[fields.len() - 1].1, store)),
        )
    }
}

pub proof fn lemma_crossref_items(items: Seq<SpecJson>, store: Map<Seq<char>, Seq<StoredObjectV>>)
    ensures
        spec_crossref_items(items, store).len() == items.len(),
        forall|i: int| 0 <= i < items.len() ==> spec_crossref_items(items, store)[i]
            == spec_crossref(items[i], store),
    decreases items.len(),
{
    if items.len() > 0 {
        lemma_crossref_items(items.subrange(0, items.len() - 1), store);
        assert forall|i: int| 0 <= i < items.len() implies spec_crossref_items(items, store)[i]
            == spec_crossref(items[i], store) by {
            if i < items.len() - 1 {
                assert(items.subrange(0, items.len() - 1)[i] == items[i]);
            }
        }
    }
}

pub proof fn lemma_crossref_fields(
    fields: Seq<(Seq<char>, SpecJson)>,
    store: Map<Seq<char>, Seq<StoredObjectV>>,
)
    ensures
        spec_crossref_fields(fields, store).len() == fields.len(),
        forall|i: int| 0 <= i < fields.len() ==> spec_crossref_fields(fields, store)[i] == (
            fields[i].0,
            spec_crossref(fields[i].1, store),
        ),
    decreases fields.len(),
{
    if fields.len() > 0 {
        lemma_crossref_fields(fields.subrange(0, fields.len() - 1), store);
        assert forall|i: int| 0 <= i < fields.len() implies spec_crossref_fields(
            fields,
            store,
        )[i] == (fields[i].0, spec_crossref(fields[i].1, store)) by {
            if i < fields.len() - 1 {
                assert(fields.subrange(0, fields.len() - 1)[i] == fields[i]);
            }
        }
    }
}

/// Replace every whole-string `{objects...}` reference by what it resolves
/// to; strings that resolve to nothing pass through unchanged.
pub fn resolve_cross_references(value: &JsonValue, objects: &ObjectStore) -> (r: JsonValue)
    ensures
        r@ == spec_crossref(value@, objects@),
    decreases value,
{
    match value {
        JsonValue::Str(s) => {
            let cs = str_chars(s.as_str());
            match resolve_reference_string(&cs, objects) {
                Some(v) => v,
                None => JsonValue::Str(s.clone()),
            }
        },
        JsonValue::Arr(items) => {
            let ghost st = objects@;
            let mut out: Vec<JsonValue> = Vec::new();
            let mut i: usize = 0;
            while i < items.len()
                invariant
                    i <= items@.len(),
                    *value == JsonValue::Arr(*items),
                    st == objects@,
                    out@.len() == i,
                    forall|j: int| 0 <= j < i ==> out@[j]@ == spec_crossref(items@[j]@, st),
                decreases items@.len() - i,
            {
                proof {
                    let vj = *value;
                    assert(decreases_to!(vj => vj->Arr_0));
                    assert(decreases_to!(*items => items@));
                    assert(decreases_to!(items@ => items@[i as int]));
                }
                let c = resolve_cross_references(&items[i], objects);
                out.push(c);
                i = i + 1;
            }
            let r = JsonValue::Arr(out);
            proof {
                crate::json::lemma_arr_view(out@);
                crate::json::lemma_arr_view(items@);
                lemma_crossref_items(crate::json::arr_view(items@), st);
                assert(crate::json::arr_view(out@) =~= spec_crossref_items(
                    crate::json::arr_view(items@),
                    st,
                ));
            }
            r
        },
        JsonValue::Obj(fields) => {
            let ghost st = objects@;
            let mut out: Vec<(String, JsonValue)> = Vec::new();
            let mut i: usize = 0;
            while i < fields.len()
                invariant
                    i <= fields@.len(),
                    *value == JsonValue::Obj(*fields),
                    st == objects@,
                    out@.len() == i,
                    forall|j: int| 0 <= j < i ==> out@[j].0@ == fields@[j].0@ && out@[j].1@
                        == spec_crossref(fields@[j].1@, st),
                decreases fields@.len() - i,
            {
                proof {
                    let vj = *value;
                    assert(decreases_to!(vj => vj->Obj_0));
                    assert(decreases_to!(*fields => fields@));
                    assert(decreases_to!(fields@ => fields@[i as int]));
                    assert(decreases_to!(fields@[i as int] => fields@[i as int].1));
                }
                let key = fields[i].0.clone();
                let val = resolve_cross_references(&fields[i].1, objects);
                out.push((key, val));
                i = i + 1;
            }
            let r = JsonValue::Obj(out);
            proof {
                crate::json::lemma_obj_view(out@);
                crate::json::lemma_obj_view(fields@);
                lemma_crossref_fields(crate::json::obj_view(fields@), st);
                assert(crate::json::obj_view(out@) =~= spec_crossref_fields(
                    crate::json::obj_view(fields@),
                    st,
                ));
            }
            r
        },
        JsonValue::Null => JsonValue::Null,
        JsonValue::Bool(b) => JsonValue::Bool(*b),
        JsonValue::Int(n) => JsonValue::Int(*n),
        JsonValue::Num(t) => JsonValue::Num(t.clone()),
    }
}

} // verus!
