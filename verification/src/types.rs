//! The route catalogue and the shared mutable state: configuration types,
//! stored objects, and the object store keyed by object-type name.

use vstd::prelude::*;
use crate::json::{JsonValue, SpecJson};
use crate::maps::{JsonMap, StrMap};

verus! {

// ---------------------------------------------------------------------------
// Stored objects and the object store
// ---------------------------------------------------------------------------

pub struct StoredObject {
    pub id: String,
    pub data: JsonValue,
}

pub struct StoredObjectV {
    pub id: Seq<char>,
    pub data: SpecJson,
}

impl View for StoredObject {
    type V = StoredObjectV;

    open spec fn view(&self) -> StoredObjectV {
        StoredObjectV { id: self.id@, data: self.data@ }
    }
}

/// The view of a bucket: its objects in insertion order.
pub open spec fn objlist_view(s: Seq<StoredObject>) -> Seq<StoredObjectV> {
    Seq::new(s.len(), |i: int| s[i]@)
}

/// First bucket named `k`, if any, as a sequence of object views.
pub open spec fn store_assoc(bs: Seq<(String, Vec<StoredObject>)>, k: Seq<char>) -> Option<
    Seq<StoredObjectV>,
>
    decreases bs.len(),
{
    if bs.len() == 0 {
        None
    } else if bs[0].0@ == k {
        Some(objlist_view(bs[0].1@))
    } else {
        store_assoc(bs.subrange(1, bs.len() as int), k)
    }
}

/// Named, ordered lists of stored objects.
pub struct ObjectStore {
    pub buckets: Vec<(String, Vec<StoredObject>)>,
}

impl View for ObjectStore {
    type V = Map<Seq<char>, Seq<StoredObjectV>>;

    open spec fn view(&self) -> Map<Seq<char>, Seq<StoredObjectV>> {
        Map::new(
            |k: Seq<char>| store_assoc(self.buckets@, k) is Some,
            |k: Seq<char>| store_assoc(self.buckets@, k)->Some_0,
        )
    }
}

/// The bucket list under `t` after an append: the old list, or an empty one
/// where the bucket was absent, extended by the new object.
pub open spec fn spec_appended(
    m: Map<Seq<char>, Seq<StoredObjectV>>,
    t: Seq<char>,
    o: StoredObjectV,
) -> Map<Seq<char>, Seq<StoredObjectV>> {
    if m.contains_key(t) {
        m.insert(t, m[t].push(o))
    } else {
        m.insert(t, seq![o])
    }
}

proof fn lemma_store_assoc_update(
    bs: Seq<(String, Vec<StoredObject>)>,
    i: int,
    nl: Vec<StoredObject>,
    q: Seq<char>,
)
    requires
        0 <= i < bs.len(),
        forall|j: int| 0 <= j < i ==> bs[j].0@ != bs[i].0@,
    ensures
        store_assoc(bs.update(i, (bs[i].0, nl)), q) == (if q == bs[i].0@ {
            Some(objlist_view(nl@))
        } else {
            store_assoc(bs, q)
        }),
    decreases i,
{
    let bs2 = bs.update(i, (bs[i].0, nl));
    assert(bs2.len() == bs.len());
    if i == 0 {
        assert(bs2[0] == (bs[0].0, nl));
        if q == bs[0].0@ {
        } else {
            assert(bs2.subrange(1, bs2.len() as int) =~= bs.subrange(1, bs.len() as int));
        }
    } else {
        assert(bs2[0] == bs[0]);
        if q == bs[0].0@ {
            assert(q != bs[i].0@);
        } else {
            let t = bs.subrange(1, bs.len() as int);
            assert(t[i - 1] == bs[i]);
            assert forall|j: int| 0 <= j < i - 1 implies (#[trigger] t[j]).0@ != t[i - 1].0@ by {
                assert(t[j] == bs[j + 1]);
            }
            lemma_store_assoc_update(t, i - 1, nl, q);
            assert(bs2.subrange(1, bs2.len() as int) =~= t.update(i - 1, (t[i - 1].0, nl)));
        }
    }
}

impl ObjectStore {
    pub fn new() -> (r: ObjectStore)
        ensures
            r@ == Map::<Seq<char>, Seq<StoredObjectV>>::empty(),
    {
        let r = ObjectStore { buckets: Vec::new() };
        proof {
            assert(r@ =~= Map::<Seq<char>, Seq<StoredObjectV>>::empty());
        }
        r
    }

    /// First index of the bucket named `name`, if any.
    fn bucket_index(&self, name: &String) -> (r: Option<usize>)
        ensures
            match r {
                Some(i) => i < self.buckets@.len() && self.buckets@[i as int].0@ == name@
                    && (forall|j: int| 0 <= j < i ==> self.buckets@[j].0@ != name@),
                None => forall|j: int|
                    0 <= j < self.buckets@.len() ==> self.buckets@[j].0@ != name@,
            },
    {
        let mut i: usize = 0;
        while i < self.buckets.len()
            invariant
                i <= self.buckets@.len(),
                forall|j: int| 0 <= j < i ==> self.buckets@[j].0@ != name@,
            decreases self.buckets@.len() - i,
        {
            if self.buckets[i].0 == *name {
                return Some(i);
            }
            i = i + 1;
        }
        None
    }

    /// Push `obj` onto the ordered list under `name`, creating the list if it
    /// is absent.
    pub fn append(&mut self, name: &str, obj: StoredObject)
        ensures
            final(self)@ == spec_appended(old(self)@, name@, obj@),
    {
        let ghost obs = self.buckets@;
        let ghost ov = obj@;
        let key: String = name.to_owned();
        match self.bucket_index(&key) {
            Some(i) => {
                let (nm, mut list) = self.buckets.remove(i);
                let ghost oldlist = list@;
                list.push(obj);
                self.buckets.insert(i, (nm, list));
                proof {
                    let nb = self.buckets@;
                    let nl = nb[i as int].1;
                    assert(nb =~= obs.update(i as int, (obs[i as int].0, nl)));
                    assert(nl@ =~= oldlist.push(obj));
                    assert forall|j: int| 0 <= j < nl@.len() implies #[trigger] objlist_view(
                        nl@,
                    )[j] == objlist_view(oldlist).push(ov)[j] by {
                        if j < oldlist.len() {
                            assert(nl@[j] == oldlist[j]);
                        }
                    }
                    assert(objlist_view(nl@) =~= objlist_view(oldlist).push(ov));
                    assert forall|q: Seq<char>| true implies store_assoc(nb, q) == (if q
                        == name@ {
                        Some(objlist_view(oldlist).push(ov))
                    } else {
                        store_assoc(obs, q)
                    }) by {
                        lemma_store_assoc_update(obs, i as int, nl, q);
                    }
                    lemma_store_first_hit(obs, i as int);
                    assert(self@ =~~= spec_appended(old(self)@, name@, ov));
                }
            },
            None => {
                let mut list: Vec<StoredObject> = Vec::new();
                list.push(obj);
                self.buckets.insert(0, (key, list));
                proof {
                    let nb = self.buckets@;
                    assert(nb.subrange(1, nb.len() as int) =~= obs);
                    assert(objlist_view(nb[0].1@) =~= seq![ov]);
                    assert forall|q: Seq<char>| true implies store_assoc(nb, q) == (if q
                        == name@ {
                        Some(seq![ov])
                    } else {
                        store_assoc(obs, q)
                    }) by {
                        assert(nb.len() > 0);
                    }
                    lemma_store_assoc_none(obs, name@);
                    assert(self@ =~~= spec_appended(old(self)@, name@, ov));
                }
            },
        }
    }

    /// The bucket named `name`, if any.
    pub fn get_bucket<'a>(&'a self, name: &str) -> (r: Option<&'a Vec<StoredObject>>)
        ensures
            match r {
                Some(list) => self@.contains_key(name@) && self@[name@] == objlist_view(
                    list@,
                ),
                None => !self@.contains_key(name@),
            },
    {
        let key: String = name.to_owned();
        let ghost obs = self.buckets@;
        proof {
            assert(obs.subrange(0, obs.len() as int) =~= obs);
        }
        let mut i: usize = 0;
        while i < self.buckets.len()
            invariant
                i <= obs.len(),
                key@ == name@,
                obs == self.buckets@,
                store_assoc(obs, name@) == store_assoc(
                    obs.subrange(i as int, obs.len() as int),
                    name@,
                ),
            decreases obs.len() - i,
        {
            let ghost tail = obs.subrange(i as int, obs.len() as int);
            proof {
                assert(tail[0] == obs[i as int]);
                assert(tail.subrange(1, tail.len() as int) =~= obs.subrange(
                    i + 1 as int,
                    obs.len() as int,
                ));
            }
            if self.buckets[i].0 == key {
                return Some(&self.buckets[i].1);
            }
            i = i + 1;
        }
        proof {
            assert(obs.subrange(obs.len() as int, obs.len() as int).len() == 0);
        }
        None
    }

    /// Drop every bucket.
    pub fn clear(&mut self)
        ensures
            final(self)@ == Map::<Seq<char>, Seq<StoredObjectV>>::empty(),
    {
        self.buckets = Vec::new();
        proof {
            assert(self@ =~= Map::<Seq<char>, Seq<StoredObjectV>>::empty());
        }
    }
}

proof fn lemma_store_first_hit(bs: Seq<(String, Vec<StoredObject>)>, i: int)
    requires
        0 <= i < bs.len(),
        forall|j: int| 0 <= j < i ==> bs[j].0@ != bs[i].0@,
    ensures
        store_assoc(bs, bs[i].0@) == Some(objlist_view(bs[i].1@)),
    decreases i,
{
    if i == 0 {
    } else {
        let t = bs.subrange(1, bs.len() as int);
        assert(t[i - 1] == bs[i]);
        assert forall|j: int| 0 <= j < i - 1 implies (#[trigger] t[j]).0@ != t[i - 1].0@ by {
            assert(t[j] == bs[j + 1]);
        }
        lemma_store_first_hit(t, i - 1);
    }
}

proof fn lemma_store_assoc_none(bs: Seq<(String, Vec<StoredObject>)>, k: Seq<char>)
    requires
        forall|j: int| 0 <= j < bs.len() ==> bs[j].0@ != k,
    ensures
        store_assoc(bs, k) is None,
    decreases bs.len(),
{
    if bs.len() > 0 {
        let t = bs.subrange(1, bs.len() as int);
        assert forall|j: int| 0 <= j < t.len() implies (#[trigger] t[j]).0@ != k by {
            assert(t[j] == bs[j + 1]);
        }
        lemma_store_assoc_none(t, k);
    }
}

// ---------------------------------------------------------------------------
// Configuration
// ---------------------------------------------------------------------------

pub struct VariableConfig {
    pub var_type: String,
    pub default: Option<JsonValue>,
    pub prefix: Option<String>,
    pub min: Option<i64>,
    pub max: Option<i64>,
}

pub struct VariableConfigV {
    pub var_type: Seq<char>,
    pub default: Option<SpecJson>,
    pub prefix: Option<Seq<char>>,
    pub min: Option<i64>,
    pub max: Option<i64>,
}

impl View for VariableConfig {
    type V = VariableConfigV;

    open spec fn view(&self) -> VariableConfigV {
        VariableConfigV {
            var_type: self.var_type@,
            default: match self.default {
                Some(d) => Some(d@),
                None => None,
            },
            prefix: match self.prefix {
                Some(p) => Some(p@),
                None => None,
            },
            min: self.min,
            max: self.max,
        }
    }
}

pub struct ResponseTemplate {
    pub status: Option<u16>,
    pub body: JsonValue,
}

pub struct ResponseTemplateV {
    pub status: Option<u16>,
    pub body: SpecJson,
}

impl View for ResponseTemplate {
    type V = ResponseTemplateV;

    open spec fn view(&self) -> ResponseTemplateV {
        ResponseTemplateV { status: self.status, body: self.body@ }
    }
}

pub struct Route {
    pub path: String,
    pub method: String,
    pub response: Option<ResponseTemplate>,
    pub variables: Option<Vec<(String, VariableConfig)>>,
    pub lua_script: Option<String>,
    pub object_name: Option<String>,
    pub store_object: Option<bool>,
}

pub struct RouteV {
    pub path: Seq<char>,
    pub method: Seq<char>,
    pub response: Option<ResponseTemplateV>,
    pub variables: Option<Seq<(Seq<char>, VariableConfigV)>>,
    pub lua_script: Option<Seq<char>>,
    pub object_name: Option<Seq<char>>,
    pub store_object: Option<bool>,
}

impl View for Route {
    type V = RouteV;

    open spec fn view(&self) -> RouteV {
        RouteV {
            path: self.path@,
            method: self.method@,
            response: match self.response {
                Some(t) => Some(t@),
                None => None,
            },
            variables: match self.variables {
                Some(vs) => Some(Seq::new(vs@.len(), |i: int| (vs@[i].0@, vs@[i].1@))),
                None => None,
            },
            lua_script: match self.lua_script {
                Some(s) => Some(s@),
                None => None,
            },
            object_name: match self.object_name {
                Some(s) => Some(s@),
                None => None,
            },
            store_object: self.store_object,
        }
    }
}

pub struct Config {
    pub routes: Vec<Route>,
    pub defaults: Option<JsonMap>,
}

pub struct ConfigV {
    pub routes: Seq<RouteV>,
    pub defaults: Option<Map<Seq<char>, SpecJson>>,
}

impl View for Config {
    type V = ConfigV;

    open spec fn view(&self) -> ConfigV {
        ConfigV {
            routes: Seq::new(self.routes@.len(), |i: int| self.routes@[i]@),
            defaults: match self.defaults {
                Some(d) => Some(d@),
                None => None,
            },
        }
    }
}

// ---------------------------------------------------------------------------
// Request context and whole-server state
// ---------------------------------------------------------------------------

/// Everything a script invocation sees of the request.
pub struct LuaRequestContext {
    pub method: String,
    pub path: String,
    pub headers: StrMap,
    pub body: Option<JsonValue>,
    pub path_params: StrMap,
}

/// The server state: the immutable catalogue and the three mutable maps.
pub struct AppState {
    pub config: Config,
    pub storage: JsonMap,
    pub objects: ObjectStore,
    pub lua_state: JsonMap,
}

impl AppState {
    /// Empty all three mutable maps, leaving the catalogue untouched.
    pub fn clear_all(&mut self)
        ensures
            final(self).config == old(self).config,
            final(self).storage@ == Map::<Seq<char>, SpecJson>::empty(),
            final(self).objects@ == Map::<Seq<char>, Seq<StoredObjectV>>::empty(),
            final(self).lua_state@ == Map::<Seq<char>, SpecJson>::empty(),
    {
        self.storage.clear();
        self.objects.clear();
        self.lua_state.clear();
    }
}

} // verus!
