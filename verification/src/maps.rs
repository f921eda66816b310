//! Small association-list maps with mathematical `Map` views.  A binding
//! inserted later stands in front of — and thereby shadows — an earlier
//! binding of the same key, so lookup takes the first match.

use vstd::prelude::*;
use crate::json::{JsonValue, SpecJson};

verus! {

/// First value bound to `k`, if any.
pub open spec fn str_assoc(s: Seq<(String, String)>, k: Seq<char>) -> Option<Seq<char>>
    decreases s.len(),
{
    if s.len() == 0 {
        None
    } else if s[0].0@ == k {
        Some(s[0].1@)
    } else {
        str_assoc(s.subrange(1, s.len() as int), k)
    }
}

pub open spec fn json_assoc(s: Seq<(String, JsonValue)>, k: Seq<char>) -> Option<SpecJson>
    decreases s.len(),
{
    if s.len() == 0 {
        None
    } else if s[0].0@ == k {
        Some(s[0].1@)
    } else {
        json_assoc(s.subrange(1, s.len() as int), k)
    }
}

/// A string-to-string map, used for path parameters and request headers.
pub struct StrMap {
    pub entries: Vec<(String, String)>,
}

impl View for StrMap {
    type V = Map<Seq<char>, Seq<char>>;

    open spec fn view(&self) -> Map<Seq<char>, Seq<char>> {
        Map::new(
            |k: Seq<char>| str_assoc(self.entries@, k) is Some,
            |k: Seq<char>| str_assoc(self.entries@, k)->Some_0,
        )
    }
}

impl StrMap {
    /// The bindings in iteration order, newest first.
    pub open spec fn pairs(&self) -> Seq<(Seq<char>, Seq<char>)> {
        Seq::new(self.entries@.len(), |i: int| (self.entries@[i].0@, self.entries@[i].1@))
    }

    pub fn new() -> (r: StrMap)
        ensures
            r@ == Map::<Seq<char>, Seq<char>>::empty(),
            r.pairs() == Seq::<(Seq<char>, Seq<char>)>::empty(),
    {
        let r = StrMap { entries: Vec::new() };
        proof {
            assert(r@ =~= Map::<Seq<char>, Seq<char>>::empty());
            assert(r.pairs() =~= Seq::<(Seq<char>, Seq<char>)>::empty());
        }
        r
    }

    /// Bind `k` to `v`, shadowing any earlier binding.
    pub fn insert(&mut self, k: String, v: String)
        ensures
            final(self)@ == old(self)@.insert(k@, v@),
            final(self).pairs() == seq![(k@, v@)] + old(self).pairs(),
    {
        let ghost oldentries = self.entries@;
        self.entries.insert(0, (k, v));
        proof {
            let ghost k0 = self.entries@[0].0@;
            assert(self.entries@.subrange(1, self.entries@.len() as int) =~= oldentries);
            assert forall|q: Seq<char>| true implies str_assoc(self.entries@, q) == (if q
                == k0 {
                Some(self.entries@[0].1@)
            } else {
                str_assoc(oldentries, q)
            }) by {
                assert(self.entries@.len() > 0);
            }
            assert(self@ =~= old(self)@.insert(k0, self.entries@[0].1@));
            assert(self.pairs() =~= seq![(k0, self.entries@[0].1@)] + old(self).pairs());
        }
    }

    /// The value bound to `k`, if any.
    pub fn get<'a>(&'a self, k: &str) -> (r: Option<&'a String>)
        ensures
            match r {
                Some(v) => self@.contains_key(k@) && self@[k@] == v@,
                None => !self@.contains_key(k@),
            },
    {
        let key: String = k.to_owned();
        let ghost es = self.entries@;
        proof {
            assert(es.subrange(0, es.len() as int) =~= es);
        }
        let mut i: usize = 0;
        while i < self.entries.len()
            invariant
                i <= es.len(),
                key@ == k@,
                es == self.entries@,
                str_assoc(es, k@) == str_assoc(es.subrange(i as int, es.len() as int), k@),
            decreases es.len() - i,
        {
            let ghost tail = es.subrange(i as int, es.len() as int);
            proof {
                assert(tail[0] == es[i as int]);
                assert(tail.subrange(1, tail.len() as int) =~= es.subrange(
                    i + 1 as int,
                    es.len() as int,
                ));
            }
            if self.entries[i].0 == key {
                return Some(&self.entries[i].1);
            }
            i = i + 1;
        }
        proof {
            assert(es.subrange(es.len() as int, es.len() as int).len() == 0);
        }
        None
    }
}

/// A string-to-JSON map, used for defaults, generated variables, the keyed
/// response cache and the script state.
pub struct JsonMap {
    pub entries: Vec<(String, JsonValue)>,
}

impl View for JsonMap {
    type V = Map<Seq<char>, SpecJson>;

    open spec fn view(&self) -> Map<Seq<char>, SpecJson> {
        Map::new(
            |k: Seq<char>| json_assoc(self.entries@, k) is Some,
            |k: Seq<char>| json_assoc(self.entries@, k)->Some_0,
        )
    }
}

impl JsonMap {
    /// The bindings in iteration order, newest first.
    pub open spec fn pairs(&self) -> Seq<(Seq<char>, SpecJson)> {
        Seq::new(self.entries@.len(), |i: int| (self.entries@[i].0@, self.entries@[i].1@))
    }

    pub fn new() -> (r: JsonMap)
        ensures
            r@ == Map::<Seq<char>, SpecJson>::empty(),
            r.pairs() == Seq::<(Seq<char>, SpecJson)>::empty(),
    {
        let r = JsonMap { entries: Vec::new() };
        proof {
            assert(r@ =~= Map::<Seq<char>, SpecJson>::empty());
            assert(r.pairs() =~= Seq::<(Seq<char>, SpecJson)>::empty());
        }
        r
    }

    /// Bind `k` to `v`, shadowing any earlier binding.
    pub fn insert(&mut self, k: String, v: JsonValue)
        ensures
            final(self)@ == old(self)@.insert(k@, v@),
            final(self).pairs() == seq![(k@, v@)] + old(self).pairs(),
    {
        let ghost oldentries = self.entries@;
        let ghost vv = v@;
        self.entries.insert(0, (k, v));
        proof {
            let ghost k0 = self.entries@[0].0@;
            assert(self.entries@.subrange(1, self.entries@.len() as int) =~= oldentries);
            assert forall|q: Seq<char>| true implies json_assoc(self.entries@, q) == (if q
                == k0 {
                Some(self.entries@[0].1@)
            } else {
                json_assoc(oldentries, q)
            }) by {
                assert(self.entries@.len() > 0);
            }
            assert(self@ =~= old(self)@.insert(k0, self.entries@[0].1@));
            assert(self.pairs() =~= seq![(k0, self.entries@[0].1@)] + old(self).pairs());
        }
    }

    /// The value bound to `k`, if any.
    pub fn get<'a>(&'a self, k: &str) -> (r: Option<&'a JsonValue>)
        ensures
            match r {
                Some(v) => self@.contains_key(k@) && self@[k@] == v@,
                None => !self@.contains_key(k@),
            },
    {
        let key: String = k.to_owned();
        let ghost es = self.entries@;
        proof {
            assert(es.subrange(0, es.len() as int) =~= es);
        }
        let mut i: usize = 0;
        while i < self.entries.len()
            invariant
                i <= es.len(),
                key@ == k@,
                es == self.entries@,
                json_assoc(es, k@) == json_assoc(es.subrange(i as int, es.len() as int), k@),
            decreases es.len() - i,
        {
            let ghost tail = es.subrange(i as int, es.len() as int);
            proof {
                assert(tail[0] == es[i as int]);
                assert(tail.subrange(1, tail.len() as int) =~= es.subrange(
                    i + 1 as int,
                    es.len() as int,
                ));
            }
            if self.entries[i].0 == key {
                return Some(&self.entries[i].1);
            }
            i = i + 1;
        }
        proof {
            assert(es.subrange(es.len() as int, es.len() as int).len() == 0);
        }
        None
    }

    /// Drop every binding.
    pub fn clear(&mut self)
        ensures
            final(self)@ == Map::<Seq<char>, SpecJson>::empty(),
    {
        self.entries = Vec::new();
        proof {
            assert(self@ =~= Map::<Seq<char>, SpecJson>::empty());
        }
    }
}

proof fn lemma_str_assoc_dom(entries: Seq<(String, String)>, k: Seq<char>)
    ensures
        str_assoc(entries, k) is Some <==> exists|i: int|
            0 <= i < entries.len() && (#[trigger] entries[i]).0@ == k,
    decreases entries.len(),
{
    if entries.len() > 0 {
        let t = entries.subrange(1, entries.len() as int);
        lemma_str_assoc_dom(t, k);
        if entries[0].0@ == k {
        } else {
            if str_assoc(entries, k) is Some {
                let i = choose|i: int| 0 <= i < t.len() && (#[trigger] t[i]).0@ == k;
                assert(entries[i + 1] == t[i]);
            } else {
                if exists|i: int| 0 <= i < entries.len() && (#[trigger] entries[i]).0@ == k {
                    let i = choose|i: int|
                        0 <= i < entries.len() && (#[trigger] entries[i]).0@ == k;
                    assert(i > 0);
                    assert(t[i - 1] == entries[i]);
                    assert(false);
                }
            }
        }
    }
}

impl StrMap {
    /// A name is bound exactly when it stands in the pairs view.
    pub proof fn lemma_bindings(&self, n: Seq<char>)
        ensures
            self@.contains_key(n) <==> exists|i: int|
                0 <= i < self.pairs().len() && (#[trigger] self.pairs()[i]).0 == n,
    {
        lemma_str_assoc_dom(self.entries@, n);
        if self@.contains_key(n) {
            let i = choose|i: int|
                0 <= i < self.entries@.len() && (#[trigger] self.entries@[i]).0@ == n;
            assert(self.pairs()[i].0 == n);
        } else {
            if exists|i: int| 0 <= i < self.pairs().len() && (#[trigger] self.pairs()[i]).0
                == n {
                let i = choose|i: int|
                    0 <= i < self.pairs().len() && (#[trigger] self.pairs()[i]).0 == n;
                assert(self.entries@[i].0@ == n);
                assert(false);
            }
        }
    }
}

} // verus!
