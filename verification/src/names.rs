//! Maps keyed by names. The entries are kept in the order in which their
//! names were first inserted.
use vstd::prelude::*;

verus! {

/// The map that a list of (name, value) pairs stands for.
pub open spec fn pairs_map<V>(ps: Seq<(Seq<char>, V)>) -> Map<Seq<char>, V>
    decreases ps.len(),
{
    if ps.len() == 0 {
        Map::empty()
    } else {
        pairs_map(ps.drop_last()).insert(ps.last().0, ps.last().1)
    }
}

/// No name occurs twice in the list.
pub open spec fn distinct_names<V>(ps: Seq<(Seq<char>, V)>) -> bool {
    forall|i: int, j: int| 0 <= i < j < ps.len() ==> ps[i].0 != ps[j].0
}

/// The map of a list of pairs holds exactly the names of the list, each
/// with the value paired with it.
pub proof fn lemma_pairs_map<V>(ps: Seq<(Seq<char>, V)>)
    requires
        distinct_names(ps),
    ensures
        pairs_map(ps).dom().finite(),
        pairs_map(ps).dom().len() == ps.len(),
        forall|i: int| #![trigger ps[i]]
            0 <= i < ps.len() ==> pairs_map(ps).contains_key(ps[i].0) && pairs_map(ps)[ps[i].0]
                == ps[i].1,
        forall|k: Seq<char>|
            pairs_map(ps).contains_key(k) ==> exists|i: int| 0 <= i < ps.len() && ps[i].0 == k,
    decreases ps.len(),
{
    if ps.len() > 0 {
        let init = ps.drop_last();
        assert(distinct_names(init));
        lemma_pairs_map(init);
        assert(!pairs_map(init).contains_key(ps.last().0)) by {
            if pairs_map(init).contains_key(ps.last().0) {
                let i = choose|i: int| 0 <= i < init.len() && init[i].0 == ps.last().0;
                assert(ps[i].0 == ps[ps.len() - 1].0);
            }
        }
        assert forall|i: int| #![trigger ps[i]]
            0 <= i < ps.len() implies pairs_map(ps).contains_key(ps[i].0) && pairs_map(ps)[ps[i].0]
            == ps[i].1 by {
            if i < ps.len() - 1 {
                assert(init[i] == ps[i]);
            }
        }
        assert forall|k: Seq<char>| pairs_map(ps).contains_key(k) implies exists|i: int|
            0 <= i < ps.len() && ps[i].0 == k by {
            if k != ps.last().0 {
                let i = choose|i: int| 0 <= i < init.len() && init[i].0 == k;
                assert(ps[i] == init[i]);
            } else {
                assert(ps[ps.len() - 1].0 == k);
            }
        }
    }
}

/// Replacing the value of a pair changes the map at that name only.
pub proof fn lemma_pairs_map_update<V>(ps: Seq<(Seq<char>, V)>, i: int, v: V)
    requires
        distinct_names(ps),
        0 <= i < ps.len(),
    ensures
        distinct_names(ps.update(i, (ps[i].0, v))),
        pairs_map(ps.update(i, (ps[i].0, v))) == pairs_map(ps).insert(ps[i].0, v),
    decreases ps.len(),
{
    let qs = ps.update(i, (ps[i].0, v));
    assert(distinct_names(qs)) by {
        assert forall|a: int, b: int| 0 <= a < b < qs.len() implies qs[a].0 != qs[b].0 by {
            assert(qs[a].0 == ps[a].0 && qs[b].0 == ps[b].0);
        }
    }
    if i == ps.len() - 1 {
        assert(qs.drop_last() =~= ps.drop_last());
        assert(pairs_map(qs) =~= pairs_map(ps).insert(ps[i].0, v)) by {
            lemma_pairs_map(ps.drop_last());
        }
    } else {
        let init = ps.drop_last();
        assert(distinct_names(init));
        lemma_pairs_map_update(init, i, v);
        assert(qs.drop_last() =~= init.update(i, (init[i].0, v)));
        assert(ps.last().0 != ps[i].0);
        assert(pairs_map(qs) =~= pairs_map(ps).insert(ps[i].0, v));
    }
}

/// A map from names to values, kept as a list of pairs with distinct names.
#[derive(Debug)]
pub struct NameMap<V: View> {
    entries: Vec<(String, V)>,
}

impl<V: View> View for NameMap<V> {
    type V = Map<Seq<char>, V::V>;

    open spec fn view(&self) -> Map<Seq<char>, V::V> {
        pairs_map(self.pairs())
    }
}

impl<V: View> NameMap<V> {
    /// The pairs of the map, in the order in which their names came.
    pub closed spec fn pairs(&self) -> Seq<(Seq<char>, V::V)> {
        self.entries@.map_values(|e: (String, V)| (e.0@, e.1@))
    }

    #[verifier::type_invariant]
    closed spec fn names_distinct(&self) -> bool {
        distinct_names(self.pairs())
    }

    /// An empty map.
    pub fn new() -> (m: Self)
        ensures
            m@ == Map::<Seq<char>, V::V>::empty(),
            m.pairs().len() == 0,
    {
        let m = NameMap { entries: Vec::new() };
        assert(m.pairs() =~= Seq::empty());
        m
    }

    /// The number of names in the map.
    pub fn len(&self) -> (n: usize)
        ensures
            n == self@.len(),
            n == self.pairs().len(),
    {
        proof {
            use_type_invariant(&*self);
            lemma_pairs_map(self.pairs());
        }
        self.entries.len()
    }

    /// Whether the map holds no name.
    pub fn is_empty(&self) -> (b: bool)
        ensures
            b == (self@.len() == 0),
            b == (self@ == Map::<Seq<char>, V::V>::empty()),
    {
        proof {
            use_type_invariant(&*self);
            lemma_pairs_map(self.pairs());
            if self.pairs().len() > 0 {
                assert(self@.contains_key(self.pairs()[0].0));
            } else {
                assert(self@ =~= Map::<Seq<char>, V::V>::empty());
            }
        }
        self.entries.len() == 0
    }

    /// The index of the pair with the given name, if any.
    fn find(&self, name: &str) -> (r: Option<usize>)
        ensures
            match r {
                Some(i) => i < self.pairs().len() && self.pairs()[i as int].0 == name@,
                None => !self@.contains_key(name@),
            },
    {
        proof {
            use_type_invariant(&*self);
            lemma_pairs_map(self.pairs());
        }
        let key = name.to_owned();
        let mut i: usize = 0;
        while i < self.entries.len()
            invariant
                key@ == name@,
                0 <= i <= self.entries.len(),
                self.entries.len() == self.pairs().len(),
                forall|j: int| 0 <= j < i ==> #[trigger] self.pairs()[j].0 != name@,
            decreases self.entries.len() - i,
        {
            assert(self.pairs()[i as int].0 == self.entries[i as int].0@);
            if self.entries[i].0 == key {
                return Some(i);
            }
            i = i + 1;
        }
        proof {
            if self@.contains_key(name@) {
                let j = choose|j: int| 0 <= j < self.pairs().len() && self.pairs()[j].0 == name@;
            }
        }
        None
    }

    /// The value of a name, if the map holds it.
    pub fn get(&self, name: &str) -> (r: Option<&V>)
        ensures
            match r {
                Some(v) => self@.contains_key(name@) && self@[name@] == v@,
                None => !self@.contains_key(name@),
            },
    {
        proof {
            use_type_invariant(&*self);
            lemma_pairs_map(self.pairs());
        }
        match self.find(name) {
            Some(i) => {
                assert(self.pairs()[i as int] == (self.entries[i as int].0@, self.entries[i as int].1@));
                Some(&self.entries[i].1)
            },
            None => None,
        }
    }

    /// Whether the map holds a name.
    pub fn contains_key(&self, name: &str) -> (b: bool)
        ensures
            b == self@.contains_key(name@),
    {
        proof {
            use_type_invariant(&*self);
            lemma_pairs_map(self.pairs());
        }
        self.find(name).is_some()
    }

    /// Sets the value of a name: a name the map holds keeps its place, a new
    /// name goes last.
    pub fn insert(&mut self, name: String, value: V)
        ensures
            final(self)@ == old(self)@.insert(name@, value@),
            old(self)@.contains_key(name@) ==> final(self).pairs().len() == old(self).pairs().len(),
            !old(self)@.contains_key(name@) ==> final(self).pairs() == old(self).pairs().push(
                (name@, value@),
            ),
    {
        proof {
            use_type_invariant(&*self);
            lemma_pairs_map(self.pairs());
        }
        match self.find(name.as_str()) {
            Some(i) => {
                let ghost ps = self.pairs();
                proof {
                    lemma_pairs_map_update(ps, i as int, value@);
                }
                let ghost nv = value@;
                let mut es: Vec<(String, V)> = Vec::new();
                std::mem::swap(&mut es, &mut self.entries);
                es.set(i, (name, value));
                let ghost qs = es@.map_values(|e: (String, V)| (e.0@, e.1@));
                assert(qs =~= ps.update(i as int, (ps[i as int].0, nv)));
                self.entries = es;
            },
            None => {
                let ghost ps = self.pairs();
                let ghost entry = (name@, value@);
                proof {
                    assert forall|j: int| 0 <= j < ps.len() implies ps[j].0 != name@ by {
                        assert(self@.contains_key(ps[j].0));
                    }
                }
                let mut es: Vec<(String, V)> = Vec::new();
                std::mem::swap(&mut es, &mut self.entries);
                es.push((name, value));
                let ghost qs = es@.map_values(|e: (String, V)| (e.0@, e.1@));
                assert(qs =~= ps.push(entry));
                assert(distinct_names(qs));
                self.entries = es;
                assert(pairs_map(self.pairs()) =~= pairs_map(ps).insert(entry.0, entry.1)) by {
                    assert(self.pairs().drop_last() =~= ps);
                }
            },
        }
    }

    /// Removes every name.
    pub fn clear(&mut self)
        ensures
            final(self)@ == Map::<Seq<char>, V::V>::empty(),
            final(self).pairs().len() == 0,
    {
        self.entries = Vec::new();
        assert(self.pairs() =~= Seq::empty());
    }

    /// The pair at a position of the list.
    pub fn entry_at(&self, i: usize) -> (r: (&String, &V))
        requires
            i < self.pairs().len(),
        ensures
            (r.0@, r.1@) == self.pairs()[i as int],
            self@.contains_key(r.0@),
            self@[r.0@] == r.1@,
            forall|j: int| 0 <= j < self.pairs().len() && j != i ==> #[trigger] self.pairs()[j].0 != r.0@,
    {
        proof {
            use_type_invariant(&*self);
            lemma_pairs_map(self.pairs());
        }
        let e = &self.entries[i];
        assert(self.pairs()[i as int] == (e.0@, e.1@));
        (&e.0, &e.1)
    }
}

} // verus!
