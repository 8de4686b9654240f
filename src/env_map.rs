//! A small string-to-string map that keeps its keys unique and remembers the
//! order in which keys first arrived: the `setenv` bindings of a rule.
use vstd::prelude::*;

verus! {

/// The map that a sequence of bindings denotes when applied in order: a later
/// binding of a key replaces an earlier one.
pub open spec fn assoc_map(ps: Seq<(Seq<char>, Seq<char>)>) -> Map<Seq<char>, Seq<char>>
    decreases ps.len(),
{
    if ps.len() == 0 {
        Map::empty()
    } else {
        assoc_map(ps.drop_last()).insert(ps.last().0, ps.last().1)
    }
}

/// No key occurs twice.
pub open spec fn keys_unique(ps: Seq<(Seq<char>, Seq<char>)>) -> bool {
    forall|i: int, j: int| 0 <= i < ps.len() && 0 <= j < ps.len() && i != j ==> ps[i].0 != ps[j].0
}

/// Whether `k` is bound somewhere in `ps`.
pub open spec fn has_key(ps: Seq<(Seq<char>, Seq<char>)>, k: Seq<char>) -> bool {
    exists|i: int| 0 <= i < ps.len() && ps[i].0 == k
}

/// Binds `k` to `v`: in place where `k` is already bound, else at the end.
pub open spec fn insert_pair(
    ps: Seq<(Seq<char>, Seq<char>)>,
    k: Seq<char>,
    v: Seq<char>,
) -> Seq<(Seq<char>, Seq<char>)> {
    if has_key(ps, k) {
        let i = choose|i: int| 0 <= i < ps.len() && ps[i].0 == k;
        ps.update(i, (k, v))
    } else {
        ps.push((k, v))
    }
}

/// Binds each pair of `ps`, in order, into `acc`.
pub open spec fn insert_all(
    acc: Seq<(Seq<char>, Seq<char>)>,
    ps: Seq<(Seq<char>, Seq<char>)>,
) -> Seq<(Seq<char>, Seq<char>)>
    decreases ps.len(),
{
    if ps.len() == 0 {
        acc
    } else {
        insert_pair(insert_all(acc, ps.drop_last()), ps.last().0, ps.last().1)
    }
}

/// With unique keys, every binding of `ps` is what the map holds for its key,
/// and the map's keys are exactly those of `ps`.
pub proof fn lemma_assoc_map_unique(ps: Seq<(Seq<char>, Seq<char>)>)
    requires
        keys_unique(ps),
    ensures
        forall|i: int| 0 <= i < ps.len() ==> #[trigger] assoc_map(ps).contains_key(ps[i].0)
            && assoc_map(ps)[ps[i].0] == ps[i].1,
        forall|k: Seq<char>| #[trigger] assoc_map(ps).contains_key(k) <==> has_key(ps, k),
    decreases ps.len(),
{
    if ps.len() > 0 {
        let d = ps.drop_last();
        assert(keys_unique(d));
        lemma_assoc_map_unique(d);
        assert forall|i: int| 0 <= i < ps.len() implies #[trigger] assoc_map(ps).contains_key(ps[i].0)
            && assoc_map(ps)[ps[i].0] == ps[i].1 by {
            if i < ps.len() - 1 {
                assert(d[i] == ps[i]);
                assert(ps[i].0 != ps[ps.len() - 1].0);
                assert(assoc_map(d).contains_key(d[i].0));
            }
        }
        assert forall|k: Seq<char>| #[trigger] assoc_map(ps).contains_key(k) implies has_key(ps, k) by {
            if k != ps.last().0 {
                assert(assoc_map(d).contains_key(k));
                let j = choose|j: int| 0 <= j < d.len() && d[j].0 == k;
                assert(ps[j] == d[j]);
            } else {
                assert(ps[ps.len() - 1].0 == k);
            }
        }
        assert forall|k: Seq<char>| has_key(ps, k) implies #[trigger] assoc_map(ps).contains_key(k) by {
            let j = choose|j: int| 0 <= j < ps.len() && ps[j].0 == k;
            assert(assoc_map(ps).contains_key(ps[j].0));
        }
    }
}

/// Binding a key keeps the keys unique and updates the denoted map.
pub proof fn lemma_insert_pair(ps: Seq<(Seq<char>, Seq<char>)>, k: Seq<char>, v: Seq<char>)
    requires
        keys_unique(ps),
    ensures
        keys_unique(insert_pair(ps, k, v)),
        assoc_map(insert_pair(ps, k, v)) == assoc_map(ps).insert(k, v),
        has_key(ps, k) ==> insert_pair(ps, k, v).len() == ps.len(),
        !has_key(ps, k) ==> insert_pair(ps, k, v).len() == ps.len() + 1,
{
    let r = insert_pair(ps, k, v);
    lemma_assoc_map_unique(ps);
    if has_key(ps, k) {
        let i = choose|i: int| 0 <= i < ps.len() && ps[i].0 == k;
        assert(keys_unique(r));
        lemma_assoc_map_unique(r);
        assert forall|x: Seq<char>| #[trigger] assoc_map(r).contains_key(x)
            <==> assoc_map(ps).insert(k, v).contains_key(x) by {
            if has_key(ps, x) {
                let j = choose|j: int| 0 <= j < ps.len() && ps[j].0 == x;
                assert(r[j].0 == x);
            }
            if has_key(r, x) {
                let j = choose|j: int| 0 <= j < r.len() && r[j].0 == x;
                assert(ps[j].0 == x);
            }
        }
        assert forall|x: Seq<char>| #[trigger] assoc_map(r).contains_key(x) implies assoc_map(r)[x]
            == assoc_map(ps).insert(k, v)[x] by {
            let j = choose|j: int| 0 <= j < r.len() && r[j].0 == x;
            assert(assoc_map(r).contains_key(r[j].0));
            if j != i {
                assert(r[j] == ps[j]);
                assert(assoc_map(ps).contains_key(ps[j].0));
            }
        }
        assert(assoc_map(r) =~= assoc_map(ps).insert(k, v));
    } else {
        assert(r.drop_last() =~= ps);
        assert forall|a: int, b: int| 0 <= a < r.len() && 0 <= b < r.len() && a != b implies r[a].0
            != r[b].0 by {
            if a == ps.len() {
                assert(ps[b].0 == r[b].0);
            } else if b == ps.len() {
                assert(ps[a].0 == r[a].0);
            }
        }
    }
}

/// Bindings from variable names to values, keys unique, in order of first
/// binding.
#[derive(Debug)]
pub struct EnvMap {
    entries: Vec<(String, String)>,
}

impl EnvMap {
    /// The bindings, in order.
    pub closed spec fn pairs(&self) -> Seq<(Seq<char>, Seq<char>)> {
        self.entries@.map_values(|e: (String, String)| (e.0@, e.1@))
    }

    #[verifier::type_invariant]
    closed spec fn unique_keys(&self) -> bool {
        keys_unique(self.pairs())
    }

    pub fn new() -> (r: EnvMap)
        ensures
            r.pairs() == Seq::<(Seq<char>, Seq<char>)>::empty(),
            r@ == Map::<Seq<char>, Seq<char>>::empty(),
    {
        let r = EnvMap { entries: Vec::new() };
        assert(r.pairs() =~= Seq::<(Seq<char>, Seq<char>)>::empty());
        r
    }

    /// The number of bindings.
    pub fn len(&self) -> (r: usize)
        ensures
            r == self.pairs().len(),
    {
        self.entries.len()
    }

    /// The key of the `i`-th binding.
    pub fn key_at(&self, i: usize) -> (r: &String)
        requires
            i < self.pairs().len(),
        ensures
            r@ == self.pairs()[i as int].0,
    {
        &self.entries[i].0
    }

    /// The value of the `i`-th binding.
    pub fn value_at(&self, i: usize) -> (r: &String)
        requires
            i < self.pairs().len(),
        ensures
            r@ == self.pairs()[i as int].1,
    {
        &self.entries[i].1
    }

    /// The position of the binding of `k`, if any.
    fn position(&self, k: &String) -> (r: Option<usize>)
        ensures
            match r {
                Some(i) => i < self.pairs().len() && self.pairs()[i as int].0 == k@,
                None => !has_key(self.pairs(), k@),
            },
    {
        let mut i: usize = 0;
        while i < self.entries.len()
            invariant
                i <= self.entries@.len(),
                self.pairs().len() == self.entries@.len(),
                forall|j: int| 0 <= j < i ==> self.pairs()[j].0 != k@,
            decreases self.entries@.len() - i,
        {
            assert(self.pairs()[i as int].0 == self.entries@[i as int].0@);
            if self.entries[i].0 == *k {
                return Some(i);
            }
            i = i + 1;
        }
        None
    }

    /// The value bound to `k`, if any.
    pub fn get(&self, k: &String) -> (r: Option<&String>)
        ensures
            match r {
                Some(v) => self@.contains_key(k@) && self@[k@] == v@,
                None => !self@.contains_key(k@),
            },
    {
        proof {
            use_type_invariant(self);
            lemma_assoc_map_unique(self.pairs());
        }
        match self.position(k) {
            Some(i) => {
                assert(self.pairs()[i as int].1 == self.entries@[i as int].1@);
                assert(assoc_map(self.pairs()).contains_key(self.pairs()[i as int].0));
                Some(&self.entries[i].1)
            },
            None => None,
        }
    }

    /// Binds `k` to `v`, replacing an earlier binding of `k`.
    pub fn insert(&mut self, k: String, v: String)
        ensures
            final(self).pairs() == insert_pair(old(self).pairs(), k@, v@),
            final(self)@ == old(self)@.insert(k@, v@),
    {
        proof {
            use_type_invariant(&*self);
            lemma_insert_pair(self.pairs(), k@, v@);
        }
        let ghost ps = self.pairs();
        let pos = self.position(&k);
        let mut es: Vec<(String, String)> = Vec::new();
        std::mem::swap(&mut es, &mut self.entries);
        assert(es@.map_values(|e: (String, String)| (e.0@, e.1@)) == ps);
        match pos {
            Some(i) => {
                let ghost j = choose|j: int| 0 <= j < ps.len() && ps[j].0 == k@;
                assert(j == i);
                es.set(i, (k, v));
                assert(es@.map_values(|e: (String, String)| (e.0@, e.1@)) =~= ps.update(
                    i as int,
                    (k@, v@),
                ));
            },
            None => {
                es.push((k, v));
                assert(es@.map_values(|e: (String, String)| (e.0@, e.1@)) =~= ps.push((k@, v@)));
            },
        }
        self.entries = es;
    }
}

impl PartialEq for EnvMap {
    fn eq(&self, other: &EnvMap) -> (r: bool) {
        proof {
            use_type_invariant(self);
            use_type_invariant(other);
            lemma_assoc_map_unique(self.pairs());
            lemma_assoc_map_unique(other.pairs());
        }
        let n = self.len();
        let mut i: usize = 0;
        while i < n
            invariant
                n == self.pairs().len(),
                i <= n,
                keys_unique(self.pairs()),
                keys_unique(other.pairs()),
                forall|j: int| #![trigger self.pairs()[j]]
                    0 <= j < i ==> other@.contains_key(self.pairs()[j].0) && other@[self.pairs()[j].0]
                        == self.pairs()[j].1,
            decreases n - i,
        {
            let k = self.key_at(i);
            let v = self.value_at(i);
            proof {
                lemma_assoc_map_unique(self.pairs());
                lemma_assoc_map_unique(other.pairs());
            }
            assert(self@.contains_key(self.pairs()[i as int].0));
            match other.get(k) {
                Some(w) => {
                    if !(*w == *v) {
                        return false;
                    }
                },
                None => {
                    return false;
                },
            }
            i = i + 1;
        }
        let m = other.len();
        let mut i: usize = 0;
        while i < m
            invariant
                m == other.pairs().len(),
                i <= m,
                keys_unique(self.pairs()),
                keys_unique(other.pairs()),
                forall|j: int| #![trigger other.pairs()[j]]
                    0 <= j < i ==> self@.contains_key(other.pairs()[j].0),
            decreases m - i,
        {
            let k = other.key_at(i);
            proof {
                lemma_assoc_map_unique(self.pairs());
                lemma_assoc_map_unique(other.pairs());
            }
            assert(other@.contains_key(other.pairs()[i as int].0));
            if self.get(k).is_none() {
                return false;
            }
            i = i + 1;
        }
        proof {
            assert forall|k: Seq<char>| #[trigger] self@.contains_key(k) implies other@.contains_key(k)
                && other@[k] == self@[k] by {
                let j = choose|j: int| 0 <= j < self.pairs().len() && self.pairs()[j].0 == k;
                assert(self@.contains_key(self.pairs()[j].0));
            }
            assert forall|k: Seq<char>| #[trigger] other@.contains_key(k) implies self@.contains_key(k) by {
                let j = choose|j: int| 0 <= j < other.pairs().len() && other.pairs()[j].0 == k;
                assert(other@.contains_key(other.pairs()[j].0));
            }
            assert(self@ =~= other@);
        }
        true
    }
}

impl vstd::std_specs::cmp::PartialEqSpecImpl for EnvMap {
    open spec fn obeys_eq_spec() -> bool {
        true
    }

    open spec fn eq_spec(&self, other: &EnvMap) -> bool {
        self@ == other@
    }
}

impl Eq for EnvMap {

}

impl View for EnvMap {
    type V = Map<Seq<char>, Seq<char>>;

    open spec fn view(&self) -> Map<Seq<char>, Seq<char>> {
        assoc_map(self.pairs())
    }
}

} // verus!
