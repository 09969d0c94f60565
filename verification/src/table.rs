//! Maps keyed by text, as lists of pairs in which no key occurs twice.
use vstd::prelude::*;

verus! {

/// Whether some pair carries the key `k`.
pub open spec fn holds_key<V>(pairs: Seq<(String, V)>, k: Seq<char>) -> bool {
    exists|i: int| 0 <= i < pairs.len() && (#[trigger] pairs[i]).0@ == k
}

/// The position of the pair that carries `k`, where one does.
pub open spec fn key_position<V>(pairs: Seq<(String, V)>, k: Seq<char>) -> int {
    choose|i: int| 0 <= i < pairs.len() && (#[trigger] pairs[i]).0@ == k
}

/// No two pairs carry the same key.
pub open spec fn keys_distinct<V>(pairs: Seq<(String, V)>) -> bool {
    forall|i: int, j: int|
        0 <= i < pairs.len() && 0 <= j < pairs.len() && i != j ==> (#[trigger] pairs[i]).0@
            != (#[trigger] pairs[j]).0@
}

/// The map that `pairs` stand for, each value seen through its view.
pub open spec fn map_of<V: View>(pairs: Seq<(String, V)>) -> Map<Seq<char>, V::V> {
    Map::new(|k: Seq<char>| holds_key(pairs, k), |k: Seq<char>| pairs[key_position(pairs, k)].1@)
}

/// The value stored under `k`, where one is.
pub open spec fn value_of<V>(pairs: Seq<(String, V)>, k: Seq<char>) -> V {
    pairs[key_position(pairs, k)].1
}

proof fn lemma_position<V>(pairs: Seq<(String, V)>, j: int)
    requires
        keys_distinct(pairs),
        0 <= j < pairs.len(),
    ensures
        holds_key(pairs, pairs[j].0@),
        key_position(pairs, pairs[j].0@) == j,
{
    let k = pairs[j].0@;
    assert(holds_key(pairs, k));
    let p = key_position(pairs, k);
    assert(pairs[p].0@ == k);
}

proof fn lemma_set_pair<V: View>(es: Seq<(String, V)>, before: Seq<(String, V)>, i: int)
    requires
        keys_distinct(before),
        0 <= i < before.len(),
        es.len() == before.len(),
        es[i].0@ == before[i].0@,
        forall|j: int| 0 <= j < before.len() && j != i ==> es[j] == before[j],
    ensures
        keys_distinct(es),
        map_of(es) == map_of(before).insert(es[i].0@, es[i].1@),
        forall|k: Seq<char>|
            #[trigger] holds_key(before, k) && k != es[i].0@ ==> value_of(es, k) == value_of(
                before,
                k,
            ),
        holds_key(es, es[i].0@) && value_of(es, es[i].0@) == es[i].1,
{
    assert forall|a: int, b: int|
        0 <= a < es.len() && 0 <= b < es.len() && a != b implies (#[trigger] es[a]).0@
        != (#[trigger] es[b]).0@ by {
        assert(before[a].0@ != before[b].0@);
    }
    lemma_position(es, i);
    assert forall|k: Seq<char>| #[trigger] holds_key(es, k) <==> holds_key(before, k) by {
        if holds_key(es, k) {
            let p = choose|p: int| 0 <= p < es.len() && (#[trigger] es[p]).0@ == k;
            assert(before[p].0@ == k);
        }
        if holds_key(before, k) {
            let p = choose|p: int| 0 <= p < before.len() && (#[trigger] before[p]).0@ == k;
            assert(es[p].0@ == k);
        }
    }
    assert forall|k: Seq<char>| #[trigger] holds_key(before, k) && k != es[i].0@ implies value_of(
        es,
        k,
    ) == value_of(before, k) by {
        assert(holds_key(es, k));
        let p = key_position(es, k);
        assert(es[p].0@ == k);
        assert(p != i);
        lemma_position(before, p);
    }
    let goal = map_of(before).insert(es[i].0@, es[i].1@);
    assert forall|k: Seq<char>| #[trigger] map_of(es).contains_key(k) implies map_of(es)[k]
        == goal[k] by {
        if k != es[i].0@ {
            assert(holds_key(before, k));
            assert(value_of(es, k) == value_of(before, k));
        }
    }
    assert(map_of(es) =~= goal);
}

proof fn lemma_push_pair<V: View>(es: Seq<(String, V)>, before: Seq<(String, V)>)
    requires
        keys_distinct(before),
        es.len() == before.len() + 1,
        forall|j: int| 0 <= j < before.len() ==> es[j] == before[j],
        !holds_key(before, es.last().0@),
    ensures
        keys_distinct(es),
        map_of(es) == map_of(before).insert(es.last().0@, es.last().1@),
        forall|k: Seq<char>| #[trigger] holds_key(before, k) ==> value_of(es, k) == value_of(before, k),
        holds_key(es, es.last().0@) && value_of(es, es.last().0@) == es.last().1,
{
    let n = before.len() as int;
    assert forall|a: int, b: int|
        0 <= a < es.len() && 0 <= b < es.len() && a != b implies (#[trigger] es[a]).0@
        != (#[trigger] es[b]).0@ by {
        if a < n && b < n {
            assert(before[a].0@ != before[b].0@);
        } else if a == n {
            assert(before[b] == es[b]);
        } else {
            assert(before[a] == es[a]);
        }
    }
    lemma_position(es, n);
    assert forall|k: Seq<char>| holds_key(before, k) implies value_of(es, k) == value_of(before, k) by {
        let p = key_position(before, k);
        assert(before[p].0@ == k);
        assert(es[p] == before[p]);
        lemma_position(es, p);
    }
    let goal = map_of(before).insert(es[n].0@, es[n].1@);
    assert forall|k: Seq<char>| #[trigger] map_of(es).contains_key(k) <==> goal.contains_key(k) by {
        if holds_key(es, k) {
            let p = choose|p: int| 0 <= p < es.len() && (#[trigger] es[p]).0@ == k;
            if p < n {
                assert(before[p].0@ == k);
            }
        }
        if holds_key(before, k) {
            let p = choose|p: int| 0 <= p < before.len() && (#[trigger] before[p]).0@ == k;
            assert(es[p].0@ == k);
        }
    }
    assert forall|k: Seq<char>| #[trigger] map_of(es).contains_key(k) implies map_of(es)[k]
        == goal[k] by {
        if k != es[n].0@ {
            assert(holds_key(before, k));
            assert(value_of(es, k) == value_of(before, k));
        }
    }
    assert(map_of(es) =~= goal);
}

proof fn lemma_map_len<V: View>(pairs: Seq<(String, V)>)
    requires
        keys_distinct(pairs),
    ensures
        map_of(pairs).len() == pairs.len(),
        map_of(pairs).dom().finite(),
{
    let names = pairs.map_values(|e: (String, V)| e.0@);
    assert(map_of(pairs).dom() =~= names.to_set()) by {
        assert forall|k: Seq<char>| map_of(pairs).dom().contains(k) implies names.to_set().contains(
            k,
        ) by {
            let i = choose|i: int| 0 <= i < pairs.len() && (#[trigger] pairs[i]).0@ == k;
            assert(names[i] == k);
        }
        assert forall|k: Seq<char>| names.to_set().contains(k) implies map_of(pairs).dom().contains(
            k,
        ) by {
            let i = choose|i: int| 0 <= i < names.len() && names[i] == k;
            assert(pairs[i].0@ == k);
        }
    }
    assert(names.no_duplicates()) by {
        assert forall|i: int, j: int| 0 <= i < names.len() && 0 <= j < names.len() && i != j implies names[i]
            != names[j] by {
            assert(pairs[i].0@ != pairs[j].0@);
        }
    }
    names.unique_seq_to_set();
}

/// Where `key` stands among `ps`.
fn find_pair<V>(ps: &Vec<(String, V)>, key: &str) -> (r: Option<usize>)
    ensures
        match r {
            Some(i) => i < ps@.len() && ps@[i as int].0@ == key@,
            None => !holds_key(ps@, key@),
        },
{
    let mut i: usize = 0;
    while i < ps.len()
        invariant
            0 <= i <= ps@.len(),
            forall|j: int| 0 <= j < i ==> (#[trigger] ps@[j]).0@ != key@,
        decreases ps@.len() - i,
    {
        if crate::text::str_eq(ps[i].0.as_str(), key) {
            return Some(i);
        }
        i = i + 1;
    }
    None
}

/// A map from text keys to values, no key twice.
pub struct TextMap<V> {
    pairs: Vec<(String, V)>,
}

impl<V: View> View for TextMap<V> {
    type V = Map<Seq<char>, V::V>;

    open spec fn view(&self) -> Map<Seq<char>, V::V> {
        map_of(self.pairs())
    }
}

impl<V> TextMap<V> {
    #[verifier::type_invariant]
    spec fn keys_unique(self) -> bool {
        keys_distinct(self.pairs@)
    }

    /// The pairs, in the order they are kept.
    pub closed spec fn pairs(self) -> Seq<(String, V)> {
        self.pairs@
    }
}

impl<V: View> TextMap<V> {
    /// The value stored under `k` (not only its view).
    pub open spec fn value(self, k: Seq<char>) -> V {
        value_of(self.pairs(), k)
    }

    /// An empty map.
    pub fn new() -> (m: Self)
        ensures
            m@ == Map::<Seq<char>, V::V>::empty(),
    {
        let m = TextMap { pairs: Vec::new() };
        assert(m@ =~= Map::<Seq<char>, V::V>::empty());
        m
    }

    /// The number of keys.
    pub fn len(&self) -> (n: usize)
        ensures
            n == self@.len(),
    {
        proof {
            use_type_invariant(self);
            lemma_map_len(self.pairs@);
        }
        self.pairs.len()
    }

    /// The value stored under `key`.
    pub fn get(&self, key: &str) -> (r: Option<&V>)
        ensures
            match r {
                Some(v) => self@.contains_key(key@) && v@ == self@[key@] && *v == self.value(
                    key@,
                ),
                None => !self@.contains_key(key@),
            },
    {
        proof {
            use_type_invariant(self);
        }
        match find_pair(&self.pairs, key) {
            Some(i) => {
                proof {
                    lemma_position(self.pairs@, i as int);
                }
                Some(&self.pairs[i].1)
            },
            None => None,
        }
    }

    /// Stores `value` under `key`, replacing what was stored there.
    pub fn insert(&mut self, key: String, value: V)
        ensures
            final(self)@ == old(self)@.insert(key@, value@),
            final(self).value(key@) == value,
            forall|k: Seq<char>|
                old(self)@.contains_key(k) && k != key@ ==> final(self).value(k) == old(
                    self,
                ).value(k),
    {
        proof {
            use_type_invariant(&*self);
        }
        let ghost before = self.pairs@;
        let ghost kv = key@;
        let mut ps: Vec<(String, V)> = Vec::new();
        std::mem::swap(&mut ps, &mut self.pairs);
        match find_pair(&ps, key.as_str()) {
            Some(i) => {
                ps.set(i, (key, value));
                proof {
                    lemma_set_pair(ps@, before, i as int);
                }
            },
            None => {
                ps.push((key, value));
                proof {
                    lemma_push_pair(ps@, before);
                }
            },
        }
        self.pairs = ps;
        assert forall|k: Seq<char>|
            map_of(before).contains_key(k) && k != kv implies value_of(self.pairs@, k) == value_of(
            before,
            k,
        ) by {
            assert(holds_key(before, k));
        }
    }

    /// Takes out the value stored under `key`.
    pub fn remove(&mut self, key: &str) -> (r: Option<V>)
        ensures
            final(self)@ == old(self)@.remove(key@),
            match r {
                Some(v) => old(self)@.contains_key(key@) && v == old(self).value(key@),
                None => !old(self)@.contains_key(key@),
            },
            forall|k: Seq<char>|
                final(self)@.contains_key(k) ==> final(self).value(k) == old(self).value(k),
    {
        proof {
            use_type_invariant(&*self);
        }
        let ghost before = self.pairs@;
        let mut ps: Vec<(String, V)> = Vec::new();
        std::mem::swap(&mut ps, &mut self.pairs);
        let r = match find_pair(&ps, key) {
            Some(i) => {
                proof {
                    lemma_position(before, i as int);
                }
                let (_, v) = ps.swap_remove(i);
                proof {
                    lemma_swap_removed(ps@, before, i as int);
                }
                Some(v)
            },
            None => {
                assert(map_of(before).remove(key@) =~= map_of(before));
                None
            },
        };
        self.pairs = ps;
        r
    }

    /// The pairs, in the order they are kept.
    pub fn as_slice(&self) -> (s: &[(String, V)])
        ensures
            s@ == self.pairs(),
            keys_distinct(s@),
            map_of(s@) == self@,
    {
        proof {
            use_type_invariant(self);
        }
        self.pairs.as_slice()
    }
}

proof fn lemma_swap_removed<V: View>(es: Seq<(String, V)>, before: Seq<(String, V)>, i: int)
    requires
        keys_distinct(before),
        0 <= i < before.len(),
        es == before.update(i, before.last()).drop_last(),
    ensures
        keys_distinct(es),
        map_of(es) == map_of(before).remove(before[i].0@),
        forall|k: Seq<char>| holds_key(es, k) ==> value_of(es, k) == value_of(before, k),
{
    let n = before.len() - 1;
    let gone = before[i].0@;
    assert forall|a: int, b: int|
        0 <= a < es.len() && 0 <= b < es.len() && a != b implies (#[trigger] es[a]).0@
        != (#[trigger] es[b]).0@ by {
        let a0 = if a == i {
            n
        } else {
            a
        };
        let b0 = if b == i {
            n
        } else {
            b
        };
        assert(es[a] == before[a0]);
        assert(es[b] == before[b0]);
        assert(before[a0].0@ != before[b0].0@);
    }
    assert forall|k: Seq<char>| holds_key(es, k) <==> holds_key(before, k) && k != gone by {
        if holds_key(es, k) {
            let p = choose|p: int| 0 <= p < es.len() && (#[trigger] es[p]).0@ == k;
            let p0 = if p == i {
                n
            } else {
                p
            };
            assert(es[p] == before[p0]);
            assert(before[p0].0@ == k);
            assert(p0 != i);
        }
        if holds_key(before, k) && k != gone {
            let p = choose|p: int| 0 <= p < before.len() && (#[trigger] before[p]).0@ == k;
            assert(p != i);
            if p == n {
                assert(es[i] == before[n]);
                assert(es[i].0@ == k);
            } else {
                assert(es[p] == before[p]);
                assert(es[p].0@ == k);
            }
        }
    }
    assert forall|k: Seq<char>| holds_key(es, k) implies value_of(es, k) == value_of(before, k) by {
        let p = key_position(es, k);
        assert(es[p].0@ == k);
        let p0 = if p == i {
            n
        } else {
            p
        };
        assert(es[p] == before[p0]);
        lemma_position(before, p0);
    }
    let goal = map_of(before).remove(gone);
    assert forall|k: Seq<char>| #[trigger] map_of(es).contains_key(k) implies map_of(es)[k]
        == goal[k] by {
        assert(value_of(es, k) == value_of(before, k));
    }
    assert(map_of(es) =~= goal);
}

} // verus!
