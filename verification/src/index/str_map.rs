//! A map keyed by strings that also remembers its keys in a sequence, so
//! that its entries can be walked in order.
use vstd::prelude::*;
use vstd::hash_map::StringHashMap;

verus! {

/// A map from strings to values. Its entries stand in a sequence (the
/// order in which they are walked); a hash index finds each key's place.
pub struct StrMap<V> {
    keys: Vec<String>,
    vals: Vec<V>,
    index: StringHashMap<usize>,
}

impl<V> View for StrMap<V> {
    type V = Map<Seq<char>, V>;

    closed spec fn view(&self) -> Map<Seq<char>, V> {
        Map::new(
            |k: Seq<char>| self.index@.contains_key(k),
            |k: Seq<char>| self.vals@[self.index@[k] as int],
        )
    }
}

impl<V> StrMap<V> {
    /// The keys, in the order in which the entries are walked.
    pub closed spec fn key_seq(&self) -> Seq<Seq<char>> {
        self.keys@.map_values(|k: String| k@)
    }

    /// The values, in the same order as `key_seq`.
    pub closed spec fn val_seq(&self) -> Seq<V> {
        self.vals@
    }

    /// The place of a key in `key_seq`.
    pub closed spec fn position(&self, k: Seq<char>) -> int {
        self.index@[k] as int
    }

    pub closed spec fn wf(&self) -> bool {
        &&& self.keys.len() == self.vals.len()
        &&& forall|i: int|
            0 <= i < self.keys.len() ==> self.index@.contains_key(#[trigger] self.keys@[i]@)
                && self.index@[self.keys@[i]@] == i
        &&& forall|k: Seq<char>| #[trigger]
            self.index@.contains_key(k) ==> self.index@[k] < self.keys.len()
                && self.keys@[self.index@[k] as int]@ == k
    }

    /// The sequences and the map describe the same entries: the keys are
    /// distinct, the i-th key maps to the i-th value, and every key of the
    /// map stands in the sequence at its position.
    pub proof fn lemma_entries(&self)
        requires
            self.wf(),
        ensures
            self.key_seq().len() == self.val_seq().len(),
            forall|i: int|
                0 <= i < self.key_seq().len() ==> #[trigger] self@.contains_key(self.key_seq()[i])
                    && self@[self.key_seq()[i]] == self.val_seq()[i] && self.position(
                    self.key_seq()[i],
                ) == i,
            forall|k: Seq<char>| #[trigger]
                self@.contains_key(k) ==> 0 <= self.position(k) < self.key_seq().len()
                    && self.key_seq()[self.position(k)] == k,
            self.key_seq().no_duplicates(),
            self.key_seq().to_set() == self@.dom(),
    {
        assert forall|i: int, j: int|
            0 <= i < self.key_seq().len() && 0 <= j < self.key_seq().len() && i != j implies
            self.key_seq()[i] != self.key_seq()[j] by {
            assert(self.key_seq()[i] == self.keys@[i]@);
            assert(self.key_seq()[j] == self.keys@[j]@);
        }
        assert forall|k: Seq<char>| self.key_seq().to_set().contains(k) <==> self@.dom().contains(
            k,
        ) by {
            if self@.dom().contains(k) {
                assert(self.key_seq()[self.index@[k] as int] == k);
            }
            if self.key_seq().to_set().contains(k) {
                let i = choose|i: int| 0 <= i < self.key_seq().len() && self.key_seq()[i] == k;
                assert(self.keys@[i]@ == k);
            }
        }
        assert(self.key_seq().to_set() =~= self@.dom());
    }

    pub fn new() -> (r: Self)
        ensures
            r.wf(),
            r@ == Map::<Seq<char>, V>::empty(),
            r.key_seq() == Seq::<Seq<char>>::empty(),
            r.val_seq() == Seq::<V>::empty(),
    {
        let r = StrMap { keys: Vec::new(), vals: Vec::new(), index: StringHashMap::new() };
        assert(r@ =~= Map::<Seq<char>, V>::empty());
        assert(r.key_seq() =~= Seq::<Seq<char>>::empty());
        r
    }

    /// Number of entries.
    pub fn len(&self) -> (r: usize)
        requires
            self.wf(),
        ensures
            r == self.key_seq().len(),
            r == self.val_seq().len(),
    {
        self.keys.len()
    }

    pub fn get(&self, k: &str) -> (r: Option<&V>)
        requires
            self.wf(),
        ensures
            match r {
                Some(v) => self@.contains_key(k@) && *v == self@[k@],
                None => !self@.contains_key(k@),
            },
    {
        match self.index.get(k) {
            Some(i) => Some(&self.vals[*i]),
            None => None,
        }
    }

    pub fn contains_key(&self, k: &str) -> (r: bool)
        requires
            self.wf(),
        ensures
            r == self@.contains_key(k@),
    {
        self.index.contains_key(k)
    }

    /// The key of the `i`-th entry.
    pub fn key_at(&self, i: usize) -> (r: &String)
        requires
            self.wf(),
            i < self.key_seq().len(),
        ensures
            r@ == self.key_seq()[i as int],
    {
        &self.keys[i]
    }

    /// The value of the `i`-th entry.
    pub fn value_at(&self, i: usize) -> (r: &V)
        requires
            self.wf(),
            i < self.val_seq().len(),
        ensures
            *r == self.val_seq()[i as int],
    {
        &self.vals[i]
    }

    /// Maps `k` to `v`. A key already present keeps its place and gets the
    /// new value; a new key is put at the end.
    pub fn insert(&mut self, k: String, v: V)
        requires
            old(self).wf(),
        ensures
            final(self).wf(),
            final(self)@ == old(self)@.insert(k@, v),
            old(self)@.contains_key(k@) ==> {
                &&& final(self).key_seq() == old(self).key_seq()
                &&& final(self).val_seq() == old(self).val_seq().update(
                    old(self).position(k@),
                    v,
                )
            },
            !old(self)@.contains_key(k@) ==> {
                &&& final(self).key_seq() == old(self).key_seq().push(k@)
                &&& final(self).val_seq() == old(self).val_seq().push(v)
            },
    {
        let ghost old_self = *self;
        match self.index.get(k.as_str()) {
            Some(i) => {
                let i = *i;
                self.vals.set(i, v);
                assert(self@ =~= old_self@.insert(k@, v));
            },
            None => {
                let i = self.keys.len();
                self.index.insert(k.clone(), i);
                self.keys.push(k);
                self.vals.push(v);
                assert(self.key_seq() =~= old_self.key_seq().push(k@));
                assert forall|j: int|
                    0 <= j < self.keys.len() implies self.index@.contains_key(
                    #[trigger] self.keys@[j]@,
                ) && self.index@[self.keys@[j]@] == j by {
                    if j < i {
                        assert(old_self.keys@[j] == self.keys@[j]);
                    }
                }
                assert(self@ =~= old_self@.insert(k@, v));
            },
        }
    }

    /// Removes `k` and hands back its value. The last entry takes the
    /// removed entry's place.
    pub fn remove(&mut self, k: &str) -> (r: Option<V>)
        requires
            old(self).wf(),
        ensures
            final(self).wf(),
            final(self)@ == old(self)@.remove(k@),
            old(self)@.contains_key(k@) ==> {
                let i = old(self).position(k@);
                &&& r == Some(old(self)@[k@])
                &&& final(self).key_seq() == old(self).key_seq().update(
                    i,
                    old(self).key_seq().last(),
                ).drop_last()
                &&& final(self).val_seq() == old(self).val_seq().update(
                    i,
                    old(self).val_seq().last(),
                ).drop_last()
            },
            !old(self)@.contains_key(k@) ==> r is None && *final(self) == *old(self),
    {
        let ghost old_self = *self;
        let found = match self.index.get(k) {
            Some(i) => Some(*i),
            None => None,
        };
        match found {
            None => None,
            Some(i) => {
                let last = self.keys.len() - 1;
                let _ = self.keys.swap_remove(i);
                let removed = self.vals.swap_remove(i);
                self.index.remove(k);
                if i < last {
                    let moved = self.keys[i].clone();
                    self.index.insert(moved, i);
                }
                assert(self.key_seq() =~= old_self.key_seq().update(
                    i as int,
                    old_self.key_seq().last(),
                ).drop_last());
                assert forall|j: int|
                    0 <= j < self.keys.len() implies self.index@.contains_key(
                    #[trigger] self.keys@[j]@,
                ) && self.index@[self.keys@[j]@] == j by {
                    if j != i {
                        assert(self.keys@[j] == old_self.keys@[j]);
                        assert(old_self.keys@[j]@ != k@);
                    }
                }
                assert forall|q: Seq<char>| #[trigger]
                    self.index@.contains_key(q) implies self.index@[q] < self.keys.len()
                    && self.keys@[self.index@[q] as int]@ == q by {
                    if q != old_self.keys@[last as int]@ {
                        let p = old_self.index@[q] as int;
                        assert(old_self.keys@[p]@ == q);
                        if p == last {
                            assert(false);
                        }
                    }
                }
                assert(self@ =~= old_self@.remove(k@));
                Some(removed)
            },
        }
    }
}

} // verus!
