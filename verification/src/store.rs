//! Small verified containers backing the graph structures: duplicate-free
//! vectors viewed as sets, and association vectors viewed as maps.

use vstd::pervasive::VecAdditionalExecFns;
use vstd::prelude::*;

verus! {

/// A finite set of vertex identifiers, stored as a duplicate-free vector.
pub struct VertexSet {
    pub(crate) items: Vec<usize>,
}

impl View for VertexSet {
    type V = Set<usize>;

    open(crate) spec fn view(&self) -> Set<usize> {
        self.items@.to_set()
    }
}

impl VertexSet {
    /// No vertex occurs twice in the backing vector.
    pub open(crate) spec fn wf(&self) -> bool {
        self.items@.no_duplicates()
    }

    pub fn new() -> (r: VertexSet)
        ensures
            r.wf(),
            r@ == Set::<usize>::empty(),
    {
        let r = VertexSet { items: Vec::new() };
        proof {
            assert(r@ =~= Set::<usize>::empty());
        }
        r
    }

    pub fn contains(&self, x: usize) -> (r: bool)
        ensures
            r == self@.contains(x),
    {
        let mut i: usize = 0;
        while i < self.items.len()
            invariant
                i <= self.items.len(),
                forall|j: int| 0 <= j < i ==> self.items@[j] != x,
            decreases self.items.len() - i,
        {
            if self.items[i] == x {
                assert(self.items@.contains(x));
                return true;
            }
            i = i + 1;
        }
        assert(!self.items@.contains(x));
        false
    }

    pub fn insert(&mut self, x: usize)
        requires
            old(self).wf(),
        ensures
            final(self).wf(),
            final(self)@ == old(self)@.insert(x),
    {
        if !self.contains(x) {
            self.items.push(x);
            proof {
                broadcast use vstd::seq_lib::lemma_seq_contains_after_push;

                assert(self.items@.drop_last() == old(self).items@);
                assert(self@ =~= old(self)@.insert(x));
            }
        } else {
            proof {
                assert(self@ =~= old(self)@.insert(x));
            }
        }
    }

    pub fn remove(&mut self, x: usize)
        requires
            old(self).wf(),
        ensures
            final(self).wf(),
            final(self)@ == old(self)@.remove(x),
    {
        let ghost s0 = self.items@;
        let mut i: usize = 0;
        while i < self.items.len()
            invariant
                self.items@ == s0,
                s0 == old(self).items@,
                s0.no_duplicates(),
                i <= s0.len(),
                forall|j: int| 0 <= j < i ==> s0[j] != x,
            decreases s0.len() - i,
        {
            if self.items[i] == x {
                self.items.remove(i);
                proof {
                    lemma_seq_remove_no_duplicates(s0, i as int);
                    assert(self@ =~= old(self)@.remove(x)) by {
                        lemma_seq_remove_to_set(s0, i as int);
                    }
                }
                return;
            }
            i = i + 1;
        }
        proof {
            assert(!s0.contains(x));
            assert(self@ =~= old(self)@.remove(x));
        }
    }

    pub fn len(&self) -> (r: usize)
        requires
            self.wf(),
        ensures
            r == self@.len(),
    {
        proof {
            self.items@.unique_seq_to_set();
        }
        self.items.len()
    }

    pub fn is_empty(&self) -> (r: bool)
        requires
            self.wf(),
        ensures
            r == self@.is_empty(),
    {
        proof {
            self.items@.unique_seq_to_set();
            if self.items@.len() == 0 {
                assert(self@ =~= Set::<usize>::empty());
            } else {
                assert(self@.contains(self.items@[0]));
            }
        }
        self.items.len() == 0
    }

    /// One arbitrary member of a non-empty set.
    pub fn pick(&self) -> (r: usize)
        requires
            self.wf(),
            !self@.is_empty(),
        ensures
            self@.contains(r),
    {
        proof {
            if self.items@.len() == 0 {
                assert(self@ =~= Set::<usize>::empty());
            }
            assert(self.items@.contains(self.items@[0]));
        }
        self.items[0]
    }
}

impl Clone for VertexSet {
    fn clone(&self) -> (r: Self)
        ensures
            r@ == self@,
            self.wf() ==> r.wf(),
    {
        let mut items: Vec<usize> = Vec::new();
        let mut i: usize = 0;
        while i < self.items.len()
            invariant
                i <= self.items.len(),
                items@ == self.items@.take(i as int),
            decreases self.items.len() - i,
        {
            items.push(self.items[i]);
            proof {
                assert(items@ =~= self.items@.take(i + 1));
            }
            i = i + 1;
        }
        proof {
            assert(items@ == self.items@);
        }
        VertexSet { items }
    }
}

/// Removing one position from a duplicate-free sequence keeps it
/// duplicate-free.
pub proof fn lemma_seq_remove_no_duplicates<A>(s: Seq<A>, i: int)
    requires
        s.no_duplicates(),
        0 <= i < s.len(),
    ensures
        s.remove(i).no_duplicates(),
{
    let r = s.remove(i);
    assert forall|p: int, q: int| 0 <= p < q < r.len() implies r[p] != r[q] by {
        if p < i {
            if q < i {
                assert(r[p] == s[p] && r[q] == s[q]);
            } else {
                assert(r[p] == s[p] && r[q] == s[q + 1]);
            }
        } else {
            assert(r[p] == s[p + 1] && r[q] == s[q + 1]);
        }
    }
}

/// Removing position `i` from a duplicate-free sequence removes exactly the
/// element `s[i]` from the set of members.
pub proof fn lemma_seq_remove_to_set<A>(s: Seq<A>, i: int)
    requires
        s.no_duplicates(),
        0 <= i < s.len(),
    ensures
        s.remove(i).to_set() == s.to_set().remove(s[i]),
{
    let r = s.remove(i);
    assert forall|x: A| r.to_set().contains(x) implies s.to_set().remove(s[i]).contains(
        x,
    ) by {
        let j = choose|j: int| 0 <= j < r.len() && r[j] == x;
        if j < i {
            assert(s[j] == x);
            assert(s.contains(x));
        } else {
            assert(s[j + 1] == x);
            assert(s.contains(x));
        }
    }
    assert forall|x: A| s.to_set().remove(s[i]).contains(x) implies r.to_set().contains(
        x,
    ) by {
        let j = choose|j: int| 0 <= j < s.len() && s[j] == x;
        assert(j != i);
        if j < i {
            assert(r[j] == x);
            assert(r.contains(x));
        } else {
            assert(r[j - 1] == x);
            assert(r.contains(x));
        }
    }
    assert(r.to_set() =~= s.to_set().remove(s[i]));
}

/// A finite set of directed edge keys, stored as a duplicate-free vector.
pub struct EdgeSet {
    pub(crate) items: Vec<(usize, usize)>,
}

impl View for EdgeSet {
    type V = Set<(usize, usize)>;

    open(crate) spec fn view(&self) -> Set<(usize, usize)> {
        self.items@.to_set()
    }
}

impl EdgeSet {
    /// No edge key occurs twice in the backing vector.
    pub open(crate) spec fn wf(&self) -> bool {
        self.items@.no_duplicates()
    }

    pub fn new() -> (r: EdgeSet)
        ensures
            r.wf(),
            r@ == Set::<(usize, usize)>::empty(),
    {
        let r = EdgeSet { items: Vec::new() };
        proof {
            assert(r@ =~= Set::<(usize, usize)>::empty());
        }
        r
    }

    pub fn contains(&self, a: usize, b: usize) -> (r: bool)
        ensures
            r == self@.contains((a, b)),
    {
        let mut i: usize = 0;
        while i < self.items.len()
            invariant
                i <= self.items.len(),
                forall|j: int| 0 <= j < i ==> self.items@[j] != (a, b),
            decreases self.items.len() - i,
        {
            if self.items[i].0 == a && self.items[i].1 == b {
                assert(self.items@.contains((a, b)));
                return true;
            }
            i = i + 1;
        }
        assert(!self.items@.contains((a, b)));
        false
    }

    pub fn insert(&mut self, a: usize, b: usize)
        requires
            old(self).wf(),
        ensures
            final(self).wf(),
            final(self)@ == old(self)@.insert((a, b)),
    {
        if !self.contains(a, b) {
            self.items.push((a, b));
            proof {
                broadcast use vstd::seq_lib::lemma_seq_contains_after_push;

                assert(self.items@.drop_last() == old(self).items@);
                assert(self@ =~= old(self)@.insert((a, b)));
            }
        } else {
            proof {
                assert(self@ =~= old(self)@.insert((a, b)));
            }
        }
    }
}



/// Appending an element that is not yet a member keeps a sequence
/// duplicate-free.
pub proof fn lemma_seq_push_no_duplicates<A>(s: Seq<A>, x: A)
    requires
        s.no_duplicates(),
        !s.contains(x),
    ensures
        s.push(x).no_duplicates(),
{
    let r = s.push(x);
    assert forall|p: int, q: int| 0 <= p < q < r.len() implies r[p] != r[q] by {
        if q < r.len() - 1 {
            assert(r[p] == s[p] && r[q] == s[q]);
        } else {
            assert(r[p] == s[p]);
            assert(s.contains(s[p]));
        }
    }
}

/// An association vector keyed by vertex identifier, viewed as a map.
pub struct VecMap<V> {
    pub(crate) entries: Vec<(usize, V)>,
}

impl<V> View for VecMap<V> {
    type V = Map<usize, V>;

    open(crate) spec fn view(&self) -> Map<usize, V> {
        Map::new(
            |k: usize| self.key_seq().contains(k),
            |k: usize| self.entries@[self.key_seq().index_of(k)].1,
        )
    }
}

impl<V> VecMap<V> {
    /// The keys, in storage order.
    pub open(crate) spec fn key_seq(&self) -> Seq<usize> {
        self.entries@.map_values(|e: (usize, V)| e.0)
    }

    /// No key occurs twice in the backing vector.
    pub open(crate) spec fn wf(&self) -> bool {
        self.key_seq().no_duplicates()
    }

    /// Each stored entry is reflected in the map view.
    pub(crate) proof fn lemma_entry(&self, i: int)
        requires
            self.wf(),
            0 <= i < self.entries@.len(),
        ensures
            self@.contains_key(self.entries@[i].0),
            self@[self.entries@[i].0] == self.entries@[i].1,
    {
        let ks = self.key_seq();
        let k = self.entries@[i].0;
        assert(ks[i] == k);
        assert(ks.contains(k));
        let j = ks.index_of(k);
        assert(exists|m: int| 0 <= m < ks.len() && ks[m] == k);
        assert(0 <= j < ks.len() && ks[j] == k);
        assert(j == i);
    }

    /// The map domain is exactly the set of stored keys.
    pub(crate) proof fn lemma_dom(&self)
        requires
            self.wf(),
        ensures
            self@.dom() =~= self.key_seq().to_set(),
            self@.dom().len() == self.entries@.len(),
    {
        self.key_seq().unique_seq_to_set();
    }

    pub fn new() -> (r: VecMap<V>)
        ensures
            r.wf(),
            r@ == Map::<usize, V>::empty(),
    {
        let r = VecMap { entries: Vec::new() };
        proof {
            assert(r@ =~= Map::<usize, V>::empty());
        }
        r
    }

    /// The position of `k` among the entries, if it is present.
    pub(crate) fn index_of_key(&self, k: usize) -> (r: Option<usize>)
        ensures
            match r {
                Some(i) => i < self.entries@.len() && self.entries@[i as int].0 == k,
                None => !self.key_seq().contains(k),
            },
    {
        let mut i: usize = 0;
        while i < self.entries.len()
            invariant
                i <= self.entries.len(),
                forall|j: int| 0 <= j < i ==> self.entries@[j].0 != k,
            decreases self.entries.len() - i,
        {
            if self.entries[i].0 == k {
                return Some(i);
            }
            i = i + 1;
        }
        proof {
            assert forall|j: int| 0 <= j < self.key_seq().len() implies self.key_seq()[j] != k by {
                assert(self.key_seq()[j] == self.entries@[j].0);
            }
        }
        None
    }

    pub fn contains_key(&self, k: usize) -> (r: bool)
        requires
            self.wf(),
        ensures
            r == self@.contains_key(k),
    {
        match self.index_of_key(k) {
            Some(i) => {
                proof {
                    self.lemma_entry(i as int);
                }
                true
            },
            None => false,
        }
    }

    pub fn get(&self, k: usize) -> (r: Option<&V>)
        requires
            self.wf(),
        ensures
            match r {
                Some(v) => self@.contains_key(k) && *v == self@[k],
                None => !self@.contains_key(k),
            },
    {
        match self.index_of_key(k) {
            Some(i) => {
                proof {
                    self.lemma_entry(i as int);
                }
                Some(&self.entries[i].1)
            },
            None => None,
        }
    }

    pub fn insert(&mut self, k: usize, v: V)
        requires
            old(self).wf(),
        ensures
            final(self).wf(),
            final(self)@ == old(self)@.insert(k, v),
    {
        let ghost m0 = old(self)@;
        match self.index_of_key(k) {
            Some(i) => {
                self.entries.set(i, (k, v));
                proof {
                    assert(self.entries@[i as int].0 == k);
                    assert(self.key_seq() =~= old(self).key_seq());
                    assert(self.wf());
                    old(self).lemma_entry(i as int);
                    assert(m0.dom().contains(k));
                    assert(self@.dom() =~= m0.insert(k, v).dom());
                    assert forall|k2: usize| self@.contains_key(k2) implies self@[k2] == m0.insert(
                        k,
                        v,
                    )[k2] by {
                        let ks = self.key_seq();
                        let j = ks.index_of(k2);
                        assert(exists|m: int| 0 <= m < ks.len() && ks[m] == k2);
                        assert(0 <= j < ks.len() && ks[j] == k2);
                        self.lemma_entry(j);
                        assert(self.entries@[j].0 == k2);
                        if k2 == k {
                            assert(ks[i as int] == k);
                            assert(j == i);
                        } else {
                            assert(j != i);
                            assert(self.entries@[j] == old(self).entries@[j]);
                            old(self).lemma_entry(j);
                        }
                    }
                    assert(self@ =~= m0.insert(k, v));
                }
            },
            None => {
                self.entries.push((k, v));
                proof {
                    assert(self.key_seq() =~= old(self).key_seq().push(k));
                    lemma_seq_push_no_duplicates(old(self).key_seq(), k);
                    assert(self.wf());
                    assert(self@.dom() =~= m0.insert(k, v).dom()) by {
                        broadcast use vstd::seq_lib::lemma_seq_contains_after_push;

                    }
                    assert forall|k2: usize| self@.contains_key(k2) implies self@[k2] == m0.insert(
                        k,
                        v,
                    )[k2] by {
                        let ks = self.key_seq();
                        let j = ks.index_of(k2);
                        assert(exists|m: int| 0 <= m < ks.len() && ks[m] == k2);
                        assert(0 <= j < ks.len() && ks[j] == k2);
                        self.lemma_entry(j);
                        assert(self.entries@[j].0 == k2);
                        if k2 == k {
                            assert(j == ks.len() - 1) by {
                                if j < ks.len() - 1 {
                                    assert(old(self).key_seq()[j] == k2);
                                    assert(old(self).key_seq().contains(k2));
                                }
                            }
                            assert(self.entries@[j].1 == v);
                        } else {
                            assert(j < ks.len() - 1);
                            assert(old(self).key_seq()[j] == k2);
                            assert(self.entries@[j] == old(self).entries@[j]);
                            old(self).lemma_entry(j);
                        }
                    }
                    assert(self@ =~= m0.insert(k, v));
                }
            },
        }
    }

    pub fn remove(&mut self, k: usize)
        requires
            old(self).wf(),
        ensures
            final(self).wf(),
            final(self)@ == old(self)@.remove(k),
    {
        let ghost m0 = old(self)@;
        match self.index_of_key(k) {
            Some(i) => {
                self.entries.remove(i);
                proof {
                    assert(old(self).key_seq()[i as int] == k);
                    assert(self.key_seq() =~= old(self).key_seq().remove(i as int));
                    lemma_seq_remove_no_duplicates(old(self).key_seq(), i as int);
                    assert(self.wf());
                    lemma_seq_remove_to_set(old(self).key_seq(), i as int);
                    assert(self@.dom() =~= m0.remove(k).dom());
                    assert forall|k2: usize| self@.contains_key(k2) implies self@[k2] == m0.remove(
                        k,
                    )[k2] by {
                        let ks = self.key_seq();
                        let j = ks.index_of(k2);
                        assert(exists|m: int| 0 <= m < ks.len() && ks[m] == k2);
                        assert(0 <= j < ks.len() && ks[j] == k2);
                        self.lemma_entry(j);
                        assert(self.entries@[j].0 == k2);
                        let jo = if j < i { j } else { j + 1 };
                        assert(self.entries@[j] == old(self).entries@[jo]);
                        assert(old(self).key_seq()[jo] == k2);
                        assert(k2 != k) by {
                            if k2 == k {
                                assert(old(self).key_seq()[i as int] == old(self).key_seq()[jo]);
                            }
                        }
                        old(self).lemma_entry(jo);
                    }
                    assert(self@ =~= m0.remove(k));
                }
            },
            None => {
                proof {
                    assert(!self@.contains_key(k));
                    assert(self@ =~= m0.remove(k));
                }
            },
        }
    }

    /// The number of keys.
    pub fn len(&self) -> (r: usize)
        requires
            self.wf(),
        ensures
            r == self@.dom().len(),
    {
        proof {
            self.lemma_dom();
        }
        self.entries.len()
    }

    pub fn is_empty(&self) -> (r: bool)
        requires
            self.wf(),
        ensures
            r == self@.dom().is_empty(),
    {
        proof {
            self.lemma_dom();
            if self.entries@.len() == 0 {
                assert(self@.dom() =~= Set::<usize>::empty());
            } else {
                self.lemma_entry(0);
            }
        }
        self.entries.len() == 0
    }
}

/// An adjacency index: for each vertex that currently has at least one
/// incident edge on the indexed side, the set of vertices on the other end.
pub struct AdjMap {
    pub(crate) m: VecMap<VertexSet>,
}

impl View for AdjMap {
    type V = Map<usize, Set<usize>>;

    open(crate) spec fn view(&self) -> Map<usize, Set<usize>> {
        Map::new(|k: usize| self.m@.contains_key(k), |k: usize| self.m@[k]@)
    }
}

impl AdjMap {
    pub open(crate) spec fn wf(&self) -> bool {
        &&& self.m.wf()
        &&& forall|k: usize| self.m@.contains_key(k) ==> (#[trigger] self.m@[k]).wf()
    }

    pub fn new() -> (r: AdjMap)
        ensures
            r.wf(),
            r@ == Map::<usize, Set<usize>>::empty(),
    {
        let r = AdjMap { m: VecMap::new() };
        proof {
            assert(r@ =~= Map::<usize, Set<usize>>::empty());
        }
        r
    }

    pub fn contains_key(&self, k: usize) -> (r: bool)
        requires
            self.wf(),
        ensures
            r == self@.contains_key(k),
    {
        self.m.contains_key(k)
    }

    /// The set stored under `k`, if any.
    pub fn get(&self, k: usize) -> (r: Option<&VertexSet>)
        requires
            self.wf(),
        ensures
            match r {
                Some(v) => self@.contains_key(k) && v@ == self@[k] && v.wf(),
                None => !self@.contains_key(k),
            },
    {
        self.m.get(k)
    }

    /// Whether `x` is a member of the set stored under `k`.
    pub fn has_member(&self, k: usize, x: usize) -> (r: bool)
        requires
            self.wf(),
        ensures
            r == (self@.contains_key(k) && self@[k].contains(x)),
    {
        match self.m.get(k) {
            Some(v) => v.contains(x),
            None => false,
        }
    }

    /// Adds `x` to the set stored under `k`, creating the entry if absent.
    pub fn add_member(&mut self, k: usize, x: usize)
        requires
            old(self).wf(),
        ensures
            final(self).wf(),
            final(self)@ == old(self)@.insert(
                k,
                (if old(self)@.contains_key(k) {
                    old(self)@[k]
                } else {
                    Set::<usize>::empty()
                }).insert(x),
            ),
    {
        let mut ns: VertexSet;
        match self.m.get(k) {
            Some(v) => {
                ns = v.clone();
            },
            None => {
                ns = VertexSet::new();
            },
        }
        ns.insert(x);
        self.m.insert(k, ns);
        proof {
            assert(self@ =~= old(self)@.insert(
                k,
                (if old(self)@.contains_key(k) {
                    old(self)@[k]
                } else {
                    Set::<usize>::empty()
                }).insert(x),
            ));
        }
    }

    /// Removes `x` from the set stored under `k`; drops the entry when the
    /// set becomes empty, so that an indexed vertex always has a neighbour.
    pub fn remove_member_prune(&mut self, k: usize, x: usize)
        requires
            old(self).wf(),
            old(self)@.contains_key(k),
        ensures
            final(self).wf(),
            final(self)@ == (if old(self)@[k].remove(x).is_empty() {
                old(self)@.remove(k)
            } else {
                old(self)@.insert(k, old(self)@[k].remove(x))
            }),
    {
        let mut ns: VertexSet;
        match self.m.get(k) {
            Some(v) => {
                ns = v.clone();
            },
            None => {
                ns = VertexSet::new();
            },
        }
        ns.remove(x);
        if ns.is_empty() {
            self.m.remove(k);
            proof {
                assert(self@ =~= old(self)@.remove(k));
            }
        } else {
            self.m.insert(k, ns);
            proof {
                assert(self@ =~= old(self)@.insert(k, old(self)@[k].remove(x)));
            }
        }
    }

    /// Removes the whole entry under `k`, if any.
    pub fn remove_key(&mut self, k: usize)
        requires
            old(self).wf(),
        ensures
            final(self).wf(),
            final(self)@ == old(self)@.remove(k),
    {
        self.m.remove(k);
        proof {
            assert(self@ =~= old(self)@.remove(k));
        }
    }
}

impl Clone for AdjMap {
    fn clone(&self) -> (r: Self)
        ensures
            self.wf() ==> r.wf() && r@ == self@,
    {
        let mut entries: Vec<(usize, VertexSet)> = Vec::new();
        let mut i: usize = 0;
        while i < self.m.entries.len()
            invariant
                i <= self.m.entries.len(),
                entries@.len() == i,
                forall|j: int| 0 <= j < i ==> #[trigger] entries@[j].0 == self.m.entries@[j].0,
                self.wf() ==> forall|j: int|
                    0 <= j < i ==> (#[trigger] entries@[j].1)@ == self.m.entries@[j].1@
                        && entries@[j].1.wf(),
            decreases self.m.entries.len() - i,
        {
            proof {
                if self.wf() {
                    self.m.lemma_entry(i as int);
                }
            }
            let k = self.m.entries[i].0;
            let v = self.m.entries[i].1.clone();
            entries.push((k, v));
            i = i + 1;
        }
        let r = AdjMap { m: VecMap { entries } };
        proof {
            if self.wf() {
                assert(r.m.key_seq() =~= self.m.key_seq());
                assert forall|k2: usize| r.m@.contains_key(k2) implies r.m@.contains_key(k2)
                    && #[trigger] r.m@[k2]@ == self.m@[k2]@ && r.m@[k2].wf() by {
                    let ks = r.m.key_seq();
                    let j = ks.index_of(k2);
                    assert(exists|m: int| 0 <= m < ks.len() && ks[m] == k2);
                    assert(0 <= j < ks.len() && ks[j] == k2);
                    r.m.lemma_entry(j);
                    self.m.lemma_entry(j);
                }
                assert(r@ =~= self@);
            }
        }
        r
    }
}

/// The weighted edge relation: a map from ordered vertex pairs to weights.
pub struct EdgeMap {
    pub(crate) entries: Vec<((usize, usize), i64)>,
}

impl View for EdgeMap {
    type V = Map<(usize, usize), i64>;

    open(crate) spec fn view(&self) -> Map<(usize, usize), i64> {
        Map::new(
            |k: (usize, usize)| self.key_seq().contains(k),
            |k: (usize, usize)| self.entries@[self.key_seq().index_of(k)].1,
        )
    }
}

impl EdgeMap {
    /// The edge keys, in storage order.
    pub open(crate) spec fn key_seq(&self) -> Seq<(usize, usize)> {
        self.entries@.map_values(|e: ((usize, usize), i64)| e.0)
    }

    /// No edge key occurs twice in the backing vector.
    pub open(crate) spec fn wf(&self) -> bool {
        self.key_seq().no_duplicates()
    }

    /// Each stored entry is reflected in the map view.
    pub(crate) proof fn lemma_entry(&self, i: int)
        requires
            self.wf(),
            0 <= i < self.entries@.len(),
        ensures
            self@.contains_key(self.entries@[i].0),
            self@[self.entries@[i].0] == self.entries@[i].1,
    {
        let ks = self.key_seq();
        let k = self.entries@[i].0;
        assert(ks[i] == k);
        assert(ks.contains(k));
        let j = ks.index_of(k);
        assert(exists|m: int| 0 <= m < ks.len() && ks[m] == k);
        assert(0 <= j < ks.len() && ks[j] == k);
        assert(j == i);
    }

    /// The map domain is exactly the set of stored keys.
    pub(crate) proof fn lemma_dom(&self)
        requires
            self.wf(),
        ensures
            self@.dom() =~= self.key_seq().to_set(),
            self@.dom().len() == self.entries@.len(),
    {
        self.key_seq().unique_seq_to_set();
    }

    pub fn new() -> (r: EdgeMap)
        ensures
            r.wf(),
            r@ == Map::<(usize, usize), i64>::empty(),
    {
        let r = EdgeMap { entries: Vec::new() };
        proof {
            assert(r@ =~= Map::<(usize, usize), i64>::empty());
        }
        r
    }

    pub(crate) fn index_of_key(&self, a: usize, b: usize) -> (r: Option<usize>)
        ensures
            match r {
                Some(i) => i < self.entries@.len() && self.entries@[i as int].0 == (a, b),
                None => !self.key_seq().contains((a, b)),
            },
    {
        let mut i: usize = 0;
        while i < self.entries.len()
            invariant
                i <= self.entries.len(),
                forall|j: int| 0 <= j < i ==> self.entries@[j].0 != (a, b),
            decreases self.entries.len() - i,
        {
            if self.entries[i].0.0 == a && self.entries[i].0.1 == b {
                return Some(i);
            }
            i = i + 1;
        }
        proof {
            assert forall|j: int| 0 <= j < self.key_seq().len() implies self.key_seq()[j] != (
                a,
                b,
            ) by {
                assert(self.key_seq()[j] == self.entries@[j].0);
            }
        }
        None
    }

    pub fn contains_key(&self, a: usize, b: usize) -> (r: bool)
        requires
            self.wf(),
        ensures
            r == self@.contains_key((a, b)),
    {
        match self.index_of_key(a, b) {
            Some(i) => {
                proof {
                    self.lemma_entry(i as int);
                }
                true
            },
            None => false,
        }
    }

    pub fn get(&self, a: usize, b: usize) -> (r: Option<i64>)
        requires
            self.wf(),
        ensures
            match r {
                Some(w) => self@.contains_key((a, b)) && w == self@[(a, b)],
                None => !self@.contains_key((a, b)),
            },
    {
        match self.index_of_key(a, b) {
            Some(i) => {
                proof {
                    self.lemma_entry(i as int);
                }
                Some(self.entries[i].1)
            },
            None => None,
        }
    }

    pub fn insert(&mut self, a: usize, b: usize, w: i64)
        requires
            old(self).wf(),
        ensures
            final(self).wf(),
            final(self)@ == old(self)@.insert((a, b), w),
    {
        let ghost m0 = old(self)@;
        let ghost k = (a, b);
        match self.index_of_key(a, b) {
            Some(i) => {
                self.entries.set(i, ((a, b), w));
                proof {
                    assert(self.entries@[i as int].0 == k);
                    assert(self.key_seq() =~= old(self).key_seq());
                    assert(self.wf());
                    old(self).lemma_entry(i as int);
                    assert(m0.dom().contains(k));
                    assert(self@.dom() =~= m0.insert(k, w).dom());
                    assert forall|k2: (usize, usize)| self@.contains_key(k2) implies self@[k2]
                        == m0.insert(k, w)[k2] by {
                        let ks = self.key_seq();
                        let j = ks.index_of(k2);
                        assert(exists|m: int| 0 <= m < ks.len() && ks[m] == k2);
                        assert(0 <= j < ks.len() && ks[j] == k2);
                        self.lemma_entry(j);
                        assert(self.entries@[j].0 == k2);
                        if k2 == k {
                            assert(ks[i as int] == k);
                            assert(j == i);
                        } else {
                            assert(j != i);
                            assert(self.entries@[j] == old(self).entries@[j]);
                            old(self).lemma_entry(j);
                        }
                    }
                    assert(self@ =~= m0.insert(k, w));
                }
            },
            None => {
                self.entries.push(((a, b), w));
                proof {
                    assert(self.key_seq() =~= old(self).key_seq().push(k));
                    lemma_seq_push_no_duplicates(old(self).key_seq(), k);
                    assert(self.wf());
                    assert(self@.dom() =~= m0.insert(k, w).dom()) by {
                        broadcast use vstd::seq_lib::lemma_seq_contains_after_push;

                    }
                    assert forall|k2: (usize, usize)| self@.contains_key(k2) implies self@[k2]
                        == m0.insert(k, w)[k2] by {
                        let ks = self.key_seq();
                        let j = ks.index_of(k2);
                        assert(exists|m: int| 0 <= m < ks.len() && ks[m] == k2);
                        assert(0 <= j < ks.len() && ks[j] == k2);
                        self.lemma_entry(j);
                        assert(self.entries@[j].0 == k2);
                        if k2 == k {
                            assert(j == ks.len() - 1) by {
                                if j < ks.len() - 1 {
                                    assert(old(self).key_seq()[j] == k2);
                                    assert(old(self).key_seq().contains(k2));
                                }
                            }
                            assert(self.entries@[j].1 == w);
                        } else {
                            assert(j < ks.len() - 1);
                            assert(old(self).key_seq()[j] == k2);
                            assert(self.entries@[j] == old(self).entries@[j]);
                            old(self).lemma_entry(j);
                        }
                    }
                    assert(self@ =~= m0.insert(k, w));
                }
            },
        }
    }

    pub fn remove(&mut self, a: usize, b: usize)
        requires
            old(self).wf(),
        ensures
            final(self).wf(),
            final(self)@ == old(self)@.remove((a, b)),
    {
        let ghost m0 = old(self)@;
        let ghost k = (a, b);
        match self.index_of_key(a, b) {
            Some(i) => {
                self.entries.remove(i);
                proof {
                    assert(old(self).key_seq()[i as int] == k);
                    assert(self.key_seq() =~= old(self).key_seq().remove(i as int));
                    lemma_seq_remove_no_duplicates(old(self).key_seq(), i as int);
                    assert(self.wf());
                    lemma_seq_remove_to_set(old(self).key_seq(), i as int);
                    assert(self@.dom() =~= m0.remove(k).dom());
                    assert forall|k2: (usize, usize)| self@.contains_key(k2) implies self@[k2]
                        == m0.remove(k)[k2] by {
                        let ks = self.key_seq();
                        let j = ks.index_of(k2);
                        assert(exists|m: int| 0 <= m < ks.len() && ks[m] == k2);
                        assert(0 <= j < ks.len() && ks[j] == k2);
                        self.lemma_entry(j);
                        assert(self.entries@[j].0 == k2);
                        let jo = if j < i { j } else { j + 1 };
                        assert(self.entries@[j] == old(self).entries@[jo]);
                        assert(old(self).key_seq()[jo] == k2);
                        assert(k2 != k) by {
                            if k2 == k {
                                assert(old(self).key_seq()[i as int] == old(self).key_seq()[jo]);
                            }
                        }
                        old(self).lemma_entry(jo);
                    }
                    assert(self@ =~= m0.remove(k));
                }
            },
            None => {
                proof {
                    assert(!self@.contains_key(k));
                    assert(self@ =~= m0.remove(k));
                }
            },
        }
    }

    /// The number of stored edges.
    pub fn len(&self) -> (r: usize)
        requires
            self.wf(),
        ensures
            r == self@.dom().len(),
    {
        proof {
            self.lemma_dom();
        }
        self.entries.len()
    }

    pub fn is_empty(&self) -> (r: bool)
        requires
            self.wf(),
        ensures
            r == self@.dom().is_empty(),
    {
        proof {
            self.lemma_dom();
            if self.entries@.len() == 0 {
                assert(self@.dom() =~= Set::<(usize, usize)>::empty());
            } else {
                self.lemma_entry(0);
            }
        }
        self.entries.len() == 0
    }
}

impl Clone for EdgeMap {
    fn clone(&self) -> (r: Self)
        ensures
            self.wf() ==> r.wf() && r@ == self@,
    {
        let mut entries: Vec<((usize, usize), i64)> = Vec::new();
        let mut i: usize = 0;
        while i < self.entries.len()
            invariant
                i <= self.entries.len(),
                entries@ == self.entries@.take(i as int),
            decreases self.entries.len() - i,
        {
            entries.push(self.entries[i]);
            proof {
                assert(entries@ =~= self.entries@.take(i + 1));
            }
            i = i + 1;
        }
        proof {
            assert(entries@ == self.entries@);
        }
        let r = EdgeMap { entries };
        proof {
            if self.wf() {
                assert(r@ =~= self@);
            }
        }
        r
    }
}

impl VertexSet {
    /// Adds every member of `self` to `into`.
    pub fn union_into(&self, into: &mut VertexSet)
        requires
            old(into).wf(),
        ensures
            final(into).wf(),
            final(into)@ == old(into)@.union(self@),
    {
        let mut i: usize = 0;
        while i < self.items.len()
            invariant
                into.wf(),
                i <= self.items.len(),
                into@ == old(into)@.union(self.items@.take(i as int).to_set()),
            decreases self.items.len() - i,
        {
            let ghost pre = into@;
            into.insert(self.items[i]);
            proof {
                broadcast use vstd::seq_lib::lemma_seq_contains_after_push;

                assert(self.items@.take(i + 1).drop_last() == self.items@.take(i as int));
                assert(self.items@.take(i + 1) == self.items@.take(i as int).push(
                    self.items@[i as int],
                ));
                assert(into@ =~= old(into)@.union(self.items@.take(i + 1).to_set()));
            }
            i = i + 1;
        }
        proof {
            assert(self.items@.take(self.items@.len() as int) == self.items@);
            assert(final(into)@ =~= old(into)@.union(self@));
        }
    }
}

impl AdjMap {
    /// Adds every indexed key of `self` to `into`.
    pub fn keys_into(&self, into: &mut VertexSet)
        requires
            self.wf(),
            old(into).wf(),
        ensures
            final(into).wf(),
            final(into)@ == old(into)@.union(self@.dom()),
    {
        let ghost ks = self.m.key_seq();
        let mut i: usize = 0;
        while i < self.m.entries.len()
            invariant
                self.wf(),
                ks == self.m.key_seq(),
                into.wf(),
                i <= self.m.entries.len(),
                into@ == old(into)@.union(ks.take(i as int).to_set()),
            decreases self.m.entries.len() - i,
        {
            let ghost pre = into@;
            into.insert(self.m.entries[i].0);
            proof {
                broadcast use vstd::seq_lib::lemma_seq_contains_after_push;

                assert(ks[i as int] == self.m.entries@[i as int].0);
                assert(ks.take(i + 1) == ks.take(i as int).push(ks[i as int]));
                assert(into@ =~= old(into)@.union(ks.take(i + 1).to_set()));
            }
            i = i + 1;
        }
        proof {
            assert(ks.take(ks.len() as int) == ks);
            self.m.lemma_dom();
            assert(self@.dom() =~= self.m@.dom());
            assert(final(into)@ =~= old(into)@.union(self@.dom()));
        }
    }
}

} // verus!

verus! {

/// A set of vertex paths, stored as a duplicate-free vector of sequences.
pub struct PathSet {
    pub(crate) items: Vec<Vec<usize>>,
}

impl View for PathSet {
    type V = Set<Seq<usize>>;

    open(crate) spec fn view(&self) -> Set<Seq<usize>> {
        self.items@.map_values(|p: Vec<usize>| p@).to_set()
    }
}

impl PathSet {
    pub fn new() -> (r: PathSet)
        ensures
            r@ == Set::<Seq<usize>>::empty(),
    {
        let r = PathSet { items: Vec::new() };
        proof {
            assert(r.items@.map_values(|p: Vec<usize>| p@) =~= Seq::<Seq<usize>>::empty());
            assert(r@ =~= Set::<Seq<usize>>::empty());
        }
        r
    }

    /// Whether a path with the same vertices is already stored.
    pub fn contains(&self, p: &Vec<usize>) -> (r: bool)
        ensures
            r == self@.contains(p@),
    {
        let ghost ms = self.items@.map_values(|q: Vec<usize>| q@);
        let mut i: usize = 0;
        while i < self.items.len()
            invariant
                ms == self.items@.map_values(|q: Vec<usize>| q@),
                i <= self.items.len(),
                forall|j: int| 0 <= j < i ==> ms[j] != p@,
            decreases self.items.len() - i,
        {
            if vec_eq(&self.items[i], p) {
                proof {
                    assert(ms[i as int] == p@);
                    assert(ms.contains(p@));
                }
                return true;
            }
            i = i + 1;
        }
        proof {
            assert(!ms.contains(p@));
        }
        false
    }

    /// Inserts a path if no equal path is stored yet.
    pub fn insert(&mut self, p: Vec<usize>)
        ensures
            final(self)@ == old(self)@.insert(p@),
    {
        let ghost ms0 = self.items@.map_values(|q: Vec<usize>| q@);
        if !self.contains(&p) {
            proof {
                assert(!ms0.contains(p@));
            }
            self.items.push(p);
            proof {
                broadcast use vstd::seq_lib::lemma_seq_contains_after_push;

                assert(self.items@.map_values(|q: Vec<usize>| q@) =~= ms0.push(p@));
                assert(self@ =~= old(self)@.insert(p@));
            }
        } else {
            proof {
                assert(self@ =~= old(self)@.insert(p@));
            }
        }
    }
}

/// Whether two vertex vectors hold the same sequence.
pub fn vec_eq(a: &Vec<usize>, b: &Vec<usize>) -> (r: bool)
    ensures
        r == (a@ == b@),
{
    if a.len() != b.len() {
        proof {
            assert(a@ != b@);
        }
        return false;
    }
    let mut i: usize = 0;
    while i < a.len()
        invariant
            a@.len() == b@.len(),
            i <= a@.len(),
            forall|j: int| 0 <= j < i ==> a@[j] == b@[j],
        decreases a@.len() - i,
    {
        if a[i] != b[i] {
            return false;
        }
        i = i + 1;
    }
    proof {
        assert(a@ =~= b@);
    }
    true
}

/// A copy of a vertex vector.
pub fn copy_vec(v: &Vec<usize>) -> (r: Vec<usize>)
    ensures
        r@ == v@,
{
    let mut r: Vec<usize> = Vec::new();
    let mut i: usize = 0;
    while i < v.len()
        invariant
            i <= v@.len(),
            r@ == v@.take(i as int),
        decreases v@.len() - i,
    {
        r.push(v[i]);
        proof {
            assert(r@ =~= v@.take(i + 1));
        }
        i = i + 1;
    }
    proof {
        assert(v@.take(v@.len() as int) == v@);
    }
    r
}

} // verus!
