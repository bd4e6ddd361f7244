use vstd::prelude::*;

verus! {

/// The handle registered under `id` in `s`, searching from the back.
pub open spec fn find_handle<H>(s: Seq<(usize, H)>, id: usize) -> Option<H>
    decreases s.len(),
{
    if s.len() == 0 {
        None
    } else if s.last().0 == id {
        Some(s.last().1)
    } else {
        find_handle(s.drop_last(), id)
    }
}

pub open spec fn ids_of<H>(s: Seq<(usize, H)>) -> Seq<usize> {
    s.map_values(|e: (usize, H)| e.0)
}

proof fn lemma_find_at<H>(s: Seq<(usize, H)>, i: int)
    requires
        0 <= i < s.len(),
        ids_of(s).no_duplicates(),
    ensures
        find_handle(s, s[i].0) == Some(s[i].1),
    decreases s.len(),
{
    if i != s.len() - 1 {
        let t = s.drop_last();
        assert(ids_of(s)[i] == s[i].0);
        assert(ids_of(s)[s.len() - 1] == s.last().0);
        assert(ids_of(t) =~= ids_of(s).drop_last());
        lemma_find_at(t, i);
    }
}

proof fn lemma_find_none<H>(s: Seq<(usize, H)>, id: usize)
    requires
        forall|i: int| 0 <= i < s.len() ==> s[i].0 != id,
    ensures
        find_handle(s, id) is None,
    decreases s.len(),
{
    if s.len() > 0 {
        assert(s.last() == s[s.len() - 1]);
        lemma_find_none(s.drop_last(), id);
    }
}

/// The live connections, each under its client identity, in the order in
/// which they were registered. At most one entry per identity.
pub struct Registry<H> {
    entries: Vec<(usize, H)>,
}

impl<H> Registry<H> {
    pub closed spec fn entries(&self) -> Seq<(usize, H)> {
        self.entries@
    }

    /// Registered identities in iteration order.
    pub open spec fn ids(&self) -> Seq<usize> {
        ids_of(self.entries())
    }

    pub open spec fn wf(&self) -> bool {
        self.ids().no_duplicates()
    }

    /// The handle registered under `id`, if any.
    pub open spec fn lookup(&self, id: usize) -> Option<H> {
        find_handle(self.entries(), id)
    }

    pub open spec fn contains(&self, id: usize) -> bool {
        self.ids().contains(id)
    }

    proof fn lemma_lookup(&self, id: usize)
        requires
            self.wf(),
        ensures
            self.contains(id) <==> self.lookup(id) is Some,
    {
        let s = self.entries();
        if self.contains(id) {
            let i = choose|i: int| 0 <= i < self.ids().len() && self.ids()[i] == id;
            lemma_find_at(s, i);
        } else {
            assert forall|i: int| 0 <= i < s.len() implies s[i].0 != id by {
                assert(self.ids()[i] == s[i].0);
            }
            lemma_find_none(s, id);
        }
    }

    /// Position of `id` in the entries, if registered.
    fn position(&self, id: usize) -> (r: Option<usize>)
        requires
            self.wf(),
        ensures
            match r {
                Some(i) => i < self.entries().len() && self.entries()[i as int].0 == id,
                None => !self.contains(id),
            },
    {
        let mut i: usize = 0;
        while i < self.entries.len()
            invariant
                i <= self.entries@.len(),
                forall|k: int| 0 <= k < i ==> self.entries@[k].0 != id,
            decreases self.entries@.len() - i,
        {
            if self.entries[i].0 == id {
                return Some(i);
            }
            i = i + 1;
        }
        proof {
            if self.contains(id) {
                let k = choose|k: int| 0 <= k < self.ids().len() && self.ids()[k] == id;
                assert(self.ids()[k] == self.entries@[k].0);
            }
        }
        None
    }

    /// An empty registry.
    pub fn new() -> (r: Self)
        ensures
            r.wf(),
            r.ids() == Seq::<usize>::empty(),
            forall|id: usize| r.lookup(id) is None,
    {
        let r = Registry { entries: Vec::new() };
        assert(r.ids() =~= Seq::<usize>::empty());
        r
    }

    /// Registers `handle` under `id`. An identity already present keeps its
    /// place and gets the new handle; a new one goes last.
    pub fn insert(&mut self, id: usize, handle: H)
        requires
            old(self).wf(),
        ensures
            final(self).wf(),
            final(self).ids() == if old(self).contains(id) {
                old(self).ids()
            } else {
                old(self).ids().push(id)
            },
            final(self).lookup(id) == Some(handle),
            forall|other: usize| other != id ==> final(self).lookup(other) == old(self).lookup(other),
    {
        let ghost before = self.entries@;
        match self.position(id) {
            Some(i) => {
                self.entries.set(i, (id, handle));
                proof {
                    let after = self.entries@;
                    assert(ids_of(before)[i as int] == id);
                    assert(ids_of(after) =~= ids_of(before));
                    lemma_find_at(after, i as int);
                    assert forall|other: usize| other != id implies find_handle(after, other)
                        == find_handle(before, other) by {
                        if ids_of(before).contains(other) {
                            let k = choose|k: int|
                                0 <= k < ids_of(before).len() && ids_of(before)[k] == other;
                            lemma_find_at(before, k);
                            lemma_find_at(after, k);
                        } else {
                            assert forall|k: int| 0 <= k < before.len() implies before[k].0
                                != other by {
                                assert(ids_of(before)[k] == before[k].0);
                            }
                            lemma_find_none(before, other);
                            lemma_find_none(after, other);
                        }
                    }
                }
            },
            None => {
                self.entries.push((id, handle));
                proof {
                    let after = self.entries@;
                    assert(ids_of(after) =~= ids_of(before).push(id));
                    assert(after.drop_last() =~= before);
                }
            },
        }
    }

    /// The handle registered under `id`, if any.
    pub fn get(&self, id: usize) -> (r: Option<&H>)
        requires
            self.wf(),
        ensures
            match r {
                Some(h) => self.lookup(id) == Some(*h),
                None => self.lookup(id) is None,
            },
            r is Some <==> self.contains(id),
    {
        proof {
            self.lemma_lookup(id);
        }
        match self.position(id) {
            Some(i) => {
                proof {
                    lemma_find_at(self.entries@, i as int);
                }
                Some(&self.entries[i].1)
            },
            None => None,
        }
    }

    /// Removes the entry for `id`. Removing an identity that is not
    /// registered leaves the registry exactly as it was.
    pub fn remove(&mut self, id: usize)
        requires
            old(self).wf(),
        ensures
            final(self).wf(),
            !old(self).contains(id) ==> *final(self) == *old(self),
            old(self).contains(id) ==> exists|i: int|
                0 <= i < old(self).ids().len() && old(self).ids()[i] == id && final(self).ids()
                    == old(self).ids().remove(i),
            old(self).contains(id) ==> final(self).ids().len() == old(self).ids().len() - 1,
            final(self).lookup(id) is None,
            !final(self).contains(id),
            forall|other: usize| other != id ==> final(self).lookup(other) == old(self).lookup(other),
            forall|other: usize|
                other != id ==> (final(self).contains(other) <==> old(self).contains(other)),
    {
        let ghost before = self.entries@;
        let ghost prev = *self;
        proof {
            self.lemma_lookup(id);
        }
        match self.position(id) {
            Some(i) => {
                let _ = self.entries.remove(i);
                proof {
                    let after = self.entries@;
                    assert(after =~= before.remove(i as int));
                    assert(ids_of(after) =~= ids_of(before).remove(i as int));
                    assert(ids_of(before)[i as int] == id);
                    assert forall|a: int, b: int|
                        0 <= a < ids_of(after).len() && 0 <= b < ids_of(after).len() && a
                            != b implies ids_of(after)[a] != ids_of(after)[b] by {
                        let a0 = if a < i { a } else { a + 1 };
                        let b0 = if b < i { b } else { b + 1 };
                        assert(ids_of(after)[a] == ids_of(before)[a0]);
                        assert(ids_of(after)[b] == ids_of(before)[b0]);
                    }
                    assert forall|k: int| 0 <= k < after.len() implies after[k].0 != id by {
                        let k0 = if k < i { k } else { k + 1 };
                        assert(ids_of(before)[k0] == before[k0].0);
                        assert(ids_of(before)[i as int] == before[i as int].0);
                    }
                    lemma_find_none(after, id);
                    assert forall|other: usize| other != id implies find_handle(after, other)
                        == find_handle(before, other) by {
                        if ids_of(before).contains(other) {
                            let k = choose|k: int|
                                0 <= k < ids_of(before).len() && ids_of(before)[k] == other;
                            assert(k != i);
                            lemma_find_at(before, k);
                            let k1 = if k < i { k } else { k - 1 };
                            assert(after[k1] == before[k]);
                            assert(ids_of(after)[k1] == other);
                            lemma_find_at(after, k1);
                        } else {
                            assert forall|k: int| 0 <= k < before.len() implies before[k].0
                                != other by {
                                assert(ids_of(before)[k] == before[k].0);
                            }
                            lemma_find_none(before, other);
                            assert forall|k: int| 0 <= k < after.len() implies after[k].0
                                != other by {
                                let k0 = if k < i { k } else { k + 1 };
                                assert(after[k] == before[k0]);
                            }
                            lemma_find_none(after, other);
                        }
                    }
                    self.lemma_lookup(id);
                    assert forall|other: usize| other != id implies (self.contains(other)
                        <==> prev.contains(other)) by {
                        self.lemma_lookup(other);
                        prev.lemma_lookup(other);
                    }
                }
            },
            None => {},
        }
    }

    /// Registered identities in iteration order.
    pub fn ids_vec(&self) -> (r: Vec<usize>)
        ensures
            r@ == self.ids(),
    {
        let mut r: Vec<usize> = Vec::new();
        let mut i: usize = 0;
        while i < self.entries.len()
            invariant
                i <= self.entries@.len(),
                r@ == ids_of(self.entries@.subrange(0, i as int)),
            decreases self.entries@.len() - i,
        {
            r.push(self.entries[i].0);
            i = i + 1;
            assert(ids_of(self.entries@.subrange(0, i as int)) =~= ids_of(
                self.entries@.subrange(0, i - 1),
            ).push(self.entries@[i - 1].0));
        }
        assert(self.entries@.subrange(0, i as int) =~= self.entries@);
        r
    }

    /// Number of registered connections.
    pub fn len(&self) -> (r: usize)
        ensures
            r == self.ids().len(),
    {
        self.entries.len()
    }
}

} // verus!
