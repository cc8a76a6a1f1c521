use vstd::prelude::*;

verus! {

/// The largest identity a computation can be given.
pub const MAX_ID: u64 = 0xffff_ffff_ffff_ffff;

/// A computation in flight for one key: its identity, never reused within a
/// registry, and the caller's handle on it (a shared, memoizing future).
pub struct Pending<H> {
    pub id: u64,
    pub handle: H,
}

/// What a caller got from `acquire_or_join`.
#[derive(Clone, Copy, Debug, PartialEq, Eq, Structural)]
pub enum Acquired {
    /// A computation was already in flight for the key; the caller joins it.
    Joined(u64),
    /// No computation was in flight; the caller's one was registered and
    /// must now be run.
    Started(u64),
    /// Every identity has been handed out; nothing was registered.
    Exhausted,
}

/// The registry's abstract state: the computations in flight, by key.
pub type Live<H> = Map<Seq<char>, Pending<H>>;

/// Every identity in flight was handed out before `next`.
pub open spec fn model_wf<H>(live: Live<H>, next: u64) -> bool {
    forall|k: Seq<char>| #[trigger] live.contains_key(k) ==> live[k].id < next
}

/// The effect of `acquire_or_join(key, fresh)`: join what is in flight for
/// the key, else register `fresh` under the next identity.
pub open spec fn acquire_step<H>(live: Live<H>, next: u64, key: Seq<char>, fresh: H) -> (Live<H>, u64, Acquired) {
    if live.contains_key(key) {
        (live, next, Acquired::Joined(live[key].id))
    } else if next == MAX_ID {
        (live, next, Acquired::Exhausted)
    } else {
        (live.insert(key, Pending { id: next, handle: fresh }), (next + 1) as u64, Acquired::Started(next))
    }
}

/// The effect of `retire(key, id)`: the entry for the key goes only if it is
/// the computation with that identity.
pub open spec fn retire_step<H>(live: Live<H>, key: Seq<char>, id: u64) -> (Live<H>, bool) {
    if live.contains_key(key) && live[key].id == id {
        (live.remove(key), true)
    } else {
        (live, false)
    }
}

/// The map from keys to the computations in flight for them, at most one per key.
pub struct Registry<H> {
    entries: Vec<(String, Pending<H>)>,
    next_id: u64,
    live: Ghost<Live<H>>,
}

impl<H> Registry<H> {
    /// The computations in flight, by key.
    pub closed spec fn live(&self) -> Live<H> {
        self.live@
    }

    /// The identity the next registered computation gets.
    pub closed spec fn next_id(&self) -> u64 {
        self.next_id
    }

    pub closed spec fn wf(&self) -> bool {
        &&& forall|i: int, j: int|
            0 <= i < j < self.entries@.len() ==> (#[trigger] self.entries@[i]).0@ != (#[trigger] self.entries@[j]).0@
        &&& forall|i: int|
            0 <= i < self.entries@.len() ==> self.live@.contains_key((#[trigger] self.entries@[i]).0@)
                && self.live@[self.entries@[i].0@] == self.entries@[i].1
        &&& forall|k: Seq<char>|
            #[trigger] self.live@.contains_key(k) ==> exists|i: int|
                0 <= i < self.entries@.len() && (#[trigger] self.entries@[i]).0@ == k
        &&& model_wf(self.live@, self.next_id)
    }

    /// An empty registry.
    pub fn new() -> (r: Registry<H>)
        ensures
            r.wf(),
            r.live() == Map::<Seq<char>, Pending<H>>::empty(),
            r.next_id() == 0,
    {
        Registry { entries: Vec::new(), next_id: 0, live: Ghost(Map::empty()) }
    }

    /// The position of the key's entry.
    fn find(&self, key: &String) -> (r: Option<usize>)
        requires
            self.wf(),
        ensures
            match r {
                Some(i) => i < self.entries@.len() && self.entries@[i as int].0@ == key@,
                None => !self.live().contains_key(key@),
            },
    {
        let mut i: usize = 0;
        while i < self.entries.len()
            invariant
                self.wf(),
                i <= self.entries@.len(),
                forall|j: int| 0 <= j < i ==> (#[trigger] self.entries@[j]).0@ != key@,
            decreases self.entries@.len() - i,
        {
            if self.entries[i].0 == *key {
                return Some(i);
            }
            i = i + 1;
        }
        None
    }

    /// Whether a computation is in flight for the key.
    pub fn contains(&self, key: &String) -> (r: bool)
        requires
            self.wf(),
        ensures
            r == self.live().contains_key(key@),
    {
        self.find(key).is_some()
    }

    /// The number of keys with a computation in flight.
    pub fn len(&self) -> (r: usize)
        requires
            self.wf(),
        ensures
            r == self.live().len(),
    {
        proof {
            self.lemma_len();
        }
        self.entries.len()
    }

    proof fn lemma_len(&self)
        requires
            self.wf(),
        ensures
            self.live().dom() == self.entries@.map_values(|e: (String, Pending<H>)| e.0@).to_set(),
            self.live().len() == self.entries@.len(),
    {
        let keys = self.entries@.map_values(|e: (String, Pending<H>)| e.0@);
        assert forall|k: Seq<char>| self.live().dom().contains(k) <==> keys.to_set().contains(k) by {
            if self.live().dom().contains(k) {
                let i = choose|i: int| 0 <= i < self.entries@.len() && (#[trigger] self.entries@[i]).0@ == k;
                assert(keys[i] == k);
            }
            if keys.to_set().contains(k) {
                let i = choose|i: int| 0 <= i < keys.len() && keys[i] == k;
                assert(self.entries@[i].0@ == k);
            }
        }
        assert(self.live().dom() =~= keys.to_set());
        assert(keys.no_duplicates()) by {
            assert forall|i: int, j: int| 0 <= i < keys.len() && 0 <= j < keys.len() && i != j implies keys[i] != keys[j] by {
                if i < j {
                    assert(self.entries@[i].0@ != self.entries@[j].0@);
                } else {
                    assert(self.entries@[j].0@ != self.entries@[i].0@);
                }
            }
        }
        keys.unique_seq_to_set();
    }

    /// The computation in flight for the key, if any.
    pub fn lookup(&self, key: &String) -> (r: Option<&Pending<H>>)
        requires
            self.wf(),
        ensures
            r is Some <==> self.live().contains_key(key@),
            r is Some ==> *r->Some_0 == self.live()[key@],
    {
        match self.find(key) {
            Some(i) => Some(&self.entries[i].1),
            None => None,
        }
    }

    /// Joins the computation in flight for the key, or, where there is none,
    /// registers `fresh` as that computation under a new identity. Lookup and
    /// insertion are one step, so at most one computation is ever registered
    /// per key.
    pub fn acquire_or_join(&mut self, key: String, fresh: H) -> (r: Acquired)
        requires
            old(self).wf(),
        ensures
            final(self).wf(),
            (final(self).live(), final(self).next_id(), r) == acquire_step(old(self).live(), old(self).next_id(), key@, fresh),
    {
        match self.find(&key) {
            Some(i) => {
                let id = self.entries[i].1.id;
                Acquired::Joined(id)
            },
            None => {
                if self.next_id == MAX_ID {
                    return Acquired::Exhausted;
                }
                let id = self.next_id;
                let ghost k = key@;
                let ghost pending = Pending { id, handle: fresh };
                self.entries.push((key, Pending { id, handle: fresh }));
                self.next_id = id + 1;
                self.live = Ghost(self.live@.insert(k, pending));
                proof {
                    let n = self.entries@.len() - 1;
                    assert(self.entries@[n].0@ == k);
                    assert forall|k2: Seq<char>| #[trigger] self.live@.contains_key(k2) implies exists|i: int|
                        0 <= i < self.entries@.len() && (#[trigger] self.entries@[i]).0@ == k2 by {
                        if k2 != k {
                            let i = choose|i: int| 0 <= i < old(self).entries@.len() && (#[trigger] old(self).entries@[i]).0@ == k2;
                            assert(self.entries@[i] == old(self).entries@[i]);
                        }
                    }
                }
                Acquired::Started(id)
            },
        }
    }

    /// Removes the key's entry if, and only if, it is the computation with the
    /// given identity: a settled computation never retires a newer one
    /// registered under the same key. Returns whether it removed the entry.
    pub fn retire(&mut self, key: &String, id: u64) -> (r: bool)
        requires
            old(self).wf(),
        ensures
            final(self).wf(),
            final(self).next_id() == old(self).next_id(),
            (final(self).live(), r) == retire_step(old(self).live(), key@, id),
    {
        match self.find(key) {
            Some(i) => {
                if self.entries[i].1.id != id {
                    return false;
                }
                let ghost k = key@;
                let _ = self.entries.remove(i);
                self.live = Ghost(self.live@.remove(k));
                proof {
                    assert forall|j: int| 0 <= j < self.entries@.len() implies self.live@.contains_key((#[trigger] self.entries@[j]).0@)
                        && self.live@[self.entries@[j].0@] == self.entries@[j].1 by {
                        if j < i {
                            assert(self.entries@[j] == old(self).entries@[j]);
                        } else {
                            assert(self.entries@[j] == old(self).entries@[j + 1]);
                        }
                    }
                    assert forall|k2: Seq<char>| #[trigger] self.live@.contains_key(k2) implies exists|j: int|
                        0 <= j < self.entries@.len() && (#[trigger] self.entries@[j]).0@ == k2 by {
                        let j = choose|j: int| 0 <= j < old(self).entries@.len() && (#[trigger] old(self).entries@[j]).0@ == k2;
                        if j < i {
                            assert(self.entries@[j] == old(self).entries@[j]);
                        } else {
                            assert(j != i);
                            assert(self.entries@[j - 1] == old(self).entries@[j]);
                        }
                    }
                }
                true
            },
            None => false,
        }
    }
}


/// The calls `acquire_or_join(key, handles[0])`, `acquire_or_join(key, handles[1])`,
/// ... in turn from the given state: the final state and each call's outcome.
pub open spec fn acquire_all<H>(live: Live<H>, next: u64, key: Seq<char>, handles: Seq<H>) -> (Live<H>, u64, Seq<Acquired>)
    decreases handles.len(),
{
    if handles.len() == 0 {
        (live, next, Seq::empty())
    } else {
        let before = acquire_all(live, next, key, handles.drop_last());
        let step = acquire_step(before.0, before.1, key, handles.last());
        (step.0, step.1, before.2.push(step.2))
    }
}

/// Single flight: of any number of calls for a key with nothing in flight,
/// the first starts the one computation and every later one joins it, so all
/// of them await the first caller's handle. Retiring that computation then
/// leaves nothing registered under the key.
pub proof fn lemma_single_flight<H>(live: Live<H>, next: u64, key: Seq<char>, handles: Seq<H>)
    requires
        !live.contains_key(key),
        next < MAX_ID,
        handles.len() >= 1,
    ensures
        ({
            let (after, n, outs) = acquire_all(live, next, key, handles);
            &&& outs.len() == handles.len()
            &&& outs[0] == Acquired::Started(next)
            &&& forall|i: int| 1 <= i < outs.len() ==> outs[i] == Acquired::Joined(next)
            &&& after == live.insert(key, Pending { id: next, handle: handles[0] })
            &&& n == next + 1
            &&& retire_step(after, key, next) == (live.insert(key, Pending { id: next, handle: handles[0] }).remove(key), true)
            &&& !retire_step(after, key, next).0.contains_key(key)
        }),
    decreases handles.len(),
{
    let rest = handles.drop_last();
    let entry = live.insert(key, Pending { id: next, handle: handles[0] });
    let before = acquire_all(live, next, key, rest);
    let (after, n, outs) = acquire_all(live, next, key, handles);
    if handles.len() > 1 {
        lemma_single_flight(live, next, key, rest);
        assert(rest[0] == handles[0]);
        assert(before.0 == entry);
        assert(before.0.contains_key(key));
        assert(outs == before.2.push(Acquired::Joined(next)));
        assert forall|i: int| 1 <= i < outs.len() implies outs[i] == Acquired::Joined(next) by {
            if i < outs.len() - 1 {
                assert(outs[i] == before.2[i]);
            }
        }
    } else {
        assert(before.2 == Seq::<Acquired>::empty());
    }
    assert(after == entry);
    assert(entry.contains_key(key) && entry[key].id == next);
}

/// A fresh fetch after settlement: once a key's computation has been retired,
/// the next call for the key starts a new computation, with a new identity.
pub proof fn lemma_reset_after_retire<H>(live: Live<H>, next: u64, key: Seq<char>, first: H, second: H)
    requires
        model_wf(live, next),
        !live.contains_key(key),
        next + 1 < MAX_ID,
    ensures
        ({
            let (l1, n1, a1) = acquire_step(live, next, key, first);
            let (l2, removed) = retire_step(l1, key, next);
            let (l3, n3, a3) = acquire_step(l2, n1, key, second);
            &&& a1 == Acquired::Started(next)
            &&& removed && !l2.contains_key(key)
            &&& a3 == Acquired::Started((next + 1) as u64)
            &&& a3 != a1
            &&& l3[key].handle == second
            &&& model_wf(l3, n3)
        }),
{
    let (l1, n1, a1) = acquire_step(live, next, key, first);
    let (l2, removed) = retire_step(l1, key, next);
    assert(l2 =~= live);
    let (l3, n3, a3) = acquire_step(l2, n1, key, second);
    assert forall|k: Seq<char>| #[trigger] l3.contains_key(k) implies l3[k].id < n3 by {
        if k != key {
            assert(live.contains_key(k));
        }
    }
}

/// Key isolation: a call for one key and a retirement of one key leave every
/// other key's entry as it was; calls for two different keys with nothing in
/// flight start two computations with different identities.
pub proof fn lemma_key_isolation<H>(live: Live<H>, next: u64, a: Seq<char>, b: Seq<char>, ha: H, hb: H, id: u64)
    requires
        a != b,
    ensures
        ({
            let (l1, n1, r1) = acquire_step(live, next, a, ha);
            let (l2, n2, r2) = acquire_step(l1, n1, b, hb);
            &&& forall|k: Seq<char>| k != a ==> (#[trigger] l1.contains_key(k) == live.contains_key(k) && (live.contains_key(k) ==> l1[k] == live[k]))
            &&& forall|k: Seq<char>| k != a ==> (#[trigger] retire_step(live, a, id).0.contains_key(k) == live.contains_key(k)
                    && (live.contains_key(k) ==> retire_step(live, a, id).0[k] == live[k]))
            &&& (r2 is Joined <==> live.contains_key(b))
            &&& (!live.contains_key(a) && !live.contains_key(b) && next + 1 < MAX_ID ==> r1 == Acquired::Started(next) && r2 == Acquired::Started((next + 1) as u64))
        }),
{
}

/// Retirement by identity: retiring a computation that is no longer the one
/// registered under its key changes nothing. In particular, when a
/// computation was retired by one of its joiners and a new one was started
/// for the key, the late retirement of the first leaves the new one in place.
pub proof fn lemma_identity_safe_retire<H>(live: Live<H>, next: u64, key: Seq<char>, first: H, joiner: H, second: H)
    requires
        model_wf(live, next),
        !live.contains_key(key),
        next + 1 < MAX_ID,
    ensures
        forall|id: u64| #[trigger] live.contains_key(key) && live[key].id != id ==> retire_step(live, key, id) == (live, false),
        ({
            let (l1, n1, a1) = acquire_step(live, next, key, first);
            let (l2, n2, a2) = acquire_step(l1, n1, key, joiner);
            let (l3, _r3) = retire_step(l2, key, next);
            let (l4, n4, a4) = acquire_step(l3, n2, key, second);
            let (l5, late) = retire_step(l4, key, next);
            &&& a1 == Acquired::Started(next) && a2 == Acquired::Joined(next)
            &&& a4 == Acquired::Started((next + 1) as u64)
            &&& !late
            &&& l5 == l4
            &&& l5.contains_key(key) && l5[key] == (Pending { id: (next + 1) as u64, handle: second })
        }),
{
    let (l1, n1, a1) = acquire_step(live, next, key, first);
    let (l3, _r3) = retire_step(l1, key, next);
    assert(l3 =~= live);
}

} // verus!
