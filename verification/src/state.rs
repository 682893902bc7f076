//! The per-reference state that a service keeps, and snapshots of it.

use crate::time::Timestamp;
use vstd::hash_map::StringHashMap;
use vstd::prelude::*;

verus! {

broadcast use vstd::hash_map::group_hash_map_axioms;

/// The key by which a service keeps its states: a reference id.
pub type RefKeyType = String;

/// A value that a service keeps per reference id. Such values are plain data,
/// copied whole when a snapshot is taken.
pub trait StateValue: Copy {

}

/// The state of `key` in `states`, or `default` when `states` holds none.
pub open spec fn state_or<V>(states: Map<Seq<char>, V>, key: Seq<char>, default: V) -> V {
    if states.contains_key(key) {
        states[key]
    } else {
        default
    }
}

/// A map from reference ids to state values. Besides the map it keeps each
/// key once, in the order in which keys arrived, so that the states can be
/// listed and copied.
#[verifier::reject_recursive_types(V)]
pub struct InternalState<V: StateValue> {
    map: StringHashMap<V>,
    keys: Vec<String>,
}

impl<V: StateValue> View for InternalState<V> {
    type V = Map<Seq<char>, V>;

    closed spec fn view(&self) -> Map<Seq<char>, V> {
        self.map@
    }
}

impl<V: StateValue> InternalState<V> {
    /// The list of keys names each key of the map exactly once.
    pub closed spec fn wf(&self) -> bool {
        &&& forall|i: int, j: int|
            0 <= i < j < self.keys.len() ==> (#[trigger] self.keys@[i])@ != (#[trigger] self.keys@[j])@
        &&& forall|i: int| 0 <= i < self.keys.len() ==> self.map@.contains_key((#[trigger] self.keys@[i])@)
        &&& forall|k: Seq<char>|
            #[trigger] self.map@.contains_key(k) ==> exists|i: int|
                0 <= i < self.keys.len() && (#[trigger] self.keys@[i])@ == k
    }

    /// No states at all.
    pub fn new() -> (s: Self)
        ensures
            s.wf(),
            s@ == Map::<Seq<char>, V>::empty(),
    {
        InternalState { map: StringHashMap::new(), keys: Vec::new() }
    }

    /// The number of reference ids that have a state.
    pub fn len(&self) -> (n: usize)
        ensures
            n == self@.len(),
    {
        self.map.len()
    }

    /// The state of `key`, if it has one.
    pub fn get(&self, key: &str) -> (r: Option<V>)
        ensures
            r == (if self@.contains_key(key@) {
                Some(self@[key@])
            } else {
                None
            }),
    {
        match self.map.get(key) {
            Some(v) => Some(*v),
            None => None,
        }
    }

    /// Sets the state of `key` to `value`.
    pub fn insert(&mut self, key: String, value: V)
        requires
            old(self).wf(),
        ensures
            final(self).wf(),
            final(self)@ == old(self)@.insert(key@, value),
    {
        if !self.map.contains_key(key.as_str()) {
            self.keys.push(key.clone());
        }
        self.map.insert(key, value);
        assert forall|k: Seq<char>| #[trigger] self.map@.contains_key(k) implies exists|i: int|
            0 <= i < self.keys.len() && (#[trigger] self.keys@[i])@ == k by {
            if k != key@ {
                assert(old(self).map@.contains_key(k));
                let i = choose|i: int| 0 <= i < old(self).keys.len() && (#[trigger] old(self).keys@[i])@ == k;
                assert(self.keys@[i] == old(self).keys@[i]);
            } else if old(self).map@.contains_key(k) {
                let i = choose|i: int| 0 <= i < old(self).keys.len() && (#[trigger] old(self).keys@[i])@ == k;
                assert(self.keys@[i] == old(self).keys@[i]);
            } else {
                assert(self.keys@[self.keys.len() - 1]@ == k);
            }
        }
    }

    /// Every state with its key, each key once, in no particular order.
    pub fn entries(&self) -> (r: Vec<(String, V)>)
        requires
            self.wf(),
        ensures
            forall|i: int|
                0 <= i < r.len() ==> self@.contains_key((#[trigger] r@[i]).0@) && self@[r@[i].0@]
                    == r@[i].1,
            forall|i: int, j: int| 0 <= i < j < r.len() ==> (#[trigger] r@[i]).0@ != (#[trigger] r@[j]).0@,
            forall|k: Seq<char>| #[trigger]
                self@.contains_key(k) ==> exists|i: int| 0 <= i < r.len() && (#[trigger] r@[i]).0@ == k,
    {
        let mut r: Vec<(String, V)> = Vec::new();
        let n = self.keys.len();
        for i in 0..n
            invariant
                n == self.keys.len(),
                self.wf(),
                r.len() == i,
                forall|j: int| 0 <= j < i ==> (#[trigger] r@[j]).0@ == self.keys@[j]@ && self.map@[self.keys@[j]@] == r@[j].1,
        {
            let key = self.keys[i].clone();
            let v = *self.map.get(key.as_str()).unwrap();
            r.push((key, v));
        }
        assert forall|a: int, b: int| 0 <= a < b < r.len() implies (#[trigger] r@[a]).0@ != (#[trigger] r@[b]).0@ by {
            assert(r@[a].0@ == self.keys@[a]@);
            assert(r@[b].0@ == self.keys@[b]@);
        }
        assert forall|k: Seq<char>| #[trigger] self@.contains_key(k) implies exists|i: int|
            0 <= i < r.len() && (#[trigger] r@[i]).0@ == k by {
            let i = choose|i: int| 0 <= i < self.keys.len() && (#[trigger] self.keys@[i])@ == k;
            assert(r@[i].0@ == k);
        }
        r
    }

    /// A copy of these states.
    pub fn duplicate(&self) -> (r: Self)
        requires
            self.wf(),
        ensures
            r.wf(),
            r@ == self@,
    {
        let mut r = InternalState::<V>::new();
        let n = self.keys.len();
        for i in 0..n
            invariant
                n == self.keys.len(),
                self.wf(),
                r.wf(),
                forall|j: int| 0 <= j < i ==> #[trigger] r@.contains_key(self.keys@[j]@),
                forall|k: Seq<char>| #[trigger] r@.contains_key(k) ==> self@.contains_key(k) && r@[k] == self@[k],
                forall|k: Seq<char>| #[trigger] r@.contains_key(k) ==> exists|j: int| 0 <= j < i && (#[trigger] self.keys@[j])@ == k,
        {
            let key = self.keys[i].clone();
            let v = *self.map.get(key.as_str()).unwrap();
            r.insert(key, v);
        }
        assert forall|k: Seq<char>| #[trigger] self@.contains_key(k) implies r@.contains_key(k) by {
            let j = choose|j: int| 0 <= j < self.keys.len() && (#[trigger] self.keys@[j])@ == k;
            assert(r@.contains_key(self.keys@[j]@));
        }
        assert(r@ =~= self@);
        r
    }
}

/// What an incoming event asks of storage: the stored snapshots of `ref_id`
/// taken after `after` no longer hold, and are to be deleted.
pub struct StaleSnapshots {
    pub ref_id: RefKeyType,
    pub after: Timestamp,
}

/// The states of a service at one instant.
#[verifier::reject_recursive_types(V)]
pub struct ServiceSnapshot<V: StateValue> {
    pub timestamp: Timestamp,
    pub state: InternalState<V>,
}

impl<V: StateValue> ServiceSnapshot<V> {
    /// The snapshot's states are well formed.
    pub open spec fn wf(&self) -> bool {
        self.state.wf()
    }

    /// A snapshot taken at `timestamp` that holds the one state `value` of
    /// `ref_id`, as a stored snapshot row stands for.
    pub fn single(timestamp: Timestamp, ref_id: RefKeyType, value: V) -> (s: Self)
        ensures
            s.wf(),
            s.timestamp == timestamp,
            s.state@ == Map::<Seq<char>, V>::empty().insert(ref_id@, value),
    {
        let mut state = InternalState::new();
        state.insert(ref_id, value);
        ServiceSnapshot { timestamp, state }
    }
}

} // verus!
