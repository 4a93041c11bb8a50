//! The in-memory key directory: where the live record of every key lies.
use vstd::hash_map::StringHashMap;
use vstd::prelude::*;

verus! {

/// Where a record lies in the log.
#[derive(Clone, Copy, Debug, PartialEq, Eq)]
pub struct Location {
    pub offset: u64,
    pub record_length: u64,
}

/// A key's location and its position in the list of keys.
struct Slot {
    location: Location,
    position: usize,
}

/// A map from keys to locations that can also list its keys: a hash map for
/// lookups beside a vector of the keys, each slot knowing its key's position.
pub struct Keydir {
    slots: StringHashMap<Slot>,
    keys: Vec<String>,
}

impl View for Keydir {
    type V = Map<Seq<char>, Location>;

    closed spec fn view(&self) -> Map<Seq<char>, Location> {
        self.slots@.map_values(|s: Slot| s.location)
    }
}

impl Keydir {
    /// The keys, in the order `keys` lists them.
    pub closed spec fn key_order(&self) -> Seq<Seq<char>> {
        self.keys@.map_values(|s: String| s@)
    }

    /// Each listed key has a slot that knows its position, and each slot's
    /// key is listed at its position.
    #[verifier::type_invariant]
    pub closed spec fn wf(&self) -> bool {
        &&& forall|i: int|
            0 <= i < self.keys@.len() ==> #[trigger] self.slots@.contains_key(self.keys@[i]@)
                && self.slots@[self.keys@[i]@].position == i
        &&& forall|k: Seq<char>| #[trigger]
            self.slots@.contains_key(k) ==> self.slots@[k].position < self.keys@.len()
                && self.keys@[self.slots@[k].position as int]@ == k
    }

    /// The listed keys are exactly the keys of the map, each once.
    pub proof fn lemma_key_order(&self)
        requires
            self.wf(),
        ensures
            self.key_order().no_duplicates(),
            self.key_order().to_set() == self@.dom(),
            self.key_order().len() == self@.dom().len(),
            self@.dom().finite(),
    {
        let ko = self.key_order();
        assert forall|i: int, j: int| 0 <= i < ko.len() && 0 <= j < ko.len() && i != j implies ko[i]
            != ko[j] by {
            assert(self.slots@.contains_key(self.keys@[i]@));
            assert(self.slots@.contains_key(self.keys@[j]@));
        }
        assert forall|k: Seq<char>| ko.to_set().contains(k) <==> self@.dom().contains(k) by {
            if self@.dom().contains(k) {
                assert(self.slots@.contains_key(k));
                let p = self.slots@[k].position as int;
                assert(ko[p] == k);
            }
            if ko.to_set().contains(k) {
                let i = choose|i: int| 0 <= i < ko.len() && ko[i] == k;
                assert(self.slots@.contains_key(self.keys@[i]@));
            }
        }
        assert(ko.to_set() =~= self@.dom());
        ko.unique_seq_to_set();
    }

    /// An empty directory.
    pub fn new() -> (d: Self)
        ensures
            d@ == Map::<Seq<char>, Location>::empty(),
    {
        let d = Keydir { slots: StringHashMap::new(), keys: Vec::new() };
        assert(d@ =~= Map::<Seq<char>, Location>::empty());
        d
    }

    /// The location of `key`, if it has one.
    pub fn get(&self, key: &str) -> (r: Option<Location>)
        ensures
            r == self@.get(key@),
    {
        match self.slots.get(key) {
            Some(slot) => Some(slot.location),
            None => None,
        }
    }

    /// Points `key` at `location`.
    pub fn insert(&mut self, key: String, location: Location)
        ensures
            final(self)@ == old(self)@.insert(key@, location),
    {
        proof {
            use_type_invariant(&*self);
        }
        let mut taken = Keydir::new();
        std::mem::swap(&mut taken, self);
        let Keydir { mut slots, mut keys } = taken;
        let ghost old_slots = slots@;
        let ghost old_keys = keys@;
        match slots.get(key.as_str()) {
            Some(slot) => {
                let position = slot.position;
                slots.insert(key, Slot { location, position });
            },
            None => {
                let position = keys.len();
                keys.push(key.clone());
                slots.insert(key, Slot { location, position });
                assert forall|i: int| 0 <= i < keys@.len() implies #[trigger] slots@.contains_key(
                    keys@[i]@,
                ) && slots@[keys@[i]@].position == i by {
                    if i < position {
                        assert(old_slots.contains_key(old_keys[i]@));
                    }
                }
            },
        }
        *self = Keydir { slots, keys };
        assert(self@ =~= old(self)@.insert(key@, location));
    }

    /// Removes `key`, if present.
    pub fn remove(&mut self, key: &str)
        ensures
            final(self)@ == old(self)@.remove(key@),
    {
        proof {
            use_type_invariant(&*self);
        }
        let position = match self.slots.get(key) {
            Some(slot) => slot.position,
            None => {
                assert(self@ =~= old(self)@.remove(key@));
                return;
            },
        };
        let mut taken = Keydir::new();
        std::mem::swap(&mut taken, self);
        let Keydir { mut slots, mut keys } = taken;
        let ghost old_slots = slots@;
        slots.remove(key);
        let last = keys.len() - 1;
        let ghost old_keys = keys@;
        keys.swap_remove(position);
        if position < last {
            let moved = keys[position].clone();
            assert(moved@ == old_keys[last as int]@);
            assert(old_slots.contains_key(old_keys[last as int]@));
            assert(moved@ != key@);
            let location = match slots.get(moved.as_str()) {
                Some(slot) => slot.location,
                None => {
                    assert(false);
                    *self = Keydir { slots, keys };
                    return;
                },
            };
            slots.insert(moved, Slot { location, position });
            assert forall|i: int| 0 <= i < keys@.len() implies #[trigger] slots@.contains_key(
                keys@[i]@,
            ) && slots@[keys@[i]@].position == i by {
                if i != position {
                    assert(keys@[i] == old_keys[i]);
                    assert(old_slots.contains_key(old_keys[i]@));
                    assert(old_keys[i]@ != key@);
                }
            }
            assert forall|k: Seq<char>| #[trigger] slots@.contains_key(k) implies slots@[k].position
                < keys@.len() && keys@[slots@[k].position as int]@ == k by {
                if k != moved@ {
                    assert(old_slots.contains_key(k));
                    assert(k != key@);
                    assert(old_slots[k].position != last);
                }
            }
        } else {
            assert forall|i: int| 0 <= i < keys@.len() implies #[trigger] slots@.contains_key(
                keys@[i]@,
            ) && slots@[keys@[i]@].position == i by {
                assert(keys@[i] == old_keys[i]);
                assert(old_slots.contains_key(old_keys[i]@));
                assert(old_keys[i]@ != key@);
            }
            assert forall|k: Seq<char>| #[trigger] slots@.contains_key(k) implies slots@[k].position
                < keys@.len() && keys@[slots@[k].position as int]@ == k by {
                assert(old_slots.contains_key(k));
                assert(k != key@);
            }
        }
        *self = Keydir { slots, keys };
        assert(self@ =~= old(self)@.remove(key@));
    }

    /// The keys, each once, in the order `key_order` gives.
    pub fn keys(&self) -> (ks: Vec<String>)
        ensures
            ks@.map_values(|s: String| s@) == self.key_order(),
    {
        let mut ks: Vec<String> = Vec::with_capacity(self.keys.len());
        let mut i: usize = 0;
        while i < self.keys.len()
            invariant
                i <= self.keys@.len(),
                ks@.len() == i,
                forall|j: int| 0 <= j < i ==> #[trigger] ks@[j]@ == self.keys@[j]@,
            decreases self.keys@.len() - i,
        {
            let k = self.keys[i].clone();
            ks.push(k);
            i += 1;
        }
        assert(ks@.map_values(|s: String| s@) =~= self.key_order());
        ks
    }
}

} // verus!
