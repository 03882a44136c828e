//! A table of distinct strings, each known by the position at which it was
//! first added.
//!
//! Strings are found again through a hash map from a fingerprint of their
//! bytes to the positions of the strings with that fingerprint; two strings
//! with one fingerprint are told apart by comparing them, so the table is
//! exact whatever the fingerprints.

use std::collections::HashMap;
use vstd::prelude::*;
use vstd::string::*;

verus! {

broadcast use vstd::std_specs::hash::group_hash_axioms;

/// The modulus of the fingerprint: the Mersenne prime 2^61 - 1.
pub const FINGERPRINT_MODULUS: u64 = 0x1FFF_FFFF_FFFF_FFFF;

/// A polynomial fingerprint of a byte string.
pub open spec fn spec_fingerprint_bytes(b: Seq<u8>) -> u64
    decreases b.len(),
{
    if b.len() == 0 {
        0
    } else {
        ((spec_fingerprint_bytes(b.drop_last()) as int * 257 + b.last() as int)
            % FINGERPRINT_MODULUS as int) as u64
    }
}

/// The fingerprint of a string: that of its UTF-8 encoding.
pub open spec fn spec_fingerprint(s: Seq<char>) -> u64 {
    spec_fingerprint_bytes(vstd::utf8::encode_utf8(s))
}

/// Computes the fingerprint of `s`.
pub fn fingerprint(s: &str) -> (r: u64)
    ensures
        r == spec_fingerprint(s@),
{
    let bytes = s.as_bytes_vec();
    let mut h: u64 = 0;
    let mut i: usize = 0;
    while i < bytes.len()
        invariant
            i <= bytes@.len(),
            bytes@ == vstd::utf8::encode_utf8(s@),
            h == spec_fingerprint_bytes(bytes@.subrange(0, i as int)),
            h < FINGERPRINT_MODULUS,
        decreases bytes@.len() - i,
    {
        let ghost prefix = bytes@.subrange(0, i + 1);
        assert(prefix.drop_last() =~= bytes@.subrange(0, i as int));
        let next: u128 = (h as u128 * 257 + bytes[i] as u128) % (FINGERPRINT_MODULUS as u128);
        h = next as u64;
        i = i + 1;
    }
    assert(bytes@.subrange(0, i as int) =~= bytes@);
    h
}

/// A table of distinct strings; the position of a string is its key.
pub struct NameIndex {
    names: Vec<String>,
    buckets: HashMap<u64, Vec<usize>>,
}

impl View for NameIndex {
    type V = Seq<Seq<char>>;

    closed spec fn view(&self) -> Seq<Seq<char>> {
        self.names@.map_values(|s: String| s@)
    }
}

/// No string occurs twice in `names`.
pub open spec fn all_distinct(names: Seq<Seq<char>>) -> bool {
    forall|i: int, j: int| 0 <= i < names.len() && 0 <= j < names.len() && i != j ==> names[i] != names[j]
}

/// The position of `name` in `names`, if it occurs there.
pub open spec fn position_of(names: Seq<Seq<char>>, name: Seq<char>) -> Option<int> {
    if exists|i: int| 0 <= i < names.len() && names[i] == name {
        Some(choose|i: int| 0 <= i < names.len() && names[i] == name)
    } else {
        None
    }
}

impl NameIndex {
    /// Every string occurs once, and each position is filed, and only
    /// filed, under the fingerprint of its string.
    pub closed spec fn wf(&self) -> bool {
        &&& all_distinct(self@)
        &&& self.names@.len() <= usize::MAX
        &&& forall|i: int| 0 <= i < self.names@.len() ==> {
            let k = spec_fingerprint(#[trigger] self.names@[i]@);
            &&& self.buckets@.contains_key(k)
            &&& self.buckets@[k]@.contains(i as usize)
        }
        &&& forall|k: u64, j: int| #![trigger self.buckets@[k]@[j]]
            self.buckets@.contains_key(k) && 0 <= j < self.buckets@[k]@.len() ==> {
                let p = self.buckets@[k]@[j];
                &&& p < self.names@.len()
                &&& spec_fingerprint(self.names@[p as int]@) == k
            }
    }

    /// What `wf` promises to users of the table.
    pub proof fn lemma_wf(&self)
        requires
            self.wf(),
        ensures
            all_distinct(self@),
            self@.len() <= usize::MAX,
    {
    }

    /// An empty table.
    pub fn new() -> (r: NameIndex)
        ensures
            r.wf(),
            r@ == Seq::<Seq<char>>::empty(),
    {
        let r = NameIndex { names: Vec::new(), buckets: HashMap::new() };
        assert(r@ =~= Seq::<Seq<char>>::empty());
        r
    }

    /// The number of strings in the table.
    pub fn len(&self) -> (r: usize)
        ensures
            r == self@.len(),
    {
        self.names.len()
    }

    /// The string at position `i`.
    pub fn name(&self, i: usize) -> (r: &String)
        requires
            i < self@.len(),
        ensures
            r@ == self@[i as int],
    {
        &self.names[i]
    }

    /// The position of `name` in the table, if it is there.
    pub fn lookup(&self, name: &String) -> (r: Option<usize>)
        requires
            self.wf(),
        ensures
            r is None <==> position_of(self@, name@) is None,
            r matches Some(i) ==> position_of(self@, name@) == Some(i as int) && i < self@.len() && self@[i as int] == name@,
    {
        let key = fingerprint(name.as_str());
        match self.buckets.get(&key) {
            None => {
                proof {
                    assert forall|i: int| 0 <= i < self@.len() implies self@[i] != name@ by {
                        assert(self@[i] == self.names@[i]@);
                        if self@[i] == name@ {
                            assert(spec_fingerprint(self.names@[i]@) == key);
                        }
                    }
                }
                None
            },
            Some(bucket) => {
                let mut j: usize = 0;
                while j < bucket.len()
                    invariant
                        self.wf(),
                        self.buckets@.contains_key(key),
                        *bucket == self.buckets@[key],
                        key == spec_fingerprint(name@),
                        j <= bucket@.len(),
                        forall|m: int| 0 <= m < j ==> self@[bucket@[m] as int] != name@,
                    decreases bucket@.len() - j,
                {
                    let p = bucket[j];
                    assert(p < self.names@.len());
                    if self.names[p] == *name {
                        proof {
                            assert(self@[p as int] == name@);
                            assert forall|q: int| 0 <= q < self@.len() && self@[q] == name@ implies q == p by {}
                        }
                        return Some(p);
                    }
                    j = j + 1;
                }
                proof {
                    assert forall|i: int| 0 <= i < self@.len() implies self@[i] != name@ by {
                        assert(self@[i] == self.names@[i]@);
                        if self@[i] == name@ {
                            assert(self.buckets@[key]@.contains(i as usize));
                            let m = choose|m: int| 0 <= m < bucket@.len() && bucket@[m] == i as usize;
                            assert(self@[bucket@[m] as int] != name@);
                        }
                    }
                }
                None
            },
        }
    }

    /// Adds `name` unless it is already there; returns its position.
    pub fn insert(&mut self, name: String) -> (r: usize)
        requires
            old(self).wf(),
            old(self)@.len() < usize::MAX,
        ensures
            final(self).wf(),
            r < final(self)@.len(),
            final(self)@[r as int] == name@,
            position_of(old(self)@, name@) matches Some(i) ==> r == i && final(self)@ == old(self)@,
            old(self)@.len() <= final(self)@.len(),
            position_of(old(self)@, name@) is None ==> r == old(self)@.len() && final(self)@ == old(self)@.push(name@),
    {
        match self.lookup(&name) {
            Some(i) => i,
            None => {
                let key = fingerprint(name.as_str());
                let id = self.names.len();
                let ghost old_names = self.names@;
                let ghost old_buckets = self.buckets@;
                let mut bucket = match self.buckets.remove(&key) {
                    Some(b) => b,
                    None => Vec::new(),
                };
                bucket.push(id);
                self.buckets.insert(key, bucket);
                self.names.push(name);
                proof {
                    assert(self@ =~= old(self)@.push(name@));
                    assert forall|i: int| 0 <= i < self.names@.len() implies {
                        let k = spec_fingerprint(#[trigger] self.names@[i]@);
                        &&& self.buckets@.contains_key(k)
                        &&& self.buckets@[k]@.contains(i as usize)
                    } by {
                        if i < id {
                            let k = spec_fingerprint(old_names[i]@);
                            assert(old_buckets.contains_key(k));
                            assert(old_buckets[k]@.contains(i as usize));
                            if k == key {
                                let m = choose|m: int| 0 <= m < old_buckets[k]@.len() && old_buckets[k]@[m] == i as usize;
                                assert(self.buckets@[k]@[m] == i as usize);
                            } else {
                                assert(self.buckets@[k] == old_buckets[k]);
                            }
                        } else {
                            assert(self.buckets@[key]@.last() == id);
                        }
                    }
                    assert forall|k: u64, j: int| #![trigger self.buckets@[k]@[j]]
                        self.buckets@.contains_key(k) && 0 <= j < self.buckets@[k]@.len() implies {
                            let p = self.buckets@[k]@[j];
                            &&& p < self.names@.len()
                            &&& spec_fingerprint(self.names@[p as int]@) == k
                        } by {
                        if k == key {
                            if j < self.buckets@[k]@.len() - 1 {
                                assert(old_buckets.contains_key(k));
                                assert(self.buckets@[k]@[j] == old_buckets[k]@[j]);
                            }
                        } else {
                            assert(self.buckets@[k] == old_buckets[k]);
                            assert(self.buckets@[k]@[j] == old_buckets[k]@[j]);
                        }
                    }
                    assert forall|a: int, b: int| 0 <= a < self@.len() && 0 <= b < self@.len() && a != b
                        implies self@[a] != self@[b] by {
                        if a < id && b < id {
                            assert(self@[a] == old(self)@[a]);
                            assert(self@[b] == old(self)@[b]);
                        } else if a == id {
                            assert(self@[b] == old(self)@[b]);
                        } else {
                            assert(self@[a] == old(self)@[a]);
                        }
                    }
                }
                id
            },
        }
    }

    /// A copy of this table.
    pub fn duplicate(&self) -> (r: NameIndex)
        requires
            self.wf(),
        ensures
            r.wf(),
            r@ == self@,
    {
        let mut r = NameIndex::new();
        let mut i: usize = 0;
        while i < self.names.len()
            invariant
                self.wf(),
                r.wf(),
                i <= self@.len(),
                r@ == self@.subrange(0, i as int),
            decreases self@.len() - i,
        {
            let ghost before = r@;
            proof {
                assert(position_of(before, self@[i as int]) is None) by {
                    if exists|j: int| 0 <= j < before.len() && before[j] == self@[i as int] {
                        let j = choose|j: int| 0 <= j < before.len() && before[j] == self@[i as int];
                        assert(self@[j] == self@[i as int]);
                    }
                }
            }
            r.insert(self.names[i].clone());
            proof {
                assert(self@[i as int] == self.names@[i as int]@);
                assert(r@ =~= self@.subrange(0, i + 1));
            }
            i = i + 1;
        }
        assert(self@.subrange(0, self@.len() as int) =~= self@);
        r
    }
}


/// Adding a name never renumbers the names already there: after `insert`,
/// every earlier name keeps its position, and the added name is found at the
/// position `insert` returned.
pub proof fn law_insert_keeps_positions(names: Seq<Seq<char>>, name: Seq<char>, other: Seq<char>)
    requires
        all_distinct(names),
    ensures
        ({
            let after = if position_of(names, name) is Some { names } else { names.push(name) };
            &&& position_of(after, name) is Some
            &&& after[position_of(after, name)->0] == name
            &&& position_of(names, other) is Some ==> position_of(after, other) == position_of(names, other)
        }),
{
    if position_of(names, name) is None {
        let after = names.push(name);
        assert(after[names.len() as int] == name);
        assert(all_distinct(after)) by {
            assert forall|i: int, j: int| 0 <= i < after.len() && 0 <= j < after.len() && i != j implies after[i] != after[j] by {
                if i < names.len() && j < names.len() {
                    assert(after[i] == names[i] && after[j] == names[j]);
                } else if i < names.len() {
                    assert(after[i] == names[i]);
                    assert(!(exists|k: int| 0 <= k < names.len() && names[k] == name));
                } else {
                    assert(after[j] == names[j]);
                    assert(!(exists|k: int| 0 <= k < names.len() && names[k] == name));
                }
            }
        }
        if position_of(names, other) is Some {
            let p = position_of(names, other)->0;
            assert(after[p] == other);
            let q = position_of(after, other)->0;
            assert(after[q] == other);
        }
    }
}

} // verus!
