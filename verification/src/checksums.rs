//! The checksum map of a snapshot: relative file path to recorded checksum.
//!
//! Backed by a plain vector of pairs whose mathematical value is a `Map`;
//! later entries for the same path shadow earlier ones, which makes
//! insertion a push and keeps every operation easy to reason about.

use vstd::prelude::*;

verus! {

/// The map described by a sequence of key/value pairs, later pairs winning.
pub open spec fn map_of(s: Seq<(Seq<u8>, Seq<u8>)>) -> Map<Seq<u8>, Seq<u8>>
    decreases s.len(),
{
    if s.len() == 0 {
        Map::empty()
    } else {
        map_of(s.drop_last()).insert(s.last().0, s.last().1)
    }
}

/// Every key of the pair sequence is in the map it describes.
pub proof fn lemma_map_of_contains(s: Seq<(Seq<u8>, Seq<u8>)>, i: int)
    requires
        0 <= i < s.len(),
    ensures
        map_of(s).contains_key(s[i].0),
    decreases s.len(),
{
    if i < s.len() - 1 {
        lemma_map_of_contains(s.drop_last(), i);
    }
}

/// Every key of the map described by a pair sequence is the key of some pair.
pub proof fn lemma_map_of_key_from(s: Seq<(Seq<u8>, Seq<u8>)>, k: Seq<u8>)
    requires
        map_of(s).contains_key(k),
    ensures
        exists|i: int| 0 <= i < s.len() && (#[trigger] s[i]).0 == k,
    decreases s.len(),
{
    if s.len() > 0 {
        if s.last().0 == k {
            assert(s[s.len() - 1].0 == k);
        } else {
            lemma_map_of_key_from(s.drop_last(), k);
            let i = choose|i: int| 0 <= i < s.drop_last().len() && (#[trigger] s.drop_last()[i]).0
                == k;
            assert(s[i].0 == k);
        }
    }
}

/// A mapping from relative file paths to their recorded checksums.
#[derive(Debug)]
pub struct ChecksumMap {
    entries: Vec<(Vec<u8>, Vec<u8>)>,
}

impl View for ChecksumMap {
    type V = Map<Seq<u8>, Seq<u8>>;

    open spec fn view(&self) -> Map<Seq<u8>, Seq<u8>> {
        map_of(self.entry_seq())
    }
}

impl ChecksumMap {
    /// The underlying sequence of path/checksum pairs, in insertion order.
    pub closed spec fn entry_seq(&self) -> Seq<(Seq<u8>, Seq<u8>)> {
        self.entries@.map_values(|e: (Vec<u8>, Vec<u8>)| (e.0@, e.1@))
    }

    /// An empty map.
    pub fn new() -> (r: Self)
        ensures
            r@ == Map::<Seq<u8>, Seq<u8>>::empty(),
            r.entry_seq().len() == 0,
    {
        let r = ChecksumMap { entries: Vec::new() };
        proof {
            assert(r.entry_seq() =~= Seq::<(Seq<u8>, Seq<u8>)>::empty());
        }
        r
    }

    /// Whether the map holds no path at all.
    pub fn is_empty(&self) -> (r: bool)
        ensures
            r <==> self@ == Map::<Seq<u8>, Seq<u8>>::empty(),
            r <==> self.entry_seq().len() == 0,
    {
        let r = self.entries.len() == 0;
        proof {
            if self.entries.len() == 0 {
                assert(self.entry_seq() =~= Seq::<(Seq<u8>, Seq<u8>)>::empty());
                assert(self@ =~= Map::<Seq<u8>, Seq<u8>>::empty());
            } else {
                lemma_map_of_contains(self.entry_seq(), self.entry_seq().len() - 1);
            }
        }
        r
    }

    /// The number of stored pairs (an upper bound on the number of paths).
    pub fn entry_count(&self) -> (r: usize)
        ensures
            r == self.entry_seq().len(),
    {
        self.entries.len()
    }

    /// The path of the `i`-th stored pair.
    pub fn key_at(&self, i: usize) -> (r: &Vec<u8>)
        requires
            i < self.entry_seq().len(),
        ensures
            r@ == self.entry_seq()[i as int].0,
            self@.contains_key(r@),
    {
        proof {
            lemma_map_of_contains(self.entry_seq(), i as int);
        }
        &self.entries[i].0
    }

    /// Record `value` as the checksum of `key`.
    pub fn insert(&mut self, key: Vec<u8>, value: Vec<u8>)
        ensures
            final(self)@ == old(self)@.insert(key@, value@),
            final(self).entry_seq() == old(self).entry_seq().push((key@, value@)),
    {
        let ghost old_seq = self.entry_seq();
        self.entries.push((key, value));
        proof {
            assert(self.entry_seq() =~= old_seq.push((key@, value@)));
            assert(self.entry_seq().drop_last() =~= old_seq);
        }
    }

    /// The recorded checksum of `key`, if any.
    pub fn get(&self, key: &[u8]) -> (r: Option<&Vec<u8>>)
        ensures
            match r {
                Some(v) => self@.contains_key(key@) && v@ == self@[key@],
                None => !self@.contains_key(key@),
            },
    {
        let ghost es = self.entry_seq();
        let mut i: usize = self.entries.len();
        proof {
            assert(es.take(i as int) =~= es);
        }
        while i > 0
            invariant
                0 <= i <= es.len(),
                es == self.entry_seq(),
                self@.contains_key(key@) ==> map_of(es.take(i as int)).contains_key(key@) && map_of(
                    es.take(i as int),
                )[key@] == self@[key@],
                map_of(es.take(i as int)).contains_key(key@) ==> self@.contains_key(key@),
            decreases i,
        {
            i = i - 1;
            proof {
                assert(es.take(i as int + 1).drop_last() =~= es.take(i as int));
                assert(es.take(i as int + 1).last() == es[i as int]);
            }
            if bytes_eq(self.entries[i].0.as_slice(), key) {
                proof {
                    lemma_map_of_contains(es.take(i as int + 1), i as int);
                }
                return Some(&self.entries[i].1);
            }
        }
        proof {
            assert(es.take(0) =~= Seq::<(Seq<u8>, Seq<u8>)>::empty());
            if self@.contains_key(key@) {
                assert(map_of(es.take(0)).contains_key(key@));
            }
        }
        None
    }

    /// Whether `key` has a recorded checksum.
    pub fn contains_key(&self, key: &[u8]) -> (r: bool)
        ensures
            r <==> self@.contains_key(key@),
    {
        match self.get(key) {
            Some(_) => true,
            None => false,
        }
    }

    /// Forget every recorded checksum.
    pub fn clear(&mut self)
        ensures
            final(self)@ == Map::<Seq<u8>, Seq<u8>>::empty(),
            final(self).entry_seq().len() == 0,
    {
        self.entries = Vec::new();
        proof {
            assert(self.entry_seq() =~= Seq::<(Seq<u8>, Seq<u8>)>::empty());
        }
    }
}

/// Whether two byte strings hold the same bytes.
pub fn bytes_eq(a: &[u8], b: &[u8]) -> (r: bool)
    ensures
        r <==> a@ == b@,
{
    if a.len() != b.len() {
        return false;
    }
    let mut i: usize = 0;
    while i < a.len()
        invariant
            0 <= i <= a@.len(),
            a@.len() == b@.len(),
            forall|j: int| 0 <= j < i ==> a@[j] == b@[j],
        decreases a@.len() - i,
    {
        if a[i] != b[i] {
            return false;
        }
        i = i + 1;
    }
    proof {
        assert(a@ =~= b@);
    }
    true
}

} // verus!
