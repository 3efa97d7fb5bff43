use crate::util::copy_bytes;
use crate::util::bytes_eq;
use vstd::prelude::*;

verus! {

/// One stored replacement: the original bytes and the bytes that stand in
/// for them.
pub struct CacheEntry {
    pub key: Vec<u8>,
    pub val: Vec<u8>,
}

/// The entries hold pairwise distinct keys.
pub open spec fn distinct_keys(s: Seq<CacheEntry>) -> bool {
    forall|i: int, j: int| 0 <= i < j < s.len() ==> s[i].key@ != s[j].key@
}

/// The mapping that a sequence of entries holds.
pub open spec fn map_of(s: Seq<CacheEntry>) -> Map<Seq<u8>, Seq<u8>>
    decreases s.len(),
{
    if s.len() == 0 {
        Map::empty()
    } else {
        map_of(s.drop_last()).insert(s.last().key@, s.last().val@)
    }
}

/// With distinct keys, the entry at `i` is in the mapping with its own value.
pub proof fn lemma_map_of_entry(s: Seq<CacheEntry>, i: int)
    requires
        distinct_keys(s),
        0 <= i < s.len(),
    ensures
        map_of(s).contains_key(s[i].key@),
        map_of(s)[s[i].key@] == s[i].val@,
    decreases s.len(),
{
    if i == s.len() - 1 {
    } else {
        assert(s.drop_last()[i] == s[i]);
        assert(distinct_keys(s.drop_last())) by {
            assert(forall|p: int, q: int|
                0 <= p < q < s.drop_last().len() ==> s.drop_last()[p].key@ != s.drop_last()[q].key@)
                by {
                assert(forall|p: int| 0 <= p < s.drop_last().len() ==> s.drop_last()[p] == s[p]);
            }
        }
        lemma_map_of_entry(s.drop_last(), i);
        assert(s[i].key@ != s.last().key@);
    }
}

/// A key that no entry holds is not in the mapping.
pub proof fn lemma_map_of_absent(s: Seq<CacheEntry>, k: Seq<u8>)
    requires
        forall|i: int| 0 <= i < s.len() ==> s[i].key@ != k,
    ensures
        !map_of(s).contains_key(k),
    decreases s.len(),
{
    if s.len() > 0 {
        assert(forall|i: int| 0 <= i < s.drop_last().len() ==> s.drop_last()[i] == s[i]);
        lemma_map_of_absent(s.drop_last(), k);
        assert(s.last().key@ != k);
    }
}

/// One cache partition: originals of a single category mapped to the bytes
/// that replace them, insert-only for the life of the engine.
pub struct ReplacementCache {
    entries: Vec<CacheEntry>,
}

impl View for ReplacementCache {
    type V = Map<Seq<u8>, Seq<u8>>;

    closed spec fn view(&self) -> Map<Seq<u8>, Seq<u8>> {
        map_of(self.entries@)
    }
}

impl ReplacementCache {
    pub closed spec fn wf(&self) -> bool {
        distinct_keys(self.entries@)
    }

    pub fn empty() -> (r: ReplacementCache)
        ensures
            r.wf(),
            r@ == Map::<Seq<u8>, Seq<u8>>::empty(),
    {
        let r = ReplacementCache { entries: Vec::new() };
        assert(r@ =~= Map::<Seq<u8>, Seq<u8>>::empty());
        r
    }

    /// The stored replacement for `k`, if one was ever inserted.
    pub fn get(&self, k: &Vec<u8>) -> (r: Option<Vec<u8>>)
        requires
            self.wf(),
        ensures
            match r {
                Some(v) => self@.contains_key(k@) && v@ == self@[k@],
                None => !self@.contains_key(k@),
            },
    {
        let mut i: usize = 0;
        while i < self.entries.len()
            invariant
                self.wf(),
                i <= self.entries@.len(),
                forall|j: int| 0 <= j < i ==> self.entries@[j].key@ != k@,
            decreases self.entries@.len() - i,
        {
            if bytes_eq(&self.entries[i].key, k) {
                proof {
                    lemma_map_of_entry(self.entries@, i as int);
                }
                return Some(copy_bytes(&self.entries[i].val));
            }
            i = i + 1;
        }
        proof {
            lemma_map_of_absent(self.entries@, k@);
        }
        None
    }

    /// Stores the replacement for a key that has no entry yet; existing
    /// entries are never updated or evicted.
    pub fn put(&mut self, k: Vec<u8>, v: Vec<u8>)
        requires
            old(self).wf(),
            !old(self)@.contains_key(k@),
        ensures
            final(self).wf(),
            final(self)@ == old(self)@.insert(k@, v@),
    {
        proof {
            assert forall|i: int| 0 <= i < self.entries@.len() implies self.entries@[i].key@ != k@ by {
                lemma_map_of_entry(self.entries@, i);
            }
        }
        let ghost s0 = self.entries@;
        self.entries.push(CacheEntry { key: k, val: v });
        proof {
            assert(self.entries@.drop_last() =~= s0);
            assert(distinct_keys(self.entries@)) by {
                assert(forall|i: int| 0 <= i < s0.len() ==> self.entries@[i] == s0[i]);
            }
        }
    }
}

} // verus!
