//! The in-memory content store: a write-once map from tag to byte blob.
//!
//! Every stored entry satisfies `tag == digest(data)`; an upload under a tag
//! that is already present leaves the existing bytes intact.

use vstd::prelude::*;

use crate::tag::{digest_of, Tag, TAG_LEN};

verus! {

/// A write-once map from tag to immutable byte blob.
pub struct ContentStore {
    entries: Vec<(Tag, Vec<u8>)>,
}

impl View for ContentStore {
    type V = Seq<(Seq<u8>, Seq<u8>)>;

    closed spec fn view(&self) -> Seq<(Seq<u8>, Seq<u8>)> {
        Seq::new(self.entries@.len(), |i: int| (self.entries@[i].0@, self.entries@[i].1@))
    }
}

/// The data stored under tag `t`, scanning entries from the front.
pub open spec fn store_lookup(entries: Seq<(Seq<u8>, Seq<u8>)>, t: Seq<u8>) -> Option<Seq<u8>>
    decreases entries.len(),
{
    if entries.len() == 0 {
        None
    } else if entries[0].0 == t {
        Some(entries[0].1)
    } else {
        store_lookup(entries.drop_first(), t)
    }
}

/// Whether tag `t` is present.
pub open spec fn store_contains(entries: Seq<(Seq<u8>, Seq<u8>)>, t: Seq<u8>) -> bool {
    store_lookup(entries, t) is Some
}

proof fn lemma_store_lookup_skip_step(entries: Seq<(Seq<u8>, Seq<u8>)>, t: Seq<u8>, i: int)
    requires
        0 <= i < entries.len(),
    ensures
        entries[i].0 == t ==> store_lookup(entries.skip(i), t) == Some(entries[i].1),
        entries[i].0 != t ==> store_lookup(entries.skip(i), t) == store_lookup(
            entries.skip(i + 1),
            t,
        ),
{
    assert(entries.skip(i)[0] == entries[i]);
    if entries[i].0 != t {
        assert(entries.skip(i).drop_first() =~= entries.skip(i + 1));
    }
}

proof fn lemma_store_lookup_push(
    entries: Seq<(Seq<u8>, Seq<u8>)>,
    t: Seq<u8>,
    d: Seq<u8>,
    q: Seq<u8>,
)
    ensures
        store_lookup(entries.push((t, d)), q) == if store_contains(entries, q) {
            store_lookup(entries, q)
        } else if q == t {
            Some(d)
        } else {
            None::<Seq<u8>>
        },
    decreases entries.len(),
{
    if entries.len() == 0 {
        assert(entries.push((t, d)).drop_first() =~= Seq::<(Seq<u8>, Seq<u8>)>::empty());
    } else {
        assert(entries.push((t, d)).drop_first() =~= entries.drop_first().push((t, d)));
        lemma_store_lookup_push(entries.drop_first(), t, d, q);
    }
}

impl ContentStore {
    /// Every entry's tag is the digest of its data, and no tag repeats.
    pub open spec fn wf(&self) -> bool {
        &&& forall|i: int|
            0 <= i < self@.len() ==> (#[trigger] self@[i]).0 == digest_of(self@[i].1)
                && self@[i].0.len() == TAG_LEN
        &&& forall|i: int, j: int|
            0 <= i < j < self@.len() ==> (#[trigger] self@[i]).0 != (#[trigger] self@[j]).0
    }

    /// An empty store.
    pub fn new() -> (r: ContentStore)
        ensures
            r@ =~= Seq::<(Seq<u8>, Seq<u8>)>::empty(),
            r.wf(),
    {
        ContentStore { entries: Vec::new() }
    }

    /// Whether data is stored under `tag`.
    pub fn has(&self, tag: &Tag) -> (r: bool)
        ensures
            r == store_contains(self@, tag@),
    {
        let mut i: usize = 0;
        proof {
            assert(self@.skip(0) =~= self@);
        }
        while i < self.entries.len()
            invariant
                i <= self@.len(),
                self@.len() == self.entries@.len(),
                forall|j: int| 0 <= j < self@.len() ==> #[trigger] self@[j] == (
                self.entries@[j].0@, self.entries@[j].1@),
                store_lookup(self@, tag@) == store_lookup(self@.skip(i as int), tag@),
            decreases self@.len() - i,
        {
            proof {
                lemma_store_lookup_skip_step(self@, tag@, i as int);
            }
            if &self.entries[i].0 == tag {
                return true;
            }
            i = i + 1;
        }
        false
    }

    /// The data stored under `tag`, copied out, or `None` when absent.
    pub fn get(&self, tag: &Tag) -> (r: Option<Vec<u8>>)
        ensures
            match r {
                Some(d) => store_lookup(self@, tag@) == Some(d@),
                None => !store_contains(self@, tag@),
            },
    {
        let mut i: usize = 0;
        proof {
            assert(self@.skip(0) =~= self@);
        }
        while i < self.entries.len()
            invariant
                i <= self@.len(),
                self@.len() == self.entries@.len(),
                forall|j: int| 0 <= j < self@.len() ==> #[trigger] self@[j] == (
                self.entries@[j].0@, self.entries@[j].1@),
                store_lookup(self@, tag@) == store_lookup(self@.skip(i as int), tag@),
            decreases self@.len() - i,
        {
            proof {
                lemma_store_lookup_skip_step(self@, tag@, i as int);
            }
            if &self.entries[i].0 == tag {
                return Some(crate::identity::copy_bytes(&self.entries[i].1));
            }
            i = i + 1;
        }
        None
    }

    /// Store `data` under `tag`, write-once: when the tag is already present
    /// the store is left exactly as it was.
    pub fn insert(&mut self, tag: Tag, data: Vec<u8>) -> (already: bool)
        requires
            old(self).wf(),
            tag.wf(),
            tag@ == digest_of(data@),
        ensures
            final(self).wf(),
            already == store_contains(old(self)@, tag@),
            already ==> final(self)@ == old(self)@,
            !already ==> final(self)@ == old(self)@.push((tag@, data@)),
            store_lookup(final(self)@, tag@) == if already {
                store_lookup(old(self)@, tag@)
            } else {
                Some(data@)
            },
            forall|q: Seq<u8>|
                q != tag@ ==> #[trigger] store_lookup(final(self)@, q) == store_lookup(
                    old(self)@,
                    q,
                ),
    {
        if self.has(&tag) {
            true
        } else {
            proof {
                assert forall|i: int| 0 <= i < old(self)@.len() implies (#[trigger] old(self)@[i]).0 != tag@ by {
                    if old(self)@[i].0 == tag@ {
                        lemma_store_found_index(old(self)@, tag@);
                    }
                }
                lemma_store_lookup_push(old(self)@, tag@, data@, tag@);
                assert forall|q: Seq<u8>| q != tag@ implies #[trigger] store_lookup(
                    old(self)@.push((tag@, data@)),
                    q,
                ) == store_lookup(old(self)@, q) by {
                    lemma_store_lookup_push(old(self)@, tag@, data@, q);
                }
            }
            self.entries.push((tag, data));
            proof {
                assert(self@ =~= old(self)@.push((tag@, data@)));
            }
            false
        }
    }
}

/// When a tag is present, some entry holds it.
pub proof fn lemma_store_contains_index(entries: Seq<(Seq<u8>, Seq<u8>)>, t: Seq<u8>)
    requires
        store_contains(entries, t),
    ensures
        exists|i: int|
            0 <= i < entries.len() && (#[trigger] entries[i]).0 == t && store_lookup(entries, t)
                == Some(entries[i].1),
    decreases entries.len(),
{
    if entries[0].0 == t {
        assert(entries[0].0 == t && store_lookup(entries, t) == Some(entries[0].1));
    } else {
        lemma_store_contains_index(entries.drop_first(), t);
        let i = choose|i: int|
            0 <= i < entries.drop_first().len() && (#[trigger] entries.drop_first()[i]).0 == t
                && store_lookup(entries.drop_first(), t) == Some(entries.drop_first()[i].1);
        assert(entries[i + 1] == entries.drop_first()[i]);
    }
}

proof fn lemma_store_found_index(entries: Seq<(Seq<u8>, Seq<u8>)>, t: Seq<u8>)
    requires
        exists|i: int| 0 <= i < entries.len() && (#[trigger] entries[i]).0 == t,
    ensures
        store_contains(entries, t),
    decreases entries.len(),
{
    let i = choose|i: int| 0 <= i < entries.len() && (#[trigger] entries[i]).0 == t;
    if entries[0].0 == t {
    } else {
        assert(entries.drop_first()[i - 1] == entries[i]);
        lemma_store_found_index(entries.drop_first(), t);
    }
}

/// Law: every stored entry's tag is the digest of its bytes.
pub proof fn lemma_store_integrity(s: ContentStore, t: Seq<u8>, d: Seq<u8>)
    requires
        s.wf(),
        store_lookup(s@, t) == Some(d),
    ensures
        t == digest_of(d),
    decreases s@.len(),
{
    lemma_store_contains_index(s@, t);
}

} // verus!
