//! The binding store: a map from key codes to captured image bytes.
//!
//! Keys are the opaque integer codes of physical keys; values are the raw
//! bytes of one clipboard image snapshot.  Insertion overwrites: at most one
//! image is kept per key.  Besides the hash map the store keeps its domain as
//! a strictly ascending vector of keys, so that snapshots of the bound keys
//! and the persisted byte encoding are deterministic.

use vstd::prelude::*;
use vstd::hash_map::HashMapWithView;

verus! {

broadcast use vstd::std_specs::hash::axiom_u64_obeys_hash_table_key_model;

/// A sequence of key codes in strictly ascending order (no duplicates).
pub open spec fn sorted_strict(s: Seq<u64>) -> bool {
    forall|i: int, j: int| 0 <= i < j < s.len() ==> s[i] < s[j]
}

/// The binding store.  `binds` owns the images; `keys` mirrors the map's
/// domain in strictly ascending order.
pub struct ImageBinds {
    binds: HashMapWithView<u64, Vec<u8>>,
    keys: Vec<u64>,
}

impl View for ImageBinds {
    type V = Map<u64, Seq<u8>>;

    /// The mathematical content of the store: key code -> image bytes.
    closed spec fn view(&self) -> Map<u64, Seq<u8>> {
        Map::new(
            |k: u64| self.binds@.dom().contains(k),
            |k: u64| self.binds@[k]@,
        )
    }
}

impl ImageBinds {
    /// The bound keys, in the order the store keeps them.
    pub closed spec fn key_seq(&self) -> Seq<u64> {
        self.keys@
    }

    /// The store's content as ordered (key, image bytes) pairs, following the
    /// key order.  This is the sequence the byte codec writes out.
    pub open spec fn entry_seq(&self) -> Seq<(u64, Seq<u8>)> {
        self.key_seq().map(|i: int, k: u64| (k, self@[k]))
    }

    /// Internal consistency: the key vector is strictly ascending and lists
    /// exactly the map's domain.
    pub open spec fn wf(&self) -> bool {
        &&& sorted_strict(self.key_seq())
        &&& forall|k: u64| self@.dom().contains(k) <==> self.key_seq().contains(k)
    }

    /// An empty store.
    pub fn new() -> (r: Self)
        ensures
            r.wf(),
            r@ == Map::<u64, Seq<u8>>::empty(),
            r.key_seq() == Seq::<u64>::empty(),
    {
        let r = ImageBinds { binds: HashMapWithView::new(), keys: Vec::new() };
        proof {
            assert(r@ =~= Map::<u64, Seq<u8>>::empty());
        }
        r
    }

    /// Insert-or-replace one binding.  A key already bound keeps its place in
    /// the key order; a key larger than every bound key is appended.
    pub fn binds_insert(&mut self, k: u64, v: Vec<u8>)
        requires
            old(self).wf(),
        ensures
            final(self).wf(),
            final(self)@ == old(self)@.insert(k, v@),
            old(self)@.dom().contains(k) ==> final(self).key_seq() == old(self).key_seq(),
            !old(self)@.dom().contains(k) && (forall|j: int|
                0 <= j < old(self).key_seq().len() ==> old(self).key_seq()[j] < k)
                ==> final(self).key_seq() == old(self).key_seq().push(k),
    {
        let ghost old_keys = self.keys@;
        let mut i: usize = 0;
        while i < self.keys.len() && self.keys[i] < k
            invariant
                0 <= i <= self.keys@.len(),
                forall|j: int| 0 <= j < i ==> self.keys@[j] < k,
                self.keys@ == old_keys,
            decreases self.keys@.len() - i,
        {
            i = i + 1;
        }
        if i == self.keys.len() || self.keys[i] != k {
            self.keys.insert(i, k);
            proof {
                assert(!old(self)@.dom().contains(k)) by {
                    if old(self)@.dom().contains(k) {
                        assert(old_keys.contains(k));
                        let w = choose|w: int| 0 <= w < old_keys.len() && old_keys[w] == k;
                        assert(w >= i);
                        assert(i < old_keys.len());
                        assert(old_keys[i as int] != k);
                        assert(old_keys[i as int] >= k);
                        assert(w > i);
                        assert(old_keys[i as int] < old_keys[w]);
                        assert(false);
                    }
                }
                let ks = self.keys@;
                assert forall|p: int, q: int| 0 <= p < q < ks.len() implies ks[p] < ks[q] by {
                    if p < i && q > i {
                        assert(old_keys[p] < k);
                    } else if p == i && q > i {
                        assert(sorted_strict(old_keys));
                        assert(old_keys[q - 1] >= k) by {
                            if old_keys[q - 1] < k {
                                assert(q - 1 >= i);
                                if q - 1 > i {
                                    assert(old_keys[i as int] < old_keys[q - 1]);
                                }
                            }
                        }
                        assert(old_keys[q - 1] != k) by {
                            if old_keys[q - 1] == k {
                                assert(old(self).key_seq().contains(k));
                                assert(old(self)@.dom().contains(k));
                                assert(false);
                            }
                        }
                    }
                }
                assert forall|x: u64| ks.contains(x) <==> (old_keys.contains(x) || x == k) by {
                    if ks.contains(x) {
                        let w = choose|w: int| 0 <= w < ks.len() && ks[w] == x;
                        if w < i {
                            assert(old_keys[w] == x);
                        } else if w > i {
                            assert(old_keys[w - 1] == x);
                        }
                    }
                    if old_keys.contains(x) {
                        let w = choose|w: int| 0 <= w < old_keys.len() && old_keys[w] == x;
                        if w < i {
                            assert(ks[w] == x);
                        } else {
                            assert(ks[w + 1] == x);
                        }
                    }
                    if x == k {
                        assert(ks[i as int] == x);
                    }
                }
                if forall|j: int| 0 <= j < old_keys.len() ==> old_keys[j] < k {
                    assert(i == old_keys.len());
                    assert(ks =~= old_keys.push(k));
                }
            }
        } else {
            proof {
                assert(self.keys@[i as int] == k);
                assert(self.key_seq().contains(k));
            }
        }
        self.binds.insert(k, v);
        proof {
            assert(final(self)@ =~= old(self)@.insert(k, v@));
            assert forall|x: u64| final(self)@.dom().contains(x)
                <==> final(self).key_seq().contains(x) by {
                if x != k {
                    assert(final(self)@.dom().contains(x) <==> old(self)@.dom().contains(x));
                }
            }
        }
    }

    /// Look up the image bound to `k`, if any.  An unbound key is a plain
    /// `None`, never a fault.
    pub fn get_img(&self, k: u64) -> (r: Option<&Vec<u8>>)
        ensures
            match r {
                Some(v) => self@.dom().contains(k) && v@ == self@[k],
                None => !self@.dom().contains(k),
            },
    {
        self.binds.get(&k)
    }

    /// A snapshot of the bound keys, strictly ascending; safe to iterate
    /// after the store has moved on.
    pub fn get_keys(&self) -> (r: Vec<u64>)
        ensures
            r@ == self.key_seq(),
    {
        let mut out: Vec<u64> = Vec::new();
        let mut i: usize = 0;
        while i < self.keys.len()
            invariant
                0 <= i <= self.keys@.len(),
                out@ == self.keys@.take(i as int),
            decreases self.keys@.len() - i,
        {
            out.push(self.keys[i]);
            proof {
                assert(out@ =~= self.keys@.take(i + 1));
            }
            i = i + 1;
        }
        proof {
            assert(out@ =~= self.keys@);
        }
        out
    }

    /// Apply the outcome of a record attempt.  `clip` is what the clipboard
    /// read produced: an image binds (or re-binds) the key and the attempt
    /// counts as recorded; a failed read leaves the store exactly as it
    /// was, byte for byte, and nothing counts as recorded.
    pub fn add_img(&mut self, key: u64, clip: Option<Vec<u8>>) -> (recorded: bool)
        requires
            old(self).wf(),
        ensures
            final(self).wf(),
            match clip {
                Some(b) => recorded && final(self)@ == old(self)@.insert(key, b@),
                None => !recorded && *final(self) == *old(self),
            },
    {
        match clip {
            Some(b) => {
                self.binds_insert(key, b);
                true
            },
            None => false,
        }
    }

}

/// The overwrite law: recording a key twice keeps only the second image.
/// Inserting under the same key replaces the binding, so after images `b1`
/// then `b2` the store is the one holding `b2` alone for that key, and a
/// lookup of the key yields `b2`.
pub proof fn lemma_record_overwrite(m: Map<u64, Seq<u8>>, k: u64, b1: Seq<u8>, b2: Seq<u8>)
    ensures
        m.insert(k, b1).insert(k, b2) == m.insert(k, b2),
        m.insert(k, b2)[k] == b2,
{
    assert(m.insert(k, b1).insert(k, b2) =~= m.insert(k, b2));
}

} // verus!
