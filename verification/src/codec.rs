//! Byte codec for persisting the binding store.
//!
//! The on-disk format is a length-prefixed list of entries, all integers
//! little-endian 64-bit: the entry count, then for each entry its key code,
//! the byte length of its image, and the image bytes themselves.  Entries
//! are written in strictly ascending key order, which makes the encoding of
//! a store canonical; the decoder rejects anything else, so decoding is the
//! exact inverse of encoding.

use vstd::prelude::*;
use vstd::bytes::{
    spec_u64_from_le_bytes, spec_u64_to_le_bytes, lemma_auto_spec_u64_to_from_le_bytes,
    u64_from_le_bytes, u64_to_le_bytes,
};
use vstd::slice::{slice_subrange, slice_to_vec};
use crate::store::{ImageBinds, sorted_strict};

verus! {

/// The keys of an entry sequence, in entry order.
pub open spec fn entry_keys(es: Seq<(u64, Seq<u8>)>) -> Seq<u64> {
    es.map_values(|e: (u64, Seq<u8>)| e.0)
}

/// Entry sequences the codec can represent: the count and every image
/// length fit in 64 bits.
pub open spec fn valid_entries(es: Seq<(u64, Seq<u8>)>) -> bool {
    &&& es.len() <= u64::MAX
    &&& forall|i: int| 0 <= i < es.len() ==> (#[trigger] es[i]).1.len() <= u64::MAX
}

/// The bytes of one entry: key, image length, image bytes.
pub open spec fn spec_encode_entry(e: (u64, Seq<u8>)) -> Seq<u8> {
    spec_u64_to_le_bytes(e.0) + spec_u64_to_le_bytes(e.1.len() as u64) + e.1
}

/// The bytes of an entry list, entries in order.
pub open spec fn spec_encode_entries(es: Seq<(u64, Seq<u8>)>) -> Seq<u8>
    decreases es.len(),
{
    if es.len() == 0 {
        Seq::empty()
    } else {
        spec_encode_entry(es[0]) + spec_encode_entries(es.drop_first())
    }
}

/// The full encoding: entry count, then the entries.
pub open spec fn spec_encode(es: Seq<(u64, Seq<u8>)>) -> Seq<u8> {
    spec_u64_to_le_bytes(es.len() as u64) + spec_encode_entries(es)
}

/// Parse exactly `n` entries from `b`, requiring `b` to be consumed
/// completely.
pub open spec fn spec_parse_entries(b: Seq<u8>, n: nat) -> Option<Seq<(u64, Seq<u8>)>>
    decreases n,
{
    if n == 0 {
        if b.len() == 0 {
            Some(Seq::empty())
        } else {
            None
        }
    } else if b.len() < 16 {
        None
    } else {
        let k = spec_u64_from_le_bytes(b.subrange(0, 8));
        let l = spec_u64_from_le_bytes(b.subrange(8, 16)) as int;
        if b.len() < 16 + l {
            None
        } else {
            let blob = b.subrange(16, 16 + l);
            match spec_parse_entries(b.subrange(16 + l, b.len() as int), (n - 1) as nat) {
                Some(rest) => Some(seq![(k, blob)] + rest),
                None => None,
            }
        }
    }
}

/// Parse a full encoding: the count prefix, then exactly that many entries.
pub open spec fn spec_decode(b: Seq<u8>) -> Option<Seq<(u64, Seq<u8>)>> {
    if b.len() < 8 {
        None
    } else {
        spec_parse_entries(b.skip(8), spec_u64_from_le_bytes(b.subrange(0, 8)) as nat)
    }
}

/// Appending an entry appends its bytes.
pub proof fn lemma_encode_entries_push(es: Seq<(u64, Seq<u8>)>, e: (u64, Seq<u8>))
    ensures
        spec_encode_entries(es.push(e)) == spec_encode_entries(es) + spec_encode_entry(e),
    decreases es.len(),
{
    if es.len() == 0 {
        assert(es.push(e)[0] == e);
        assert(es.push(e).drop_first() =~= Seq::<(u64, Seq<u8>)>::empty());
        assert(spec_encode_entries(es.push(e)) == spec_encode_entry(e) + spec_encode_entries(
            es.push(e).drop_first(),
        ));
        assert(spec_encode_entries(es.push(e).drop_first()) == Seq::<u8>::empty());
        assert(spec_encode_entries(es) == Seq::<u8>::empty());
        assert(spec_encode_entry(e) + Seq::<u8>::empty() =~= Seq::<u8>::empty()
            + spec_encode_entry(e));
    } else {
        assert(es.push(e).drop_first() =~= es.drop_first().push(e));
        lemma_encode_entries_push(es.drop_first(), e);
        assert(es.push(e)[0] == es[0]);
        assert(spec_encode_entries(es.push(e)) == spec_encode_entry(es[0]) + (
        spec_encode_entries(es.drop_first()) + spec_encode_entry(e)));
        assert(spec_encode_entry(es[0]) + (spec_encode_entries(es.drop_first())
            + spec_encode_entry(e)) =~= (spec_encode_entry(es[0]) + spec_encode_entries(
            es.drop_first(),
        )) + spec_encode_entry(e));
    }
}

/// Parsing inverts encoding, one entry list at a time.
pub proof fn lemma_parse_encode_entries(es: Seq<(u64, Seq<u8>)>)
    requires
        forall|i: int| 0 <= i < es.len() ==> (#[trigger] es[i]).1.len() <= u64::MAX,
    ensures
        spec_parse_entries(spec_encode_entries(es), es.len() as nat) == Some(es),
    decreases es.len(),
{
    lemma_auto_spec_u64_to_from_le_bytes();
    if es.len() == 0 {
        assert(spec_encode_entries(es).len() == 0);
        assert(spec_parse_entries(spec_encode_entries(es), 0) =~= Some(es));
    } else {
        let e = es[0];
        let b = spec_encode_entries(es);
        let kb = spec_u64_to_le_bytes(e.0);
        let lb = spec_u64_to_le_bytes(e.1.len() as u64);
        let tail = spec_encode_entries(es.drop_first());
        assert(kb.len() == 8);
        assert(lb.len() == 8);
        assert(b == (kb + lb + e.1) + tail);
        assert(b.len() == 16 + e.1.len() + tail.len());
        assert(b.subrange(0, 8) =~= kb);
        assert(b.subrange(8, 16) =~= lb);
        assert(spec_u64_from_le_bytes(b.subrange(0, 8)) == e.0);
        assert(spec_u64_from_le_bytes(b.subrange(8, 16)) == e.1.len() as u64);
        let l = e.1.len() as int;
        assert(b.subrange(16, 16 + l) =~= e.1);
        assert(b.subrange(16 + l, b.len() as int) =~= tail);
        lemma_parse_encode_entries(es.drop_first());
        assert(seq![(e.0, e.1)] + es.drop_first() =~= es);
    }
}

/// The round-trip law of the codec: decoding an encoded entry list gives the
/// list back, for every representable list.  Together with the contracts of
/// `ImageBinds::save` and `decode` this says that a store written out and
/// read back is the same store.
pub proof fn lemma_codec_round_trip(es: Seq<(u64, Seq<u8>)>)
    requires
        valid_entries(es),
    ensures
        spec_decode(spec_encode(es)) == Some(es),
{
    lemma_auto_spec_u64_to_from_le_bytes();
    let b = spec_encode(es);
    let cb = spec_u64_to_le_bytes(es.len() as u64);
    assert(cb.len() == 8);
    assert(b.subrange(0, 8) =~= cb);
    assert(spec_u64_from_le_bytes(b.subrange(0, 8)) == es.len() as u64);
    assert(b.skip(8) =~= spec_encode_entries(es));
    lemma_parse_encode_entries(es);
}

/// Prefix a parse result with already-parsed entries.
spec fn opt_prefixed(pre: Seq<(u64, Seq<u8>)>, t: Option<Seq<(u64, Seq<u8>)>>) -> Option<
    Seq<(u64, Seq<u8>)>,
> {
    match t {
        Some(rest) => Some(pre + rest),
        None => None,
    }
}

proof fn lemma_opt_prefixed_empty(t: Option<Seq<(u64, Seq<u8>)>>)
    ensures
        opt_prefixed(Seq::empty(), t) == t,
{
    match t {
        Some(r) => {
            assert(Seq::<(u64, Seq<u8>)>::empty() + r =~= r);
        },
        None => {},
    }
}

proof fn lemma_opt_prefixed_push(pre: Seq<(u64, Seq<u8>)>, e: (u64, Seq<u8>), t: Option<
    Seq<(u64, Seq<u8>)>,
>)
    ensures
        opt_prefixed(pre, opt_prefixed(seq![e], t)) == opt_prefixed(pre.push(e), t),
{
    match t {
        Some(r) => {
            assert(pre + (seq![e] + r) =~= pre.push(e) + r);
        },
        None => {},
    }
}

impl ImageBinds {
    /// Serialize the whole store.  The result is exactly the canonical
    /// encoding of the store's entries; writing it to the persisted file is
    /// the caller's business.
    pub fn save(&self) -> (r: Vec<u8>)
        requires
            self.wf(),
        ensures
            r@ == spec_encode(self.entry_seq()),
    {
        let keys = self.get_keys();
        let mut out = u64_to_le_bytes(keys.len() as u64);
        let ghost es = self.entry_seq();
        let mut i: usize = 0;
        while i < keys.len()
            invariant
                self.wf(),
                keys@ == self.key_seq(),
                es == self.entry_seq(),
                0 <= i <= keys@.len(),
                out@ == spec_u64_to_le_bytes(keys@.len() as u64) + spec_encode_entries(
                    es.take(i as int),
                ),
            decreases keys@.len() - i,
        {
            let k = keys[i];
            proof {
                assert(self.key_seq().contains(k));
                assert(self@.dom().contains(k));
            }
            let blob = match self.get_img(k) {
                Some(b) => b,
                None => vstd::pervasive::unreached(),
            };
            let mut kb = u64_to_le_bytes(k);
            out.append(&mut kb);
            let mut lb = u64_to_le_bytes(blob.len() as u64);
            out.append(&mut lb);
            let ghost pre = out@;
            let mut j: usize = 0;
            while j < blob.len()
                invariant
                    0 <= j <= blob@.len(),
                    out@ == pre + blob@.take(j as int),
                decreases blob@.len() - j,
            {
                out.push(blob[j]);
                proof {
                    assert(out@ =~= pre + blob@.take(j + 1));
                }
                j = j + 1;
            }
            proof {
                assert(blob@.take(blob@.len() as int) =~= blob@);
                assert(es[i as int] == (k, self@[k]));
                assert(blob@ == self@[k]);
                lemma_encode_entries_push(es.take(i as int), (k, self@[k]));
                assert(es.take(i + 1) =~= es.take(i as int).push((k, self@[k])));
                assert(out@ =~= spec_u64_to_le_bytes(keys@.len() as u64) + spec_encode_entries(
                    es.take(i + 1),
                ));
            }
            i = i + 1;
        }
        proof {
            assert(es.take(keys@.len() as int) =~= es);
        }
        out
    }

    /// Parse a persisted byte image back into a store.  Succeeds exactly on
    /// the canonical encodings: a well-formed entry list whose keys ascend
    /// strictly; anything else (truncated data, trailing bytes, out-of-order
    /// or repeated keys) is rejected.
    pub fn decode(bytes: &Vec<u8>) -> (r: Option<ImageBinds>)
        ensures
            match r {
                Some(s) => s.wf() && spec_decode(bytes@) == Some(s.entry_seq()),
                None => match spec_decode(bytes@) {
                    Some(es) => !sorted_strict(entry_keys(es)),
                    None => true,
                },
            },
    {
        if bytes.len() < 8 {
            return None;
        }
        let sl = bytes.as_slice();
        let count = u64_from_le_bytes(slice_subrange(sl, 0, 8));
        proof {
            assert(bytes@.subrange(0, 8) =~= sl@.subrange(0, 8));
        }
        let mut s = ImageBinds::new();
        let mut pos: usize = 8;
        let mut i: u64 = 0;
        let mut prev: Option<u64> = None;
        proof {
            assert(s.entry_seq() =~= Seq::<(u64, Seq<u8>)>::empty());
            assert(bytes@.skip(8) == bytes@.skip(pos as int));
            lemma_opt_prefixed_empty(
                spec_parse_entries(bytes@.skip(pos as int), (count - i) as nat),
            );
        }
        while i < count
            invariant
                bytes@.len() >= 8,
                8 <= pos <= bytes@.len(),
                0 <= i <= count,
                s.wf(),
                s.key_seq().len() == i,
                match prev {
                    Some(p) => i > 0 && s.key_seq()[i - 1] == p && forall|j: int|
                        0 <= j < s.key_seq().len() ==> s.key_seq()[j] <= p,
                    None => i == 0,
                },
                spec_decode(bytes@) == opt_prefixed(
                    s.entry_seq(),
                    spec_parse_entries(bytes@.skip(pos as int), (count - i) as nat),
                ),
            decreases count - i,
        {
            let ghost b = bytes@.skip(pos as int);
            let ghost n = (count - i) as nat;
            if bytes.len() - pos < 16 {
                proof {
                    assert(b.len() < 16);
                    assert(n != 0);
                    assert(spec_parse_entries(b, n) is None);
                }
                return None;
            }
            let sl = bytes.as_slice();
            let k = u64_from_le_bytes(slice_subrange(sl, pos, pos + 8));
            let l64 = u64_from_le_bytes(slice_subrange(sl, pos + 8, pos + 16));
            proof {
                assert(sl@.subrange(pos as int, pos + 8) =~= b.subrange(0, 8));
                assert(sl@.subrange(pos + 8, pos + 16) =~= b.subrange(8, 16));
            }
            let rem = bytes.len() - pos - 16;
            if l64 > rem as u64 {
                proof {
                    assert(b.len() < 16 + l64);
                    assert(spec_parse_entries(b, n) is None);
                }
                return None;
            }
            let l = l64 as usize;
            let blob = slice_to_vec(slice_subrange(sl, pos + 16, pos + 16 + l));
            let ghost blobv = blob@;
            proof {
                assert(sl@.subrange(pos + 16, pos + 16 + l) =~= b.subrange(16, 16 + l64));
                assert(b.subrange(16 + l64, b.len() as int) =~= bytes@.skip(pos + 16 + l));
                assert(spec_parse_entries(b, n) == opt_prefixed(
                    seq![(k, blobv)],
                    spec_parse_entries(bytes@.skip(pos + 16 + l), (n - 1) as nat),
                ));
            }
            let in_order = match prev {
                Some(p) => k > p,
                None => true,
            };
            if !in_order {
                proof {
                    if spec_decode(bytes@) is Some {
                        let es = spec_decode(bytes@)->Some_0;
                        assert(spec_parse_entries(b, n) is Some);
                        let rest = spec_parse_entries(
                            bytes@.skip(pos + 16 + l),
                            (n - 1) as nat,
                        )->Some_0;
                        assert(es == s.entry_seq() + (seq![(k, blobv)] + rest));
                        let w = i as int;
                        assert(es[w - 1] == s.entry_seq()[w - 1]);
                        assert(es[w] == (seq![(k, blobv)] + rest)[0]);
                        assert(es[w] == (k, blobv));
                        assert(entry_keys(es)[w - 1] == es[w - 1].0);
                        assert(entry_keys(es)[w] == k);
                        assert(s.entry_seq()[w - 1].0 == s.key_seq()[w - 1]);
                        assert(s.key_seq()[w - 1] >= k);
                        assert(entry_keys(es)[w - 1] >= k);
                        assert(!sorted_strict(entry_keys(es)));
                    }
                }
                return None;
            }
            proof {
                assert(forall|j: int| 0 <= j < s.key_seq().len() ==> s.key_seq()[j] < k);
                assert(!s@.dom().contains(k)) by {
                    if s@.dom().contains(k) {
                        assert(s.key_seq().contains(k));
                        let w = choose|w: int|
                            0 <= w < s.key_seq().len() && s.key_seq()[w] == k;
                        assert(false);
                    }
                }
            }
            let ghost s_old = s;
            s.binds_insert(k, blob);
            proof {
                assert(s.key_seq() == s_old.key_seq().push(k));
                assert(s.entry_seq() =~= s_old.entry_seq().push((k, blobv))) by {
                    assert forall|j: int| 0 <= j < s.key_seq().len() implies s.entry_seq()[j]
                        == s_old.entry_seq().push((k, blobv))[j] by {
                        if j < s_old.key_seq().len() {
                            assert(s.key_seq()[j] == s_old.key_seq()[j]);
                            assert(s.key_seq()[j] != k);
                            assert(s_old.key_seq().contains(s_old.key_seq()[j]));
                            assert(s_old@.dom().contains(s_old.key_seq()[j]));
                            assert(s@[s.key_seq()[j]] == s_old@[s_old.key_seq()[j]]);
                        } else {
                            assert(s.key_seq()[j] == k);
                            assert(s@[k] == blobv);
                        }
                    }
                }
                lemma_opt_prefixed_push(
                    s_old.entry_seq(),
                    (k, blobv),
                    spec_parse_entries(bytes@.skip(pos + 16 + l), (n - 1) as nat),
                );
            }
            pos = pos + 16 + l;
            i = i + 1;
            prev = Some(k);
        }
        if pos == bytes.len() {
            proof {
                assert(bytes@.skip(pos as int) =~= Seq::<u8>::empty());
                assert(spec_parse_entries(bytes@.skip(pos as int), 0) == Some(
                    Seq::<(u64, Seq<u8>)>::empty(),
                ));
                assert(s.entry_seq() + Seq::<(u64, Seq<u8>)>::empty() =~= s.entry_seq());
            }
            Some(s)
        } else {
            proof {
                assert(bytes@.skip(pos as int).len() > 0);
            }
            None
        }
    }

    /// Rebuild a store from persisted bytes, falling back to an empty store
    /// when the bytes are not a canonical encoding.  This is the load half
    /// of persistence: a missing or corrupt file yields an empty store, not
    /// a failure.
    pub fn load(bytes: &Vec<u8>) -> (r: ImageBinds)
        ensures
            r.wf(),
            match spec_load(bytes@) {
                Some(es) => r.entry_seq() == es,
                None => r@ == Map::<u64, Seq<u8>>::empty() && r.key_seq().len() == 0,
            },
    {
        match ImageBinds::decode(bytes) {
            Some(s) => {
                proof {
                    assert(entry_keys(s.entry_seq()) =~= s.key_seq());
                }
                s
            },
            None => ImageBinds::new(),
        }
    }
}

/// What `load` accepts: a canonical encoding with strictly ascending keys.
pub open spec fn spec_load(b: Seq<u8>) -> Option<Seq<(u64, Seq<u8>)>> {
    match spec_decode(b) {
        Some(es) => if sorted_strict(entry_keys(es)) {
            Some(es)
        } else {
            None
        },
        None => None,
    }
}

/// A well-formed store's entries carry its keys in store order.
pub proof fn lemma_entry_keys_of_store(s: ImageBinds)
    requires
        s.wf(),
    ensures
        entry_keys(s.entry_seq()) == s.key_seq(),
        sorted_strict(entry_keys(s.entry_seq())),
{
    assert(entry_keys(s.entry_seq()) =~= s.key_seq());
}

/// The entry list pins the store down: two well-formed stores with the same
/// entries hold the same bindings.
pub proof fn lemma_entries_determine_store(a: ImageBinds, b: ImageBinds)
    requires
        a.wf(),
        b.wf(),
        a.entry_seq() == b.entry_seq(),
    ensures
        a@ == b@,
{
    assert(entry_keys(a.entry_seq()) =~= a.key_seq());
    assert(entry_keys(b.entry_seq()) =~= b.key_seq());
    assert(a.key_seq() == b.key_seq());
    assert(a@ =~= b@) by {
        assert forall|k: u64| a@.dom().contains(k) <==> b@.dom().contains(k) by {
            assert(a@.dom().contains(k) <==> a.key_seq().contains(k));
            assert(b@.dom().contains(k) <==> b.key_seq().contains(k));
        }
        assert forall|k: u64| a@.dom().contains(k) implies a@[k] == b@[k] by {
            assert(a.key_seq().contains(k));
            let w = choose|w: int| 0 <= w < a.key_seq().len() && a.key_seq()[w] == k;
            assert(a.key_seq()[w] == k);
            assert(a.entry_seq()[w] == (a.key_seq()[w], a@[a.key_seq()[w]]));
            assert(b.entry_seq()[w] == (b.key_seq()[w], b@[b.key_seq()[w]]));
            assert(a.entry_seq()[w] == b.entry_seq()[w]);
        }
    }
}

/// The persistence round-trip law: a well-formed store's saved bytes decode
/// back to exactly its own entries.  With the contracts of `save`, `decode`
/// and `lemma_entries_determine_store`, a store written out and read back
/// holds the same bindings, for every store, the empty one and zero-length
/// images included.
pub proof fn lemma_saved_store_decodes(s: ImageBinds)
    requires
        s.wf(),
        valid_entries(s.entry_seq()),
    ensures
        spec_decode(spec_encode(s.entry_seq())) == Some(s.entry_seq()),
        spec_load(spec_encode(s.entry_seq())) == Some(s.entry_seq()),
{
    lemma_codec_round_trip(s.entry_seq());
    lemma_entry_keys_of_store(s);
}

} // verus!
