//! The archive writer: accumulates pending entries — each a name or an
//! explicit checksum, plus payload bytes — and serializes them into archive
//! bytes that [`crate::archive::Archive::open`] parses back.

use vstd::prelude::*;

use crate::checksum::{hash_name, spec_hash_name};
use crate::layout::{
    encodable, ident_hash, idents_unique, lemma_payloads_concat_len_mono, lemma_round_trip,
    payloads_concat, pending_hashed, pending_named, record_of, records_concat, spec_encode,
    spec_open, ArchiveV, IdentV, ParseError, PendingV,
};

verus! {

/// Why serialization, or adding an entry, failed.
#[derive(Clone, Copy, Debug, PartialEq, Eq, Structural)]
pub enum WriteError {
    /// Two entries would be stored under the same identifier: the same name
    /// twice, the same checksum twice, or a name whose checksum collides
    /// with another entry's identifier.
    DuplicateIdentifier,
    /// The entry count, a name, or the data region does not fit the 32-bit
    /// fields of the on-disk format.
    TooLarge,
}

/// An entry's identifier: a literal name, or the 32-bit checksum standing
/// for a name that is not recorded.
pub enum Identifier {
    Named(String),
    Hashed(u32),
}

impl View for Identifier {
    type V = IdentV;

    closed spec fn view(&self) -> IdentV {
        match self {
            Identifier::Named(name) => IdentV::Named(name@),
            Identifier::Hashed(h) => IdentV::Hashed(*h),
        }
    }
}

/// One pending entry, with its on-disk checksum precomputed.
struct PendingEntry {
    ident: Identifier,
    hash: u32,
    payload: Vec<u8>,
}

/// The writer: an ordered sequence of pending entries, no two of which
/// share a final identifier. It is filled by [`Writer::add_named`] and
/// [`Writer::add_hashed`] and consumed by [`Writer::serialize`].
pub struct Writer {
    pending: Vec<PendingEntry>,
}

impl View for Writer {
    type V = Seq<PendingV>;

    closed spec fn view(&self) -> Seq<PendingV> {
        self.pending@.map_values(
            |p: PendingEntry| PendingV { ident: p.ident@, payload: p.payload@ },
        )
    }
}

impl Writer {
    /// The writer's invariant: the cached checksums are right, and no two
    /// pending entries share a final identifier.
    pub closed spec fn wf(&self) -> bool {
        &&& forall|i: int|
            0 <= i < self.pending@.len() ==> (#[trigger] self.pending@[i]).hash == ident_hash(
                self.pending@[i].ident@,
            )
        &&& idents_unique(self@)
    }

    /// An empty writer.
    pub fn new() -> (r: Writer)
        ensures
            r.wf(),
            r@ == Seq::<PendingV>::empty(),
    {
        let w = Writer { pending: Vec::new() };
        proof {
            assert(w@ =~= Seq::<PendingV>::empty());
        }
        w
    }

    /// Whether some pending entry's final identifier is this checksum.
    #[verifier::loop_isolation(false)]
    fn holds_hash(&self, h: u32) -> (r: bool)
        requires
            self.wf(),
        ensures
            r == exists|i: int|
                0 <= i < self@.len() && ident_hash((#[trigger] self@[i]).ident) == h,
    {
        let n = self.pending.len();
        let mut i: usize = 0;
        while i < n
            invariant
                i <= n,
                forall|k: int| 0 <= k < i ==> ident_hash((#[trigger] self@[k]).ident) != h,
            decreases n - i,
        {
            if self.pending[i].hash == h {
                proof {
                    assert(ident_hash(self@[i as int].ident) == h);
                }
                return true;
            }
            i = i + 1;
        }
        false
    }

    /// Appends an entry stored under its literal name. Fails with
    /// `DuplicateIdentifier` — and leaves the writer unchanged — exactly
    /// when some pending entry already has this name's checksum as its
    /// final identifier.
    pub fn add_named(&mut self, name: &str, bytes: Vec<u8>) -> (r: Result<(), WriteError>)
        requires
            old(self).wf(),
        ensures
            final(self).wf(),
            match r {
                Ok(_) => !(exists|i: int|
                    0 <= i < old(self)@.len() && ident_hash((#[trigger] old(self)@[i]).ident)
                        == spec_hash_name(name@)) && final(self)@ == old(self)@.push(
                    PendingV { ident: IdentV::Named(name@), payload: bytes@ },
                ),
                Err(WriteError::DuplicateIdentifier) => (exists|i: int|
                    0 <= i < old(self)@.len() && ident_hash((#[trigger] old(self)@[i]).ident)
                        == spec_hash_name(name@)) && final(self)@ == old(self)@,
                Err(WriteError::TooLarge) => false,
            },
    {
        let h = hash_name(name);
        if self.holds_hash(h) {
            return Err(WriteError::DuplicateIdentifier);
        }
        let ghost prev = self@;
        self.pending.push(
            PendingEntry { ident: Identifier::Named(name.to_owned()), hash: h, payload: bytes },
        );
        proof {
            assert(self@ =~= prev.push(
                PendingV { ident: IdentV::Named(name@), payload: bytes@ },
            ));
            assert(forall|t: int| 0 <= t < prev.len() ==> self@[t] == prev[t]);
        }
        Ok(())
    }

    /// Appends an entry stored under an explicit checksum. Fails with
    /// `DuplicateIdentifier` — and leaves the writer unchanged — exactly
    /// when some pending entry already has this checksum as its final
    /// identifier.
    pub fn add_hashed(&mut self, hash: u32, bytes: Vec<u8>) -> (r: Result<(), WriteError>)
        requires
            old(self).wf(),
        ensures
            final(self).wf(),
            match r {
                Ok(_) => !(exists|i: int|
                    0 <= i < old(self)@.len() && ident_hash((#[trigger] old(self)@[i]).ident)
                        == hash) && final(self)@ == old(self)@.push(
                    PendingV { ident: IdentV::Hashed(hash), payload: bytes@ },
                ),
                Err(WriteError::DuplicateIdentifier) => (exists|i: int|
                    0 <= i < old(self)@.len() && ident_hash((#[trigger] old(self)@[i]).ident)
                        == hash) && final(self)@ == old(self)@,
                Err(WriteError::TooLarge) => false,
            },
    {
        if self.holds_hash(hash) {
            return Err(WriteError::DuplicateIdentifier);
        }
        let ghost prev = self@;
        self.pending.push(PendingEntry { ident: Identifier::Hashed(hash), hash, payload: bytes });
        proof {
            assert(self@ =~= prev.push(PendingV { ident: IdentV::Hashed(hash), payload: bytes@ }));
            assert(forall|t: int| 0 <= t < prev.len() ==> self@[t] == prev[t]);
        }
        Ok(())
    }

    /// Lays the pending entries out as archive bytes: header, one index
    /// record per entry in insertion order, then the concatenated payloads.
    /// Fails with `TooLarge` — and with nothing written — exactly when the
    /// entry count, a name, or the data region overflows the on-disk 32-bit
    /// fields. Duplicates cannot arise here: the adders refuse them.
    #[verifier::loop_isolation(false)]
    pub fn serialize(&self) -> (r: Result<Vec<u8>, WriteError>)
        requires
            self.wf(),
        ensures
            match r {
                Ok(out) => encodable(self@) && out@ == spec_encode(self@),
                Err(WriteError::TooLarge) => !encodable(self@),
                Err(WriteError::DuplicateIdentifier) => false,
            },
    {
        let m = self.pending.len();
        if (m as u64) > 0xFFFF_FFFFu64 {
            return Err(WriteError::TooLarge);
        }
        let mut idx: Vec<u8> = Vec::new();
        let mut data: Vec<u8> = Vec::new();
        let mut i: usize = 0;
        proof {
            assert(idx@ =~= records_concat(self@.take(0)));
            assert(data@ =~= payloads_concat(self@.take(0)));
        }
        while i < m
            invariant
                i <= m,
                m == self@.len(),
                idx@ == records_concat(self@.take(i as int)),
                data@ == payloads_concat(self@.take(i as int)),
                data@.len() <= 0xFFFF_FFFF,
                forall|t: int|
                    0 <= t < i ==> match (#[trigger] self@[t]).ident {
                        IdentV::Named(nm) => vstd::utf8::encode_utf8(nm).len() <= u32::MAX,
                        IdentV::Hashed(_) => true,
                    },
            decreases m - i,
        {
            let p = &self.pending[i];
            let plen = p.payload.len();
            if (plen as u64) > 0xFFFF_FFFFu64 || (data.len() as u64) + (plen as u64)
                > 0xFFFF_FFFFu64 {
                proof {
                    assert(self@.take(i + 1).drop_last() =~= self@.take(i as int));
                    assert(payloads_concat(self@.take(i + 1)).len() > 0xFFFF_FFFF);
                    lemma_payloads_concat_len_mono(self@, i + 1);
                }
                return Err(WriteError::TooLarge);
            }
            let off32 = data.len() as u32;
            match &p.ident {
                Identifier::Named(nm) => {
                    let nb = nm.as_str().as_bytes();
                    if (nb.len() as u64) > 0xFFFF_FFFFu64 {
                        proof {
                            assert(match self@[i as int].ident {
                                IdentV::Named(nmv) => vstd::utf8::encode_utf8(nmv).len()
                                    > u32::MAX,
                                IdentV::Hashed(_) => false,
                            });
                        }
                        return Err(WriteError::TooLarge);
                    }
                    idx.push(0u8);
                    let mut t1 = vstd::bytes::u32_to_le_bytes(nb.len() as u32);
                    idx.append(&mut t1);
                    idx.extend_from_slice(nb);
                    let mut t2 = vstd::bytes::u32_to_le_bytes(off32);
                    idx.append(&mut t2);
                    let mut t3 = vstd::bytes::u32_to_le_bytes(plen as u32);
                    idx.append(&mut t3);
                },
                Identifier::Hashed(h) => {
                    idx.push(1u8);
                    let mut t1 = vstd::bytes::u32_to_le_bytes(*h);
                    idx.append(&mut t1);
                    let mut t2 = vstd::bytes::u32_to_le_bytes(off32);
                    idx.append(&mut t2);
                    let mut t3 = vstd::bytes::u32_to_le_bytes(plen as u32);
                    idx.append(&mut t3);
                },
            }
            data.extend_from_slice(p.payload.as_slice());
            proof {
                assert(self@.take(i + 1).drop_last() =~= self@.take(i as int));
                assert(self@.take(i + 1).last() == self@[i as int]);
                assert(idx@ =~= records_concat(self@.take(i + 1)));
                assert(data@ =~= payloads_concat(self@.take(i + 1)));
            }
            i = i + 1;
        }
        proof {
            assert(self@.take(m as int) =~= self@);
        }
        let mut out: Vec<u8> = Vec::new();
        out.push(0x46);
        out.push(0x41);
        out.push(0x52);
        out.push(0x43);
        let mut cnt = vstd::bytes::u32_to_le_bytes(m as u32);
        out.append(&mut cnt);
        out.append(&mut idx);
        out.append(&mut data);
        proof {
            assert(out@ =~= spec_encode(self@));
        }
        Ok(out)
    }
}

/// Round trip: the bytes that `serialize` produces for this writer parse
/// back — [`spec_open`] succeeds on them — to exactly the writer's entries:
/// the named ones as the name-indexed part and the hashed ones as the
/// hash-indexed part, in insertion order, with byte-identical payloads.
pub proof fn lemma_writer_round_trip(w: &Writer)
    requires
        w.wf(),
        encodable(w@),
    ensures
        spec_open(spec_encode(w@)) == Ok::<ArchiveV, ParseError>(
            ArchiveV { named: pending_named(w@), hashed: pending_hashed(w@) },
        ),
{
    lemma_round_trip(w@);
}

} // verus!
