//! The archive reader: parses a byte source into an entry table split into
//! a name-indexed part and a hash-indexed part, gives random access to the
//! entries' payloads, and offers `promote` — the one mutation an archive
//! admits — which moves an entry from the hash-indexed part to the
//! name-indexed part once its name has been recovered.

use vstd::prelude::*;

use crate::checksum::{hash_name, spec_hash_name};
use crate::layout::{
    hashed_index, hashed_of, lemma_hashed_index_found, lemma_hashed_index_none,
    lemma_hashed_of_unique, lemma_named_index_found, lemma_named_index_none,
    lemma_named_of_unique, lemma_parse_records_err, lemma_parse_records_snoc, magic, named_index,
    named_of, parse_record, parse_records, record_keys_unique, record_len, record_off,
    records_in_bounds, same_key, spec_entry_count, spec_open, view_keys_unique, ArchiveV,
    ParseError, RecordV,
};
use crate::text::{str_eq, string_from_utf8};

verus! {

/// Why a lookup by name or by checksum found nothing.
#[derive(Clone, Copy, Debug, PartialEq, Eq, Structural)]
pub enum LookupError {
    NotFound,
}

/// Why a promotion was refused.
#[derive(Clone, Copy, Debug, PartialEq, Eq, Structural)]
pub enum PromoteError {
    /// The offered name does not hash to the checksum it was offered for.
    /// Accepting it would silently mislabel data, so this is never swallowed.
    HashMismatch,
    /// The checksum is no longer unresolved (an entry with that checksum, or
    /// with that very name, already sits in the name-indexed part).
    AlreadyNamed,
    /// No entry carries that checksum at all.
    NotFound,
}

/// An entry stored under its literal name.
struct NamedEntry {
    name: String,
    offset: usize,
    length: usize,
}

/// An entry stored under the checksum of its unrecorded name.
struct HashedEntry {
    hash: u32,
    offset: usize,
    length: usize,
}

/// One parsed index record, before the data region is validated.
enum RecordE {
    Named { name: String, off: u32, len: u32 },
    Hashed { hash: u32, off: u32, len: u32 },
}

impl View for RecordE {
    type V = RecordV;

    closed spec fn view(&self) -> RecordV {
        match self {
            RecordE::Named { name, off, len } => RecordV::Named {
                name: name@,
                off: *off,
                len: *len,
            },
            RecordE::Hashed { hash, off, len } => RecordV::Hashed {
                hash: *hash,
                off: *off,
                len: *len,
            },
        }
    }
}

spec fn recs_view(recs: Seq<RecordE>) -> Seq<RecordV> {
    recs.map_values(|re: RecordE| re@)
}

spec fn named_view(named: Seq<NamedEntry>, data: Seq<u8>) -> Seq<(Seq<char>, Seq<u8>)> {
    Seq::new(
        named.len(),
        |i: int|
            (
                named[i].name@,
                data.subrange(named[i].offset as int, named[i].offset + named[i].length),
            ),
    )
}

spec fn hashed_view(hashed: Seq<HashedEntry>, data: Seq<u8>) -> Seq<(u32, Seq<u8>)> {
    Seq::new(
        hashed.len(),
        |i: int|
            (
                hashed[i].hash,
                data.subrange(hashed[i].offset as int, hashed[i].offset + hashed[i].length),
            ),
    )
}

/// A parsed archive: the data region and the two lookup tables. The only
/// mutation it admits after `open` is [`Archive::promote`].
pub struct Archive {
    named: Vec<NamedEntry>,
    hashed: Vec<HashedEntry>,
    data: Vec<u8>,
}

impl View for Archive {
    type V = ArchiveV;

    closed spec fn view(&self) -> ArchiveV {
        ArchiveV {
            named: named_view(self.named@, self.data@),
            hashed: hashed_view(self.hashed@, self.data@),
        }
    }
}

/// Some name-indexed entry's name hashes to `h`.
pub open spec fn named_hash_present(named: Seq<(Seq<char>, Seq<u8>)>, h: u32) -> bool {
    exists|i: int| 0 <= i < named.len() && spec_hash_name((#[trigger] named[i]).0) == h
}

/// What `promote` does to an archive view: moves the entry stored under `h`
/// to the name-indexed part under `name`, after checking that `name` really
/// hashes to `h`, that `h` is still unresolved, and that `name` is not
/// already taken (so the keys of both parts stay unique).
pub open spec fn spec_promote(v: ArchiveV, h: u32, name: Seq<char>) -> Result<
    ArchiveV,
    PromoteError,
> {
    if spec_hash_name(name) != h {
        Err(PromoteError::HashMismatch)
    } else {
        let j = hashed_index(v.hashed, h);
        if j >= 0 {
            if named_index(v.named, name) >= 0 {
                Err(PromoteError::AlreadyNamed)
            } else {
                Ok(
                    ArchiveV {
                        named: v.named.push((name, v.hashed[j].1)),
                        hashed: v.hashed.remove(j),
                    },
                )
            }
        } else {
            if named_hash_present(v.named, h) {
                Err(PromoteError::AlreadyNamed)
            } else {
                Err(PromoteError::NotFound)
            }
        }
    }
}

impl Archive {
    /// The archive's internal consistency: every entry's payload lies inside
    /// the data region, no name and no checksum appears twice, and the entry
    /// count fits the machine.
    pub closed spec fn wf(&self) -> bool {
        &&& forall|i: int|
            0 <= i < self.named@.len() ==> (#[trigger] self.named@[i]).offset
                + self.named@[i].length <= self.data@.len()
        &&& forall|i: int|
            0 <= i < self.hashed@.len() ==> (#[trigger] self.hashed@[i]).offset
                + self.hashed@[i].length <= self.data@.len()
        &&& forall|i: int, j: int|
            0 <= i < j < self.named@.len() ==> (#[trigger] self.named@[i]).name@
                != (#[trigger] self.named@[j]).name@
        &&& forall|i: int, j: int|
            0 <= i < j < self.hashed@.len() ==> (#[trigger] self.hashed@[i]).hash
                != (#[trigger] self.hashed@[j]).hash
        &&& self.named@.len() + self.hashed@.len() <= usize::MAX
    }

    /// A well-formed archive's view has unique names and unique checksums.
    pub proof fn lemma_keys_unique(&self)
        requires
            self.wf(),
        ensures
            view_keys_unique(self@),
    {
    }

    /// Parses a byte source into an archive. Returns exactly what
    /// [`spec_open`] assigns to the bytes: the archive they denote, or the
    /// error the format owes them.
    #[verifier::loop_isolation(false)]
    pub fn open(source: Vec<u8>) -> (r: Result<Archive, ParseError>)
        ensures
            match r {
                Ok(a) => a.wf() && spec_open(source@) == Ok::<ArchiveV, ParseError>(a@),
                Err(e) => spec_open(source@) == Err::<ArchiveV, ParseError>(e),
            },
    {
        let n = source.len();
        if n < 8 {
            return Err(ParseError::InvalidHeader);
        }
        let m0 = source[0];
        let m1 = source[1];
        let m2 = source[2];
        let m3 = source[3];
        proof {
            let s4 = source@.subrange(0, 4);
            assert(s4[0] == source@[0] && s4[1] == source@[1] && s4[2] == source@[2] && s4[3]
                == source@[3]);
            assert(magic()[0] == 0x46u8 && magic()[1] == 0x41u8 && magic()[2] == 0x52u8
                && magic()[3] == 0x43u8);
        }
        if m0 != 0x46 || m1 != 0x41 || m2 != 0x52 || m3 != 0x43 {
            proof {
                assert(source@.subrange(0, 4) != magic());
            }
            return Err(ParseError::InvalidHeader);
        }
        proof {
            assert(source@.subrange(0, 4) =~= magic());
        }
        let count32 = vstd::bytes::u32_from_le_bytes(
            vstd::slice::slice_subrange(source.as_slice(), 4, 8),
        );
        let count = count32 as usize;
        let ghost countn = count32 as nat;

        let mut recs: Vec<RecordE> = Vec::new();
        let mut pos: usize = 8;
        let mut i: usize = 0;
        proof {
            assert(recs_view(recs@) =~= Seq::<RecordV>::empty());
        }
        while i < count
            invariant
                8 <= pos <= n,
                n == source@.len(),
                i <= count,
                count == count32 as usize,
                countn == count32 as nat,
                n >= 8,
                source@.subrange(0, 4) == magic(),
                count32 == vstd::bytes::spec_u32_from_le_bytes(source@.subrange(4, 8)),
                parse_records(source@, 8, i as nat) == Ok::<(Seq<RecordV>, int), ParseError>(
                    (recs_view(recs@), pos as int),
                ),
            decreases count - i,
        {
            let ghost prev = recs_view(recs@);
            let ghost pos0 = pos as int;
            if pos >= n {
                proof {
                    lemma_parse_records_err(
                        source@,
                        8,
                        i as nat,
                        countn,
                        prev,
                        pos0,
                        ParseError::UnexpectedEof,
                    );
                }
                return Err(ParseError::UnexpectedEof);
            }
            let tag = source[pos];
            if tag == 0 {
                if n - pos < 5 {
                    proof {
                        lemma_parse_records_err(
                            source@,
                            8,
                            i as nat,
                            countn,
                            prev,
                            pos0,
                            ParseError::UnexpectedEof,
                        );
                    }
                    return Err(ParseError::UnexpectedEof);
                }
                let nl32 = vstd::bytes::u32_from_le_bytes(
                    vstd::slice::slice_subrange(source.as_slice(), pos + 1, pos + 5),
                );
                if (nl32 as u64) + 13 > (n - pos) as u64 {
                    proof {
                        lemma_parse_records_err(
                            source@,
                            8,
                            i as nat,
                            countn,
                            prev,
                            pos0,
                            ParseError::UnexpectedEof,
                        );
                    }
                    return Err(ParseError::UnexpectedEof);
                }
                let nl = nl32 as usize;
                let name_bytes = vstd::slice::slice_to_vec(
                    vstd::slice::slice_subrange(source.as_slice(), pos + 5, pos + 5 + nl),
                );
                match string_from_utf8(name_bytes) {
                    None => {
                        proof {
                            lemma_parse_records_err(
                                source@,
                                8,
                                i as nat,
                                countn,
                                prev,
                                pos0,
                                ParseError::CorruptEntry,
                            );
                        }
                        return Err(ParseError::CorruptEntry);
                    },
                    Some(name) => {
                        proof {
                            vstd::utf8::encode_utf8_decode_utf8(name@);
                        }
                        let off = vstd::bytes::u32_from_le_bytes(
                            vstd::slice::slice_subrange(source.as_slice(), pos + 5 + nl, pos + 9
                                + nl),
                        );
                        let len = vstd::bytes::u32_from_le_bytes(
                            vstd::slice::slice_subrange(source.as_slice(), pos + 9 + nl, pos + 13
                                + nl),
                        );
                        let re = RecordE::Named { name, off, len };
                        proof {
                            assert(parse_record(source@, pos0) == Ok::<
                                (RecordV, int),
                                ParseError,
                            >((re@, pos0 + 13 + nl32 as int)));
                            lemma_parse_records_snoc(
                                source@,
                                8,
                                i as nat,
                                prev,
                                pos0,
                                re@,
                                pos0 + 13 + nl32 as int,
                            );
                        }
                        recs.push(re);
                        proof {
                            assert(recs_view(recs@) =~= prev.push(recs@.last()@));
                        }
                        pos = pos + 13 + nl;
                    },
                }
            } else if tag == 1 {
                if n - pos < 13 {
                    proof {
                        lemma_parse_records_err(
                            source@,
                            8,
                            i as nat,
                            countn,
                            prev,
                            pos0,
                            ParseError::UnexpectedEof,
                        );
                    }
                    return Err(ParseError::UnexpectedEof);
                }
                let hash = vstd::bytes::u32_from_le_bytes(
                    vstd::slice::slice_subrange(source.as_slice(), pos + 1, pos + 5),
                );
                let off = vstd::bytes::u32_from_le_bytes(
                    vstd::slice::slice_subrange(source.as_slice(), pos + 5, pos + 9),
                );
                let len = vstd::bytes::u32_from_le_bytes(
                    vstd::slice::slice_subrange(source.as_slice(), pos + 9, pos + 13),
                );
                let re = RecordE::Hashed { hash, off, len };
                proof {
                    assert(parse_record(source@, pos0) == Ok::<(RecordV, int), ParseError>(
                        (re@, pos0 + 13),
                    ));
                    lemma_parse_records_snoc(source@, 8, i as nat, prev, pos0, re@, pos0 + 13);
                }
                recs.push(re);
                proof {
                    assert(recs_view(recs@) =~= prev.push(recs@.last()@));
                }
                pos = pos + 13;
            } else {
                proof {
                    lemma_parse_records_err(
                        source@,
                        8,
                        i as nat,
                        countn,
                        prev,
                        pos0,
                        ParseError::CorruptEntry,
                    );
                }
                return Err(ParseError::CorruptEntry);
            }
            i = i + 1;
        }
        let ghost recsv = recs_view(recs@);
        let data = vstd::slice::slice_to_vec(
            vstd::slice::slice_subrange(source.as_slice(), pos, n),
        );
        proof {
            assert(data@ =~= source@.skip(pos as int));
        }
        let dlen = data.len();

        // Every record's payload must lie inside the data region.
        let nrecs = recs.len();
        let mut k: usize = 0;
        while k < nrecs
            invariant
                k <= nrecs,
                nrecs == recs@.len(),
                recsv == recs_view(recs@),
                dlen == data@.len(),
                forall|t: int|
                    0 <= t < k ==> record_off(#[trigger] recsv[t]) + record_len(recsv[t]) <= dlen,
            decreases nrecs - k,
        {
            let (off, len) = match &recs[k] {
                RecordE::Named { off, len, .. } => (*off, *len),
                RecordE::Hashed { off, len, .. } => (*off, *len),
            };
            if (off as u64) + (len as u64) > (dlen as u64) {
                proof {
                    assert(record_off(recsv[k as int]) + record_len(recsv[k as int]) > dlen);
                    assert(!records_in_bounds(recsv, dlen as int));
                }
                return Err(ParseError::CorruptEntry);
            }
            k = k + 1;
        }
        proof {
            assert(records_in_bounds(recsv, dlen as int));
        }

        // No two records may claim the same key.
        let mut a: usize = 0;
        while a < nrecs
            invariant
                a <= nrecs,
                nrecs == recs@.len(),
                recsv == recs_view(recs@),
                forall|i1: int, j1: int|
                    0 <= i1 < a && i1 < j1 < nrecs ==> !same_key(
                        #[trigger] recsv[i1],
                        #[trigger] recsv[j1],
                    ),
            decreases nrecs - a,
        {
            let mut b: usize = a + 1;
            while b < nrecs
                invariant
                    a < b <= nrecs,
                    nrecs == recs@.len(),
                    recsv == recs_view(recs@),
                    forall|j1: int|
                        a < j1 < b ==> !same_key(recsv[a as int], #[trigger] recsv[j1]),
                decreases nrecs - b,
            {
                let dup = match (&recs[a], &recs[b]) {
                    (RecordE::Named { name: n1, .. }, RecordE::Named { name: n2, .. }) => str_eq(
                        n1.as_str(),
                        n2.as_str(),
                    ),
                    (
                        RecordE::Hashed { hash: h1, .. },
                        RecordE::Hashed { hash: h2, .. },
                    ) => *h1 == *h2,
                    _ => false,
                };
                if dup {
                    proof {
                        assert(same_key(recsv[a as int], recsv[b as int]));
                        assert(!record_keys_unique(recsv));
                    }
                    return Err(ParseError::CorruptEntry);
                }
                b = b + 1;
            }
            a = a + 1;
        }
        proof {
            assert(record_keys_unique(recsv));
        }

        // Build the two lookup tables.
        let mut named: Vec<NamedEntry> = Vec::new();
        let mut hashed: Vec<HashedEntry> = Vec::new();
        let mut c: usize = 0;
        while c < nrecs
            invariant
                c <= nrecs,
                nrecs == recs@.len(),
                recsv == recs_view(recs@),
                dlen == data@.len(),
                records_in_bounds(recsv, dlen as int),
                named@.len() + hashed@.len() == c,
                named_view(named@, data@) == named_of(recsv.take(c as int), data@),
                hashed_view(hashed@, data@) == hashed_of(recsv.take(c as int), data@),
                forall|t: int|
                    0 <= t < named@.len() ==> (#[trigger] named@[t]).offset + named@[t].length
                        <= data@.len(),
                forall|t: int|
                    0 <= t < hashed@.len() ==> (#[trigger] hashed@[t]).offset + hashed@[t].length
                        <= data@.len(),
            decreases nrecs - c,
        {
            let ghost prev_named = named_view(named@, data@);
            let ghost prev_hashed = hashed_view(hashed@, data@);
            match &recs[c] {
                RecordE::Named { name, off, len } => {
                    named.push(
                        NamedEntry { name: name.clone(), offset: *off as usize, length: *len as usize },
                    );
                },
                RecordE::Hashed { hash, off, len } => {
                    hashed.push(
                        HashedEntry { hash: *hash, offset: *off as usize, length: *len as usize },
                    );
                },
            }
            proof {
                assert(recsv.take(c + 1).drop_last() =~= recsv.take(c as int));
                assert(recsv.take(c + 1).last() == recsv[c as int]);
                assert(named_view(named@, data@) =~= named_of(recsv.take(c + 1), data@));
                assert(hashed_view(hashed@, data@) =~= hashed_of(recsv.take(c + 1), data@));
            }
            c = c + 1;
        }
        proof {
            assert(recsv.take(nrecs as int) =~= recsv);
        }
        let ar = Archive { named, hashed, data };
        proof {
            lemma_named_of_unique(recsv, ar.data@);
            lemma_hashed_of_unique(recsv, ar.data@);
            assert(forall|i1: int, j1: int|
                0 <= i1 < j1 < ar.named@.len() ==> (#[trigger] ar.named@[i1]).name@
                    != (#[trigger] ar.named@[j1]).name@) by {
                assert(forall|t: int|
                    0 <= t < ar.named@.len() ==> (#[trigger] ar.named@[t]).name@ == ar@.named[t].0);
            }
            assert(forall|i1: int, j1: int|
                0 <= i1 < j1 < ar.hashed@.len() ==> (#[trigger] ar.hashed@[i1]).hash
                    != (#[trigger] ar.hashed@[j1]).hash) by {
                assert(forall|t: int|
                    0 <= t < ar.hashed@.len() ==> (#[trigger] ar.hashed@[t]).hash
                        == ar@.hashed[t].0);
            }
            assert(ar.wf());
        }
        Ok(ar)
    }

    /// How many entries the archive holds, named and unresolved together.
    /// This is always the number of names plus the number of unresolved
    /// checksums: the two parts partition the entries.
    pub fn entry_count(&self) -> (r: usize)
        requires
            self.wf(),
        ensures
            r as int == spec_entry_count(self@),
    {
        self.named.len() + self.hashed.len()
    }

    /// How many entries still lack a name.
    pub fn unresolved_count(&self) -> (r: usize)
        ensures
            r as int == self@.hashed.len(),
    {
        self.hashed.len()
    }

    /// The names of the name-indexed entries, in index order.
    #[verifier::loop_isolation(false)]
    pub fn names(&self) -> (r: Vec<String>)
        ensures
            r@.len() == self@.named.len(),
            forall|i: int| 0 <= i < r@.len() ==> (#[trigger] r@[i])@ == self@.named[i].0,
    {
        let n = self.named.len();
        let mut out: Vec<String> = Vec::new();
        let mut i: usize = 0;
        while i < n
            invariant
                i <= n,
                out@.len() == i,
                forall|k: int| 0 <= k < i ==> (#[trigger] out@[k])@ == self@.named[k].0,
            decreases n - i,
        {
            out.push(self.named[i].name.clone());
            i = i + 1;
        }
        out
    }

    /// The checksums of the entries whose names are still unknown, in index
    /// order.
    #[verifier::loop_isolation(false)]
    pub fn unresolved_hashes(&self) -> (r: Vec<u32>)
        ensures
            r@.len() == self@.hashed.len(),
            forall|i: int| 0 <= i < r@.len() ==> r@[i] == (#[trigger] self@.hashed[i]).0,
    {
        let n = self.hashed.len();
        let mut out: Vec<u32> = Vec::new();
        let mut i: usize = 0;
        while i < n
            invariant
                i <= n,
                out@.len() == i,
                forall|k: int| 0 <= k < i ==> out@[k] == (#[trigger] self@.hashed[k]).0,
            decreases n - i,
        {
            out.push(self.hashed[i].hash);
            i = i + 1;
        }
        out
    }

    /// The position of `name` in the name-indexed part, or the part's length
    /// when the name is absent.
    #[verifier::loop_isolation(false)]
    fn find_named(&self, name: &str) -> (r: usize)
        ensures
            r <= self@.named.len(),
            r < self@.named.len() ==> named_index(self@.named, name@) == r as int && self@.named[
                r as int
            ].0 == name@,
            r == self@.named.len() ==> named_index(self@.named, name@) == -1 && forall|k: int|
                0 <= k < self@.named.len() ==> (#[trigger] self@.named[k]).0 != name@,
    {
        let n = self.named.len();
        let mut i: usize = 0;
        while i < n
            invariant
                i <= n,
                forall|k: int| 0 <= k < i ==> (#[trigger] self@.named[k]).0 != name@,
            decreases n - i,
        {
            if str_eq(self.named[i].name.as_str(), name) {
                proof {
                    lemma_named_index_found(self@.named, name@, i as int);
                }
                return i;
            }
            i = i + 1;
        }
        proof {
            lemma_named_index_none(self@.named, name@);
        }
        n
    }

    /// The position of `hash` in the hash-indexed part, or the part's length
    /// when the checksum is absent.
    #[verifier::loop_isolation(false)]
    fn find_hashed(&self, hash: u32) -> (r: usize)
        ensures
            r <= self@.hashed.len(),
            r < self@.hashed.len() ==> hashed_index(self@.hashed, hash) == r as int
                && self@.hashed[r as int].0 == hash,
            r == self@.hashed.len() ==> hashed_index(self@.hashed, hash) == -1 && forall|k: int|
                0 <= k < self@.hashed.len() ==> (#[trigger] self@.hashed[k]).0 != hash,
    {
        let n = self.hashed.len();
        let mut i: usize = 0;
        while i < n
            invariant
                i <= n,
                forall|k: int| 0 <= k < i ==> (#[trigger] self@.hashed[k]).0 != hash,
            decreases n - i,
        {
            if self.hashed[i].hash == hash {
                proof {
                    lemma_hashed_index_found(self@.hashed, hash, i as int);
                }
                return i;
            }
            i = i + 1;
        }
        proof {
            lemma_hashed_index_none(self@.hashed, hash);
        }
        n
    }

    /// Whether some name-indexed entry's name hashes to `hash`.
    #[verifier::loop_isolation(false)]
    fn any_name_hashes_to(&self, hash: u32) -> (r: bool)
        ensures
            r == named_hash_present(self@.named, hash),
    {
        let n = self.named.len();
        let mut i: usize = 0;
        while i < n
            invariant
                i <= n,
                forall|k: int|
                    0 <= k < i ==> spec_hash_name((#[trigger] self@.named[k]).0) != hash,
            decreases n - i,
        {
            if hash_name(self.named[i].name.as_str()) == hash {
                proof {
                    assert(spec_hash_name(self@.named[i as int].0) == hash);
                }
                return true;
            }
            i = i + 1;
        }
        false
    }

    /// The payload of the entry stored under `name`: exactly its `length`
    /// bytes of the data region, or `NotFound` when no entry has that name.
    pub fn open_named(&self, name: &str) -> (r: Result<Vec<u8>, LookupError>)
        requires
            self.wf(),
        ensures
            match r {
                Ok(content) => named_index(self@.named, name@) >= 0 && content@ == self@.named[
                    named_index(self@.named, name@)
                ].1,
                Err(LookupError::NotFound) => named_index(self@.named, name@) == -1,
            },
    {
        let i = self.find_named(name);
        if i < self.named.len() {
            let dl = self.data.len();
            proof {
                assert(self.named@[i as int].offset + self.named@[i as int].length <= dl);
            }
            let off = self.named[i].offset;
            let len = self.named[i].length;
            let bytes = vstd::slice::slice_to_vec(
                vstd::slice::slice_subrange(self.data.as_slice(), off, off + len),
            );
            proof {
                assert(bytes@ =~= self@.named[i as int].1);
            }
            Ok(bytes)
        } else {
            Err(LookupError::NotFound)
        }
    }

    /// The payload of the entry stored under `hash`, or `NotFound` when no
    /// entry carries that checksum.
    pub fn open_hashed(&self, hash: u32) -> (r: Result<Vec<u8>, LookupError>)
        requires
            self.wf(),
        ensures
            match r {
                Ok(content) => hashed_index(self@.hashed, hash) >= 0 && content@ == self@.hashed[
                    hashed_index(self@.hashed, hash)
                ].1,
                Err(LookupError::NotFound) => hashed_index(self@.hashed, hash) == -1,
            },
    {
        let i = self.find_hashed(hash);
        if i < self.hashed.len() {
            let dl = self.data.len();
            proof {
                assert(self.hashed@[i as int].offset + self.hashed@[i as int].length <= dl);
            }
            let off = self.hashed[i].offset;
            let len = self.hashed[i].length;
            let bytes = vstd::slice::slice_to_vec(
                vstd::slice::slice_subrange(self.data.as_slice(), off, off + len),
            );
            proof {
                assert(bytes@ =~= self@.hashed[i as int].1);
            }
            Ok(bytes)
        } else {
            Err(LookupError::NotFound)
        }
    }

    /// Moves the entry stored under `hash` into the name-indexed part under
    /// `name`, after verifying that `name` really hashes to `hash`. On
    /// success the name is thereafter listed and the checksum no longer is;
    /// a promotion is never silently mislabelling: a name that does not
    /// hash to `hash` is refused with `HashMismatch`, whatever the state.
    pub fn promote(&mut self, hash: u32, name: &str) -> (r: Result<(), PromoteError>)
        requires
            old(self).wf(),
        ensures
            final(self).wf(),
            match r {
                Ok(_) => spec_promote(old(self)@, hash, name@) == Ok::<ArchiveV, PromoteError>(
                    final(self)@,
                ),
                Err(e) => final(self)@ == old(self)@ && spec_promote(old(self)@, hash, name@)
                    == Err::<ArchiveV, PromoteError>(e),
            },
            r is Ok ==> spec_hash_name(name@) == hash,
            r is Ok ==> exists|i: int|
                0 <= i < final(self)@.named.len() && (#[trigger] final(self)@.named[i]).0
                    == name@,
            r is Ok ==> forall|j: int|
                0 <= j < final(self)@.hashed.len() ==> (#[trigger] final(self)@.hashed[j]).0
                    != hash,
            r is Ok ==> final(self)@.hashed.len() == old(self)@.hashed.len() - 1
                && final(self)@.named.len() == old(self)@.named.len() + 1,
    {
        let h = hash_name(name);
        if h != hash {
            return Err(PromoteError::HashMismatch);
        }
        let j = self.find_hashed(hash);
        if j < self.hashed.len() {
            let ni = self.find_named(name);
            if ni < self.named.len() {
                return Err(PromoteError::AlreadyNamed);
            }
            let ghost oldv = self@;
            proof {
                assert(self.hashed@[j as int].offset + self.hashed@[j as int].length
                    <= self.data@.len());
            }
            let off = self.hashed[j].offset;
            let len = self.hashed[j].length;
            self.named.push(NamedEntry { name: name.to_owned(), offset: off, length: len });
            self.hashed.remove(j);
            proof {
                let on = old(self).named@;
                let oh = old(self).hashed@;
                assert(forall|t: int| 0 <= t < on.len() ==> self.named@[t] == on[t]);
                assert(self.named@[on.len() as int].name@ == name@);
                assert(forall|t: int|
                    0 <= t < self.hashed@.len() ==> #[trigger] self.hashed@[t] == (if t
                        < j as int {
                        oh[t]
                    } else {
                        oh[t + 1]
                    }));
                // the two parts of the view, after the move
                assert(self@.named =~= oldv.named.push((name@, oldv.hashed[j as int].1)));
                assert(self@.hashed =~= oldv.hashed.remove(j as int));
                // no other entry carried this checksum
                assert(forall|t: int|
                    0 <= t < oh.len() && t != j as int ==> (#[trigger] oh[t]).hash != hash) by {
                    assert(oh[j as int].hash == hash);
                }
                // well-formedness is preserved
                assert forall|t: int| 0 <= t < on.len() implies (#[trigger] on[t]).name@
                    != name@ by {
                    assert(oldv.named[t].0 == on[t].name@);
                }
                assert(self.wf());
                assert(exists|i: int|
                    0 <= i < self@.named.len() && (#[trigger] self@.named[i]).0 == name@) by {
                    assert(self@.named[self@.named.len() - 1].0 == name@);
                }
                assert(forall|t: int|
                    0 <= t < self@.hashed.len() ==> (#[trigger] self@.hashed[t]).0 != hash);
            }
            Ok(())
        } else {
            if self.any_name_hashes_to(hash) {
                Err(PromoteError::AlreadyNamed)
            } else {
                Err(PromoteError::NotFound)
            }
        }
    }
}

/// Index partition: an archive accounts for every entry exactly once —
/// the entry count equals the number of named entries plus the number of
/// unresolved checksums, in every state an archive can be in.
pub proof fn lemma_index_partition(v: ArchiveV)
    ensures
        spec_entry_count(v) == v.named.len() + v.hashed.len(),
{
}

} // verus!
