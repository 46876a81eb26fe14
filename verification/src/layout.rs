//! The byte layout of an archive, and the mathematical model that the
//! reader and the writer are both proved against.
//!
//! An archive is laid out as:
//!
//! - a four-byte magic value, then the entry count as a little-endian `u32`;
//! - one index record per entry. A record opens with a tag byte: `0` for an
//!   entry stored under its literal name, `1` for an entry stored under the
//!   32-bit checksum of its (unrecorded) name. A named record carries the
//!   byte length of the UTF-8 name as a `u32`, the name bytes, then data
//!   offset and data length as `u32`s; a hashed record carries the checksum,
//!   then offset and length. All integers are little-endian.
//! - the data region: the entries' payloads, concatenated. Offsets are
//!   relative to the start of the data region, which begins immediately
//!   after the last index record.
//!
//! [`spec_open`] is the parser at the specification level: it maps a byte
//! sequence to the archive view it denotes, or to the exact [`ParseError`]
//! the reader owes. [`spec_encode`] is the serializer at the specification
//! level. The executable reader and writer are verified against these two
//! functions.

use vstd::bytes::{spec_u32_from_le_bytes, spec_u32_to_le_bytes};
use vstd::prelude::*;
use vstd::utf8::{decode_utf8, encode_utf8, valid_utf8};

use crate::checksum::spec_hash_name;

verus! {

/// Why a byte source is not an archive.
#[derive(Clone, Copy, Debug, PartialEq, Eq, Structural)]
pub enum ParseError {
    /// The magic value or the header itself is missing.
    InvalidHeader,
    /// The declared entry count or a record's declared size runs past the
    /// end of the available bytes.
    UnexpectedEof,
    /// An index record is malformed: an unknown tag, a name that is not
    /// UTF-8, a duplicate name or checksum, or an offset/length pair that
    /// falls outside the data region.
    CorruptEntry,
}

/// What a parsed archive holds: the name-indexed entries and the hash-indexed
/// entries, each as identifier and payload bytes, in index order.
pub ghost struct ArchiveV {
    pub named: Seq<(Seq<char>, Seq<u8>)>,
    pub hashed: Seq<(u32, Seq<u8>)>,
}

/// One index record, before the data region is cut up.
pub ghost enum RecordV {
    Named { name: Seq<char>, off: u32, len: u32 },
    Hashed { hash: u32, off: u32, len: u32 },
}

/// The magic value that opens every archive.
pub open spec fn magic() -> Seq<u8> {
    seq![0x46u8, 0x41u8, 0x52u8, 0x43u8]
}

/// Parses the index record that starts at `pos`, giving the record and the
/// position just past it.
pub open spec fn parse_record(bytes: Seq<u8>, pos: int) -> Result<(RecordV, int), ParseError> {
    if pos + 1 > bytes.len() {
        Err(ParseError::UnexpectedEof)
    } else if bytes[pos] == 0u8 {
        if pos + 5 > bytes.len() {
            Err(ParseError::UnexpectedEof)
        } else {
            let nl = spec_u32_from_le_bytes(bytes.subrange(pos + 1, pos + 5)) as int;
            if pos + 13 + nl > bytes.len() {
                Err(ParseError::UnexpectedEof)
            } else {
                let nb = bytes.subrange(pos + 5, pos + 5 + nl);
                if !valid_utf8(nb) {
                    Err(ParseError::CorruptEntry)
                } else {
                    let off = spec_u32_from_le_bytes(bytes.subrange(pos + 5 + nl, pos + 9 + nl));
                    let len = spec_u32_from_le_bytes(bytes.subrange(pos + 9 + nl, pos + 13 + nl));
                    Ok((RecordV::Named { name: decode_utf8(nb), off, len }, pos + 13 + nl))
                }
            }
        }
    } else if bytes[pos] == 1u8 {
        if pos + 13 > bytes.len() {
            Err(ParseError::UnexpectedEof)
        } else {
            let hash = spec_u32_from_le_bytes(bytes.subrange(pos + 1, pos + 5));
            let off = spec_u32_from_le_bytes(bytes.subrange(pos + 5, pos + 9));
            let len = spec_u32_from_le_bytes(bytes.subrange(pos + 9, pos + 13));
            Ok((RecordV::Hashed { hash, off, len }, pos + 13))
        }
    } else {
        Err(ParseError::CorruptEntry)
    }
}

/// Parses `n` index records starting at `pos`.
pub open spec fn parse_records(bytes: Seq<u8>, pos: int, n: nat) -> Result<
    (Seq<RecordV>, int),
    ParseError,
>
    decreases n,
{
    if n == 0 {
        Ok((Seq::empty(), pos))
    } else {
        match parse_record(bytes, pos) {
            Err(e) => Err(e),
            Ok((r, p2)) => match parse_records(bytes, p2, (n - 1) as nat) {
                Err(e) => Err(e),
                Ok((rs, p3)) => Ok((seq![r] + rs, p3)),
            },
        }
    }
}

/// The record's data offset.
pub open spec fn record_off(r: RecordV) -> u32 {
    match r {
        RecordV::Named { off, .. } => off,
        RecordV::Hashed { off, .. } => off,
    }
}

/// The record's data length.
pub open spec fn record_len(r: RecordV) -> u32 {
    match r {
        RecordV::Named { len, .. } => len,
        RecordV::Hashed { len, .. } => len,
    }
}

/// Every record's payload lies inside a data region of `data_len` bytes.
pub open spec fn records_in_bounds(recs: Seq<RecordV>, data_len: int) -> bool {
    forall|i: int|
        0 <= i < recs.len() ==> record_off(#[trigger] recs[i]) + record_len(recs[i]) <= data_len
}

/// Two records claim the same key: the same name, or the same checksum.
pub open spec fn same_key(a: RecordV, b: RecordV) -> bool {
    match (a, b) {
        (RecordV::Named { name: n1, .. }, RecordV::Named { name: n2, .. }) => n1 == n2,
        (RecordV::Hashed { hash: h1, .. }, RecordV::Hashed { hash: h2, .. }) => h1 == h2,
        _ => false,
    }
}

/// No two records claim the same key.
pub open spec fn record_keys_unique(recs: Seq<RecordV>) -> bool {
    forall|i: int, j: int|
        0 <= i < j < recs.len() ==> !same_key(#[trigger] recs[i], #[trigger] recs[j])
}

/// The name-indexed entries of the given records, in order, with their
/// payloads cut out of `data`.
pub open spec fn named_of(recs: Seq<RecordV>, data: Seq<u8>) -> Seq<(Seq<char>, Seq<u8>)>
    decreases recs.len(),
{
    if recs.len() == 0 {
        Seq::empty()
    } else {
        let rest = named_of(recs.drop_last(), data);
        match recs.last() {
            RecordV::Named { name, off, len } => rest.push(
                (name, data.subrange(off as int, off + len)),
            ),
            RecordV::Hashed { .. } => rest,
        }
    }
}

/// The hash-indexed entries of the given records, in order, with their
/// payloads cut out of `data`.
pub open spec fn hashed_of(recs: Seq<RecordV>, data: Seq<u8>) -> Seq<(u32, Seq<u8>)>
    decreases recs.len(),
{
    if recs.len() == 0 {
        Seq::empty()
    } else {
        let rest = hashed_of(recs.drop_last(), data);
        match recs.last() {
            RecordV::Named { .. } => rest,
            RecordV::Hashed { hash, off, len } => rest.push(
                (hash, data.subrange(off as int, off + len)),
            ),
        }
    }
}

/// What opening a byte source yields: the archive it denotes, or the exact
/// error the reader reports.
pub open spec fn spec_open(bytes: Seq<u8>) -> Result<ArchiveV, ParseError> {
    if bytes.len() < 8 || bytes.subrange(0, 4) != magic() {
        Err(ParseError::InvalidHeader)
    } else {
        let count = spec_u32_from_le_bytes(bytes.subrange(4, 8));
        match parse_records(bytes, 8, count as nat) {
            Err(e) => Err(e),
            Ok((recs, end)) => {
                let data = bytes.skip(end);
                if !records_in_bounds(recs, data.len() as int) || !record_keys_unique(recs) {
                    Err(ParseError::CorruptEntry)
                } else {
                    Ok(ArchiveV { named: named_of(recs, data), hashed: hashed_of(recs, data) })
                }
            },
        }
    }
}

/// An entry's identifier: a literal name, or the 32-bit checksum that stands
/// for a name the archive does not record.
pub ghost enum IdentV {
    Named(Seq<char>),
    Hashed(u32),
}

/// A pending writer entry: an identifier and the payload it will store.
pub ghost struct PendingV {
    pub ident: IdentV,
    pub payload: Seq<u8>,
}

/// The checksum under which an identifier is stored on disk: a hashed
/// identifier is its own key, a named identifier collides with exactly the
/// names and checksums its own checksum collides with.
pub open spec fn ident_hash(id: IdentV) -> u32 {
    match id {
        IdentV::Named(name) => spec_hash_name(name),
        IdentV::Hashed(h) => h,
    }
}

/// No two pending entries may share a final identifier: not the same name
/// twice, not the same checksum twice, and not a name whose checksum equals
/// another entry's checksum.
pub open spec fn idents_unique(pending: Seq<PendingV>) -> bool {
    forall|i: int, j: int|
        0 <= i < j < pending.len() ==> ident_hash(#[trigger] pending[i].ident) != ident_hash(
            #[trigger] pending[j].ident,
        )
}

/// The data region: all payloads, concatenated in entry order.
pub open spec fn payloads_concat(pending: Seq<PendingV>) -> Seq<u8>
    decreases pending.len(),
{
    if pending.len() == 0 {
        Seq::empty()
    } else {
        payloads_concat(pending.drop_last()) + pending.last().payload
    }
}

/// The index record of one pending entry, placed at data offset `off`.
pub open spec fn record_of(p: PendingV, off: u32) -> RecordV {
    match p.ident {
        IdentV::Named(name) => RecordV::Named { name, off, len: p.payload.len() as u32 },
        IdentV::Hashed(h) => RecordV::Hashed { hash: h, off, len: p.payload.len() as u32 },
    }
}

/// The bytes of one index record.
pub open spec fn enc_record(r: RecordV) -> Seq<u8> {
    match r {
        RecordV::Named { name, off, len } => seq![0u8] + spec_u32_to_le_bytes(
            encode_utf8(name).len() as u32,
        ) + encode_utf8(name) + spec_u32_to_le_bytes(off) + spec_u32_to_le_bytes(len),
        RecordV::Hashed { hash, off, len } => seq![1u8] + spec_u32_to_le_bytes(hash)
            + spec_u32_to_le_bytes(off) + spec_u32_to_le_bytes(len),
    }
}

/// The whole index region: the records of all pending entries, each placed
/// at the offset where its payload will start.
pub open spec fn records_concat(pending: Seq<PendingV>) -> Seq<u8>
    decreases pending.len(),
{
    if pending.len() == 0 {
        Seq::empty()
    } else {
        records_concat(pending.drop_last()) + enc_record(
            record_of(pending.last(), payloads_concat(pending.drop_last()).len() as u32),
        )
    }
}

/// The sizes the on-disk `u32` fields must carry: the entry count, every
/// name's UTF-8 length, and the whole data region.
pub open spec fn encodable(pending: Seq<PendingV>) -> bool {
    &&& pending.len() <= u32::MAX
    &&& forall|i: int|
        0 <= i < pending.len() ==> match (#[trigger] pending[i]).ident {
            IdentV::Named(name) => encode_utf8(name).len() <= u32::MAX,
            IdentV::Hashed(_) => true,
        }
    &&& payloads_concat(pending).len() <= u32::MAX
}

/// What serializing the pending entries yields: header, index, data region.
pub open spec fn spec_encode(pending: Seq<PendingV>) -> Seq<u8> {
    magic() + spec_u32_to_le_bytes(pending.len() as u32) + records_concat(pending)
        + payloads_concat(pending)
}

/// The index records that serialization writes for the pending entries:
/// one per entry, each at the offset where its payload will start.
pub open spec fn records_of(pending: Seq<PendingV>) -> Seq<RecordV>
    decreases pending.len(),
{
    if pending.len() == 0 {
        Seq::empty()
    } else {
        records_of(pending.drop_last()).push(
            record_of(pending.last(), payloads_concat(pending.drop_last()).len() as u32),
        )
    }
}

/// The name-indexed entries a round trip owes: the named pending entries,
/// in order, with their payloads.
pub open spec fn pending_named(pending: Seq<PendingV>) -> Seq<(Seq<char>, Seq<u8>)>
    decreases pending.len(),
{
    if pending.len() == 0 {
        Seq::empty()
    } else {
        let rest = pending_named(pending.drop_last());
        match pending.last().ident {
            IdentV::Named(name) => rest.push((name, pending.last().payload)),
            IdentV::Hashed(_) => rest,
        }
    }
}

/// The hash-indexed entries a round trip owes: the hashed pending entries,
/// in order, with their payloads.
pub open spec fn pending_hashed(pending: Seq<PendingV>) -> Seq<(u32, Seq<u8>)>
    decreases pending.len(),
{
    if pending.len() == 0 {
        Seq::empty()
    } else {
        let rest = pending_hashed(pending.drop_last());
        match pending.last().ident {
            IdentV::Named(_) => rest,
            IdentV::Hashed(h) => rest.push((h, pending.last().payload)),
        }
    }
}

/// A prefix of the pending entries never carries more payload bytes than
/// the whole sequence.
pub proof fn lemma_payloads_concat_len_mono(pending: Seq<PendingV>, i: int)
    requires
        0 <= i <= pending.len(),
    ensures
        payloads_concat(pending.take(i)).len() <= payloads_concat(pending).len(),
    decreases pending.len(),
{
    if i == pending.len() {
        assert(pending.take(i) =~= pending);
    } else {
        assert(pending.take(i) =~= pending.drop_last().take(i));
        lemma_payloads_concat_len_mono(pending.drop_last(), i);
    }
}

/// The payloads of a prefix of the entries are a prefix of the whole data
/// region.
pub proof fn lemma_payloads_concat_prefix(pending: Seq<PendingV>, i: int)
    requires
        0 <= i <= pending.len(),
    ensures
        payloads_concat(pending.take(i)).len() <= payloads_concat(pending).len(),
        forall|k: int|
            0 <= k < payloads_concat(pending.take(i)).len() ==> payloads_concat(pending.take(i))[k]
                == payloads_concat(pending)[k],
    decreases pending.len(),
{
    lemma_payloads_concat_len_mono(pending, i);
    if i == pending.len() {
        assert(pending.take(i) =~= pending);
    } else {
        assert(pending.take(i) =~= pending.drop_last().take(i));
        lemma_payloads_concat_prefix(pending.drop_last(), i);
    }
}

/// The records of a prefix of the entries are a prefix of the whole index
/// region.
pub proof fn lemma_records_concat_prefix(pending: Seq<PendingV>, i: int)
    requires
        0 <= i <= pending.len(),
    ensures
        records_concat(pending.take(i)).len() <= records_concat(pending).len(),
        forall|k: int|
            0 <= k < records_concat(pending.take(i)).len() ==> records_concat(pending.take(i))[k]
                == records_concat(pending)[k],
    decreases pending.len(),
{
    if i == pending.len() {
        assert(pending.take(i) =~= pending);
    } else {
        assert(pending.take(i) =~= pending.drop_last().take(i));
        lemma_records_concat_prefix(pending.drop_last(), i);
    }
}

/// `records_of` writes one record per entry.
pub proof fn lemma_records_of_len(pending: Seq<PendingV>)
    ensures
        records_of(pending).len() == pending.len(),
    decreases pending.len(),
{
    if pending.len() > 0 {
        lemma_records_of_len(pending.drop_last());
    }
}

/// The record of entry `i` carries the entry's identifier, the length of
/// its payload, and the offset where the payloads before it end.
pub proof fn lemma_records_of_index(pending: Seq<PendingV>, i: int)
    requires
        0 <= i < pending.len(),
    ensures
        records_of(pending).len() == pending.len(),
        records_of(pending)[i] == record_of(
            pending[i],
            payloads_concat(pending.take(i)).len() as u32,
        ),
    decreases pending.len(),
{
    lemma_records_of_len(pending);
    if i == pending.len() - 1 {
        assert(pending.take(i) =~= pending.drop_last());
    } else {
        lemma_records_of_index(pending.drop_last(), i);
        assert(pending.drop_last().take(i) =~= pending.take(i));
    }
}

/// One field of an encoded record, read back out of the longer byte
/// sequence the record was copied into.
proof fn lemma_window_piece(bytes: Seq<u8>, pos: int, enc: Seq<u8>, a: int, piece: Seq<u8>, s: int, e: int)
    requires
        0 <= pos,
        pos + enc.len() <= bytes.len(),
        forall|k: int| 0 <= k < enc.len() ==> bytes[pos + k] == enc[k],
        0 <= a,
        a + piece.len() <= enc.len(),
        forall|k: int| 0 <= k < piece.len() ==> enc[a + k] == piece[k],
        s == pos + a,
        e == s + piece.len(),
    ensures
        bytes.subrange(s, e) == piece,
{
    assert forall|k: int| 0 <= k < piece.len() implies bytes.subrange(s, e)[k] == piece[k] by {
        assert(bytes[pos + (a + k)] == enc[a + k]);
        assert(bytes.subrange(s, e)[k] == bytes[s + k]);
        assert(s + k == pos + (a + k));
    }
    assert(bytes.subrange(s, e) =~= piece);
}

/// A record encoded at `pos` inside a longer byte sequence parses back to
/// itself, ending just past its own bytes.
pub proof fn lemma_parse_record_window(bytes: Seq<u8>, pos: int, r: RecordV)
    requires
        0 <= pos,
        pos + enc_record(r).len() <= bytes.len(),
        forall|k: int| 0 <= k < enc_record(r).len() ==> bytes[pos + k] == enc_record(r)[k],
        r matches RecordV::Named { name, .. } ==> encode_utf8(name).len() <= u32::MAX,
    ensures
        parse_record(bytes, pos) == Ok::<(RecordV, int), ParseError>(
            (r, pos + enc_record(r).len()),
        ),
{
    vstd::bytes::lemma_auto_spec_u32_to_from_le_bytes();
    let enc = enc_record(r);
    match r {
        RecordV::Named { name, off, len } => {
            let nb = encode_utf8(name);
            let nl = nb.len() as u32;
            let p1 = spec_u32_to_le_bytes(nl);
            let p3 = spec_u32_to_le_bytes(off);
            let p4 = spec_u32_to_le_bytes(len);
            assert(p1.len() == 4 && p3.len() == 4 && p4.len() == 4);
            assert(enc == seq![0u8] + p1 + nb + p3 + p4);
            assert(enc.len() == 13 + nb.len());
            assert(enc[0] == 0u8);
            assert(bytes[pos + 0] == enc[0]);
            assert(bytes[pos] == 0u8);
            assert forall|k: int| 0 <= k < 4 implies enc[1 + k] == p1[k] by {}
            assert forall|k: int| 0 <= k < nb.len() implies enc[5 + k] == nb[k] by {}
            assert forall|k: int| 0 <= k < 4 implies enc[5 + nb.len() + k] == p3[k] by {}
            assert forall|k: int| 0 <= k < 4 implies enc[9 + nb.len() + k] == p4[k] by {}
            lemma_window_piece(bytes, pos, enc, 1, p1, pos + 1, pos + 5);
            assert(spec_u32_from_le_bytes(bytes.subrange(pos + 1, pos + 5)) == nl);
            let nli = nl as int;
            assert(nli == nb.len());
            lemma_window_piece(bytes, pos, enc, 5, nb, pos + 5, pos + 5 + nli);
            vstd::utf8::encode_utf8_valid_utf8(name);
            vstd::utf8::encode_utf8_decode_utf8(name);
            assert(valid_utf8(bytes.subrange(pos + 5, pos + 5 + nli)));
            assert(decode_utf8(bytes.subrange(pos + 5, pos + 5 + nli)) == name);
            lemma_window_piece(
                bytes,
                pos,
                enc,
                5 + nb.len() as int,
                p3,
                pos + 5 + nli,
                pos + 9 + nli,
            );
            lemma_window_piece(
                bytes,
                pos,
                enc,
                9 + nb.len() as int,
                p4,
                pos + 9 + nli,
                pos + 13 + nli,
            );
            assert(spec_u32_from_le_bytes(bytes.subrange(pos + 5 + nli, pos + 9 + nli)) == off);
            assert(spec_u32_from_le_bytes(bytes.subrange(pos + 9 + nli, pos + 13 + nli)) == len);
        },
        RecordV::Hashed { hash, off, len } => {
            let p1 = spec_u32_to_le_bytes(hash);
            let p2 = spec_u32_to_le_bytes(off);
            let p3 = spec_u32_to_le_bytes(len);
            assert(p1.len() == 4 && p2.len() == 4 && p3.len() == 4);
            assert(enc == seq![1u8] + p1 + p2 + p3);
            assert(enc.len() == 13);
            assert(enc[0] == 1u8);
            assert(bytes[pos + 0] == enc[0]);
            assert(bytes[pos] == 1u8);
            assert forall|k: int| 0 <= k < 4 implies enc[1 + k] == p1[k] by {}
            assert forall|k: int| 0 <= k < 4 implies enc[5 + k] == p2[k] by {}
            assert forall|k: int| 0 <= k < 4 implies enc[9 + k] == p3[k] by {}
            lemma_window_piece(bytes, pos, enc, 1, p1, pos + 1, pos + 5);
            lemma_window_piece(bytes, pos, enc, 5, p2, pos + 5, pos + 9);
            lemma_window_piece(bytes, pos, enc, 9, p3, pos + 9, pos + 13);
            assert(spec_u32_from_le_bytes(bytes.subrange(pos + 1, pos + 5)) == hash);
            assert(spec_u32_from_le_bytes(bytes.subrange(pos + 5, pos + 9)) == off);
            assert(spec_u32_from_le_bytes(bytes.subrange(pos + 9, pos + 13)) == len);
        },
    }
}

/// Parsing the first `i` records of an encoded archive yields exactly the
/// records of the first `i` entries, ending where the next record starts.
pub proof fn lemma_parse_encode_records(pending: Seq<PendingV>, i: int)
    requires
        0 <= i <= pending.len(),
        encodable(pending),
    ensures
        parse_records(spec_encode(pending), 8, i as nat) == Ok::<(Seq<RecordV>, int), ParseError>(
            (records_of(pending.take(i)), 8 + records_concat(pending.take(i)).len() as int),
        ),
    decreases i,
{
    let bytes = spec_encode(pending);
    vstd::bytes::lemma_auto_spec_u32_to_from_le_bytes();
    assert(magic().len() == 4);
    assert(bytes.len() == 8 + records_concat(pending).len() + payloads_concat(pending).len());
    if i == 0 {
        assert(pending.take(0) =~= Seq::<PendingV>::empty());
    } else {
        lemma_parse_encode_records(pending, i - 1);
        let prev = pending.take(i - 1);
        let cur = pending.take(i);
        assert(cur.drop_last() =~= prev);
        assert(cur.last() == pending[i - 1]);
        lemma_payloads_concat_len_mono(pending, i - 1);
        let off = payloads_concat(prev).len();
        let r = record_of(pending[i - 1], off as u32);
        assert(records_concat(cur) == records_concat(prev) + enc_record(r));
        let pos: int = 8 + records_concat(prev).len() as int;
        lemma_records_concat_prefix(pending, i);
        assert forall|k: int| 0 <= k < enc_record(r).len() implies bytes[pos + k] == enc_record(
            r,
        )[k] by {
            let t = records_concat(prev).len() + k;
            assert(records_concat(cur)[t] == enc_record(r)[k]);
            assert(records_concat(cur)[t] == records_concat(pending)[t]);
            assert(bytes[8 + t] == records_concat(pending)[t]);
        }
        assert(r matches RecordV::Named { name, .. } ==> encode_utf8(name).len() <= u32::MAX) by {
            assert(match pending[i - 1].ident {
                IdentV::Named(name) => encode_utf8(name).len() <= u32::MAX,
                IdentV::Hashed(_) => true,
            });
        }
        lemma_parse_record_window(bytes, pos, r);
        lemma_parse_records_snoc(
            bytes,
            8,
            (i - 1) as nat,
            records_of(prev),
            pos,
            r,
            pos + enc_record(r).len(),
        );
        assert(records_of(cur) == records_of(prev).push(r));
    }
}

/// The payload bytes of entry `i`, cut back out of the whole data region.
pub proof fn lemma_payload_slice(pending: Seq<PendingV>, i: int)
    requires
        0 <= i < pending.len(),
    ensures
        payloads_concat(pending.take(i + 1)).len() == payloads_concat(pending.take(i)).len()
            + pending[i].payload.len(),
        payloads_concat(pending).subrange(
            payloads_concat(pending.take(i)).len() as int,
            payloads_concat(pending.take(i)).len() + pending[i].payload.len() as int,
        ) == pending[i].payload,
{
    let prev = pending.take(i);
    let cur = pending.take(i + 1);
    assert(cur.drop_last() =~= prev);
    assert(cur.last() == pending[i]);
    lemma_payloads_concat_prefix(pending, i + 1);
    let off: int = payloads_concat(prev).len() as int;
    assert(payloads_concat(pending).subrange(off, off + pending[i].payload.len() as int)
        =~= pending[i].payload) by {
        assert(forall|k: int|
            0 <= k < pending[i].payload.len() ==> payloads_concat(cur)[off + k] == pending[
                i
            ].payload[k]);
    }
}

/// The name-indexed and hash-indexed entries that the encoded records
/// denote are exactly the named and hashed pending entries.
pub proof fn lemma_entries_of_encode(pending: Seq<PendingV>, i: int)
    requires
        0 <= i <= pending.len(),
        encodable(pending),
    ensures
        named_of(records_of(pending.take(i)), payloads_concat(pending)) == pending_named(
            pending.take(i),
        ),
        hashed_of(records_of(pending.take(i)), payloads_concat(pending)) == pending_hashed(
            pending.take(i),
        ),
    decreases i,
{
    if i == 0 {
        assert(pending.take(0) =~= Seq::<PendingV>::empty());
    } else {
        lemma_entries_of_encode(pending, i - 1);
        let prev = pending.take(i - 1);
        let cur = pending.take(i);
        assert(cur.drop_last() =~= prev);
        assert(cur.last() == pending[i - 1]);
        let off = payloads_concat(prev).len();
        let plen = pending[i - 1].payload.len();
        lemma_payloads_concat_len_mono(pending, i);
        lemma_payload_slice(pending, i - 1);
        let r = record_of(pending[i - 1], off as u32);
        assert(records_of(cur) == records_of(prev).push(r));
        assert(records_of(cur).drop_last() =~= records_of(prev));
        assert(record_off(r) == off && record_len(r) == plen) by {
            assert(off + plen == payloads_concat(cur).len());
        }
        match pending[i - 1].ident {
            IdentV::Named(name) => {
                assert(named_of(records_of(cur), payloads_concat(pending)) == named_of(
                    records_of(prev),
                    payloads_concat(pending),
                ).push((name, pending[i - 1].payload)));
                assert(hashed_of(records_of(cur), payloads_concat(pending)) == hashed_of(
                    records_of(prev),
                    payloads_concat(pending),
                ));
            },
            IdentV::Hashed(h) => {
                assert(hashed_of(records_of(cur), payloads_concat(pending)) == hashed_of(
                    records_of(prev),
                    payloads_concat(pending),
                ).push((h, pending[i - 1].payload)));
                assert(named_of(records_of(cur), payloads_concat(pending)) == named_of(
                    records_of(prev),
                    payloads_concat(pending),
                ));
            },
        }
    }
}

/// Round trip: opening what serialization lays out succeeds and gives back
/// exactly the pending entries — the named ones as the name-indexed part
/// and the hashed ones as the hash-indexed part, in order, with
/// byte-identical payloads. This holds for every pending sequence whose
/// identifiers are unique and whose sizes fit the on-disk fields.
pub proof fn lemma_round_trip(pending: Seq<PendingV>)
    requires
        idents_unique(pending),
        encodable(pending),
    ensures
        spec_open(spec_encode(pending)) == Ok::<ArchiveV, ParseError>(
            ArchiveV { named: pending_named(pending), hashed: pending_hashed(pending) },
        ),
{
    let bytes = spec_encode(pending);
    vstd::bytes::lemma_auto_spec_u32_to_from_le_bytes();
    assert(magic().len() == 4);
    assert(bytes.subrange(0, 4) =~= magic());
    assert(bytes.subrange(4, 8) =~= spec_u32_to_le_bytes(pending.len() as u32));
    assert(spec_u32_from_le_bytes(bytes.subrange(4, 8)) == pending.len());
    lemma_parse_encode_records(pending, pending.len() as int);
    assert(pending.take(pending.len() as int) =~= pending);
    let end: int = 8 + records_concat(pending).len() as int;
    let data = bytes.skip(end);
    assert(data =~= payloads_concat(pending));
    let recs = records_of(pending);
    lemma_records_of_len(pending);
    assert forall|t: int|
        0 <= t < recs.len() implies record_off(#[trigger] recs[t]) + record_len(recs[t])
        <= data.len() by {
        lemma_records_of_index(pending, t);
        lemma_payloads_concat_len_mono(pending, t + 1);
        lemma_payload_slice(pending, t);
        assert(payloads_concat(pending.take(t)).len() + pending[t].payload.len()
            == payloads_concat(pending.take(t + 1)).len());
    }
    assert(record_keys_unique(recs)) by {
        assert forall|i: int, j: int| 0 <= i < j < recs.len() implies !same_key(
            #[trigger] recs[i],
            #[trigger] recs[j],
        ) by {
            lemma_records_of_index(pending, i);
            lemma_records_of_index(pending, j);
            assert(ident_hash(pending[i].ident) != ident_hash(pending[j].ident));
        }
    }
    lemma_entries_of_encode(pending, pending.len() as int);
}

/// The keys of an archive view are unique: no name and no checksum is
/// claimed by two entries of the same part.
pub open spec fn view_keys_unique(v: ArchiveV) -> bool {
    &&& forall|i: int, j: int|
        0 <= i < j < v.named.len() ==> (#[trigger] v.named[i]).0 != (#[trigger] v.named[j]).0
    &&& forall|i: int, j: int|
        0 <= i < j < v.hashed.len() ==> (#[trigger] v.hashed[i]).0 != (#[trigger] v.hashed[j]).0
}

/// The identifiers an archive view holds, entry by entry.
pub open spec fn spec_entry_count(v: ArchiveV) -> int {
    v.named.len() + v.hashed.len() as int
}

/// The first position of `name` among the named entries, or `-1`.
pub open spec fn named_index(named: Seq<(Seq<char>, Seq<u8>)>, name: Seq<char>) -> int
    decreases named.len(),
{
    if named.len() == 0 {
        -1
    } else if named[0].0 == name {
        0
    } else {
        let r = named_index(named.drop_first(), name);
        if r < 0 {
            -1
        } else {
            r + 1
        }
    }
}

/// The first position of `h` among the hash-indexed entries, or `-1`.
pub open spec fn hashed_index(hashed: Seq<(u32, Seq<u8>)>, h: u32) -> int
    decreases hashed.len(),
{
    if hashed.len() == 0 {
        -1
    } else if hashed[0].0 == h {
        0
    } else {
        let r = hashed_index(hashed.drop_first(), h);
        if r < 0 {
            -1
        } else {
            r + 1
        }
    }
}

/// The record stores an entry under this literal name.
pub open spec fn has_name(r: RecordV, name: Seq<char>) -> bool {
    r matches RecordV::Named { name: n, .. } && n == name
}

/// The record stores an entry under this checksum.
pub open spec fn has_hash(r: RecordV, h: u32) -> bool {
    r matches RecordV::Hashed { hash: hh, .. } && hh == h
}

/// Parsing one more record appends it to the parsed sequence.
pub proof fn lemma_parse_records_snoc(
    bytes: Seq<u8>,
    pos: int,
    n: nat,
    rs: Seq<RecordV>,
    p: int,
    r: RecordV,
    p2: int,
)
    requires
        parse_records(bytes, pos, n) == Ok::<(Seq<RecordV>, int), ParseError>((rs, p)),
        parse_record(bytes, p) == Ok::<(RecordV, int), ParseError>((r, p2)),
    ensures
        parse_records(bytes, pos, n + 1) == Ok::<(Seq<RecordV>, int), ParseError>(
            (rs.push(r), p2),
        ),
    decreases n,
{
    if n == 0 {
        assert(rs =~= Seq::<RecordV>::empty());
        assert(p == pos);
        assert(parse_records(bytes, p2, 0nat) == Ok::<(Seq<RecordV>, int), ParseError>(
            (Seq::<RecordV>::empty(), p2),
        ));
        assert(parse_records(bytes, pos, n + 1) == Ok::<(Seq<RecordV>, int), ParseError>(
            (seq![r] + Seq::<RecordV>::empty(), p2),
        ));
        assert(seq![r] + Seq::<RecordV>::empty() =~= rs.push(r));
    } else {
        match parse_record(bytes, pos) {
            Ok((r0, q)) => {
                match parse_records(bytes, q, (n - 1) as nat) {
                    Ok((rs2, pp)) => {
                        assert(rs == seq![r0] + rs2 && pp == p);
                        lemma_parse_records_snoc(bytes, q, (n - 1) as nat, rs2, p, r, p2);
                        assert(parse_records(bytes, q, n) == Ok::<
                            (Seq<RecordV>, int),
                            ParseError,
                        >((rs2.push(r), p2)));
                        assert(parse_records(bytes, pos, n + 1) == Ok::<
                            (Seq<RecordV>, int),
                            ParseError,
                        >((seq![r0] + rs2.push(r), p2)));
                        assert(seq![r0] + rs2.push(r) =~= (seq![r0] + rs2).push(r));
                    },
                    Err(_) => {
                        assert(false);
                    },
                }
            },
            Err(_) => {
                assert(false);
            },
        }
    }
}

/// Once a record fails to parse, parsing any longer run of records fails
/// with the same error.
pub proof fn lemma_parse_records_err(
    bytes: Seq<u8>,
    pos: int,
    i: nat,
    n: nat,
    rs: Seq<RecordV>,
    p: int,
    e: ParseError,
)
    requires
        i < n,
        parse_records(bytes, pos, i) == Ok::<(Seq<RecordV>, int), ParseError>((rs, p)),
        parse_record(bytes, p) == Err::<(RecordV, int), ParseError>(e),
    ensures
        parse_records(bytes, pos, n) == Err::<(Seq<RecordV>, int), ParseError>(e),
    decreases i,
{
    if i == 0 {
    } else {
        match parse_record(bytes, pos) {
            Ok((r0, q)) => {
                match parse_records(bytes, q, (i - 1) as nat) {
                    Ok((rs2, pp)) => {
                        lemma_parse_records_err(bytes, q, (i - 1) as nat, (n - 1) as nat, rs2, p, e);
                    },
                    Err(_) => {
                        assert(false);
                    },
                }
            },
            Err(_) => {
                assert(false);
            },
        }
    }
}

/// When no two records claim the same key, the names of the name-indexed
/// entries are distinct, and each comes from some record.
pub proof fn lemma_named_of_unique(recs: Seq<RecordV>, data: Seq<u8>)
    requires
        record_keys_unique(recs),
    ensures
        forall|k: int|
            0 <= k < named_of(recs, data).len() ==> exists|j: int|
                0 <= j < recs.len() && has_name(recs[j], (#[trigger] named_of(recs, data)[k]).0),
        forall|k1: int, k2: int|
            0 <= k1 < k2 < named_of(recs, data).len() ==> (#[trigger] named_of(
                recs,
                data,
            )[k1]).0 != (#[trigger] named_of(recs, data)[k2]).0,
    decreases recs.len(),
{
    if recs.len() > 0 {
        let rest = recs.drop_last();
        assert(record_keys_unique(rest)) by {
            assert(forall|i: int| 0 <= i < rest.len() ==> rest[i] == recs[i]);
        }
        lemma_named_of_unique(rest, data);
        let prev = named_of(rest, data);
        let cur = named_of(recs, data);
        match recs.last() {
            RecordV::Named { name, off, len } => {
                assert(has_name(recs[recs.len() - 1], name));
                assert forall|k: int| 0 <= k < prev.len() implies prev[k].0 != name by {
                    let j = choose|j: int| 0 <= j < rest.len() && has_name(rest[j], prev[k].0);
                    assert(!same_key(recs[j], recs[recs.len() - 1]));
                }
            },
            RecordV::Hashed { .. } => {
            },
        }
    }
}

/// When no two records claim the same key, the checksums of the hash-indexed
/// entries are distinct, and each comes from some record.
pub proof fn lemma_hashed_of_unique(recs: Seq<RecordV>, data: Seq<u8>)
    requires
        record_keys_unique(recs),
    ensures
        forall|k: int|
            0 <= k < hashed_of(recs, data).len() ==> exists|j: int|
                0 <= j < recs.len() && has_hash(recs[j], (#[trigger] hashed_of(recs, data)[k]).0),
        forall|k1: int, k2: int|
            0 <= k1 < k2 < hashed_of(recs, data).len() ==> (#[trigger] hashed_of(
                recs,
                data,
            )[k1]).0 != (#[trigger] hashed_of(recs, data)[k2]).0,
    decreases recs.len(),
{
    if recs.len() > 0 {
        let rest = recs.drop_last();
        assert(record_keys_unique(rest)) by {
            assert(forall|i: int| 0 <= i < rest.len() ==> rest[i] == recs[i]);
        }
        lemma_hashed_of_unique(rest, data);
        let prev = hashed_of(rest, data);
        match recs.last() {
            RecordV::Named { .. } => {
            },
            RecordV::Hashed { hash, off, len } => {
                assert(has_hash(recs[recs.len() - 1], hash));
                assert forall|k: int| 0 <= k < prev.len() implies prev[k].0 != hash by {
                    let j = choose|j: int| 0 <= j < rest.len() && has_hash(rest[j], prev[k].0);
                    assert(!same_key(recs[j], recs[recs.len() - 1]));
                }
            },
        }
    }
}

/// A forward scan that stops at the first match finds `named_index`.
pub proof fn lemma_named_index_found(named: Seq<(Seq<char>, Seq<u8>)>, name: Seq<char>, j: int)
    requires
        0 <= j < named.len(),
        named[j].0 == name,
        forall|k: int| 0 <= k < j ==> (#[trigger] named[k]).0 != name,
    ensures
        named_index(named, name) == j,
    decreases j,
{
    if j > 0 {
        lemma_named_index_found(named.drop_first(), name, j - 1);
    }
}

/// A forward scan that finds no match means `named_index` is `-1`.
pub proof fn lemma_named_index_none(named: Seq<(Seq<char>, Seq<u8>)>, name: Seq<char>)
    requires
        forall|k: int| 0 <= k < named.len() ==> (#[trigger] named[k]).0 != name,
    ensures
        named_index(named, name) == -1,
    decreases named.len(),
{
    if named.len() > 0 {
        lemma_named_index_none(named.drop_first(), name);
    }
}

/// A forward scan that stops at the first match finds `hashed_index`.
pub proof fn lemma_hashed_index_found(hashed: Seq<(u32, Seq<u8>)>, h: u32, j: int)
    requires
        0 <= j < hashed.len(),
        hashed[j].0 == h,
        forall|k: int| 0 <= k < j ==> (#[trigger] hashed[k]).0 != h,
    ensures
        hashed_index(hashed, h) == j,
    decreases j,
{
    if j > 0 {
        lemma_hashed_index_found(hashed.drop_first(), h, j - 1);
    }
}

/// A forward scan that finds no match means `hashed_index` is `-1`.
pub proof fn lemma_hashed_index_none(hashed: Seq<(u32, Seq<u8>)>, h: u32)
    requires
        forall|k: int| 0 <= k < hashed.len() ==> (#[trigger] hashed[k]).0 != h,
    ensures
        hashed_index(hashed, h) == -1,
    decreases hashed.len(),
{
    if hashed.len() > 0 {
        lemma_hashed_index_none(hashed.drop_first(), h);
    }
}

} // verus!
