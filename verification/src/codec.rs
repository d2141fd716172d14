//! The segment codec: a deterministic binary encoding of an ordered
//! sequence of entries, and its decoder.
//!
//! One entry is laid out as a tag byte, a payload-presence byte, the
//! timestamp and the transaction id as little-endian 64-bit fields, and,
//! when a payload is present, its length as a little-endian 64-bit field
//! followed by the payload bytes.  A segment is the concatenation of its
//! entries' encodings; decoding consumes the bytes entry by entry and
//! rejects anything malformed.

use vstd::prelude::*;

use crate::entry::{EntryModel, EntryType, WALEntry};

verus! {

/// Failure of the library: a segment's bytes do not form a valid encoding
/// of an entry sequence.
#[derive(Clone, Copy, Debug, PartialEq, Eq, Structural)]
pub enum WalError {
    MalformedSegment,
}

/// The tag byte of each entry kind.
pub open spec fn spec_tag(t: EntryType) -> u8 {
    match t {
        EntryType::Insert => 0u8,
        EntryType::Update => 1u8,
        EntryType::Delete => 2u8,
        EntryType::Checkpoint => 3u8,
        EntryType::TransactionBegin => 4u8,
        EntryType::TransactionCommit => 5u8,
    }
}

/// The entry kind a tag byte stands for, if any.
pub open spec fn spec_tag_type(b: u8) -> Option<EntryType> {
    if b == 0 {
        Some(EntryType::Insert)
    } else if b == 1 {
        Some(EntryType::Update)
    } else if b == 2 {
        Some(EntryType::Delete)
    } else if b == 3 {
        Some(EntryType::Checkpoint)
    } else if b == 4 {
        Some(EntryType::TransactionBegin)
    } else if b == 5 {
        Some(EntryType::TransactionCommit)
    } else {
        None
    }
}

/// Bytes of an entry's fixed fields: tag, payload presence, timestamp,
/// transaction id.
pub open spec fn spec_header(e: EntryModel) -> Seq<u8> {
    seq![
        spec_tag(e.entry_type),
        if e.data is Some {
            1u8
        } else {
            0u8
        },
    ] + vstd::bytes::spec_u64_to_le_bytes(e.timestamp) + vstd::bytes::spec_u64_to_le_bytes(
        e.transaction_id,
    )
}

/// The encoding of one entry.
pub open spec fn spec_encode_entry(e: EntryModel) -> Seq<u8> {
    match e.data {
        None => spec_header(e),
        Some(d) => spec_header(e) + vstd::bytes::spec_u64_to_le_bytes(d.len() as u64) + d,
    }
}

/// The encoding of a whole segment: its entries' encodings, concatenated
/// in order.
pub open spec fn spec_encode(es: Seq<EntryModel>) -> Seq<u8>
    decreases es.len(),
{
    if es.len() == 0 {
        Seq::empty()
    } else {
        spec_encode_entry(es[0]) + spec_encode(es.drop_first())
    }
}

/// One decoding step: the first entry of `b` and the remaining bytes, or
/// nothing if `b` does not start with a valid entry.
pub open spec fn spec_decode_entry(b: Seq<u8>) -> Option<(EntryModel, Seq<u8>)> {
    if b.len() < 18 {
        None
    } else {
        match spec_tag_type(b[0]) {
            None => None,
            Some(t) => {
                let ts = vstd::bytes::spec_u64_from_le_bytes(b.subrange(2, 10));
                let tid = vstd::bytes::spec_u64_from_le_bytes(b.subrange(10, 18));
                if b[1] == 0 {
                    Some(
                        (
                            EntryModel {
                                entry_type: t,
                                data: None,
                                timestamp: ts,
                                transaction_id: tid,
                            },
                            b.skip(18),
                        ),
                    )
                } else if b[1] == 1 {
                    if b.len() < 26 {
                        None
                    } else {
                        let n = vstd::bytes::spec_u64_from_le_bytes(b.subrange(18, 26)) as int;
                        if b.len() - 26 < n {
                            None
                        } else {
                            Some(
                                (
                                    EntryModel {
                                        entry_type: t,
                                        data: Some(b.subrange(26, 26 + n)),
                                        timestamp: ts,
                                        transaction_id: tid,
                                    },
                                    b.skip(26 + n),
                                ),
                            )
                        }
                    }
                } else {
                    None
                }
            },
        }
    }
}

/// The decoding of a whole segment: every byte consumed, entry by entry,
/// or nothing if the bytes are malformed.
pub open spec fn spec_decode(b: Seq<u8>) -> Option<Seq<EntryModel>>
    decreases b.len(),
{
    if b.len() == 0 {
        Some(Seq::empty())
    } else {
        match spec_decode_entry(b) {
            None => None,
            Some((e, rest)) => if rest.len() < b.len() {
                match spec_decode(rest) {
                    None => None,
                    Some(es) => Some(seq![e] + es),
                }
            } else {
                // an encoded entry occupies at least its fixed fields,
                // so this branch is never reached
                None
            },
        }
    }
}

/// An entry whose payload length fits the encoding's 64-bit length field.
/// Every entry that exists at run time satisfies this.
pub open spec fn wf_entry(e: EntryModel) -> bool {
    e.data matches Some(d) ==> d.len() <= u64::MAX
}

/// All entries of a sequence are well-formed.
pub open spec fn wf_entries(es: Seq<EntryModel>) -> bool {
    forall|i: int| 0 <= i < es.len() ==> wf_entry(#[trigger] es[i])
}

/// An entry's encoding begins with its header and is at least 18 bytes.
proof fn lemma_encode_entry_len(e: EntryModel)
    ensures
        spec_encode_entry(e).len() >= 18,
        e.data is None ==> spec_encode_entry(e).len() == 18,
        e.data matches Some(d) ==> spec_encode_entry(e).len() == 26 + d.len(),
{
    vstd::bytes::lemma_auto_spec_u64_to_from_le_bytes();
}

/// Decoding undoes encoding for a single entry, whatever bytes follow it.
proof fn lemma_decode_entry_encode(e: EntryModel, rest: Seq<u8>)
    requires
        wf_entry(e),
    ensures
        spec_decode_entry(spec_encode_entry(e) + rest) == Some((e, rest)),
{
    vstd::bytes::lemma_auto_spec_u64_to_from_le_bytes();
    lemma_encode_entry_len(e);
    let enc = spec_encode_entry(e);
    let b = enc + rest;
    assert(b[0] == spec_tag(e.entry_type));
    assert(spec_tag_type(spec_tag(e.entry_type)) == Some(e.entry_type));
    assert(b.subrange(2, 10) =~= vstd::bytes::spec_u64_to_le_bytes(e.timestamp));
    assert(b.subrange(10, 18) =~= vstd::bytes::spec_u64_to_le_bytes(e.transaction_id));
    match e.data {
        None => {
            assert(b[1] == 0);
            assert(b.skip(18) =~= rest);
        },
        Some(d) => {
            assert(b[1] == 1);
            assert(b.subrange(18, 26) =~= vstd::bytes::spec_u64_to_le_bytes(d.len() as u64));
            assert(vstd::bytes::spec_u64_from_le_bytes(b.subrange(18, 26)) == d.len() as u64);
            assert(b.subrange(26, 26 + d.len() as int) =~= d);
            assert(b.skip(26 + d.len() as int) =~= rest);
        },
    }
}

/// Round-trip: decoding the encoding of any well-formed entry sequence
/// yields that sequence again.
pub proof fn lemma_decode_encode(es: Seq<EntryModel>)
    requires
        wf_entries(es),
    ensures
        spec_decode(spec_encode(es)) == Some(es),
    decreases es.len(),
{
    if es.len() == 0 {
        assert(spec_encode(es) =~= Seq::<u8>::empty());
    } else {
        let e = es[0];
        let tail = es.drop_first();
        assert(wf_entries(tail)) by {
            assert forall|i: int| 0 <= i < tail.len() implies wf_entry(#[trigger] tail[i]) by {
                assert(tail[i] == es[i + 1]);
            }
        }
        lemma_encode_entry_len(e);
        lemma_decode_entry_encode(e, spec_encode(tail));
        lemma_decode_encode(tail);
        let b = spec_encode(es);
        assert(b == spec_encode_entry(e) + spec_encode(tail));
        assert(b.len() >= 18);
        assert(seq![e] + tail =~= es);
    }
}

/// Appending one entry to a buffer appends its encoding to the buffer's.
pub proof fn lemma_encode_push(s: Seq<EntryModel>, e: EntryModel)
    ensures
        spec_encode(s.push(e)) == spec_encode(s) + spec_encode_entry(e),
    decreases s.len(),
{
    if s.len() == 0 {
        assert(s.push(e)[0] == e);
        assert(s.push(e).drop_first() =~= Seq::<EntryModel>::empty());
        assert(spec_encode(s) + spec_encode_entry(e) =~= spec_encode_entry(e));
        assert(spec_encode_entry(e) + spec_encode(Seq::<EntryModel>::empty()) =~= spec_encode_entry(
            e,
        ));
    } else {
        lemma_encode_push(s.drop_first(), e);
        assert(s.push(e)[0] == s[0]);
        assert(s.push(e).drop_first() =~= s.drop_first().push(e));
        assert(spec_encode_entry(s[0]) + (spec_encode(s.drop_first()) + spec_encode_entry(e))
            =~= (spec_encode_entry(s[0]) + spec_encode(s.drop_first())) + spec_encode_entry(e));
    }
}

/// The tag byte written for each entry kind.
fn entry_tag(t: EntryType) -> (r: u8)
    ensures
        r == spec_tag(t),
{
    match t {
        EntryType::Insert => 0u8,
        EntryType::Update => 1u8,
        EntryType::Delete => 2u8,
        EntryType::Checkpoint => 3u8,
        EntryType::TransactionBegin => 4u8,
        EntryType::TransactionCommit => 5u8,
    }
}

/// The entry kind a tag byte stands for, if any.
fn tag_entry_type(b: u8) -> (r: Option<EntryType>)
    ensures
        r == spec_tag_type(b),
{
    if b == 0 {
        Some(EntryType::Insert)
    } else if b == 1 {
        Some(EntryType::Update)
    } else if b == 2 {
        Some(EntryType::Delete)
    } else if b == 3 {
        Some(EntryType::Checkpoint)
    } else if b == 4 {
        Some(EntryType::TransactionBegin)
    } else if b == 5 {
        Some(EntryType::TransactionCommit)
    } else {
        None
    }
}

/// Appends the encoding of one entry to `out`.
pub fn encode_entry_into(e: &WALEntry, out: &mut Vec<u8>)
    ensures
        final(out)@ == old(out)@ + spec_encode_entry(e.deep_view()),
{
    out.push(entry_tag(e.entry_type));
    match &e.data {
        Some(_) => out.push(1u8),
        None => out.push(0u8),
    }
    let mut ts = vstd::bytes::u64_to_le_bytes(e.timestamp);
    out.append(&mut ts);
    let mut tid = vstd::bytes::u64_to_le_bytes(e.transaction_id);
    out.append(&mut tid);
    match &e.data {
        None => {
            proof {
                assert(out@ =~= old(out)@ + spec_header(e.deep_view()));
            }
        },
        Some(d) => {
            let mut len_bytes = vstd::bytes::u64_to_le_bytes(d.len() as u64);
            out.append(&mut len_bytes);
            let mut payload = vstd::slice::slice_to_vec(d.as_slice());
            out.append(&mut payload);
            proof {
                assert(d.deep_view() =~= d@);
                assert(out@ =~= old(out)@ + spec_encode_entry(e.deep_view()));
            }
        },
    }
}

/// Encodes a whole buffer of entries into segment bytes.
pub fn encode_entries(entries: &Vec<WALEntry>) -> (r: Vec<u8>)
    ensures
        r@ == spec_encode(entries.deep_view()),
{
    let mut out: Vec<u8> = Vec::new();
    let mut i: usize = 0;
    while i < entries.len()
        invariant
            i <= entries@.len(),
            out@ == spec_encode(entries.deep_view().take(i as int)),
        decreases entries@.len() - i,
    {
        proof {
            lemma_encode_push(entries.deep_view().take(i as int), entries.deep_view()[i as int]);
            assert(entries.deep_view().take(i as int).push(entries.deep_view()[i as int])
                =~= entries.deep_view().take(i + 1));
        }
        encode_entry_into(&entries[i], &mut out);
        i = i + 1;
    }
    proof {
        assert(entries.deep_view().take(entries@.len() as int) =~= entries.deep_view());
    }
    out
}

/// Decodes the entry that starts at offset `i`, returning it and the offset
/// just past it.
fn decode_one(bytes: &Vec<u8>, i: usize) -> (r: Result<(WALEntry, usize), WalError>)
    requires
        i < bytes@.len(),
    ensures
        match r {
            Ok(p) => i < p.1 <= bytes@.len() && spec_decode_entry(bytes@.skip(i as int)) == Some(
                (p.0.deep_view(), bytes@.skip(p.1 as int)),
            ),
            Err(_) => spec_decode_entry(bytes@.skip(i as int)) is None,
        },
{
    let ghost b = bytes@.skip(i as int);
    let len = bytes.len();
    if len - i < 18 {
        return Err(WalError::MalformedSegment);
    }
    let tag = bytes[i];
    let flag = bytes[i + 1];
    proof {
        assert(b[0] == bytes@[i as int]);
        assert(b[1] == bytes@[i as int + 1]);
    }
    let t = match tag_entry_type(tag) {
        Some(t) => t,
        None => {
            return Err(WalError::MalformedSegment);
        },
    };
    let ts = vstd::bytes::u64_from_le_bytes(vstd::slice::slice_subrange(
        bytes.as_slice(),
        i + 2,
        i + 10,
    ));
    let tid = vstd::bytes::u64_from_le_bytes(vstd::slice::slice_subrange(
        bytes.as_slice(),
        i + 10,
        i + 18,
    ));
    proof {
        assert(b.subrange(2, 10) =~= bytes@.subrange(i as int + 2, i as int + 10));
        assert(b.subrange(10, 18) =~= bytes@.subrange(i as int + 10, i as int + 18));
    }
    if flag == 0 {
        let entry = WALEntry { entry_type: t, data: None, timestamp: ts, transaction_id: tid };
        proof {
            assert(b.skip(18) =~= bytes@.skip(i as int + 18));
        }
        Ok((entry, i + 18))
    } else if flag == 1 {
        if len - i < 26 {
            return Err(WalError::MalformedSegment);
        }
        let n64 = vstd::bytes::u64_from_le_bytes(vstd::slice::slice_subrange(
            bytes.as_slice(),
            i + 18,
            i + 26,
        ));
        proof {
            assert(b.subrange(18, 26) =~= bytes@.subrange(i as int + 18, i as int + 26));
        }
        let remaining = len - (i + 26);
        if n64 > remaining as u64 {
            return Err(WalError::MalformedSegment);
        }
        let n = n64 as usize;
        let data = vstd::slice::slice_to_vec(vstd::slice::slice_subrange(
            bytes.as_slice(),
            i + 26,
            i + 26 + n,
        ));
        let entry = WALEntry {
            entry_type: t,
            data: Some(data),
            timestamp: ts,
            transaction_id: tid,
        };
        proof {
            assert(b.subrange(26, 26 + n as int) =~= bytes@.subrange(
                i as int + 26,
                i as int + 26 + n as int,
            ));
            assert(b.skip(26 + n as int) =~= bytes@.skip(i as int + 26 + n as int));
            assert(entry.deep_view().data matches Some(d) && d =~= b.subrange(26, 26 + n as int));
        }
        Ok((entry, i + 26 + n))
    } else {
        Err(WalError::MalformedSegment)
    }
}

/// Decodes segment bytes into the entry sequence they hold, rejecting
/// malformed bytes.
pub fn decode_entries(bytes: &Vec<u8>) -> (r: Result<Vec<WALEntry>, WalError>)
    ensures
        match r {
            Ok(es) => spec_decode(bytes@) == Some(es.deep_view()),
            Err(e) => spec_decode(bytes@) is None && e == WalError::MalformedSegment,
        },
{
    let mut out: Vec<WALEntry> = Vec::new();
    let mut i: usize = 0;
    proof {
        assert(bytes@.skip(0) =~= bytes@);
        if let Some(rest) = spec_decode(bytes@) {
            assert(out.deep_view() + rest =~= rest);
        }
    }
    while i < bytes.len()
        invariant
            i <= bytes@.len(),
            spec_decode(bytes@) == match spec_decode(bytes@.skip(i as int)) {
                Some(rest) => Some(out.deep_view() + rest),
                None => None::<Seq<EntryModel>>,
            },
        decreases bytes@.len() - i,
    {
        match decode_one(bytes, i) {
            Err(e) => {
                return Err(e);
            },
            Ok((entry, j)) => {
                proof {
                    let rest = bytes@.skip(j as int);
                    if let Some(es) = spec_decode(rest) {
                        assert(out.deep_view() + (seq![entry.deep_view()] + es) =~= out.deep_view().push(
                            entry.deep_view(),
                        ) + es);
                    }
                }
                let ghost old_out = out.deep_view();
                out.push(entry);
                proof {
                    assert(out.deep_view() =~= old_out.push(entry.deep_view()));
                }
                i = j;
            },
        }
    }
    proof {
        assert(bytes@.skip(i as int) =~= Seq::<u8>::empty());
        assert(out.deep_view() + Seq::<EntryModel>::empty() =~= out.deep_view());
    }
    Ok(out)
}

} // verus!
