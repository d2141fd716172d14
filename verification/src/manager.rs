//! The log manager: an in-memory buffer of unflushed entries, a
//! monotonically increasing segment sequence number, and the flush policy.
//!
//! The manager never touches the file system itself.  Each write-path
//! operation comes in two halves: a planning half that computes, without
//! changing any state, the exact bytes the active segment file must hold,
//! and a commit half the caller runs once it has made that write durable.
//! On a failed write the caller simply skips the commit, so neither the
//! buffer nor the sequence number ever reflects a write that did not
//! happen.

use vstd::prelude::*;

use crate::codec::{
    encode_entries, encode_entry_into, lemma_decode_encode, lemma_encode_push, spec_encode,
    spec_encode_entry, wf_entries, wf_entry,
};
use crate::entry::{
    checkpoint_entry, spec_buffer_size, spec_checkpoint_entry, spec_entry_size, EntryModel,
    EntryType, WALEntry, ENTRY_FIXED_SIZE,
};

verus! {

/// One pending file write: the segment file numbered `sequence` must be
/// overwritten, wholesale, with `bytes`.
pub struct SegmentWrite {
    pub sequence: usize,
    pub bytes: Vec<u8>,
}

/// The write path planned for one appended entry.  When the lagging
/// threshold check fired, `seal` holds the write that closes the outgoing
/// segment and must be performed, and committed with `commit_checkpoint`,
/// before `write`; `write` is then the first write of the fresh segment.
pub struct AppendPlan {
    pub seal: Option<SegmentWrite>,
    pub write: SegmentWrite,
}

/// The mathematical state of a log manager.
#[verifier::ext_equal]
pub struct ManagerModel {
    pub sequence: int,
    pub page_size: int,
    pub buffered: Seq<EntryModel>,
    pub directory: Seq<char>,
}

/// The state a checkpoint commit leaves behind: an empty buffer and the
/// next sequence number; the configuration is untouched.
pub open spec fn spec_rotated(m: ManagerModel) -> ManagerModel {
    ManagerModel {
        sequence: m.sequence + 1,
        page_size: m.page_size,
        buffered: Seq::empty(),
        directory: m.directory,
    }
}

/// The write-ahead log manager.
pub struct WALManager {
    sequence: usize,
    page_size: usize,
    buffered: Vec<WALEntry>,
    directory: String,
}

impl View for WALManager {
    type V = ManagerModel;

    closed spec fn view(&self) -> ManagerModel {
        ManagerModel {
            sequence: self.sequence as int,
            page_size: self.page_size as int,
            buffered: self.buffered.deep_view(),
            directory: self.directory@,
        }
    }
}

impl WALManager {
    /// Assembles a manager from its parts; the recovery scan builds
    /// managers through this.
    pub(crate) fn from_parts(
        sequence: usize,
        page_size: usize,
        buffered: Vec<WALEntry>,
        directory: String,
    ) -> (m: WALManager)
        ensures
            m@.sequence == sequence as int,
            m@.page_size == page_size as int,
            m@.buffered == buffered.deep_view(),
            m@.directory == directory@,
    {
        WALManager { sequence, page_size, buffered, directory }
    }

    /// Well-formedness: sequence numbers start at 1 and only grow, so a
    /// manager's sequence is always positive.
    pub open spec fn wf(&self) -> bool {
        self@.sequence >= 1
    }

    /// The active segment's sequence number.
    pub fn sequence(&self) -> (r: usize)
        ensures
            r as int == self@.sequence,
    {
        self.sequence
    }

    /// The configured flush threshold, in accounting bytes.
    pub fn page_size(&self) -> (r: usize)
        ensures
            r as int == self@.page_size,
    {
        self.page_size
    }

    /// The directory that holds the segment files.
    pub fn directory(&self) -> (r: &String)
        ensures
            r@ == self@.directory,
    {
        &self.directory
    }

    /// The buffer of entries not yet discarded by a checkpoint, oldest
    /// first.
    pub fn buffered(&self) -> (r: &Vec<WALEntry>)
        ensures
            r.deep_view() == self@.buffered,
    {
        &self.buffered
    }

    /// The lagging threshold check: does the accounting size of the
    /// entries already buffered — not counting any entry about to be
    /// appended — strictly exceed the flush threshold?
    pub fn needs_checkpoint(&self) -> (r: bool)
        ensures
            r == (spec_buffer_size(self@.buffered) > self@.page_size),
    {
        let ghost all = self@.buffered;
        let mut acc: usize = 0;
        let mut i: usize = 0;
        while i < self.buffered.len()
            invariant
                i <= self.buffered@.len(),
                all == self.buffered.deep_view(),
                acc <= self.page_size,
                acc == spec_buffer_size(all.take(i as int)),
            decreases self.buffered@.len() - i,
        {
            let e = &self.buffered[i];
            let data_len = match &e.data {
                Some(d) => d.len(),
                None => 0,
            };
            proof {
                assert(e.deep_view() == all[i as int]);
                assert(spec_entry_size(all[i as int]) == ENTRY_FIXED_SIZE + data_len);
                assert(all.take(i as int + 1).drop_last() =~= all.take(i as int));
                assert(all.take(i as int + 1).last() == all[i as int]);
            }
            let room = self.page_size - acc;
            if room < ENTRY_FIXED_SIZE || data_len > room - ENTRY_FIXED_SIZE {
                proof {
                    crate::entry::lemma_buffer_size_take_le(all, i as int + 1);
                }
                return true;
            }
            acc = acc + ENTRY_FIXED_SIZE + data_len;
            i = i + 1;
        }
        proof {
            assert(all.take(i as int) =~= all);
        }
        false
    }

    /// Checkpoint, planning half: the write that seals the current segment
    /// with a checkpoint marker stamped `now`.  State is unchanged; run
    /// `commit_checkpoint` once the write is durable.
    pub fn checkpoint(&self, now: u64) -> (w: SegmentWrite)
        ensures
            w.sequence as int == self@.sequence,
            w.bytes@ == spec_encode(self@.buffered.push(spec_checkpoint_entry(now))),
    {
        let marker = checkpoint_entry(now);
        let mut bytes = encode_entries(&self.buffered);
        encode_entry_into(&marker, &mut bytes);
        proof {
            lemma_encode_push(self@.buffered, spec_checkpoint_entry(now));
        }
        SegmentWrite { sequence: self.sequence, bytes }
    }

    /// Checkpoint, commit half: discard the buffer and move to the next
    /// segment.  Call only after the sealing write from `checkpoint`
    /// succeeded; rotation is never committed before the marker is on
    /// disk.
    pub fn commit_checkpoint(&mut self)
        requires
            old(self)@.sequence < usize::MAX,
        ensures
            final(self)@ == spec_rotated(old(self)@),
            final(self)@.sequence == old(self)@.sequence + 1,
            final(self)@.buffered == Seq::<EntryModel>::empty(),
            old(self).wf() ==> final(self).wf(),
    {
        let ghost pre = self@;
        self.buffered.clear();
        self.sequence = self.sequence + 1;
        proof {
            assert(self@ =~= spec_rotated(pre));
        }
    }

    /// The write path for one entry, planning half.
    ///
    /// The threshold check runs over the buffer as it stands, excluding
    /// `entry` itself, so a segment may overshoot the threshold by one
    /// entry before rotation triggers on the next append.  When the check
    /// fires, the plan seals the current segment first and `entry` becomes
    /// the sole content of the next one; otherwise the active segment is
    /// rewritten with `entry` appended.  Commit each half with
    /// `commit_checkpoint` and `commit_append` as its write succeeds.
    pub fn append_log(&self, entry: &WALEntry, now: u64) -> (p: AppendPlan)
        requires
            spec_buffer_size(self@.buffered) > self@.page_size ==> self@.sequence < usize::MAX,
        ensures
            (p.seal is Some) == (spec_buffer_size(self@.buffered) > self@.page_size),
            p.seal matches Some(s) ==> s.sequence as int == self@.sequence && s.bytes@
                == spec_encode(self@.buffered.push(spec_checkpoint_entry(now))),
            p.seal is Some ==> p.write.sequence as int == self@.sequence + 1 && p.write.bytes@
                == spec_encode(seq![entry.deep_view()]),
            p.seal is None ==> p.write.sequence as int == self@.sequence && p.write.bytes@
                == spec_encode(self@.buffered.push(entry.deep_view())),
    {
        if self.needs_checkpoint() {
            let seal = self.checkpoint(now);
            let mut bytes: Vec<u8> = Vec::new();
            encode_entry_into(entry, &mut bytes);
            proof {
                let single = seq![entry.deep_view()];
                assert(single[0] == entry.deep_view());
                assert(single.drop_first() =~= Seq::<EntryModel>::empty());
                assert(spec_encode(Seq::<EntryModel>::empty()) == Seq::<u8>::empty());
                assert(spec_encode(single) == spec_encode_entry(entry.deep_view())
                    + Seq::<u8>::empty());
                assert(spec_encode_entry(entry.deep_view()) + Seq::<u8>::empty()
                    =~= spec_encode_entry(entry.deep_view()));
                assert(bytes@ =~= spec_encode(single));
            }
            AppendPlan {
                seal: Some(seal),
                write: SegmentWrite { sequence: self.sequence + 1, bytes },
            }
        } else {
            let mut bytes = encode_entries(&self.buffered);
            encode_entry_into(entry, &mut bytes);
            proof {
                lemma_encode_push(self@.buffered, entry.deep_view());
            }
            AppendPlan { seal: None, write: SegmentWrite { sequence: self.sequence, bytes } }
        }
    }

    /// The write path, commit half: record that the segment write from
    /// `append_log` succeeded by appending `entry` to the buffer.
    pub fn commit_append(&mut self, entry: WALEntry)
        ensures
            final(self)@.sequence == old(self)@.sequence,
            final(self)@.page_size == old(self)@.page_size,
            final(self)@.directory == old(self)@.directory,
            final(self)@.buffered == old(self)@.buffered.push(entry.deep_view()),
            old(self).wf() ==> final(self).wf(),
    {
        let ghost pre = self.buffered.deep_view();
        let ghost e = entry.deep_view();
        self.buffered.push(entry);
        proof {
            assert(self.buffered.deep_view() =~= pre.push(e));
        }
    }
}

/// `n`-fold rotation of a manager state.
pub open spec fn spec_rotated_n(m: ManagerModel, n: nat) -> ManagerModel
    decreases n,
{
    if n == 0 {
        m
    } else {
        spec_rotated(spec_rotated_n(m, (n - 1) as nat))
    }
}

/// Monotonic sequencing: after `n` checkpoints — explicit or
/// threshold-triggered, each committed through `commit_checkpoint` — the
/// active sequence number is the initial one plus exactly `n`, and (for
/// `n > 0`) the buffer is empty.
pub proof fn lemma_monotonic_sequencing(m: ManagerModel, n: nat)
    ensures
        spec_rotated_n(m, n).sequence == m.sequence + n,
        n > 0 ==> spec_rotated_n(m, n).buffered == Seq::<EntryModel>::empty(),
        spec_rotated_n(m, n).page_size == m.page_size,
    decreases n,
{
    if n > 0 {
        lemma_monotonic_sequencing(m, (n - 1) as nat);
    }
}

/// Segment content equals buffer: after an append or a checkpoint commits,
/// the buffer is the old buffer with one entry `e` pushed (the appended
/// entry, or the checkpoint marker), the segment file holds
/// `spec_encode` of exactly that buffer, and decoding it reproduces the
/// buffer in order.
pub proof fn lemma_segment_content_equals_buffer(buffered: Seq<EntryModel>, e: EntryModel)
    requires
        wf_entries(buffered),
        wf_entry(e),
    ensures
        crate::codec::spec_decode(spec_encode(buffered.push(e))) == Some(buffered.push(e)),
{
    let all = buffered.push(e);
    assert(wf_entries(all)) by {
        assert forall|i: int| 0 <= i < all.len() implies wf_entry(#[trigger] all[i]) by {
            if i < buffered.len() {
                assert(all[i] == buffered[i]);
            } else {
                assert(all[i] == e);
            }
        }
    }
    lemma_decode_encode(all);
}

/// A sealed segment ends with its checkpoint marker: the bytes written by
/// `checkpoint` always decode, and the last decoded entry is of kind
/// `Checkpoint`.
pub proof fn lemma_sealed_segment_ends_with_checkpoint(buffered: Seq<EntryModel>, now: u64)
    requires
        wf_entries(buffered),
    ensures
        ({
            let sealed = crate::codec::spec_decode(
                spec_encode(buffered.push(spec_checkpoint_entry(now))),
            );
            &&& sealed is Some
            &&& (sealed matches Some(es) ==> es.len() == buffered.len() + 1
                && es.last().entry_type == EntryType::Checkpoint)
        }),
{
    lemma_segment_content_equals_buffer(buffered, spec_checkpoint_entry(now));
    assert(buffered.push(spec_checkpoint_entry(now)).last() == spec_checkpoint_entry(now));
}

} // verus!
