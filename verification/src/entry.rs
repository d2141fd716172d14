//! The entry model: one logged operation, and its accounting size.

use vstd::prelude::*;

verus! {

/// The kind of one logged operation.  A closed, exhaustive set: the three
/// data-carrying kinds, the checkpoint marker, and the transaction markers.
#[derive(Clone, Copy, Debug, PartialEq, Eq, Structural)]
pub enum EntryType {
    Insert,
    Update,
    Delete,
    Checkpoint,
    TransactionBegin,
    TransactionCommit,
}

/// One record of the log.
///
/// `data` is present for the data-carrying kinds and absent for the control
/// kinds by convention; the manager does not enforce that pairing.
/// `timestamp` counts microseconds since the Unix epoch and is assigned by
/// the producer; the manager fills it only for entries it synthesizes itself.
/// `transaction_id` of 0 denotes "no transaction / system-generated".
#[derive(Clone, Debug, PartialEq)]
pub struct WALEntry {
    pub entry_type: EntryType,
    pub data: Option<Vec<u8>>,
    pub timestamp: u64,
    pub transaction_id: u64,
}

/// The mathematical value of a `WALEntry`: the same fields with the payload
/// as a byte sequence.
pub struct EntryModel {
    pub entry_type: EntryType,
    pub data: Option<Seq<u8>>,
    pub timestamp: u64,
    pub transaction_id: u64,
}

impl DeepView for WALEntry {
    type V = EntryModel;

    open spec fn deep_view(&self) -> EntryModel {
        EntryModel {
            entry_type: self.entry_type,
            data: self.data.deep_view(),
            timestamp: self.timestamp,
            transaction_id: self.transaction_id,
        }
    }
}

/// Fixed contribution of the tag, timestamp and transaction-id fields to an
/// entry's accounting size: one tag byte plus two 64-bit fields.
pub const ENTRY_FIXED_SIZE: usize = 17;

/// Accounting size of one entry: the fixed fields plus the payload length if
/// one is present.  Used only for flush-threshold accounting; the on-disk
/// encoding may differ in exact byte count.
pub open spec fn spec_entry_size(e: EntryModel) -> int {
    ENTRY_FIXED_SIZE + (match e.data {
        Some(d) => d.len() as int,
        None => 0,
    })
}

impl WALEntry {
    /// Accounting size of this entry, for flush-threshold bookkeeping.
    pub fn size(&self) -> (r: usize)
        requires
            spec_entry_size(self.deep_view()) <= usize::MAX,
        ensures
            r == spec_entry_size(self.deep_view()),
    {
        let data_size = match &self.data {
            Some(d) => d.len(),
            None => 0,
        };
        ENTRY_FIXED_SIZE + data_size
    }
}

/// The control entry that seals a segment: kind `Checkpoint`, no payload,
/// no transaction, stamped with the clock reading the caller supplies.
pub open spec fn spec_checkpoint_entry(now: u64) -> EntryModel {
    EntryModel {
        entry_type: EntryType::Checkpoint,
        data: None,
        timestamp: now,
        transaction_id: 0,
    }
}

/// Builds the checkpoint marker entry for the given clock reading.
pub fn checkpoint_entry(now: u64) -> (e: WALEntry)
    ensures
        e.deep_view() == spec_checkpoint_entry(now),
{
    WALEntry {
        entry_type: EntryType::Checkpoint,
        data: None,
        timestamp: now,
        transaction_id: 0,
    }
}

/// Total accounting size of a buffer of entries, oldest first.
pub open spec fn spec_buffer_size(es: Seq<EntryModel>) -> int
    decreases es.len(),
{
    if es.len() == 0 {
        0
    } else {
        spec_buffer_size(es.drop_last()) + spec_entry_size(es.last())
    }
}

/// Every entry contributes at least its fixed fields, so a buffer's
/// accounting size is never negative.
pub proof fn lemma_buffer_size_nonneg(es: Seq<EntryModel>)
    ensures
        spec_buffer_size(es) >= 0,
    decreases es.len(),
{
    if es.len() > 0 {
        lemma_buffer_size_nonneg(es.drop_last());
    }
}

/// A prefix of a buffer never accounts for more than the whole buffer.
pub proof fn lemma_buffer_size_take_le(es: Seq<EntryModel>, n: int)
    requires
        0 <= n <= es.len(),
    ensures
        spec_buffer_size(es.take(n)) <= spec_buffer_size(es),
    decreases es.len() - n,
{
    if n < es.len() {
        lemma_buffer_size_take_le(es, n + 1);
        assert(es.take(n + 1).drop_last() =~= es.take(n));
        assert(es.take(n + 1).last() == es[n]);
    } else {
        assert(es.take(n) =~= es);
    }
}

} // verus!
