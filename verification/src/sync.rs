//! Replication of a particle table: the sender spreads the table over
//! bounded bursts of patch messages, and the receiver applies whatever
//! arrives to a mirror of the table.

use vstd::prelude::*;
use crate::object::Object;
use crate::patch::{
    lemma_decode_encode, parse_record, record_bytes, DecodeError, PatchRecord, RECORD_LEN,
};

verus! {

/// What applying a record did to the mirror.
#[derive(Clone, Copy, Debug, PartialEq, Eq)]
pub enum Applied {
    /// A control record changed the mirror's length to `count`; every slot
    /// is zero now.
    Resized { count: usize },
    /// A control record announced the length that the mirror already has.
    Confirmed,
    /// A slot record replaced slot `slot`.
    Updated { slot: usize },
    /// A slot record named a slot that the mirror does not have.
    Dropped,
}

/// The mirror after `record` has been applied to it.
///
/// A control record with a new count replaces the mirror by that many zero
/// records; one with the current count leaves it alone. A slot record
/// replaces its slot, or does nothing when the mirror has no such slot.
pub open spec fn applied(mirror: Seq<Object>, record: PatchRecord) -> Seq<Object> {
    match record {
        PatchRecord::Control { count } => if count == mirror.len() {
            mirror
        } else {
            Seq::new(count as nat, |i: int| Object::zero())
        },
        PatchRecord::Slot { slot, obj } => if slot < mirror.len() {
            mirror.update(slot as int, obj)
        } else {
            mirror
        },
    }
}

/// What applying `record` to `mirror` reports.
pub open spec fn outcome_of(mirror: Seq<Object>, record: PatchRecord) -> Applied {
    match record {
        PatchRecord::Control { count } => if count == mirror.len() {
            Applied::Confirmed
        } else {
            Applied::Resized { count: count as usize }
        },
        PatchRecord::Slot { slot, obj } => if slot < mirror.len() {
            Applied::Updated { slot: slot as usize }
        } else {
            Applied::Dropped
        },
    }
}

/// The mirror after the records have been applied in order.
pub open spec fn replayed(mirror: Seq<Object>, records: Seq<PatchRecord>) -> Seq<Object>
    decreases records.len(),
{
    if records.len() == 0 {
        mirror
    } else {
        applied(replayed(mirror, records.drop_last()), records.last())
    }
}

/// The record can be sent and, on this machine, received: its index field
/// can hold the slot number plus one, and its count can be indexed.
pub open spec fn deliverable(record: PatchRecord) -> bool {
    match record {
        PatchRecord::Control { count } => count <= usize::MAX,
        PatchRecord::Slot { slot, .. } => slot < u64::MAX,
    }
}

/// The messages that carry the records.
pub open spec fn messages_of(records: Seq<PatchRecord>) -> Seq<Seq<u8>> {
    records.map_values(|record: PatchRecord| record_bytes(record))
}

/// The mirror after the messages have been received in order; a refused
/// message changes nothing.
pub open spec fn received(mirror: Seq<Object>, messages: Seq<Seq<u8>>) -> Seq<Object>
    decreases messages.len(),
{
    if messages.len() == 0 {
        mirror
    } else {
        let before = received(mirror, messages.drop_last());
        if receipt(before, messages.last()).is_ok() {
            applied(before, parse_record(messages.last()))
        } else {
            before
        }
    }
}

/// The receiver's copy of the table. It starts empty, changes length only
/// when a control record says so, and may at any time hold slots of
/// different ages.
pub struct MirrorTable {
    pub objs: Vec<Object>,
}

impl View for MirrorTable {
    type V = Seq<Object>;

    open spec fn view(&self) -> Seq<Object> {
        self.objs@
    }
}

impl MirrorTable {
    /// The empty mirror.
    pub fn new() -> (mirror: MirrorTable)
        ensures
            mirror@ == Seq::<Object>::empty(),
    {
        MirrorTable { objs: Vec::new() }
    }

    /// Applies one record.
    pub fn apply(&mut self, record: &PatchRecord) -> (outcome: Applied)
        requires
            record matches PatchRecord::Control { count } ==> count <= usize::MAX,
        ensures
            final(self)@ == applied(old(self)@, *record),
            outcome == outcome_of(old(self)@, *record),
    {
        match record {
            PatchRecord::Control { count } => {
                let count = *count as usize;
                if count == self.objs.len() {
                    Applied::Confirmed
                } else {
                    self.objs.clear();
                    self.objs.resize(count, Object::default());
                    assert(self@ =~= applied(old(self)@, *record));
                    Applied::Resized { count }
                }
            },
            PatchRecord::Slot { slot, obj } => {
                if *slot < self.objs.len() as u64 {
                    let slot = *slot as usize;
                    self.objs[slot] = *obj;
                    Applied::Updated { slot }
                } else {
                    Applied::Dropped
                }
            },
        }
    }

    /// Decodes one message and applies the record that it carries.
    ///
    /// A message of any length but one record's is refused, and so is a
    /// control record whose count this machine cannot index; a refused
    /// message leaves the mirror as it was.
    pub fn decode(&mut self, message: &[u8]) -> (received: Result<Applied, DecodeError>)
        ensures
            received == receipt(old(self)@, message@),
            final(self)@ == if received.is_ok() {
                applied(old(self)@, parse_record(message@))
            } else {
                old(self)@
            },
    {
        match PatchRecord::decode(message) {
            Err(error) => Err(error),
            Ok(record) => {
                if let PatchRecord::Control { count } = record {
                    if count > usize::MAX as u64 {
                        return Err(DecodeError::Count { count });
                    }
                }
                Ok(self.apply(&record))
            },
        }
    }
}

/// What the receiver answers to `message` while its mirror is `mirror`.
pub open spec fn receipt(mirror: Seq<Object>, message: Seq<u8>) -> Result<Applied, DecodeError> {
    if message.len() != RECORD_LEN {
        Err(DecodeError::Length { len: message.len() as usize })
    } else {
        match parse_record(message) {
            PatchRecord::Control { count } if count > usize::MAX => Err(
                DecodeError::Count { count },
            ),
            record => Ok(outcome_of(mirror, record)),
        }
    }
}

/// How many slot records a cycle sends from `cursor`: the burst size, cut
/// off at the end of the table.
pub open spec fn burst_len(cursor: int, burst: int, len: int) -> int {
    if cursor >= len {
        0
    } else if burst <= len - cursor {
        burst
    } else {
        len - cursor
    }
}

/// Where the cursor stands after a cycle: advanced by the burst size, or
/// back at zero once it has reached the end of the table.
pub open spec fn next_cursor(cursor: int, burst: int, len: int) -> int {
    if len <= cursor + burst {
        0
    } else {
        cursor + burst
    }
}

/// The slot records of `count` consecutive slots from `cursor` on.
pub open spec fn slot_run(cursor: int, count: int, objs: Seq<Object>) -> Seq<PatchRecord> {
    Seq::new(
        count as nat,
        |k: int| PatchRecord::Slot { slot: (cursor + k) as u64, obj: objs[cursor + k] },
    )
}

/// The records of one cycle: the object count, then the burst of
/// consecutive slots that begins at the cursor.
pub open spec fn cycle_records(cursor: int, burst: int, objs: Seq<Object>) -> Seq<PatchRecord> {
    seq![PatchRecord::Control { count: objs.len() as u64 }] + slot_run(
        cursor,
        burst_len(cursor, burst, objs.len() as int),
        objs,
    )
}

/// Where the cursor stands after `cycles` cycles that began at slot zero,
/// over a table of constant length.
pub open spec fn cursor_after(burst: int, len: int, cycles: nat) -> int
    decreases cycles,
{
    if cycles == 0 {
        0
    } else {
        next_cursor(cursor_after(burst, len, (cycles - 1) as nat), burst, len)
    }
}

/// Everything that the first `cycles` cycles send, in order, while the
/// table stays as it is.
pub open spec fn sent_after(burst: int, objs: Seq<Object>, cycles: nat) -> Seq<PatchRecord>
    decreases cycles,
{
    if cycles == 0 {
        Seq::empty()
    } else {
        sent_after(burst, objs, (cycles - 1) as nat) + cycle_records(
            cursor_after(burst, objs.len() as int, (cycles - 1) as nat),
            burst,
            objs,
        )
    }
}

/// The sender's side: the burst size and the rotating cursor.
pub struct SyncProtocol {
    /// Most slot records that one cycle sends.
    pub burst_objs: usize,
    /// The slot at which the next burst begins.
    pub cursor: usize,
}

impl SyncProtocol {
    /// A sender that starts at slot zero.
    pub fn new(burst_objs: usize) -> (sender: SyncProtocol)
        ensures
            sender.burst_objs == burst_objs,
            sender.cursor == 0,
    {
        SyncProtocol { burst_objs, cursor: 0 }
    }

    /// The messages of one cycle, in sending order, and the cursor moved on.
    pub fn encode(&mut self, objs: &Vec<Object>) -> (messages: Vec<Vec<u8>>)
        ensures
            final(self).burst_objs == old(self).burst_objs,
            final(self).cursor == next_cursor(
                old(self).cursor as int,
                old(self).burst_objs as int,
                objs@.len() as int,
            ),
            messages@.len() == cycle_records(
                old(self).cursor as int,
                old(self).burst_objs as int,
                objs@,
            ).len(),
            messages@.len() <= 1 + old(self).burst_objs,
            forall|k: int|
                0 <= k < messages@.len() ==> (#[trigger] messages@[k])@ == record_bytes(
                    cycle_records(old(self).cursor as int, old(self).burst_objs as int, objs@)[k],
                ),
    {
        let len = objs.len();
        let cursor = self.cursor;
        let ghost records = cycle_records(cursor as int, self.burst_objs as int, objs@);
        let count = if cursor >= len {
            0
        } else if self.burst_objs <= len - cursor {
            self.burst_objs
        } else {
            len - cursor
        };
        let mut messages: Vec<Vec<u8>> = Vec::new();
        messages.push((PatchRecord::Control { count: len as u64 }).encode());
        let mut sent: usize = 0;
        while sent < count
            invariant
                sent <= count,
                count == burst_len(cursor as int, self.burst_objs as int, len as int),
                len == objs@.len(),
                records == cycle_records(cursor as int, self.burst_objs as int, objs@),
                messages@.len() == 1 + sent,
                forall|k: int|
                    0 <= k < messages@.len() ==> (#[trigger] messages@[k])@ == record_bytes(
                        records[k],
                    ),
            decreases count - sent,
        {
            let slot = cursor + sent;
            messages.push((PatchRecord::Slot { slot: slot as u64, obj: objs[slot] }).encode());
            sent += 1;
        }
        self.cursor = if cursor >= len || self.burst_objs >= len - cursor {
            0
        } else {
            cursor + self.burst_objs
        };
        messages
    }
}

/// Applying a record a second time changes nothing.
pub proof fn lemma_apply_idempotent(mirror: Seq<Object>, record: PatchRecord)
    ensures
        applied(applied(mirror, record), record) == applied(mirror, record),
{
    assert(applied(applied(mirror, record), record) =~= applied(mirror, record));
}

/// A control record with a new count leaves that many zero records, and a
/// slot record for a slot at or beyond the count is then dropped.
pub proof fn lemma_resize_drops_stale(mirror: Seq<Object>, count: u64, slot: u64, obj: Object)
    requires
        count != mirror.len(),
        slot >= count,
    ensures
        applied(mirror, PatchRecord::Control { count }) == Seq::new(
            count as nat,
            |i: int| Object::zero(),
        ),
        applied(
            applied(mirror, PatchRecord::Control { count }),
            PatchRecord::Slot { slot, obj },
        ) == applied(mirror, PatchRecord::Control { count }),
        outcome_of(
            applied(mirror, PatchRecord::Control { count }),
            PatchRecord::Slot { slot, obj },
        ) == Applied::Dropped,
{
}

/// Replaying two runs of records one after the other is replaying their
/// concatenation.
pub proof fn lemma_replayed_concat(
    mirror: Seq<Object>,
    first: Seq<PatchRecord>,
    second: Seq<PatchRecord>,
)
    ensures
        replayed(mirror, first + second) == replayed(replayed(mirror, first), second),
    decreases second.len(),
{
    if second.len() == 0 {
        assert(first + second =~= first);
    } else {
        lemma_replayed_concat(mirror, first, second.drop_last());
        assert((first + second).drop_last() =~= first + second.drop_last());
    }
}

/// Receiving the messages of deliverable records is applying the records.
pub proof fn lemma_received_encoded(mirror: Seq<Object>, records: Seq<PatchRecord>)
    requires
        forall|k: int| 0 <= k < records.len() ==> deliverable(#[trigger] records[k]),
    ensures
        received(mirror, messages_of(records)) == replayed(mirror, records),
    decreases records.len(),
{
    if records.len() > 0 {
        let last = records.last();
        assert(deliverable(last));
        assert(last.encodable());
        lemma_received_encoded(mirror, records.drop_last());
        lemma_decode_encode(last);
        assert(messages_of(records).drop_last() =~= messages_of(records.drop_last()));
        assert(messages_of(records).last() == record_bytes(last));
    }
}

/// Every record that the cycles send from a table that a machine can hold
/// is deliverable.
proof fn lemma_sent_deliverable(burst: int, objs: Seq<Object>, cycles: nat)
    requires
        burst >= 0,
        objs.len() <= usize::MAX,
    ensures
        cursor_after(burst, objs.len() as int, cycles) >= 0,
        forall|k: int|
            0 <= k < sent_after(burst, objs, cycles).len() ==> deliverable(
                #[trigger] sent_after(burst, objs, cycles)[k],
            ),
    decreases cycles,
{
    if cycles > 0 {
        lemma_sent_deliverable(burst, objs, (cycles - 1) as nat);
        let before = sent_after(burst, objs, (cycles - 1) as nat);
        let cursor = cursor_after(burst, objs.len() as int, (cycles - 1) as nat);
        let cycle = cycle_records(cursor, burst, objs);
        assert forall|k: int| 0 <= k < (before + cycle).len() implies deliverable(
            #[trigger] (before + cycle)[k],
        ) by {
            if k >= before.len() {
                assert((before + cycle)[k] == cycle[k - before.len()]);
            }
        }
    }
}

/// A run of slot records copies its slots into a mirror of the table's
/// length and leaves the other slots alone.
proof fn lemma_replayed_run(base: Seq<Object>, objs: Seq<Object>, cursor: int, count: int)
    requires
        0 <= cursor,
        0 <= count,
        count == 0 || cursor + count <= objs.len(),
        base.len() == objs.len(),
        objs.len() <= u64::MAX,
    ensures
        replayed(base, slot_run(cursor, count, objs)).len() == objs.len(),
        forall|s: int|
            0 <= s < objs.len() ==> #[trigger] replayed(base, slot_run(cursor, count, objs))[s]
                == if cursor <= s < cursor + count {
                objs[s]
            } else {
                base[s]
            },
    decreases count,
{
    if count > 0 {
        lemma_replayed_run(base, objs, cursor, count - 1);
        assert(slot_run(cursor, count, objs).drop_last() =~= slot_run(cursor, count - 1, objs));
    }
}

/// One cycle brings the mirror to the table's length and copies the burst.
proof fn lemma_replayed_cycle(mirror: Seq<Object>, objs: Seq<Object>, cursor: int, burst: int)
    requires
        0 <= cursor,
        0 <= burst,
        objs.len() <= u64::MAX,
    ensures
        replayed(mirror, cycle_records(cursor, burst, objs)).len() == objs.len(),
        forall|s: int|
            0 <= s < objs.len() ==> #[trigger] replayed(
                mirror,
                cycle_records(cursor, burst, objs),
            )[s] == if cursor <= s < cursor + burst {
                objs[s]
            } else {
                applied(mirror, PatchRecord::Control { count: objs.len() as u64 })[s]
            },
{
    let control = PatchRecord::Control { count: objs.len() as u64 };
    let count = burst_len(cursor, burst, objs.len() as int);
    let head = seq![control];
    assert(head.drop_last() =~= Seq::<PatchRecord>::empty());
    assert(replayed(mirror, head) == applied(replayed(mirror, head.drop_last()), head.last()));
    lemma_replayed_concat(mirror, head, slot_run(cursor, count, objs));
    lemma_replayed_run(applied(mirror, control), objs, cursor, count);
}

/// While the cursor has not wrapped, `cycles` cycles have copied the first
/// `cycles * burst` slots.
proof fn lemma_refresh_progress(mirror: Seq<Object>, objs: Seq<Object>, burst: int, cycles: nat)
    requires
        burst > 0,
        cycles >= 1,
        (cycles - 1) * burst < objs.len(),
        objs.len() <= u64::MAX,
    ensures
        cursor_after(burst, objs.len() as int, (cycles - 1) as nat) == (cycles - 1) * burst,
        replayed(mirror, sent_after(burst, objs, cycles)).len() == objs.len(),
        forall|s: int|
            0 <= s < objs.len() && s < cycles * burst ==> #[trigger] replayed(
                mirror,
                sent_after(burst, objs, cycles),
            )[s] == objs[s],
    decreases cycles,
{
    let len = objs.len() as int;
    let prev = (cycles - 1) as nat;
    let start = prev * burst;
    assert(start + burst == cycles * burst) by (nonlinear_arith)
        requires
            start == prev * burst,
            prev == cycles - 1,
    ;
    let before = sent_after(burst, objs, prev);
    if cycles == 1 {
        assert(start == 0) by (nonlinear_arith)
            requires
                start == prev * burst,
                prev == 0,
        ;
        assert(before + cycle_records(0, burst, objs) =~= cycle_records(0, burst, objs));
        lemma_replayed_cycle(mirror, objs, 0, burst);
    } else {
        let earlier = (prev - 1) * burst;
        assert(earlier + burst == start && earlier >= 0) by (nonlinear_arith)
            requires
                start == prev * burst,
                earlier == (prev - 1) * burst,
                prev >= 1,
                burst > 0,
        ;
        lemma_refresh_progress(mirror, objs, burst, prev);
        assert(cursor_after(burst, len, (prev - 1) as nat) == earlier);
        assert(cursor_after(burst, len, prev) == start);
        lemma_replayed_concat(mirror, before, cycle_records(start, burst, objs));
        lemma_replayed_cycle(replayed(mirror, before), objs, start, burst);
    }
}

/// A full refresh: with burst size `burst`, the cycles that it takes to
/// walk once through a table of unchanging contents, applied in sending
/// order, turn the mirror into the table, whether the records are applied
/// or their messages are received. This holds of a fresh mirror and, unless
/// the table is empty, of any other.
pub proof fn lemma_full_refresh(mirror: Seq<Object>, objs: Seq<Object>, burst: nat, cycles: nat)
    requires
        burst > 0,
        objs.len() <= usize::MAX,
        (cycles - 1) * burst < objs.len() <= cycles * burst,
        objs.len() > 0 || mirror.len() == 0,
    ensures
        replayed(mirror, sent_after(burst as int, objs, cycles)) == objs,
        received(mirror, messages_of(sent_after(burst as int, objs, cycles))) == objs,
{
    lemma_sent_deliverable(burst as int, objs, cycles);
    lemma_received_encoded(mirror, sent_after(burst as int, objs, cycles));
    if cycles == 0 {
        assert(objs.len() == 0) by (nonlinear_arith)
            requires
                objs.len() <= cycles * burst,
                cycles == 0,
        ;
        assert(mirror =~= objs);
    } else {
        lemma_refresh_progress(mirror, objs, burst as int, cycles);
        assert(replayed(mirror, sent_after(burst as int, objs, cycles)) =~= objs);
    }
}

} // verus!
