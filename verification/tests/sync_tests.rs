use patchjuggler::object::Object;
use patchjuggler::patch::{DecodeError, PatchRecord};
use patchjuggler::sync::{Applied, MirrorTable, SyncProtocol};

fn source(len: usize) -> Vec<Object> {
    (0..len)
        .map(|i| Object {
            pos: [(i as f64 * 0.5).to_bits(), (10.0 - i as f64).to_bits()],
            velo: [(i as f64 * 0.01).to_bits(), (-0.02f64).to_bits()],
            color: [i as u8, (2 * i) as u8, 255 - i as u8],
        })
        .collect()
}

fn mirror_of(objs: &Vec<Object>) -> MirrorTable {
    let mut mirror = MirrorTable::new();
    let mut sender = SyncProtocol::new(objs.len());
    for message in sender.encode(objs) {
        mirror.decode(&message).unwrap();
    }
    assert_eq!(&mirror.objs, objs);
    mirror
}

#[test]
fn new_mirror_is_empty() {
    assert!(MirrorTable::new().objs.is_empty());
}

#[test]
fn new_sender_starts_at_slot_zero() {
    let sender = SyncProtocol::new(10);
    assert_eq!(sender.burst_objs, 10);
    assert_eq!(sender.cursor, 0);
}

#[test]
fn round_trip_of_seven_slots_in_bursts_of_two() {
    let objs = source(7);
    let mut sender = SyncProtocol::new(2);
    let mut mirror = MirrorTable::new();
    for _ in 0..4 {
        for message in sender.encode(&objs) {
            assert!(mirror.decode(&message).is_ok());
        }
    }
    assert_eq!(mirror.objs, objs);
}

#[test]
fn bursts_of_two_over_seven_slots() {
    let objs = source(7);
    let mut sender = SyncProtocol::new(2);
    let mut cursors = Vec::new();
    let mut sizes = Vec::new();
    let mut slots = Vec::new();
    for _ in 0..5 {
        let messages = sender.encode(&objs);
        assert_eq!(PatchRecord::decode(&messages[0]), Ok(PatchRecord::Control { count: 7 }));
        for message in &messages[1..] {
            match PatchRecord::decode(message) {
                Ok(PatchRecord::Slot { slot, obj }) => {
                    assert_eq!(obj, objs[slot as usize]);
                    slots.push(slot);
                },
                other => panic!("not a slot record: {:?}", other),
            }
        }
        sizes.push(messages.len());
        cursors.push(sender.cursor);
    }
    assert_eq!(sizes, vec![3, 3, 3, 2, 3]);
    assert_eq!(cursors, vec![2, 4, 6, 0, 2]);
    assert_eq!(slots, vec![0, 1, 2, 3, 4, 5, 6, 0, 1]);
}

#[test]
fn mirror_is_partly_stale_until_the_refresh_is_complete() {
    let objs = source(7);
    let mut sender = SyncProtocol::new(2);
    let mut mirror = MirrorTable::new();
    for cycle in 1..=3 {
        for message in sender.encode(&objs) {
            mirror.decode(&message).unwrap();
        }
        assert_eq!(mirror.objs.len(), 7);
        assert_eq!(&mirror.objs[..2 * cycle], &objs[..2 * cycle]);
        assert!(mirror.objs[2 * cycle..].iter().all(|o| *o == Object::default()));
    }
}

#[test]
fn burst_that_divides_the_table() {
    let objs = source(6);
    let mut sender = SyncProtocol::new(3);
    assert_eq!(sender.encode(&objs).len(), 4);
    assert_eq!(sender.cursor, 3);
    assert_eq!(sender.encode(&objs).len(), 4);
    assert_eq!(sender.cursor, 0);
}

#[test]
fn burst_larger_than_the_table_sends_it_whole() {
    let objs = source(3);
    let mut sender = SyncProtocol::new(10);
    let messages = sender.encode(&objs);
    assert_eq!(messages.len(), 4);
    assert_eq!(sender.cursor, 0);
    let mut mirror = MirrorTable::new();
    for message in messages {
        mirror.decode(&message).unwrap();
    }
    assert_eq!(mirror.objs, objs);
}

#[test]
fn burst_of_the_largest_size() {
    let objs = source(3);
    let mut sender = SyncProtocol::new(usize::MAX);
    sender.cursor = 1;
    assert_eq!(sender.encode(&objs).len(), 3);
    assert_eq!(sender.cursor, 0);
}

#[test]
fn burst_of_zero_sends_only_the_count() {
    let objs = source(3);
    let mut sender = SyncProtocol::new(0);
    let messages = sender.encode(&objs);
    assert_eq!(messages.len(), 1);
    assert_eq!(PatchRecord::decode(&messages[0]), Ok(PatchRecord::Control { count: 3 }));
    assert_eq!(sender.cursor, 0);
}

#[test]
fn empty_table_sends_only_the_count() {
    let objs: Vec<Object> = Vec::new();
    let mut sender = SyncProtocol::new(4);
    let messages = sender.encode(&objs);
    assert_eq!(messages.len(), 1);
    assert_eq!(PatchRecord::decode(&messages[0]), Ok(PatchRecord::Control { count: 0 }));
    assert_eq!(sender.cursor, 0);
}

#[test]
fn cursor_past_a_shrunken_table_wraps() {
    let mut sender = SyncProtocol::new(2);
    let long = source(7);
    sender.encode(&long);
    sender.encode(&long);
    sender.encode(&long);
    assert_eq!(sender.cursor, 6);
    let short = source(3);
    let messages = sender.encode(&short);
    assert_eq!(messages.len(), 1);
    assert_eq!(sender.cursor, 0);
    assert_eq!(sender.encode(&short).len(), 3);
}

#[test]
fn every_message_is_one_record_long() {
    let objs = source(5);
    let mut sender = SyncProtocol::new(5);
    for message in sender.encode(&objs) {
        assert_eq!(message.len(), 48);
    }
}

#[test]
fn control_record_resizes_to_default_slots_and_drops_what_lies_beyond() {
    let objs = source(7);
    let mut mirror = mirror_of(&objs);
    let control = PatchRecord::Control { count: 3 }.encode();
    assert_eq!(mirror.decode(&control), Ok(Applied::Resized { count: 3 }));
    assert_eq!(mirror.objs, vec![Object::default(); 3]);
    for slot in [3u64, 4, 6, 1000] {
        let message = PatchRecord::Slot { slot, obj: objs[2] }.encode();
        assert_eq!(mirror.decode(&message), Ok(Applied::Dropped));
        assert_eq!(mirror.objs, vec![Object::default(); 3]);
    }
    let message = PatchRecord::Slot { slot: 2, obj: objs[2] }.encode();
    assert_eq!(mirror.decode(&message), Ok(Applied::Updated { slot: 2 }));
    assert_eq!(mirror.objs, vec![Object::default(), Object::default(), objs[2]]);
}

#[test]
fn control_record_with_the_current_count_keeps_the_slots() {
    let objs = source(4);
    let mut mirror = mirror_of(&objs);
    let control = PatchRecord::Control { count: 4 }.encode();
    assert_eq!(mirror.decode(&control), Ok(Applied::Confirmed));
    assert_eq!(mirror.objs, objs);
}

#[test]
fn control_record_grows_to_default_slots() {
    let objs = source(2);
    let mut mirror = mirror_of(&objs);
    assert_eq!(mirror.apply(&PatchRecord::Control { count: 5 }), Applied::Resized { count: 5 });
    assert_eq!(mirror.objs, vec![Object::default(); 5]);
}

#[test]
fn control_record_with_count_zero_empties_the_mirror() {
    let mut mirror = mirror_of(&source(2));
    assert_eq!(mirror.apply(&PatchRecord::Control { count: 0 }), Applied::Resized { count: 0 });
    assert!(mirror.objs.is_empty());
    assert_eq!(mirror.apply(&PatchRecord::Control { count: 0 }), Applied::Confirmed);
}

#[test]
fn slot_record_before_any_control_record_is_dropped() {
    let mut mirror = MirrorTable::new();
    let message = PatchRecord::Slot { slot: 0, obj: source(1)[0] }.encode();
    assert_eq!(mirror.decode(&message), Ok(Applied::Dropped));
    assert!(mirror.objs.is_empty());
}

#[test]
fn slot_record_replaces_the_whole_slot() {
    let objs = source(3);
    let mut mirror = mirror_of(&objs);
    let fresh = Object { pos: [1, 2], velo: [3, 4], color: [5, 6, 7] };
    assert_eq!(
        mirror.apply(&PatchRecord::Slot { slot: 1, obj: fresh }),
        Applied::Updated { slot: 1 }
    );
    assert_eq!(mirror.objs, vec![objs[0], fresh, objs[2]]);
}

#[test]
fn applying_a_record_twice_is_applying_it_once() {
    let objs = source(3);
    let fresh = Object { pos: [1, 2], velo: [3, 4], color: [5, 6, 7] };
    let records = [
        PatchRecord::Slot { slot: 1, obj: fresh },
        PatchRecord::Slot { slot: 3, obj: fresh },
        PatchRecord::Control { count: 3 },
        PatchRecord::Control { count: 2 },
    ];
    for record in records {
        let mut once = mirror_of(&objs);
        once.apply(&record);
        let mut twice = mirror_of(&objs);
        twice.apply(&record);
        twice.apply(&record);
        assert_eq!(once.objs, twice.objs);
    }
}

#[test]
fn dropped_duplicated_and_reordered_messages() {
    let objs = source(4);
    let mut sender = SyncProtocol::new(4);
    let messages = sender.encode(&objs);
    let mut mirror = MirrorTable::new();
    // The control record, then slot 2 twice, slot 0, and slot 3; slot 1 is lost.
    for k in [0usize, 3, 3, 1, 4] {
        mirror.decode(&messages[k]).unwrap();
    }
    assert_eq!(mirror.objs, vec![objs[0], Object::default(), objs[2], objs[3]]);
    // The next cycle repairs the stale slot.
    for message in sender.encode(&objs) {
        mirror.decode(&message).unwrap();
    }
    assert_eq!(mirror.objs, objs);
}

#[test]
fn refused_message_leaves_the_mirror_alone() {
    let objs = source(3);
    let mut mirror = mirror_of(&objs);
    assert_eq!(mirror.decode(&[0u8; 16]), Err(DecodeError::Length { len: 16 }));
    assert_eq!(mirror.decode(&[]), Err(DecodeError::Length { len: 0 }));
    assert_eq!(mirror.decode(&[7u8; 50]), Err(DecodeError::Length { len: 50 }));
    assert_eq!(mirror.objs, objs);
}

#[test]
fn count_beyond_the_index_range_is_refused() {
    // On a machine whose index type is as wide as the count field every
    // count fits, and nothing is refused for its count.
    if (usize::MAX as u64) < u64::MAX {
        let mut mirror = mirror_of(&source(2));
        let count = usize::MAX as u64 + 1;
        let message = PatchRecord::Control { count }.encode();
        assert_eq!(mirror.decode(&message), Err(DecodeError::Count { count }));
        assert_eq!(mirror.objs, source(2));
    }
}

#[test]
fn full_refresh_repairs_any_mirror_of_a_nonempty_table() {
    let objs = source(5);
    for burst in 1..=6usize {
        let mut mirror = mirror_of(&source(9));
        let mut sender = SyncProtocol::new(burst);
        let cycles = (objs.len() + burst - 1) / burst;
        for _ in 0..cycles {
            for message in sender.encode(&objs) {
                mirror.decode(&message).unwrap();
            }
        }
        assert_eq!(mirror.objs, objs);
        assert_eq!(sender.cursor, 0);
    }
}
