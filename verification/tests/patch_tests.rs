use patchjuggler::object::Object;
use patchjuggler::patch::{DecodeError, PatchRecord, INDEX_LEN, PAYLOAD_LEN, RECORD_LEN};

fn sample() -> Object {
    Object {
        pos: [1.5f64.to_bits(), (-2.25f64).to_bits()],
        velo: [0.125f64.to_bits(), 3.0e-3f64.to_bits()],
        color: [10, 200, 33],
    }
}

#[test]
fn record_layout_widths() {
    assert_eq!(INDEX_LEN, 8);
    assert_eq!(PAYLOAD_LEN, 40);
    assert_eq!(RECORD_LEN, INDEX_LEN + PAYLOAD_LEN);
}

#[test]
fn control_record_bytes() {
    let message = PatchRecord::Control { count: 3 }.encode();
    let mut expected = vec![0u8; 48];
    expected[8] = 3;
    assert_eq!(message, expected);
}

#[test]
fn control_record_count_is_little_endian() {
    let message = PatchRecord::Control { count: 0x0102_0304_0506_0708 }.encode();
    assert_eq!(&message[..8], &[0u8; 8]);
    assert_eq!(&message[8..16], &[8, 7, 6, 5, 4, 3, 2, 1]);
    assert_eq!(&message[16..], &[0u8; 32]);
}

#[test]
fn slot_record_bytes() {
    let obj = sample();
    let message = PatchRecord::Slot { slot: 4, obj }.encode();
    assert_eq!(message.len(), 48);
    assert_eq!(&message[..8], &[5, 0, 0, 0, 0, 0, 0, 0]);
    assert_eq!(&message[8..16], &1.5f64.to_le_bytes());
    assert_eq!(&message[16..24], &(-2.25f64).to_le_bytes());
    assert_eq!(&message[24..32], &0.125f64.to_le_bytes());
    assert_eq!(&message[32..40], &3.0e-3f64.to_le_bytes());
    assert_eq!(&message[40..43], &[10, 200, 33]);
    assert_eq!(&message[43..], &[0u8; 5]);
}

#[test]
fn slot_zero_is_sent_as_index_one() {
    let message = PatchRecord::Slot { slot: 0, obj: Object::default() }.encode();
    let mut expected = vec![0u8; 48];
    expected[0] = 1;
    assert_eq!(message, expected);
}

#[test]
fn slot_index_field_is_little_endian() {
    let message = PatchRecord::Slot { slot: 0x1234_5677, obj: Object::default() }.encode();
    assert_eq!(&message[..8], &[0x78, 0x56, 0x34, 0x12, 0, 0, 0, 0]);
}

#[test]
fn decode_undoes_encode_for_control() {
    for count in [0u64, 1, 7, 1000, u64::MAX] {
        let record = PatchRecord::Control { count };
        assert_eq!(PatchRecord::decode(&record.encode()), Ok(record));
    }
}

#[test]
fn decode_undoes_encode_for_slots() {
    for slot in [0u64, 1, 6, 999, u64::MAX - 1] {
        let record = PatchRecord::Slot { slot, obj: sample() };
        assert_eq!(PatchRecord::decode(&record.encode()), Ok(record));
    }
}

#[test]
fn decode_all_zero_message_is_control_zero() {
    assert_eq!(PatchRecord::decode(&[0u8; 48]), Ok(PatchRecord::Control { count: 0 }));
}

#[test]
fn decode_reads_fields_at_their_offsets() {
    let mut message = vec![0u8; 48];
    message[0] = 9;
    message[8..16].copy_from_slice(&4.5f64.to_le_bytes());
    message[16..24].copy_from_slice(&7.75f64.to_le_bytes());
    message[24..32].copy_from_slice(&(-0.5f64).to_le_bytes());
    message[32..40].copy_from_slice(&0.25f64.to_le_bytes());
    message[40] = 1;
    message[41] = 2;
    message[42] = 3;
    let expected = Object {
        pos: [4.5f64.to_bits(), 7.75f64.to_bits()],
        velo: [(-0.5f64).to_bits(), 0.25f64.to_bits()],
        color: [1, 2, 3],
    };
    assert_eq!(PatchRecord::decode(&message), Ok(PatchRecord::Slot { slot: 8, obj: expected }));
}

#[test]
fn decode_ignores_padding() {
    let record = PatchRecord::Slot { slot: 2, obj: sample() };
    let mut message = record.encode();
    for byte in &mut message[43..] {
        *byte = 0xff;
    }
    assert_eq!(PatchRecord::decode(&message), Ok(record));
}

#[test]
fn decode_ignores_the_rest_of_a_control_payload() {
    let mut message = PatchRecord::Control { count: 12 }.encode();
    for byte in &mut message[16..] {
        *byte = 0xee;
    }
    assert_eq!(PatchRecord::decode(&message), Ok(PatchRecord::Control { count: 12 }));
}

#[test]
fn decode_of_the_largest_index() {
    let mut message = vec![0u8; 48];
    for byte in &mut message[..8] {
        *byte = 0xff;
    }
    assert_eq!(
        PatchRecord::decode(&message),
        Ok(PatchRecord::Slot { slot: u64::MAX - 1, obj: Object::default() })
    );
}

#[test]
fn decode_refuses_short_messages() {
    assert_eq!(PatchRecord::decode(&[]), Err(DecodeError::Length { len: 0 }));
    assert_eq!(PatchRecord::decode(&[0u8; 16]), Err(DecodeError::Length { len: 16 }));
    assert_eq!(PatchRecord::decode(&[0u8; 47]), Err(DecodeError::Length { len: 47 }));
}

#[test]
fn decode_refuses_long_messages() {
    assert_eq!(PatchRecord::decode(&[0u8; 49]), Err(DecodeError::Length { len: 49 }));
    assert_eq!(PatchRecord::decode(&[1u8; 96]), Err(DecodeError::Length { len: 96 }));
}
