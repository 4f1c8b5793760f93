use native32emu::actions::Action;
use native32emu::file_loader::{ActionPayload, Native32Reader, ObjectType};

fn action_table() -> Vec<u8> {
    let mut data = vec![0u8; 32];
    // Instruction 1: Push "hi" (operand at 16).
    data[0..4].copy_from_slice(&0x96u32.to_le_bytes());
    data[4..8].copy_from_slice(&16u32.to_le_bytes());
    // Instruction 2: Jump -3 (operand at 24).
    data[8..12].copy_from_slice(&0x99u32.to_le_bytes());
    data[12..16].copy_from_slice(&24u32.to_le_bytes());
    data[16..19].copy_from_slice(b"hi\0");
    data[24..26].copy_from_slice(&(-3i16).to_le_bytes());
    data
}

#[test]
fn get_action_decodes_operands() {
    let mut reader = Native32Reader::new(action_table());
    match reader.get_action(1) {
        Some((Action::Push, Some(ActionPayload::String(s)))) => assert_eq!(s, "hi"),
        other => panic!("unexpected {:?}", other),
    }
    match reader.get_action(2) {
        Some((Action::Jump, Some(ActionPayload::Integer(n)))) => assert_eq!(n, -3),
        other => panic!("unexpected {:?}", other),
    }
    // Bytes "hi\0\0" are no known opcode.
    assert!(reader.get_action(3).is_none());
    assert!(reader.get_action(0).is_none());
}

#[test]
fn get_action_cached_sees_only_decoded_instructions() {
    let mut reader = Native32Reader::new(action_table());
    assert!(reader.get_action_cached(1).is_none());
    reader.cache_all_actions();
    assert!(matches!(reader.get_action_cached(1), Some((Action::Push, _))));
    assert!(matches!(reader.get_action_cached(2), Some((Action::Jump, _))));
    assert!(reader.get_action_cached(3).is_none());
    assert!(reader.get_action_cached(0).is_none());
}

#[test]
fn object_type_codes() {
    assert_eq!(ObjectType::from_u16(1), Some(ObjectType::Image));
    assert_eq!(ObjectType::from_u16(2), Some(ObjectType::Movie));
    assert_eq!(ObjectType::from_u16(5), Some(ObjectType::Sound));
    assert_eq!(ObjectType::from_u16(6), None);
}
