use graphmat::object::{is_endp, CodeMetadata, Error, FunctionMetadata, ObjectCode, TextSection};

#[test]
fn test_is_endp_call_then_int3() {
    assert!(is_endp(&[0xE8, 1, 2, 3, 4, 0xCC, 0xCC, 0, 0, 0, 0, 0, 0, 0, 0, 0]));
}

#[test]
fn test_is_endp_ret_then_nop() {
    assert!(is_endp(&[0xC3, 0x0F, 0x1F, 0x44, 0x00, 0x00, 0, 0, 0, 0, 0, 0, 0, 0, 0, 0]));
    assert!(is_endp(&[0xC3, 0x0F, 0x1F, 0x84, 0, 0, 0, 0, 0, 0, 0, 0, 0, 0, 0, 0]));
}

#[test]
fn test_is_endp_rejects() {
    assert!(!is_endp(&[0xC3, 0x0F, 0x1F, 0x41, 0x00, 0, 0, 0, 0, 0, 0, 0, 0, 0, 0, 0]));
    assert!(!is_endp(&[0x90, 0xCC, 0xCC]));
    assert!(!is_endp(&[]));
    assert!(!is_endp(&[0xC3, 0xCC]));
}

#[test]
fn test_from_slice_counts_instructions() {
    assert_eq!(FunctionMetadata::from_slice(&[0x90, 0x90, 0xC3]).opcodes().len(), 3);
    assert_eq!(FunctionMetadata::from_slice(&[]).opcodes().len(), 0);
}

#[test]
fn test_object_code_load() {
    let obj = ObjectCode::load(Some(TextSection { address: 0x400, data: vec![0xC3] }), 0x400).ok().unwrap();
    assert_eq!(obj.text_section_base(), 0x400);
    assert_eq!(obj.entrypoint(), 0);
    assert_eq!(obj.text(), &[0xC3]);
}

#[test]
fn test_object_code_missing_text() {
    match ObjectCode::load(None, 0) {
        Err(e) => {
            assert!(matches!(e, Error::MissingTextSection));
            assert_eq!(e.message(), "missing .text section");
        }
        Ok(_) => panic!("expected an error"),
    }
    assert_eq!(Error::Other("boom".to_string()).message(), "boom");
}

#[test]
fn test_code_metadata_load_entry() {
    let obj = ObjectCode::load(Some(TextSection { address: 0x10, data: vec![0x90, 0xC3] }), 0x10).ok().unwrap();
    let meta = CodeMetadata::load(&obj, &[1]);
    assert_eq!(meta.get_function(0).unwrap().opcodes().len(), 2);
    assert_eq!(meta.get_function(1).unwrap().opcodes().len(), 1);
    assert!(meta.get_function(2).is_none());
    assert!(!meta.call_graph().has_vertex(0));
}

#[test]
fn test_code_metadata_load_call_outside_text() {
    // call qword ptr [rip+0xA]; ret
    let text = vec![0xFF, 0x15, 0x0A, 0x00, 0x00, 0x00, 0xC3];
    let obj = ObjectCode::load(Some(TextSection { address: 0, data: text }), 0).ok().unwrap();
    let meta = CodeMetadata::load(&obj, &[]);
    assert!(meta.call_graph().has_vertex(0));
    assert_eq!(meta.call_graph().get_star(0).edges(), &[16]);
    assert_eq!(meta.get_function(0).unwrap().opcodes().len(), 2);
    assert_eq!(meta.get_function(16).unwrap().opcodes().len(), 0);
}
