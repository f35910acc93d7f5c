use valence::context::{context_step, signed_message, ContextStep};

const ROOT: &str = "0101010101010101010101010101010101010101010101010101010101010101";
const CIRCUIT: &str = "0202020202020202020202020202020202020202020202020202020202020202";

#[test]
fn unsigned_request_builds_the_named_context() {
    match context_step(true, Some(CIRCUIT), Some(ROOT), None, None) {
        ContextStep::Build { controller, root } => {
            assert_eq!(controller, [2u8; 32]);
            assert_eq!(root, Some([1u8; 32]));
        }
        other => panic!("unexpected step {other:?}"),
    }
    match context_step(true, None, None, None, None) {
        ContextStep::Build { controller, root } => {
            assert_eq!(controller, [0u8; 32]);
            assert_eq!(root, None);
        }
        other => panic!("unexpected step {other:?}"),
    }
}

#[test]
fn invalid_ids_are_refused_with_the_status_alone() {
    assert!(matches!(
        context_step(true, Some("zz"), None, None, None),
        ContextStep::BadRequest(None)
    ));
    assert!(matches!(
        context_step(true, Some(CIRCUIT), Some("0102"), None, None),
        ContextStep::BadRequest(None)
    ));
}

#[test]
fn signed_request_recovers_its_owner() {
    match context_step(false, Some(CIRCUIT), None, Some("0xabCD"), Some("id-1")) {
        ContextStep::Recover { controller, root, signature, uuid, read_body } => {
            assert_eq!(controller, [2u8; 32]);
            assert_eq!(root, None);
            assert_eq!(signature, vec![0xab, 0xcd]);
            assert_eq!(uuid, "id-1");
            assert!(read_body);
        }
        other => panic!("unexpected step {other:?}"),
    }
    match context_step(true, None, None, Some("00"), None) {
        ContextStep::Recover { uuid, read_body, .. } => {
            assert_eq!(uuid, "");
            assert!(!read_body);
        }
        other => panic!("unexpected step {other:?}"),
    }
}

#[test]
fn invalid_signature_is_refused_with_the_decoder_message() {
    match context_step(true, None, None, Some("abc"), None) {
        ContextStep::BadRequest(Some(m)) => assert_eq!(m, "odd number of digits"),
        other => panic!("unexpected step {other:?}"),
    }
    match context_step(true, None, None, Some("zz"), None) {
        ContextStep::BadRequest(Some(m)) => assert_eq!(m, "invalid character 'z' at position 0"),
        other => panic!("unexpected step {other:?}"),
    }
    // the position counts from after the prefix
    match context_step(true, None, None, Some("0x0g"), None) {
        ContextStep::BadRequest(Some(m)) => assert_eq!(m, "invalid character 'g' at position 1"),
        other => panic!("unexpected step {other:?}"),
    }
    match context_step(true, None, None, Some("0\n"), None) {
        ContextStep::BadRequest(Some(m)) => assert_eq!(m, "invalid character '\\n' at position 1"),
        other => panic!("unexpected step {other:?}"),
    }
}

#[test]
fn signed_message_is_the_json_text() {
    let data: serde_json::Value = serde_json::from_str("{\"b\":[1,2],\"a\":null}").unwrap();
    assert_eq!(signed_message(&data), serde_json::to_vec(&data).unwrap());
    assert_eq!(signed_message(&serde_json::Value::Null), b"null".to_vec());
}
