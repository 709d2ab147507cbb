use moq::messaging::{GroupPrinter, GroupSequence, PrintError, PublishAction};

#[test]
fn lines_become_numbered_groups() {
    let mut seq = GroupSequence::new(42);
    match seq.on_line(Some("hello".to_string())) {
        PublishAction::Send { group, text } => {
            assert_eq!(group, 42);
            assert_eq!(text, "hello");
        }
        PublishAction::Stop => panic!("expected a group"),
    }
    match seq.on_line(Some("world".to_string())) {
        PublishAction::Send { group, .. } => assert_eq!(group, 43),
        PublishAction::Stop => panic!("expected a group"),
    }
    assert!(matches!(seq.on_line(None), PublishAction::Stop));
    match seq.on_line(Some("again".to_string())) {
        PublishAction::Send { group, .. } => assert_eq!(group, 44),
        PublishAction::Stop => panic!("expected a group"),
    }
}

#[test]
fn printer_prefixes_later_frames_with_base() {
    let mut p = GroupPrinter::new();
    assert_eq!(p.end_group(), Err(PrintError::EmptyGroup));
    p.start_group();
    assert_eq!(p.on_frame(b"alice: "), None);
    assert_eq!(p.on_frame(b"hi"), Some("alice: hi".to_string()));
    assert_eq!(p.on_frame(b"there"), Some("alice: there".to_string()));
    assert_eq!(p.end_group(), Ok(()));
    p.start_group();
    assert_eq!(p.end_group(), Err(PrintError::EmptyGroup));
}

#[test]
fn printer_replaces_invalid_utf8() {
    let mut p = GroupPrinter::new();
    assert_eq!(p.on_frame(&[b'>', 0xff]), None);
    assert_eq!(p.on_frame(&[0xc3, 0xa9, 0x80]), Some(">\u{fffd}é\u{fffd}".to_string()));
    assert_eq!(p.on_text("x".to_string()), Some(">\u{fffd}x".to_string()));
}
