use jackcatos::idt::IdtEntry;

#[test]
fn handler_address_is_split_over_the_gate() {
    let mut e = IdtEntry::new();
    assert_eq!(e.offset_low, 0);
    e.set_handler(0x1122_3344_5566_7788);
    assert_eq!(e.offset_low, 0x7788);
    assert_eq!(e.offset_middle, 0x5566);
    assert_eq!(e.offset_high, 0x1122_3344);
    assert_eq!(e.selector, 0x18);
    assert_eq!(e.type_attr, 0x8E);
    assert_eq!(e.ist, 0);
    assert_eq!(e.zero, 0);
}
