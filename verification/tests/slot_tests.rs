use rtc_core::slot::OnceSlot;

#[test]
fn a_slot_hands_its_content_out_once() {
    let mut slot = OnceSlot::full(vec![1u8, 2, 3]);
    assert!(slot.is_full());
    assert_eq!(slot.take(), Some(vec![1u8, 2, 3]));
    assert!(!slot.is_full());
}

#[test]
fn second_consumption_fails_and_perturbs_nothing() {
    let mut slot = OnceSlot::full(7u64);
    assert_eq!(slot.take(), Some(7));
    assert_eq!(slot.take(), None);
    assert_eq!(slot.take(), None);
    assert!(!slot.is_full());
}

#[test]
fn a_spent_slot_never_yields() {
    let mut slot: OnceSlot<u32> = OnceSlot::spent();
    assert!(!slot.is_full());
    assert_eq!(slot.take(), None);
}
