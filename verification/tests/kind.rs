use sorting_game::game::stack::kind::{HasId, IsEmpty, Kind, KindId, EMPTY_SLOT_VALUE};

#[test]
fn kind_new_keeps_id_and_quantity() {
    let kind = Kind::new(7, 3);
    assert_eq!(kind.get_id(), 7);
    assert_eq!(kind.get_quantity(), 3);
    assert!(!kind.is_empty());
}

#[test]
fn kind_empty_is_sentinel_with_no_units() {
    let kind = Kind::new_empty();
    assert_eq!(kind.get_id(), 0);
    assert_eq!(kind.get_quantity(), 0);
    assert!(kind.is_empty());
    assert_eq!(Kind::get_empty_id(), 0);
    assert_eq!(EMPTY_SLOT_VALUE, 0);
}

#[test]
fn kind_is_empty_goes_by_id_alone() {
    assert!(Kind::new(0, 4).is_empty());
    assert!(!Kind::new(4, 0).is_empty());
}

#[test]
fn kind_set_quantity_changes_quantity_only() {
    let mut kind = Kind::new(2, 5);
    kind.set_quantity(9);
    assert_eq!(kind, Kind::new(2, 9));
}

#[test]
fn kinds_compare_by_fields() {
    assert_eq!(Kind::new(1, 2), Kind::new(1, 2));
    assert_ne!(Kind::new(1, 2), Kind::new(1, 3));
    assert_ne!(Kind::new(1, 2), Kind::new(2, 2));
    assert!(Kind::new(1, 9) < Kind::new(2, 0));
}

#[test]
fn ids_and_kinds_carry_an_id() {
    let id: KindId = 12;
    assert_eq!(HasId::get_id(&id), 12);
    assert_eq!(HasId::get_id(&Kind::new(5, 1)), 5);
    assert!(IsEmpty::is_empty(&EMPTY_SLOT_VALUE));
    assert!(!IsEmpty::is_empty(&id));
}
