use isometric_stanford::primitives::{CoreError, ObjectId, PaletteIndex};

#[test]
fn rejects_reserved_object_id() {
    assert_eq!(ObjectId::new(0), Err(CoreError::ReservedObjectId));
}

#[test]
fn stable_variation_is_repeatable() {
    let id = ObjectId::new(42).expect("42 is valid");
    assert_eq!(id.variation(7), id.variation(7));
    assert_eq!(id.variation(0), 0);
}

#[test]
fn palette_index_must_exist() {
    assert!(PaletteIndex::new(3, 4).is_ok());
    assert_eq!(
        PaletteIndex::new(4, 4),
        Err(CoreError::PaletteIndexOutOfRange)
    );
}

#[test]
fn object_id_round_trips_its_value() {
    let id = ObjectId::new(7).expect("valid id");
    assert_eq!(id.get(), 7);
    assert!(id.variation(5) < 5);
}

#[test]
fn palette_index_keeps_its_value() {
    assert_eq!(PaletteIndex::new(2, 3).expect("valid").get(), 2);
}
