use choosen::{Position, PositionType, PositionTypeError};

#[test]
fn test_default() {
    let pos = Position::default();
    assert_eq!(pos.name(), "default_name");
    assert_eq!(pos.cap(), 1);
}

#[test]
fn test_set_valid_name() {
    let _ = Position::default().set_name("some other anme");
}

#[test]
fn test_set_empty_name() {
    let mut pos = Position::default();
    let result = pos.set_name("");
    assert_eq!(result.err(), Some(PositionTypeError::EmptyName));
}

#[test]
fn test_set_valid_cap() {
    let _ = Position::default().set_cap(15);
}

#[test]
fn test_set_zero_cap() {
    let mut pos = Position::default();
    let result = pos.set_cap(0);
    assert_eq!(result.err(), Some(PositionTypeError::ZeroCapacity));
}

#[test]
fn setters_chain_and_take_effect() {
    let mut pos = Position::default();
    let changed = pos.set_name("gold").unwrap().set_cap(15).unwrap();
    assert_eq!(changed.name(), "gold");
    assert_eq!(changed.cap(), 15);
    assert_eq!(pos.name(), "gold");
    assert_eq!(pos.cap(), 15);
}

#[test]
fn refused_setters_leave_the_position_as_it_was() {
    let mut pos = Position::default();
    assert!(pos.set_name("").is_err());
    assert!(pos.set_cap(0).is_err());
    assert_eq!(pos.name(), "default_name");
    assert_eq!(pos.cap(), 1);
}

#[test]
fn a_clone_is_the_same_position() {
    let mut pos = Position::default();
    let _ = pos.set_name("silver");
    let _ = pos.set_cap(3);
    let copy = pos.clone();
    assert_eq!(copy.name(), "silver");
    assert_eq!(copy.cap(), 3);
}
