use rts_client::position::{Point, Position, WalkPosition, TilePosition, Scale8};
use std::marker::PhantomData;
use std::mem::size_of;

#[test]
fn test_position() {
    assert!(8 == size_of::<Position>());
    assert!(Position { x: 0, y: 0, scale: PhantomData } == Position::default());
    assert!(Position { x: 24, y: 42, scale: PhantomData } == Position::new(24, 42));
    assert!(Position::new(3, 13) == Position::new(1, 5) + Position::new(2, 8));
    assert!(Position::new(1, 5) == Position::new(3, 13) - Position::new(2, 8));
    assert!(Position::new(2, 10) == Position::new(1, 5) * 2);
    assert!(Position::new(12, 21) == Position::new(24, 42) / 2);
    assert!(Position::new(2, 1) == Position::new(2, 7) % 3);
    assert!(Position::new(8, 16) == Position::from(WalkPosition::new(1, 2)));
}

#[test]
fn position_scale_constants() {
    assert_eq!(Position::get_scale(), 1);
    assert_eq!(WalkPosition::get_scale(), 8);
    assert_eq!(TilePosition::get_scale(), 32);
}

#[test]
fn position_downscale_truncates() {
    assert!(TilePosition::new(1, 0) == TilePosition::from(Position::new(63, 20)));
    assert!(WalkPosition::new(4, -1) == WalkPosition::from(Position::new(33, -15)));
}

#[test]
fn point_generic_over_scales() {
    let p: Point<Scale8> = Point::new(6, 10);
    assert!(Point::<Scale8>::new(3, 5) == p / 2);
}
