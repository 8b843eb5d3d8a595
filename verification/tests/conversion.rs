use guavagrams::Coordinate;
use guavagrams::GridIndex;

#[test]
fn test_conversion_sanity() {
    // Converting Coordinate to GridIndex
    assert_eq!(GridIndex::from(Coordinate(0, 0)), GridIndex(128, 127));
    assert_eq!(GridIndex::from(Coordinate(-128, -128)), GridIndex(0, 255));
    assert_eq!(GridIndex::from(Coordinate(127, 127)), GridIndex(255, 0));

    // Converting GridIndex to Coordinate
    assert_eq!(Coordinate::from(GridIndex(128, 127)), Coordinate(0, 0));
    assert_eq!(Coordinate::from(GridIndex(0, 255)), Coordinate(-128, -128));
    assert_eq!(Coordinate::from(GridIndex(255, 0)), Coordinate(127, 127));
}

#[test]
fn round_trip_asymmetric_coordinates() {
    // coordinates whose components differ must also survive the round trip
    for &(x, y) in &[(3i8, -7i8), (-128, 127), (127, -128), (1, 0), (0, -1)] {
        let c = Coordinate(x, y);
        assert_eq!(Coordinate::from(GridIndex::from(c)), c);
    }
    for &(col, row) in &[(0u8, 0u8), (255, 255), (1, 200), (199, 2)] {
        let i = GridIndex(col, row);
        assert_eq!(GridIndex::from(Coordinate::from(i)), i);
    }
}

#[test]
fn saturating_add_clamps_at_the_edges() {
    assert_eq!(
        Coordinate(127, 0).saturating_add(Coordinate(1, 0)),
        Coordinate(127, 0)
    );
    assert_eq!(
        Coordinate(0, -128).saturating_add(Coordinate(0, -1)),
        Coordinate(0, -128)
    );
    assert_eq!(
        Coordinate(100, 100).saturating_add(Coordinate(50, -100)),
        Coordinate(127, 0)
    );
    assert_eq!(
        Coordinate(5, 5).saturating_add(Coordinate(-1, 2)),
        Coordinate(4, 7)
    );
    assert_eq!(
        Coordinate(-100, 0).saturating_sub(Coordinate(100, 0)),
        Coordinate(-128, 0)
    );
    assert_eq!(
        Coordinate(10, 10).saturating_sub(Coordinate(3, -4)),
        Coordinate(7, 14)
    );
}

#[test]
fn overflowing_add_reports_the_seam() {
    // in range on both axes: no overflow, exact sum
    assert_eq!(
        Coordinate(5, -3).overflowing_add(Coordinate(1, 1)),
        (Coordinate(6, -2), false)
    );
    // past the positive edge: wrapped value and a raised flag
    assert_eq!(
        Coordinate(127, 0).overflowing_add(Coordinate(1, 0)),
        (Coordinate(-128, 0), true)
    );
    // past the negative edge
    assert_eq!(
        Coordinate(0, -128).overflowing_add(Coordinate(0, -1)),
        (Coordinate(0, 127), true)
    );
    // exactly at the edge: still in range
    assert_eq!(
        Coordinate(126, -127).overflowing_add(Coordinate(1, -1)),
        (Coordinate(127, -128), false)
    );
}
