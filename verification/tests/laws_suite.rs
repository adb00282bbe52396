//! Concrete instances of the library's laws.

use botboard_core::geometry::{symmetric_deltas, Delta};
use botboard_core::move_defs::{Gate, OriginGates};
use botboard_core::position::Position;
use botboard_core::variants::chess as c;

#[test]
fn symmetric_copies_are_distinct_and_nonzero() {
    for &(m, n, count) in [(1i8, 2i8, 8usize), (0, 1, 4), (1, 1, 4), (0, 0, 0), (3, -2, 8)].iter() {
        let ds = symmetric_deltas(m, n);
        assert_eq!(ds.len(), count);
        for (i, a) in ds.iter().enumerate() {
            assert!(!(a.dx == 0 && a.dy == 0));
            for b in ds.iter().skip(i + 1) {
                assert!(a != b);
            }
        }
    }
    assert!(symmetric_deltas(1, 2).contains(&Delta { dx: -2, dy: 1 }));
}

#[test]
fn last_moved_flag_decides_the_gate() {
    let g = c::game();
    let pos = Position::startpos(&g);
    let strict = OriginGates::compile(&vec![Gate::MovedFlag { must_be_unmoved: true }], None);
    assert!(!strict.pass(&g, &pos, 4, true, 1));
    assert!(strict.pass(&g, &pos, 4, false, 1));
    let relaxed = OriginGates::compile(
        &vec![Gate::MovedFlag { must_be_unmoved: true }, Gate::MovedFlag { must_be_unmoved: false }],
        None,
    );
    assert!(relaxed.pass(&g, &pos, 4, true, 1));
    let ep = OriginGates::compile(&vec![Gate::EphemeralMatch, Gate::PathClear], None);
    assert!(!ep.pass(&g, &pos, 4, false, 1));
}
