//! The terrain registry: authoring ids and their codes.

use botboard_core::terrain_defs::{by_id, row, T_ACID, T_BLOCK2, T_CONV_W, T_ICE, T_MINE0, T_PIT, T_WALL};

#[test]
fn authorable_ids_name_their_rows() {
    assert_eq!(by_id("wall"), Some(T_WALL));
    assert_eq!(by_id("pit"), Some(T_PIT));
    assert_eq!(by_id("ice"), Some(T_ICE));
    assert_eq!(by_id("acid"), Some(T_ACID));
    assert_eq!(by_id("block2"), Some(T_BLOCK2));
    assert_eq!(by_id("conv_w"), Some(T_CONV_W));
    for t in [T_WALL, T_PIT, T_ICE, T_ACID, T_BLOCK2, T_CONV_W] {
        assert_eq!(by_id(row(t).id), Some(t));
    }
}

#[test]
fn absence_owner_band_and_unknown_ids_are_not_authorable() {
    assert_eq!(row(T_MINE0).id, "mine");
    assert_eq!(by_id("mine"), None);
    assert_eq!(by_id("none"), None);
    assert_eq!(by_id("lava"), None);
    assert_eq!(by_id(""), None);
    assert_eq!(by_id("Wall"), None);
}
