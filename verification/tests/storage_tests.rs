use ship_alive::items::ItemKind;
use ship_alive::storage::StorageCell;

#[test]
fn capacity_limits() {
    let mut s = StorageCell::default();
    for _ in 0..4 {
        assert!(s.try_add(ItemKind::Ore));
    }
    assert!(!s.has_space());
    assert!(!s.try_add(ItemKind::Crate));
    assert_eq!(s.counts[ItemKind::Ore.index()], 4);
    assert_eq!(s.label(), "4/4");
}

#[test]
fn stored_and_free_counts() {
    let mut s = StorageCell::default();
    assert_eq!(s.free(), 4);
    assert!(s.try_add(ItemKind::Part));
    assert!(s.try_add(ItemKind::Crate));
    assert_eq!(s.stored(), 2);
    assert_eq!(s.free(), 2);
    assert_eq!(s.label(), "2/4");
}

#[test]
fn stocked_racks_hand_items_out() {
    let mut r = ship_alive::storage::StorageCell::with_stock(ship_alive::items::ItemKind::Ore, 3);
    assert_eq!(r.counts, [0, 3, 0]);
    assert!(r.has_kind(ship_alive::items::ItemKind::Ore));
    assert!(!r.has_kind(ship_alive::items::ItemKind::Part));
    assert!(r.can_take(ship_alive::items::ItemKind::Part));
    assert!(r.take(ship_alive::items::ItemKind::Ore));
    assert_eq!(r.counts, [0, 2, 0]);
    assert!(!r.take(ship_alive::items::ItemKind::Crate));
    assert_eq!(r.counts, [0, 2, 0]);
}
