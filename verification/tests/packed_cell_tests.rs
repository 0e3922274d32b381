use minesweeper::packed_cell::PackedCell;

#[test]
fn packed_new_sets_only_the_mine_bit() {
    let c = PackedCell::new(true);
    assert!(c.is_mine());
    assert!(!c.is_visible());
    assert!(!c.is_marked());
    assert_eq!(c.neighbouring_mines(), 0);
    assert_eq!(*c.as_raw(), 0b0001_0000);
    let c = PackedCell::new(false);
    assert!(!c.is_mine());
    assert_eq!(*c.as_raw(), 0);
}

#[test]
fn packed_new_full_round_trips_every_attribute() {
    let c = PackedCell::new_full(true, false, true, 7);
    assert!(c.is_mine());
    assert!(!c.is_visible());
    assert!(c.is_marked());
    assert_eq!(c.neighbouring_mines(), 7);
    assert_eq!(*c.as_raw(), 0b0101_0111);
    let c = PackedCell::new_full(false, true, false, 8);
    assert!(!c.is_mine());
    assert!(c.is_visible());
    assert!(!c.is_marked());
    assert_eq!(c.neighbouring_mines(), 8);
}

#[test]
fn packed_setters_touch_only_their_own_bits() {
    let mut c = PackedCell::new_full(false, false, false, 5);
    c.set_mine(true);
    assert!(c.is_mine());
    assert_eq!(c.neighbouring_mines(), 5);
    c.set_visible(true);
    assert!(c.is_visible());
    assert!(c.is_mine());
    c.set_marked(true);
    assert!(c.is_marked());
    assert!(c.is_visible());
    c.set_mine(false);
    assert!(!c.is_mine());
    assert!(c.is_marked());
    assert_eq!(c.neighbouring_mines(), 5);
    c.set_neighbouring_mines(3);
    assert_eq!(c.neighbouring_mines(), 3);
    assert!(c.is_visible());
    assert!(c.is_marked());
    c.set_visible(false);
    assert!(!c.is_visible());
    c.set_marked(false);
    assert!(!c.is_marked());
    assert_eq!(c.neighbouring_mines(), 3);
}

#[test]
fn packed_raw_access_reads_and_writes_the_byte() {
    let mut c = PackedCell::new_full(true, true, false, 2);
    let raw = *c.as_raw();
    assert_eq!(raw, 0b0011_0010);
    *c.as_raw_mut() = 0b0100_0001;
    assert!(!c.is_mine());
    assert!(!c.is_visible());
    assert!(c.is_marked());
    assert_eq!(c.neighbouring_mines(), 1);
}
