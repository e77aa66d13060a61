use dfu_layout::memory::{Accessibility, Bank, MemoryMap, Sector};

#[test]
fn full_access_sector_permits_every_combination() {
    let sec = Sector::new(0, 0x08000000, 4, 0x4000, Accessibility::read_write_erase());
    let combos = vec![
        Accessibility::none(),
        Accessibility::read(),
        Accessibility::write(),
        Accessibility::erase(),
        Accessibility::read_write(),
        Accessibility::read_erase(),
        Accessibility::write_erase(),
        Accessibility::read_write_erase(),
    ];
    for req in combos {
        assert!(sec.is_accessible(req));
    }
}

#[test]
fn read_only_sector_refuses_write() {
    let sec = Sector::new(0, 0, 1, 16, Accessibility::read());
    assert!(sec.is_accessible(Accessibility::read()));
    assert!(!sec.is_accessible(Accessibility::write()));
    assert!(!sec.is_accessible(Accessibility::read_write()));
    assert!(!sec.is_accessible(Accessibility::write_erase()));
}

#[test]
fn sector_total_size_is_count_times_size() {
    let sec = Sector::new(0, 0, 4, 0x4000, Accessibility::read());
    assert_eq!(0x10000, sec.total_size());
}

#[test]
fn sector_next_continues_blocks_and_addresses() {
    let sec = Sector::new(0, 0x08000000, 4, 0x4000, Accessibility::read_write_erase());
    let nxt = sec.next(1, 0x10000, Accessibility::read_write());
    assert_eq!(4, nxt.index);
    assert_eq!(0x08010000, nxt.address);
    assert_eq!(1, nxt.block_count);
    assert_eq!(0x10000, nxt.block_size);
    assert_eq!(Accessibility::read_write(), nxt.access);
}

#[test]
fn bank_from_sectors_takes_first_address() {
    let s0 = Sector::new(0, 0x1000, 2, 16, Accessibility::read());
    let s1 = s0.next(1, 32, Accessibility::read());
    let bank = Bank::from_sectors(3, vec![s0, s1]);
    assert_eq!(3, bank.index);
    assert_eq!(0x1000, bank.address);
    assert_eq!(2, bank.sectors().len());
}

#[test]
fn bank_without_sectors_has_address_zero() {
    let bank = Bank::from_sectors(0, Vec::new());
    assert_eq!(0, bank.address);
    assert_eq!(0, bank.sectors().len());
}

#[test]
fn bank_total_size_sums_sectors() {
    let s0 = Sector::new(0, 0x1000, 2, 16, Accessibility::read());
    let s1 = s0.next(4, 8, Accessibility::read());
    let bank = Bank::from_sectors(0, vec![s0, s1]);
    assert_eq!(2 * 16 + 4 * 8, bank.total_size());
}

#[test]
fn memory_map_total_size_sums_banks() {
    let a = Bank::new(0, 0x1000, vec![Sector::new(0, 0x1000, 2, 16, Accessibility::read())]);
    let b = Bank::new(1, 0x2000, vec![Sector::new(0, 0x2000, 3, 4, Accessibility::write())]);
    let map = MemoryMap::new(String::from("Area"), vec![a, b]);
    assert_eq!("Area", map.name);
    assert_eq!(2, map.banks().len());
    assert_eq!(2 * 16 + 3 * 4, map.total_size());
}

#[test]
fn accessibility_union_joins_bits() {
    let rw = Accessibility::read().union(Accessibility::write());
    assert_eq!(Accessibility::read_write(), rw);
}
