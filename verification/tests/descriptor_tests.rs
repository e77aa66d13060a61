use dfu_layout::descriptor::{parse_memory_layout_string, parse_sector_layout, DefParseError};
use dfu_layout::memory::{Bank, MemoryMap, Sector};

#[test]
fn test_parse_memory_definition_string() {
    let defstr = "@Internal Flash  /0x08000000/04*016Kg,01*064Kg,03*128Kg";
    let memmap_result = parse_memory_layout_string(defstr);

    if memmap_result.is_err() {
        println!(
            "Parse failed, which should not happen: {:?}",
            memmap_result.unwrap_err()
        );
        assert!(true);
        return;
    }

    // Get the memory map
    let memmap = memmap_result.unwrap();

    // Assert the content of the map
    assert_eq!("Internal Flash", memmap.name);
    assert_eq!(1, memmap.banks().len());

    // Borrow a reference to the bank
    let bank = &memmap.banks()[0];

    // Check the bank properties
    assert_eq!(0x8000000, bank.address);
    assert_eq!(0, bank.index);

    // Get a reference to the sectors
    let sectors = bank.sectors();

    // Sectors 0-3
    assert_eq!(0, sectors[0].index);
    assert_eq!(0x8000000, sectors[0].address);
    assert_eq!(0x10000, sectors[0].total_size());

    // Sector 4
    assert_eq!(4, sectors[1].index);
    assert_eq!(0x8010000, sectors[1].address);
    assert_eq!(0x10000, sectors[1].total_size());

    // Sectors 5-7
    assert_eq!(5, sectors[2].index);
    assert_eq!(0x8020000, sectors[2].address);
    assert_eq!(0x60000, sectors[2].total_size());
}

#[test]
fn parse_rejects_missing_at_sign() {
    let r = parse_memory_layout_string("Internal Flash/0x08000000/04*016Kg");
    assert!(matches!(r, Err(DefParseError::InvalidStartChar)));
}

#[test]
fn parse_rejects_empty_string() {
    let r = parse_memory_layout_string("");
    assert!(matches!(r, Err(DefParseError::InvalidStartChar)));
}

#[test]
fn parse_rejects_address_without_layout() {
    let r = parse_memory_layout_string("@Internal Flash/0x08000000");
    assert!(matches!(r, Err(DefParseError::InvalidBankPartCount)));
}

#[test]
fn parse_rejects_bad_address() {
    let r = parse_memory_layout_string("@Internal Flash/zzz/04*016Kg");
    assert!(matches!(r, Err(DefParseError::AddressParseError)));
}

#[test]
fn parse_rejects_unknown_access_char() {
    let r = parse_memory_layout_string("@Internal Flash/0x08000000/04*016Kz");
    assert!(matches!(r, Err(DefParseError::InvalidSectorDefinition)));
}

#[test]
fn parse_rejects_unknown_multiplier_char() {
    let r = parse_memory_layout_string("@Internal Flash/0x08000000/04*016Qg");
    assert!(matches!(r, Err(DefParseError::InvalidSectorDefinition)));
}

#[test]
fn parse_rejects_token_without_star() {
    let r = parse_memory_layout_string("@Internal Flash/0x08000000/016Kg");
    assert!(matches!(r, Err(DefParseError::InvalidSectorDefinition)));
}

#[test]
fn parse_reads_two_banks() {
    let r = parse_memory_layout_string("@OTP Memory /0x1FFF7800/01*512 e/0x1FFFC000/01*016 e");
    let map = r.unwrap();
    assert_eq!("OTP Memory", map.name);
    assert_eq!(2, map.banks().len());
    let b0 = &map.banks()[0];
    let b1 = &map.banks()[1];
    assert_eq!(0, b0.index);
    assert_eq!(0x1FFF7800, b0.address);
    assert_eq!(1, b0.sectors().len());
    assert_eq!(512, b0.sectors()[0].total_size());
    assert_eq!(1, b1.index);
    assert_eq!(0x1FFFC000, b1.address);
    assert_eq!(16, b1.sectors()[0].total_size());
}

#[test]
fn parse_byte_granularity_multiplier_means_bytes() {
    // A space multiplier scales by one, so `01*004 e` is four bytes.
    let map = parse_memory_layout_string("@Device Feature/0xFFFF0000/01*004 e").unwrap();
    let sectors = map.banks()[0].sectors();
    assert_eq!(1, sectors[0].block_count);
    assert_eq!(4, sectors[0].block_size);
    assert_eq!(4, sectors[0].total_size());
}

#[test]
fn parse_same_string_twice_gives_equal_maps() {
    let defstr = "@Internal Flash  /0x08000000/04*016Kg,01*064Kg,03*128Kg";
    let m1 = parse_memory_layout_string(defstr).unwrap();
    let m2 = parse_memory_layout_string(defstr).unwrap();
    assert!(maps_equal(&m1, &m2));
}

fn maps_equal(a: &MemoryMap, b: &MemoryMap) -> bool {
    if a.name != b.name || a.banks().len() != b.banks().len() {
        return false;
    }
    for i in 0..a.banks().len() {
        if !banks_equal(&a.banks()[i], &b.banks()[i]) {
            return false;
        }
    }
    true
}

fn banks_equal(a: &Bank, b: &Bank) -> bool {
    if a.index != b.index || a.address != b.address || a.sectors().len() != b.sectors().len() {
        return false;
    }
    for i in 0..a.sectors().len() {
        let x: &Sector = &a.sectors()[i];
        let y: &Sector = &b.sectors()[i];
        if x != y {
            return false;
        }
    }
    true
}

#[test]
fn parse_sector_layout_reads_one_token() {
    let sec = parse_sector_layout(4, 0x08010000, "01*064Kg").unwrap();
    assert_eq!(4, sec.index);
    assert_eq!(0x08010000, sec.address);
    assert_eq!(1, sec.block_count);
    assert_eq!(0x10000, sec.block_size);
}

#[test]
fn parse_sector_layout_rejects_bad_access() {
    assert!(parse_sector_layout(0, 0, "04*016Kz").is_err());
}

#[test]
fn parse_sector_layout_trims_fields() {
    let sec = parse_sector_layout(0, 0, " 2 * 3 Kg").unwrap();
    assert_eq!(2, sec.block_count);
    assert_eq!(3 * 1024, sec.block_size);
}

#[test]
fn parse_name_is_trimmed() {
    let map = parse_memory_layout_string("@  Option Bytes  /0x1FFFC000/01*016 e").unwrap();
    assert_eq!("Option Bytes", map.name);
}

#[test]
fn parse_mebibyte_multiplier_scales_by_1048576() {
    let map = parse_memory_layout_string("@External RAM/0xD0000000/01*002Mg").unwrap();
    let sectors = map.banks()[0].sectors();
    assert_eq!(2 * 1024 * 1024, sectors[0].block_size);
}

#[test]
fn parse_bank_address_uses_numeric_literal_rules() {
    // A bank address is read by the same multi-radix parser as a CLI
    // offset, so a leading zero means octal.
    let map = parse_memory_layout_string("@X/017/01*001 a").unwrap();
    assert_eq!(15, map.banks()[0].address);
}

#[test]
fn parse_rejects_empty_layout_segment() {
    let r = parse_memory_layout_string("@X/0x1000/");
    assert!(matches!(r, Err(DefParseError::InvalidSectorDefinition)));
}

#[test]
fn parse_accepts_zero_block_count() {
    // A zero count is unusual but not malformed: the model allows an
    // empty run, and the next sector starts at the same address.
    let map = parse_memory_layout_string("@X/0x1000/00*016Kg,01*001 a").unwrap();
    let sectors = map.banks()[0].sectors();
    assert_eq!(0, sectors[0].block_count);
    assert_eq!(0x1000, sectors[1].address);
    assert_eq!(0, sectors[1].index);
}

#[test]
fn parse_chained_addresses_follow_sizes() {
    let map = parse_memory_layout_string("@F/0x1000/02*001Kg,01*002Kd,04*001 a").unwrap();
    let sectors = map.banks()[0].sectors();
    assert_eq!(3, sectors.len());
    assert_eq!(0x1000, sectors[0].address);
    assert_eq!(0, sectors[0].index);
    assert_eq!(0x1000 + 2 * 1024, sectors[1].address);
    assert_eq!(2, sectors[1].index);
    assert_eq!(0x1000 + 2 * 1024 + 2 * 1024, sectors[2].address);
    assert_eq!(3, sectors[2].index);
}
