use hwgc_soft::cli::SimulationMemoryConfiguration::{
    C1D1R1, C1D1R2, C1D2R1, C1D2R2, C2D1R1, C2D1R2, C2D2R1, C2D2R2,
};
use hwgc_soft::cli::SimulationMemoryLinkTopology;
use hwgc_soft::header::Header;
use hwgc_soft::parse::{find_byte, parse_bool, parse_usize, starts_with};

#[test]
fn parse_numbers_and_booleans() {
    assert_eq!(parse_usize(b"123", 0, 3), Some(123));
    assert_eq!(parse_usize(b"+7", 0, 2), Some(7));
    assert_eq!(parse_usize(b"", 0, 0), None);
    assert_eq!(parse_usize(b"1a", 0, 2), None);
    assert_eq!(parse_usize(b"x42y", 1, 3), Some(42));
    assert_eq!(parse_bool(b"true", 0, 4), Some(true));
    assert_eq!(parse_bool(b"false", 0, 5), Some(false));
    assert_eq!(parse_bool(b"True", 0, 4), None);
    assert_eq!(find_byte(b"a_b_c", 0, b'_'), 1);
    assert_eq!(find_byte(b"a_b_c", 2, b'_'), 3);
    assert_eq!(find_byte(b"abc", 0, b'_'), 3);
    assert!(starts_with(b"linked_list_4", b"linked"));
    assert!(!starts_with(b"link", b"linked"));
}

#[test]
fn memory_configuration_ranks() {
    let all = [C1D1R1, C2D1R1, C1D2R1, C1D1R2, C1D2R2, C2D1R2, C2D2R1, C2D2R2];
    let totals = [1u8, 2, 2, 2, 4, 4, 4, 8];
    for (c, t) in all.iter().zip(totals.iter()) {
        assert_eq!(c.get_total_ranks(), *t);
    }
    // channel bit 13, DIMM bit 18, rank bit 19
    let addr = (1u64 << 13) | (1u64 << 19);
    assert_eq!(C1D1R1.get_owner_processor(addr), 0);
    assert_eq!(C2D1R1.get_owner_processor(addr), 1);
    assert_eq!(C1D2R1.get_owner_processor(addr), 0);
    assert_eq!(C2D2R2.get_owner_processor(addr), 5);
    assert_eq!(C2D1R2.get_global_rank_id(addr), 3);
    let _ = SimulationMemoryLinkTopology::Line;
}

#[test]
fn header_bytes() {
    let mut h = Header::new();
    for i in 0..8u8 {
        h.set_byte(i + 1, i);
    }
    assert_eq!(h.value(), 0x0807060504030201);
    for i in 0..8u8 {
        assert_eq!(h.get_byte(i), i + 1);
    }
    assert_eq!(h.get_mark_byte(), 1);
    assert_eq!(h.get_fwd_byte(), 8);
}
