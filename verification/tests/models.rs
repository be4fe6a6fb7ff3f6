use neutral_grid::models::{
    compose_cl_ord_id, format_cl_ord_id, parse_cl_ord_id, OrderCounter, PosSide, Side,
};

#[test]
fn an_id_names_its_slot() {
    let mut counter = OrderCounter::new();
    let id = format_cl_ord_id(&mut counter, PosSide::Long, Side::Sell, -7);
    assert!(id.starts_with("NGBLSM7R"));
    assert_eq!(parse_cl_ord_id(&id), Some((PosSide::Long, Side::Sell, -7)));
}

#[test]
fn every_slot_is_named() {
    let mut counter = OrderCounter::new();
    for pos_side in [PosSide::Long, PosSide::Short] {
        for side in [Side::Buy, Side::Sell] {
            for k in [0, 1, -1, 10, -10, i32::MAX, -i32::MAX] {
                let id = format_cl_ord_id(&mut counter, pos_side, side, k);
                assert!(id.len() <= 32);
                assert_eq!(parse_cl_ord_id(&id), Some((pos_side, side, k)));
            }
        }
    }
    assert_eq!(counter.fetch_next(), 28);
}

#[test]
fn an_id_is_composed() {
    assert_eq!(
        compose_cl_ord_id(PosSide::Short, Side::Buy, 3, 0xdead_beef, 26),
        "NGBSB3Rdeadbeef1a"
    );
    assert_eq!(compose_cl_ord_id(PosSide::Long, Side::Buy, -12, 0, 0), "NGBLBM12R00");
}

#[test]
fn an_id_is_cut_off() {
    let id = compose_cl_ord_id(PosSide::Long, Side::Sell, -2_147_483_647, u64::MAX, usize::MAX);
    assert_eq!(id, "NGBLSM2147483647Rfffffffffffffff");
    assert_eq!(id.len(), 32);
}

#[test]
fn two_ids_of_a_slot_differ() {
    let mut counter = OrderCounter::new();
    let a = format_cl_ord_id(&mut counter, PosSide::Long, Side::Buy, 1);
    let b = format_cl_ord_id(&mut counter, PosSide::Long, Side::Buy, 1);
    assert_ne!(a, b);
}

#[test]
fn foreign_ids_name_no_slot() {
    for id in [
        "", "NGB", "NGBLB3", "XGBLB3R1", "NGBXB3R1", "NGBLX3R1", "NGBR", "NGBLBR1", "NGBLBMR1",
        "NGBLB3x4R1", "NGBLB2147483648R1", "ngblb3R1",
    ] {
        assert_eq!(parse_cl_ord_id(id), None, "{}", id);
    }
}

#[test]
fn odd_ids_that_name_a_slot() {
    assert_eq!(parse_cl_ord_id("NGBLB+3R"), Some((PosSide::Long, Side::Buy, 3)));
    assert_eq!(parse_cl_ord_id("NGBLB-3R"), Some((PosSide::Long, Side::Buy, -3)));
    assert_eq!(parse_cl_ord_id("NGBLBM-3R"), Some((PosSide::Long, Side::Buy, 3)));
    assert_eq!(parse_cl_ord_id("NGBSS007Rx"), Some((PosSide::Short, Side::Sell, 7)));
}
