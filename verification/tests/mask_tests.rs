use ranges::logic::Op;
use ranges::mask::{convert, Mask};
use ranges::types::{Port, Range, TypeRange, IP, MAX_PORT};

#[test]
fn test_convert() {
    assert_eq!(convert(10, 20), 655380);
}

#[test]
fn test_convert_formula() {
    // the packing is the address in the high 32 bits, the port in the low 16
    assert_eq!(convert(10, 20), (10 << 16) | 20);
    assert_eq!(convert(3, 7), 3 * 0x1_0000 + 7);
    assert_eq!(convert(0xFFFF_FFFF, 0xFFFF), 0xFFFF_FFFF_FFFF);
    assert_eq!(convert(0, 0), 0);
}

#[test]
fn test_collapse_unit_addresses() {
    // two unit address values crossed with two port ranges give four socket
    // intervals, each packing the address with the port range's bounds
    let mask = Mask {
        range_ips: vec![IP::new(5, 5), IP::new(9, 9)],
        range_ports: vec![Port::new(1, 2), Port::new(10, 20)],
    };
    let collapsed = mask.to_collapsed();
    assert_eq!(collapsed.range_of, Some(TypeRange::Socket));
    assert_eq!(collapsed.ranges.len(), 4);
    assert_eq!(collapsed.ranges[0].begin(), convert(5, 1));
    assert_eq!(collapsed.ranges[0].end(), convert(5, 2));
    assert_eq!(collapsed.ranges[1].begin(), convert(5, 10));
    assert_eq!(collapsed.ranges[1].end(), convert(5, 20));
    assert_eq!(collapsed.ranges[2].begin(), convert(9, 1));
    assert_eq!(collapsed.ranges[2].end(), convert(9, 2));
    assert_eq!(collapsed.ranges[3].begin(), convert(9, 10));
    assert_eq!(collapsed.ranges[3].end(), convert(9, 20));
}

#[test]
fn test_collapse_address_range() {
    // a three-address range with one port range expands to one row per address
    let mask = Mask { range_ips: vec![IP::new(2, 4)], range_ports: vec![Port::new(0, MAX_PORT)] };
    let collapsed = mask.to_collapsed();
    assert_eq!(collapsed.ranges.len(), 3);
    assert_eq!(collapsed.ranges[0].begin(), convert(2, 0));
    assert_eq!(collapsed.ranges[0].end(), convert(2, MAX_PORT));
    assert_eq!(collapsed.ranges[1].begin(), convert(3, 0));
    assert_eq!(collapsed.ranges[1].end(), convert(3, MAX_PORT));
    assert_eq!(collapsed.ranges[2].begin(), convert(4, 0));
    assert_eq!(collapsed.ranges[2].end(), convert(4, MAX_PORT));
}

#[test]
fn test_collapsed_mask_algebra() {
    // the projected socket sets feed the ordinary set algebra
    let mask_1 = Mask {
        range_ips: vec![IP::new(0, 0)],
        range_ports: vec![Port::new(0, 1000), Port::new(1500, 2000)],
    };
    let mask_2 = Mask {
        range_ips: vec![IP::new(0, 0)],
        range_ports: vec![Port::new(0, 1000), Port::new(1100, 2000)],
    };
    let op_xor: Op = mask_1.to_collapsed().bitxor(&mask_2.to_collapsed());
    assert_eq!(op_xor.ranges.len(), 1);
    assert_eq!(op_xor.ranges[0].begin(), 1100);
    assert_eq!(op_xor.ranges[0].end(), 1499);
}
