use ranges::logic::Op;
use ranges::types::{Port, Range, Socket, TypeRange, IP, MAX_IP, MAX_PORT, MAX_SOCKET};

#[test]
fn test_operator_port_xor() {
    let a: Port = Port::new(0, 1000);
    let b: Port = Port::new(1500, 2000);
    let op_1 = Op { ranges: vec![a.duplicate(), b.duplicate()], range_of: None };
    let c: Port = Port::new(0, 1000);
    let d: Port = Port::new(1100, 2000);
    let op_2 = Op { ranges: vec![c.duplicate(), d.duplicate()], range_of: None };

    let op_xor = op_1.bitxor(&op_2);
    assert_eq!(op_xor.ranges.len(), 1);
    assert_eq!(op_xor.ranges[0].begin(), 1100);
    assert_eq!(op_xor.ranges[0].end(), 1499);
    assert_eq!(op_xor.range_of.unwrap(), TypeRange::Port);
}

#[test]
fn test_operator_ip_xor() {
    let a: IP = IP::new(0, 1000);
    let b: IP = IP::new(1500, 2000);
    let op_1 = Op { ranges: vec![a.duplicate(), b.duplicate()], range_of: None };
    let c: IP = IP::new(0, 1000);
    let d: IP = IP::new(1100, 2000);
    let op_2 = Op { ranges: vec![c.duplicate(), d.duplicate()], range_of: None };

    let op_xor = op_1.bitxor(&op_2);
    assert_eq!(op_xor.ranges.len(), 1);
    assert_eq!(op_xor.ranges[0].begin(), 1100);
    assert_eq!(op_xor.ranges[0].end(), 1499);
    assert_eq!(op_xor.range_of.unwrap(), TypeRange::IP);
}

#[test]
fn test_operator_socket_xor() {
    let a: Socket = Socket::new(0, 1000);
    let b: Socket = Socket::new(1500, 2000);
    let op_1 = Op { ranges: vec![a.duplicate(), b.duplicate()], range_of: None };
    let c: Socket = Socket::new(0, 1000);
    let d: Socket = Socket::new(1100, 2000);
    let op_2 = Op { ranges: vec![c.duplicate(), d.duplicate()], range_of: None };

    let op_xor = op_1.bitxor(&op_2);
    assert_eq!(op_xor.ranges.len(), 1);
    assert_eq!(op_xor.ranges[0].begin(), 1100);
    assert_eq!(op_xor.ranges[0].end(), 1499);
    assert_eq!(op_xor.range_of.unwrap(), TypeRange::Socket);
}

#[test]
fn test_operator_port_sub_1() {
    let a: Port = Port::new(0, 1000);
    let b: Port = Port::new(1500, 2000);
    let op_1 = Op { ranges: vec![a.duplicate(), b.duplicate()], range_of: None };
    let c: Port = Port::new(0, 1000);
    let d: Port = Port::new(1100, 2000);
    let op_2 = Op { ranges: vec![c.duplicate(), d.duplicate()], range_of: None };

    let op_sub = op_1.sub(&op_2);
    assert_eq!(op_sub.ranges.len(), 0);
    assert_eq!(op_sub.range_of.unwrap(), TypeRange::Port);
}

#[test]
fn test_operator_port_sub_2() {
    let a: Port = Port::new(0, 1000);
    let b: Port = Port::new(1500, 2000);
    let op_1 = Op { ranges: vec![a.duplicate(), b.duplicate()], range_of: None };
    let c: Port = Port::new(0, 1000);
    let d: Port = Port::new(1100, 2000);
    let op_2 = Op { ranges: vec![c.duplicate(), d.duplicate()], range_of: None };

    let op_sub = op_2.sub(&op_1);
    assert_eq!(op_sub.ranges.len(), 1);
    assert_eq!(op_sub.ranges[0].begin(), 1100);
    assert_eq!(op_sub.ranges[0].end(), 1499);
    assert_eq!(op_sub.range_of.unwrap(), TypeRange::Port);
}

#[test]
fn test_operator_ip_sub_1() {
    let a: IP = IP::new(0, 1000);
    let b: IP = IP::new(1500, 2000);
    let op_1 = Op { ranges: vec![a.duplicate(), b.duplicate()], range_of: None };
    let c: IP = IP::new(0, 1000);
    let d: IP = IP::new(1100, 2000);
    let op_2 = Op { ranges: vec![c.duplicate(), d.duplicate()], range_of: None };

    let op_sub = op_1.sub(&op_2);
    assert_eq!(op_sub.ranges.len(), 0);
    assert_eq!(op_sub.range_of.unwrap(), TypeRange::IP);
}

#[test]
fn test_operator_ip_sub_2() {
    let a: IP = IP::new(0, 1000);
    let b: IP = IP::new(1500, 2000);
    let op_1 = Op { ranges: vec![a.duplicate(), b.duplicate()], range_of: None };
    let c: IP = IP::new(0, 1000);
    let d: IP = IP::new(1100, 2000);
    let op_2 = Op { ranges: vec![c.duplicate(), d.duplicate()], range_of: None };

    let op_sub = op_2.sub(&op_1);
    assert_eq!(op_sub.ranges.len(), 1);
    assert_eq!(op_sub.ranges[0].begin(), 1100);
    assert_eq!(op_sub.ranges[0].end(), 1499);
    assert_eq!(op_sub.range_of.unwrap(), TypeRange::IP);
}

#[test]
fn test_operator_socket_sub_1() {
    let a: Socket = Socket::new(0, 1000);
    let b: Socket = Socket::new(1500, 2000);
    let op_1 = Op { ranges: vec![a.duplicate(), b.duplicate()], range_of: None };
    let c: Socket = Socket::new(0, 1000);
    let d: Socket = Socket::new(1100, 2000);
    let op_2 = Op { ranges: vec![c.duplicate(), d.duplicate()], range_of: None };

    let op_sub = op_1.sub(&op_2);
    assert_eq!(op_sub.ranges.len(), 0);
    assert_eq!(op_sub.range_of.unwrap(), TypeRange::Socket);
}

#[test]
fn test_operator_socket_sub_2() {
    let a: Socket = Socket::new(0, 1000);
    let b: Socket = Socket::new(1500, 2000);
    let op_1 = Op { ranges: vec![a.duplicate(), b.duplicate()], range_of: None };
    let c: Socket = Socket::new(0, 1000);
    let d: Socket = Socket::new(1100, 2000);
    let op_2 = Op { ranges: vec![c.duplicate(), d.duplicate()], range_of: None };

    let op_sub = op_2.sub(&op_1);
    assert_eq!(op_sub.ranges.len(), 1);
    assert_eq!(op_sub.ranges[0].begin(), 1100);
    assert_eq!(op_sub.ranges[0].end(), 1499);
    assert_eq!(op_sub.range_of.unwrap(), TypeRange::Socket);
}

#[test]
fn test_operator_port_and() {
    let a: Port = Port::new(0, 1000);
    let b: Port = Port::new(1500, 2000);
    let op_1 = Op { ranges: vec![a.duplicate(), b.duplicate()], range_of: None };
    let c: Port = Port::new(0, 1000);
    let d: Port = Port::new(1100, 2000);
    let op_2 = Op { ranges: vec![c.duplicate(), d.duplicate()], range_of: None };

    let log_and = op_1.bitand(&op_2);
    assert_eq!(log_and.ranges.len(), 2);
    assert_eq!(log_and.ranges[0].begin(), 0);
    assert_eq!(log_and.ranges[0].end(), 1000);
    assert_eq!(log_and.ranges[1].begin(), 1500);
    assert_eq!(log_and.ranges[1].end(), 2000);
    assert_eq!(log_and.range_of.unwrap(), TypeRange::Port);
}

#[test]
fn test_operator_ip_and() {
    let a: IP = IP::new(0, 1000);
    let b: IP = IP::new(1500, 2000);
    let op_1 = Op { ranges: vec![a.duplicate(), b.duplicate()], range_of: None };
    let c: IP = IP::new(0, 1000);
    let d: IP = IP::new(1100, 2000);
    let op_2 = Op { ranges: vec![c.duplicate(), d.duplicate()], range_of: None };

    let log_and = op_1.bitand(&op_2);
    assert_eq!(log_and.ranges.len(), 2);
    assert_eq!(log_and.ranges[0].begin(), 0);
    assert_eq!(log_and.ranges[0].end(), 1000);
    assert_eq!(log_and.ranges[1].begin(), 1500);
    assert_eq!(log_and.ranges[1].end(), 2000);
    assert_eq!(log_and.range_of.unwrap(), TypeRange::IP);
}

#[test]
fn test_operator_socket_and() {
    let a: Socket = Socket::new(0, 1000);
    let b: Socket = Socket::new(1500, 2000);
    let op_1 = Op { ranges: vec![a.duplicate(), b.duplicate()], range_of: None };
    let c: Socket = Socket::new(0, 1000);
    let d: Socket = Socket::new(1100, 2000);
    let op_2 = Op { ranges: vec![c.duplicate(), d.duplicate()], range_of: None };

    let log_and = op_1.bitand(&op_2);
    assert_eq!(log_and.ranges.len(), 2);
    assert_eq!(log_and.ranges[0].begin(), 0);
    assert_eq!(log_and.ranges[0].end(), 1000);
    assert_eq!(log_and.ranges[1].begin(), 1500);
    assert_eq!(log_and.ranges[1].end(), 2000);
    assert_eq!(log_and.range_of.unwrap(), TypeRange::Socket);
}

#[test]
fn test_operator_port_or() {
    let a: Port = Port::new(0, 1000);
    let b: Port = Port::new(1500, 2000);
    let op_1 = Op { ranges: vec![a.duplicate(), b.duplicate()], range_of: None };
    let c: Port = Port::new(0, 1000);
    let d: Port = Port::new(1100, 2000);
    let op_2 = Op { ranges: vec![c.duplicate(), d.duplicate()], range_of: None };

    let log_or = op_1.bitor(&op_2);
    assert_eq!(log_or.ranges.len(), 2);
    assert_eq!(log_or.ranges[0].begin(), 0);
    assert_eq!(log_or.ranges[0].end(), 1000);
    assert_eq!(log_or.ranges[1].begin(), 1100);
    assert_eq!(log_or.ranges[1].end(), 2000);
    assert_eq!(log_or.range_of.unwrap(), TypeRange::Port);
}

#[test]
fn test_operator_ip_or() {
    let a: IP = IP::new(0, 1000);
    let b: IP = IP::new(1500, 2000);
    let op_1 = Op { ranges: vec![a.duplicate(), b.duplicate()], range_of: None };
    let c: IP = IP::new(0, 1000);
    let d: IP = IP::new(1100, 2000);
    let op_2 = Op { ranges: vec![c.duplicate(), d.duplicate()], range_of: None };

    let log_or = op_1.bitor(&op_2);
    assert_eq!(log_or.ranges.len(), 2);
    assert_eq!(log_or.ranges[0].begin(), 0);
    assert_eq!(log_or.ranges[0].end(), 1000);
    assert_eq!(log_or.ranges[1].begin(), 1100);
    assert_eq!(log_or.ranges[1].end(), 2000);
    assert_eq!(log_or.range_of.unwrap(), TypeRange::IP);
}

#[test]
fn test_operator_socket_or() {
    let a: Socket = Socket::new(0, 1000);
    let b: Socket = Socket::new(1500, 2000);
    let op_1 = Op { ranges: vec![a.duplicate(), b.duplicate()], range_of: None };
    let c: Socket = Socket::new(0, 1000);
    let d: Socket = Socket::new(1100, 2000);
    let op_2 = Op { ranges: vec![c.duplicate(), d.duplicate()], range_of: None };

    let log_or = op_1.bitor(&op_2);
    assert_eq!(log_or.ranges.len(), 2);
    assert_eq!(log_or.ranges[0].begin(), 0);
    assert_eq!(log_or.ranges[0].end(), 1000);
    assert_eq!(log_or.ranges[1].begin(), 1100);
    assert_eq!(log_or.ranges[1].end(), 2000);
    assert_eq!(log_or.range_of.unwrap(), TypeRange::Socket);
}

#[test]
fn test_operator_port_invert_at_null() {
    let a: Port = Port::new(0, 2);
    let b: Port = Port::new(1, 3);

    let op = Op { ranges: vec![a.duplicate(), b.duplicate()], range_of: None };
    assert_eq!(op.ranges.len(), 2);
    assert_eq!(op.range_of, None);

    let log_inv = op.not();
    assert_eq!(log_inv.ranges.len(), 1);
    assert_eq!(log_inv.ranges[0].begin(), 4);
    assert_eq!(log_inv.ranges[0].end(), MAX_PORT);
    assert_eq!(log_inv.range_of.unwrap(), TypeRange::Port);
}

#[test]
fn test_operator_invert_port_at_not_null() {
    let a: Port = Port::new(10, 20);
    let b: Port = Port::new(15, 30);
    let c: Port = Port::new(20, 40);

    let op = Op { ranges: vec![a.duplicate(), b.duplicate(), c.duplicate()], range_of: None };
    assert_eq!(op.ranges.len(), 3);
    assert_eq!(op.range_of, None);

    let log_inv = op.not();
    assert_eq!(log_inv.ranges.len(), 2);
    assert_eq!(log_inv.ranges[0].begin(), 0);
    assert_eq!(log_inv.ranges[0].end(), 9);
    assert_eq!(log_inv.range_of.unwrap(), TypeRange::Port);
}

#[test]
fn test_operator_ip_invert_at_null() {
    let a: IP = IP::new(0, 2);
    let b: IP = IP::new(1, 3);

    let op = Op { ranges: vec![a.duplicate(), b.duplicate()], range_of: None };
    assert_eq!(op.ranges.len(), 2);
    assert_eq!(op.range_of, None);

    let log_inv = op.not();
    assert_eq!(log_inv.ranges.len(), 1);
    assert_eq!(log_inv.ranges[0].begin(), 4);
    assert_eq!(log_inv.ranges[0].end(), MAX_IP);
    assert_eq!(log_inv.range_of.unwrap(), TypeRange::IP);
}

#[test]
fn test_operator_invert_ip_at_not_null() {
    let a: IP = IP::new(10, 20);
    let b: IP = IP::new(15, 30);
    let c: IP = IP::new(20, 40);

    let op = Op { ranges: vec![a.duplicate(), b.duplicate(), c.duplicate()], range_of: None };
    assert_eq!(op.ranges.len(), 3);
    assert_eq!(op.range_of, None);

    let log_inv = op.not();
    assert_eq!(log_inv.ranges.len(), 2);
    assert_eq!(log_inv.ranges[0].begin(), 0);
    assert_eq!(log_inv.ranges[0].end(), 9);
    assert_eq!(log_inv.range_of.unwrap(), TypeRange::IP);
}

#[test]
fn test_operator_socket_invert_at_null() {
    let a: Socket = Socket::new(0, 2);
    let b: Socket = Socket::new(1, 3);

    let op = Op { ranges: vec![a.duplicate(), b.duplicate()], range_of: None };
    assert_eq!(op.ranges.len(), 2);
    assert_eq!(op.range_of, None);

    let log_inv = op.not();
    assert_eq!(log_inv.ranges.len(), 1);
    assert_eq!(log_inv.ranges[0].begin(), 4);
    assert_eq!(log_inv.ranges[0].end(), MAX_SOCKET);
    assert_eq!(log_inv.range_of.unwrap(), TypeRange::Socket);
}

#[test]
fn test_operator_socket_ip_at_not_null() {
    let a: Socket = Socket::new(10, 20);
    let b: Socket = Socket::new(15, 30);
    let c: Socket = Socket::new(20, 40);

    let op = Op { ranges: vec![a.duplicate(), b.duplicate(), c.duplicate()], range_of: None };
    assert_eq!(op.ranges.len(), 3);
    assert_eq!(op.range_of, None);

    let log_inv = op.not();
    assert_eq!(log_inv.ranges.len(), 2);
    assert_eq!(log_inv.ranges[0].begin(), 0);
    assert_eq!(log_inv.ranges[0].end(), 9);
    assert_eq!(log_inv.range_of.unwrap(), TypeRange::Socket);
}
