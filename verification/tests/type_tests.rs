use ranges::types::{Port, Range, Socket, TypeRange, IP, MAX_IP, MAX_PORT, MAX_SOCKET};

#[test]
fn test_range_port() {
    let begin: u64 = 0;
    let end: u64 = 1000;

    let port: Port = Port::new(begin, end);

    assert_eq!(port.begin, begin);
    assert_eq!(port.end, end);
    assert_eq!(port.min(), 0);
    assert_eq!(port.max(), MAX_PORT);
    assert_eq!(port.range_of(), TypeRange::Port);
    assert_eq!(port.render(), format!("({begin}, {end})"));
}

#[test]
fn test_range_ip() {
    let begin: u64 = 0;
    let end: u64 = 1000;

    let ip: IP = IP::new(begin, end);

    assert_eq!(ip.begin, begin);
    assert_eq!(ip.end, end);
    assert_eq!(ip.min(), 0);
    assert_eq!(ip.max(), MAX_IP);
    assert_eq!(ip.range_of(), TypeRange::IP);
    assert_eq!(ip.render(), format!("({begin}, {end})"));
}

#[test]
fn test_range_socket() {
    let begin: u64 = 0;
    let end: u64 = 1000;

    let socket: Socket = Socket::new(begin, end);

    assert_eq!(socket.begin, begin);
    assert_eq!(socket.end, end);
    assert_eq!(socket.min(), 0);
    assert_eq!(socket.max(), MAX_SOCKET);
    assert_eq!(socket.range_of(), TypeRange::Socket);
    assert_eq!(socket.render(), format!("({begin}, {end})"));
}

#[test]
fn test_set_end_and_duplicate() {
    let mut port: Port = Port::new(5, 10);
    port.set_end(42);
    assert_eq!(port.begin, 5);
    assert_eq!(port.end, 42);

    let span = port.duplicate();
    assert_eq!(span.begin(), 5);
    assert_eq!(span.end(), 42);
    assert_eq!(span.range_of(), TypeRange::Port);
    assert_eq!(span.min(), 0);
    assert_eq!(span.max(), MAX_PORT);
    assert_eq!(span.render(), format!("(5, 42)"));
}
