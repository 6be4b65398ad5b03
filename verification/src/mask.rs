//! The mask — an address-set × port-set rectangle — and its projection into
//! a flat list of socket intervals, via the address/port packing function.

use vstd::prelude::*;

use crate::logic::Op;
use crate::types::{all_wf, IP, Port, Range, Socket, Span, TypeRange, MAX_IP, MAX_PORT};

verus! {

/// A rectangle: every address in every address range, crossed with every
/// port in every port range.
#[derive(Clone, Debug)]
pub struct Mask {
    pub range_ips: Vec<IP>,
    pub range_ports: Vec<Port>,
}

/// The address interval is not inverted and lies in the 32-bit domain.
pub open spec fn ip_wf(a: IP) -> bool {
    a.begin <= a.end && a.end <= MAX_IP
}

/// The port interval is not inverted and lies in the 16-bit domain.
pub open spec fn port_wf(p: Port) -> bool {
    p.begin <= p.end && p.end <= MAX_PORT
}

/// The 48-bit socket key of an address and a port: the address in the high
/// 32 bits, the port in the low 16. Inputs wider than their domain are
/// truncated to it first.
pub open spec fn pack(a: int, p: int) -> int {
    (a % 0x1_0000_0000) * 0x1_0000 + (p % 0x1_0000)
}

/// The socket interval that one address and one port range project to.
pub open spec fn socket_span(ip: u64, p: Port) -> Span {
    Span {
        begin: pack(ip as int, p.begin as int) as u64,
        end: pack(ip as int, p.end as int) as u64,
        range_of: TypeRange::Socket,
    }
}

/// The socket intervals of one address value: one per port range, in order.
pub open spec fn ports_row(ip: u64, ports: Seq<Port>) -> Seq<Span> {
    Seq::new(ports.len(), |k: int| socket_span(ip, ports[k]))
}

/// The rows of `cnt` consecutive address values starting at `base`.
pub open spec fn rows(base: u64, cnt: nat, ports: Seq<Port>) -> Seq<Span>
    decreases cnt,
{
    if cnt == 0 {
        Seq::empty()
    } else {
        rows(base, (cnt - 1) as nat, ports) + ports_row((base + cnt - 1) as u64, ports)
    }
}

/// The whole projection: the rows of every address range, in order.
pub open spec fn collapse_spec(ips: Seq<IP>, ports: Seq<Port>) -> Seq<Span>
    decreases ips.len(),
{
    if ips.len() == 0 {
        Seq::empty()
    } else {
        collapse_spec(ips.drop_last(), ports) + rows(
            ips.last().begin,
            (ips.last().end - ips.last().begin + 1) as nat,
            ports,
        )
    }
}

/// Fold one address and one port into a single socket key: the address as
/// the high 32 bits, the port as the low 16. Inputs wider than their domain
/// are truncated to it first.
pub fn convert(a: u64, b: u64) -> (r: u64)
    ensures
        r == pack(a as int, b as int),
        a <= MAX_IP && b <= MAX_PORT ==> r == a * 0x1_0000 + b,
{
    let hi = a % 0x1_0000_0000;
    let lo = b % 0x1_0000;
    hi * 0x1_0000 + lo
}

impl Mask {
    /// Expand the rectangle: for every address range, for every address value
    /// in it, for every port range, the socket interval whose bounds pack
    /// that address with the port range's two bounds. The result is a socket
    /// set in expansion order; it is not sorted or merged here.
    #[verifier::loop_isolation(false)]
    pub fn to_collapsed(&self) -> (r: Op)
        requires
            forall|i: int|
                0 <= i < self.range_ips@.len() ==> ip_wf(#[trigger] self.range_ips@[i]),
            forall|j: int|
                0 <= j < self.range_ports@.len() ==> port_wf(#[trigger] self.range_ports@[j]),
        ensures
            r.ranges@ == collapse_spec(self.range_ips@, self.range_ports@),
            r.range_of == Some(TypeRange::Socket),
            all_wf(r.ranges@, TypeRange::Socket),
    {
        let ghost ips = self.range_ips@;
        let ghost ports = self.range_ports@;
        let mut out: Vec<Span> = Vec::new();
        proof {
            assert(ips.subrange(0, 0) =~= Seq::<IP>::empty());
            assert(out@ =~= collapse_spec(ips.subrange(0, 0), ports));
        }
        let na = self.range_ips.len();
        let mut ai: usize = 0;
        while ai < na
            invariant
                ai <= na,
                all_wf(out@, TypeRange::Socket),
                out@ == collapse_spec(ips.subrange(0, ai as int), ports),
            decreases na - ai,
        {
            let addr = self.range_ips[ai];
            let ghost base_seq = out@;
            let mut ip: u64 = addr.begin;
            proof {
                assert(base_seq + rows(addr.begin, 0, ports) =~= base_seq);
            }
            while ip < addr.end + 1
                invariant
                    addr.begin <= ip <= addr.end + 1,
                    all_wf(out@, TypeRange::Socket),
                    out@ == base_seq + rows(addr.begin, (ip - addr.begin) as nat, ports),
                decreases addr.end + 1 - ip,
            {
                let ghost row_base = out@;
                proof {
                    assert(row_base + ports_row(ip, ports).subrange(0, 0) =~= row_base);
                }
                let np = self.range_ports.len();
                let mut pj: usize = 0;
                while pj < np
                    invariant
                        pj <= np,
                        np == ports.len(),
                        ip <= addr.end,
                        all_wf(out@, TypeRange::Socket),
                        out@ == row_base + ports_row(ip, ports).subrange(0, pj as int),
                    decreases np - pj,
                {
                    let port_range = self.range_ports[pj];
                    let begin = convert(ip, port_range.begin);
                    let end = convert(ip, port_range.end);
                    let socket = Socket::new(begin, end);
                    out.push(socket.duplicate());
                    proof {
                        let s = Span { begin, end, range_of: TypeRange::Socket };
                        assert(port_wf(ports[pj as int]));
                        assert(s == socket_span(ip, ports[pj as int]));
                        assert(begin <= end);
                        assert(out@ =~= row_base + ports_row(ip, ports).subrange(
                            0,
                            pj as int + 1,
                        ));
                    }
                    pj += 1;
                }
                proof {
                    assert(ports_row(ip, ports).subrange(0, np as int) =~= ports_row(ip, ports));
                    let c = (ip - addr.begin) as nat;
                    assert((addr.begin + (c + 1) - 1) as u64 == ip);
                    assert(rows(addr.begin, c + 1, ports) == rows(addr.begin, c, ports)
                        + ports_row(ip, ports));
                    assert(out@ =~= base_seq + rows(
                        addr.begin,
                        ((ip + 1) - addr.begin) as nat,
                        ports,
                    ));
                }
                ip += 1;
            }
            proof {
                assert(ips.subrange(0, ai as int + 1).drop_last() =~= ips.subrange(0, ai as int));
                assert(ips.subrange(0, ai as int + 1).last() == ips[ai as int]);
                assert(out@ =~= collapse_spec(ips.subrange(0, ai as int + 1), ports));
            }
            ai += 1;
        }
        proof {
            assert(ips.subrange(0, na as int) =~= ips);
        }
        Op { ranges: out, range_of: Some(TypeRange::Socket) }
    }
}

} // verus!
