//! Plain-value model of IP addresses.
//!
//! The scanner only ever treats an address as an opaque scan key, so the
//! library models one as the numeric value of a v4 or v6 address. Conversion
//! to and from the operating system's address types happens outside the
//! library.

use vstd::prelude::*;

verus! {

/// An IP address: the numeric value of a v4 or v6 address.
#[derive(Clone, Copy, PartialEq, Eq, Structural, Debug)]
pub enum IpAddress {
    V4(u32),
    V6(u128),
}

/// The inclusive address range between `start` and `end`: empty when the
/// families differ or `start` is above `end`.
pub open spec fn spec_ips_between(start: IpAddress, end: IpAddress) -> Seq<IpAddress> {
    match (start, end) {
        (IpAddress::V4(s), IpAddress::V4(e)) => if s > e {
            Seq::empty()
        } else {
            Seq::new((e - s + 1) as nat, |i: int| IpAddress::V4((s + i) as u32))
        },
        (IpAddress::V6(s), IpAddress::V6(e)) => if s > e {
            Seq::empty()
        } else {
            Seq::new((e - s + 1) as nat, |i: int| IpAddress::V6((s + i) as u128))
        },
        _ => Seq::empty(),
    }
}

/// Expands a start/end pair into the inclusive list of addresses between
/// them; mixed families or a descending pair give an empty list.
pub fn ips_between(start: IpAddress, end: IpAddress) -> (r: Vec<IpAddress>)
    ensures
        r@ == spec_ips_between(start, end),
{
    let mut out: Vec<IpAddress> = Vec::new();
    match (start, end) {
        (IpAddress::V4(s), IpAddress::V4(e)) => {
            if s <= e {
                let mut i = s;
                while i < e
                    invariant
                        s <= i <= e,
                        out@ == spec_ips_between(start, end).take(i - s),
                    decreases e - i,
                {
                    out.push(IpAddress::V4(i));
                    proof {
                        assert(out@ =~= spec_ips_between(start, end).take(i - s + 1));
                    }
                    i += 1;
                }
                out.push(IpAddress::V4(e));
                proof {
                    assert(out@ =~= spec_ips_between(start, end));
                }
            }
        },
        (IpAddress::V6(s), IpAddress::V6(e)) => {
            if s <= e {
                let mut i = s;
                while i < e
                    invariant
                        s <= i <= e,
                        out@ == spec_ips_between(start, end).take(i - s),
                    decreases e - i,
                {
                    out.push(IpAddress::V6(i));
                    proof {
                        assert(out@ =~= spec_ips_between(start, end).take(i - s + 1));
                    }
                    i += 1;
                }
                out.push(IpAddress::V6(e));
                proof {
                    assert(out@ =~= spec_ips_between(start, end));
                }
            }
        },
        _ => {},
    }
    proof {
        assert(out@ =~= spec_ips_between(start, end));
    }
    out
}

} // verus!
