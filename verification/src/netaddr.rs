//! IP addresses as plain values, and the address-range rules used by the
//! outbound SSRF block-list and by trusted-proxy origin resolution.
use vstd::prelude::*;

verus! {

/// An IPv4 address (four octets) or an IPv6 address (eight 16-bit
/// segments), most significant first.
#[derive(Debug, Clone, Copy, PartialEq, Eq, Structural)]
pub enum IpAddress {
    V4(u8, u8, u8, u8),
    V6(u16, u16, u16, u16, u16, u16, u16, u16),
}

/// IPv4 rules: loopback (127/8), link-local (169.254/16), unspecified,
/// broadcast, 10/8, 172.16/12, 192.168/16 and carrier-grade NAT
/// (100.64/10).
pub open spec fn v4_private_or_local(a: u8, b: u8, c: u8, d: u8) -> bool {
    ||| a == 127
    ||| (a == 169 && b == 254)
    ||| (a == 0 && b == 0 && c == 0 && d == 0)
    ||| (a == 255 && b == 255 && c == 255 && d == 255)
    ||| a == 10
    ||| (a == 172 && 16 <= b <= 31)
    ||| (a == 192 && b == 168)
    ||| (a == 100 && 64 <= b <= 127)
}

/// The IPv4 address wrapped in an IPv4-mapped IPv6 address
/// (`::ffff:a.b.c.d`), if it is one.
pub open spec fn spec_v4_mapped(ip: IpAddress) -> Option<IpAddress> {
    match ip {
        IpAddress::V6(s0, s1, s2, s3, s4, s5, s6, s7) =>
            if s0 == 0 && s1 == 0 && s2 == 0 && s3 == 0 && s4 == 0 && s5 == 0xffff {
                Some(IpAddress::V4((s6 / 256) as u8, (s6 % 256) as u8, (s7 / 256) as u8, (s7 % 256) as u8))
            } else {
                None
            },
        IpAddress::V4(..) => None,
    }
}

/// Loopback, link-local, unspecified, broadcast, RFC-1918, CGNAT,
/// unique-local (fc00::/7) or link-local IPv6 (fe80::/10); IPv4-mapped
/// IPv6 addresses follow the IPv4 rules.
pub open spec fn spec_private_or_local(ip: IpAddress) -> bool {
    match ip {
        IpAddress::V4(a, b, c, d) => v4_private_or_local(a, b, c, d),
        IpAddress::V6(s0, s1, s2, s3, s4, s5, s6, s7) => {
            let zero6 = s0 == 0 && s1 == 0 && s2 == 0 && s3 == 0 && s4 == 0 && s5 == 0;
            if zero6 && s6 == 0 && s7 == 1 {
                true
            } else if zero6 && s6 == 0 && s7 == 0 {
                true
            } else if s0 == 0 && s1 == 0 && s2 == 0 && s3 == 0 && s4 == 0 && s5 == 0xffff {
                v4_private_or_local((s6 / 256) as u8, (s6 % 256) as u8, (s7 / 256) as u8, (s7 % 256) as u8)
            } else {
                (0xfe80 <= s0 && s0 <= 0xfebf) || (0xfc00 <= s0 && s0 <= 0xfdff)
            }
        },
    }
}

/// IPv4-mapped IPv6 collapsed to plain IPv4; everything else unchanged.
pub open spec fn spec_canonical(ip: IpAddress) -> IpAddress {
    match spec_v4_mapped(ip) {
        Some(v4) => v4,
        None => ip,
    }
}

/// The IPv4 address wrapped in an IPv4-mapped IPv6 address.
pub fn to_ipv4_mapped(ip: IpAddress) -> (r: Option<IpAddress>)
    ensures
        r == spec_v4_mapped(ip),
{
    match ip {
        IpAddress::V6(s0, s1, s2, s3, s4, s5, s6, s7) => {
            if s0 == 0 && s1 == 0 && s2 == 0 && s3 == 0 && s4 == 0 && s5 == 0xffff {
                Some(IpAddress::V4((s6 / 256) as u8, (s6 % 256) as u8, (s7 / 256) as u8, (s7 % 256) as u8))
            } else {
                None
            }
        },
        IpAddress::V4(..) => None,
    }
}

fn is_private_v4(a: u8, b: u8, c: u8, d: u8) -> (r: bool)
    ensures
        r == v4_private_or_local(a, b, c, d),
{
    if a == 127 || (a == 169 && b == 254) || (a == 0 && b == 0 && c == 0 && d == 0)
        || (a == 255 && b == 255 && c == 255 && d == 255) {
        return true;
    }
    if a == 10 {
        true
    } else if a == 172 {
        16 <= b && b <= 31
    } else if a == 192 {
        b == 168
    } else if a == 100 {
        64 <= b && b <= 127
    } else {
        false
    }
}

/// Does `ip` sit in a range that an internet-facing outbound call must
/// never reach?
pub fn is_private_or_local(ip: IpAddress) -> (r: bool)
    ensures
        r == spec_private_or_local(ip),
{
    match ip {
        IpAddress::V4(a, b, c, d) => is_private_v4(a, b, c, d),
        IpAddress::V6(s0, s1, s2, s3, s4, s5, s6, s7) => {
            let zero6 = s0 == 0 && s1 == 0 && s2 == 0 && s3 == 0 && s4 == 0 && s5 == 0;
            if zero6 && s6 == 0 && (s7 == 1 || s7 == 0) {
                return true;
            }
            match to_ipv4_mapped(ip) {
                Some(IpAddress::V4(a, b, c, d)) => is_private_v4(a, b, c, d),
                _ => {
                    proof {
                        assert((s0 & 0xffc0u16) == 0xfe80u16 <==> (0xfe80 <= s0 && s0 <= 0xfebf)) by (bit_vector);
                        assert((s0 & 0xfe00u16) == 0xfc00u16 <==> (0xfc00 <= s0 && s0 <= 0xfdff)) by (bit_vector);
                    }
                    (s0 & 0xffc0) == 0xfe80 || (s0 & 0xfe00) == 0xfc00
                },
            }
        },
    }
}

/// IPv4-mapped IPv6 collapsed back to IPv4.
pub fn canonicalise_ip(ip: IpAddress) -> (r: IpAddress)
    ensures
        r == spec_canonical(ip),
{
    match to_ipv4_mapped(ip) {
        Some(v4) => v4,
        None => ip,
    }
}

} // verus!
