//! IPv4 addresses and their dotted-quad text form.

use vstd::prelude::*;

use crate::text::{split_on, split_ranges};

verus! {

/// An IPv4 address, held as its four octets in network order
/// (`a.b.c.d`).
#[derive(Clone, Copy, Debug, PartialEq, Eq, Structural)]
pub struct Ipv4 {
    pub a: u8,
    pub b: u8,
    pub c: u8,
    pub d: u8,
}

/// A local address and the gateway that serves it.
pub type GatewayPair = (Ipv4, Ipv4);

impl Ipv4 {
    pub fn new(a: u8, b: u8, c: u8, d: u8) -> (r: Ipv4)
        ensures
            r == (Ipv4 { a, b, c, d }),
    {
        Ipv4 { a, b, c, d }
    }

    /// The address `0.0.0.0`.
    pub fn unspecified() -> (r: Ipv4)
        ensures
            r == (Ipv4 { a: 0, b: 0, c: 0, d: 0 }),
    {
        Ipv4 { a: 0, b: 0, c: 0, d: 0 }
    }

    /// Builds the address from its four octets in network order.
    pub fn from_octets(o: [u8; 4]) -> (r: Ipv4)
        ensures
            r == (Ipv4 { a: o@[0], b: o@[1], c: o@[2], d: o@[3] }),
    {
        Ipv4 { a: o[0], b: o[1], c: o[2], d: o[3] }
    }

    /// The four octets in network order.
    pub fn octets(&self) -> (r: [u8; 4])
        ensures
            r@ == seq![self.a, self.b, self.c, self.d],
    {
        let r = [self.a, self.b, self.c, self.d];
        assert(r@ =~= seq![self.a, self.b, self.c, self.d]);
        r
    }
}

/// The byte is an ASCII decimal digit.
pub open spec fn is_digit(b: u8) -> bool {
    0x30 <= b <= 0x39
}

/// The value of a run of decimal digits, most significant first.
pub open spec fn decimal(s: Seq<u8>) -> nat
    decreases s.len(),
{
    if s.len() == 0 {
        0
    } else {
        decimal(s.drop_last()) * 10 + (s.last() - 0x30) as nat
    }
}

/// One octet of a dotted quad: one to three digits, no leading zero unless
/// the octet is `0` itself, and a value of at most 255.
pub open spec fn octet_of(s: Seq<u8>) -> Option<u8> {
    if 1 <= s.len() <= 3 && (forall|i: int| 0 <= i < s.len() ==> is_digit(#[trigger] s[i])) && (
    s[0] == 0x30 ==> s.len() == 1) && decimal(s) <= 255 {
        Some(decimal(s) as u8)
    } else {
        None
    }
}

/// The address that `s` writes as a dotted quad (four octets separated by
/// dots, nothing else), if it writes one.
pub open spec fn dotted_quad(s: Seq<u8>) -> Option<Ipv4> {
    let parts = split_on(s, 0x2e);
    if parts.len() == 4 && octet_of(parts[0]) is Some && octet_of(parts[1]) is Some && octet_of(
        parts[2],
    ) is Some && octet_of(parts[3]) is Some {
        Some(
            Ipv4 {
                a: octet_of(parts[0])->0,
                b: octet_of(parts[1])->0,
                c: octet_of(parts[2])->0,
                d: octet_of(parts[3])->0,
            },
        )
    } else {
        None
    }
}

/// Reads the octet written in `s[lo..hi]`.
fn read_octet(s: &[u8], lo: usize, hi: usize) -> (r: Option<u8>)
    requires
        lo <= hi <= s@.len(),
    ensures
        r == octet_of(s@.subrange(lo as int, hi as int)),
{
    let ghost t = s@.subrange(lo as int, hi as int);
    if hi - lo < 1 || hi - lo > 3 {
        return None;
    }
    let mut value: u32 = 0;
    let mut i: usize = lo;
    while i < hi
        invariant
            lo <= i <= hi <= s@.len(),
            hi - lo <= 3,
            t == s@.subrange(lo as int, hi as int),
            forall|j: int| 0 <= j < i - lo ==> is_digit(#[trigger] t[j]),
            value == decimal(t.subrange(0, i - lo)),
            value < 1000,
        decreases hi - i,
    {
        if !(0x30 <= s[i] && s[i] <= 0x39) {
            assert(!is_digit(t[i - lo]));
            return None;
        }
        proof {
            assert(t.subrange(0, i + 1 - lo).drop_last() =~= t.subrange(0, i - lo));
            assert(i + 1 - lo <= 3);
            assert(value < 100) by {
                lemma_decimal_bound(t.subrange(0, i - lo));
            }
        }
        value = value * 10 + (s[i] - 0x30) as u32;
        i = i + 1;
    }
    assert(t.subrange(0, hi - lo) =~= t);
    if s[lo] == 0x30 && hi - lo > 1 {
        return None;
    }
    if value > 255 {
        return None;
    }
    Some(value as u8)
}

/// A run of `n` digits is worth less than `10^n`.
proof fn lemma_decimal_bound(s: Seq<u8>)
    requires
        s.len() <= 2,
        forall|i: int| 0 <= i < s.len() ==> is_digit(#[trigger] s[i]),
    ensures
        s.len() == 0 ==> decimal(s) == 0,
        s.len() == 1 ==> decimal(s) < 10,
        s.len() == 2 ==> decimal(s) < 100,
    decreases s.len(),
{
    if s.len() > 0 {
        lemma_decimal_bound(s.drop_last());
    }
}

/// Reads the address written as a dotted quad in `s[lo..hi]`.
pub fn read_ipv4(s: &[u8], lo: usize, hi: usize) -> (r: Option<Ipv4>)
    requires
        lo <= hi <= s@.len(),
    ensures
        r == dotted_quad(s@.subrange(lo as int, hi as int)),
{
    let parts = split_ranges(s, lo, hi, 0x2e);
    if parts.len() != 4 {
        return None;
    }
    let a = match read_octet(s, parts[0].0, parts[0].1) {
        Some(o) => o,
        None => return None,
    };
    let b = match read_octet(s, parts[1].0, parts[1].1) {
        Some(o) => o,
        None => return None,
    };
    let c = match read_octet(s, parts[2].0, parts[2].1) {
        Some(o) => o,
        None => return None,
    };
    let d = match read_octet(s, parts[3].0, parts[3].1) {
        Some(o) => o,
        None => return None,
    };
    Some(Ipv4 { a, b, c, d })
}

/// Parses a dotted-quad address such as `192.168.1.1`.
pub fn parse_ipv4(s: &[u8]) -> (r: Option<Ipv4>)
    ensures
        r == dotted_quad(s@),
{
    assert(s@.subrange(0, s@.len() as int) =~= s@);
    read_ipv4(s, 0, s.len())
}

} // verus!
