//! IPv4 addresses as plain 32-bit values.

use vstd::prelude::*;

verus! {

/// An IPv4 address, held as its 32 bits in host order: the first octet is
/// the most significant byte.
#[derive(Clone, Copy, Debug, PartialEq, Eq, Structural, Hash, PartialOrd, Ord)]
pub struct Ipv4 {
    pub bits: u32,
}

/// The 32-bit value of the dotted quad `a.b.c.d`.
pub open spec fn quad_bits(a: u8, b: u8, c: u8, d: u8) -> int {
    a as int * 16777216 + b as int * 65536 + c as int * 256 + d as int
}

/// Octet `i` (0 is the leftmost) of a 32-bit address value.
pub open spec fn octet_of(bits: u32, i: int) -> int {
    if i == 0 {
        bits as int / 16777216
    } else if i == 1 {
        (bits as int / 65536) % 256
    } else if i == 2 {
        (bits as int / 256) % 256
    } else {
        bits as int % 256
    }
}

impl Ipv4 {
    /// The address `a.b.c.d`.
    pub fn new(a: u8, b: u8, c: u8, d: u8) -> (ip: Ipv4)
        ensures
            ip.bits as int == quad_bits(a, b, c, d),
    {
        let hi: u32 = (a as u32) * 16777216 + (b as u32) * 65536;
        let lo: u32 = (c as u32) * 256 + (d as u32);
        Ipv4 { bits: hi + lo }
    }

    /// The address whose 32-bit value is `bits`.
    pub fn from_bits(bits: u32) -> (ip: Ipv4)
        ensures
            ip.bits == bits,
    {
        Ipv4 { bits }
    }

    /// The 32-bit value of the address.
    pub fn to_bits(&self) -> (bits: u32)
        ensures
            bits == self.bits,
    {
        self.bits
    }

    /// The four octets, leftmost first.
    pub fn octets(&self) -> (o: [u8; 4])
        ensures
            o[0] as int == octet_of(self.bits, 0),
            o[1] as int == octet_of(self.bits, 1),
            o[2] as int == octet_of(self.bits, 2),
            o[3] as int == octet_of(self.bits, 3),
            quad_bits(o[0], o[1], o[2], o[3]) == self.bits as int,
    {
        let a: u8 = (self.bits / 16777216) as u8;
        let b: u8 = ((self.bits / 65536) % 256) as u8;
        let c: u8 = ((self.bits / 256) % 256) as u8;
        let d: u8 = (self.bits % 256) as u8;
        [a, b, c, d]
    }
}

} // verus!
