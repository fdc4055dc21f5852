//! Prefixes: what a routing table reads of one, and the two kinds of
//! prefix that come with the library.

use vstd::prelude::*;

verus! {

/// What the table needs to know of a prefix: its length in bits and its
/// address as big-endian octets. Both are functions of the prefix: an
/// implementation returns the same length and the same octets whenever it
/// is asked.
pub trait Prefix {
    /// The prefix length, in bits.
    spec fn len_spec(&self) -> u8;

    /// The address octets, most significant first.
    spec fn octets_spec(&self) -> Seq<u8>;

    fn prefix_len(&self) -> (n: u8)
        ensures
            n == self.len_spec(),
    ;

    fn to_octets(&self) -> (v: Vec<u8>)
        ensures
            v@ == self.octets_spec(),
    ;
}

/// Bit `i` of a big-endian octet string: bit 0 is the top bit of octet 0.
pub open spec fn bit_at(o: Seq<u8>, i: int) -> bool {
    ((o[i / 8] as u32) >> ((7 - i % 8) as u32)) & 1 == 1
}

/// Whether two octet strings have the same bits from bit `from` up to, but
/// not including, bit `to`.
pub open spec fn same_bits(o1: Seq<u8>, o2: Seq<u8>, from: int, to: int) -> bool {
    forall|k: int| from <= k < to ==> #[trigger] bit_at(o1, k) == bit_at(o2, k)
}

/// Whether `(o1, len1)` and `(o2, len2)` are the same prefix: the same
/// length and the same bits up to it.
pub open spec fn same_prefix(o1: Seq<u8>, len1: int, o2: Seq<u8>, len2: int) -> bool {
    len1 == len2 && same_bits(o1, o2, 0, len1)
}

/// A prefix given by its octets: an address of 16 octets, of which the
/// first `prefix_len()` bits count.
#[derive(Clone, Copy, Debug, PartialEq, Eq)]
pub struct RawPrefix {
    octets: [u8; 16],
    len: u8,
}

impl RawPrefix {
    /// The prefix of length `len` whose address begins with the first 16
    /// octets of `octets`; where there are fewer, zero octets follow them.
    pub fn new(octets: &Vec<u8>, len: u8) -> (p: RawPrefix)
        ensures
            p.len_spec() == len,
            p.octets_spec().len() == 16,
            forall|j: int|
                0 <= j < 16 ==> #[trigger] p.octets_spec()[j] == if j < octets@.len() {
                    octets@[j]
                } else {
                    0u8
                },
    {
        let mut held: [u8; 16] = [0u8; 16];
        let mut i: usize = 0;
        while i < 16 && i < octets.len()
            invariant
                i <= 16,
                i <= octets@.len(),
                forall|j: int| 0 <= j < i ==> held@[j] == octets@[j],
                forall|j: int| i <= j < 16 ==> held@[j] == 0u8,
            decreases 16 - i,
        {
            held[i] = octets[i];
            i += 1;
        }
        RawPrefix { octets: held, len }
    }
}

impl Prefix for RawPrefix {
    closed spec fn len_spec(&self) -> u8 {
        self.len
    }

    closed spec fn octets_spec(&self) -> Seq<u8> {
        self.octets@
    }

    fn prefix_len(&self) -> (n: u8) {
        self.len
    }

    fn to_octets(&self) -> (v: Vec<u8>) {
        let mut v: Vec<u8> = Vec::new();
        let mut i: usize = 0;
        while i < 16
            invariant
                i <= 16,
                v@ == self.octets@.take(i as int),
            decreases 16 - i,
        {
            v.push(self.octets[i]);
            proof {
                assert(v@ =~= self.octets@.take(i + 1));
            }
            i += 1;
        }
        proof {
            assert(self.octets@.take(16) =~= self.octets@);
        }
        v
    }
}

/// `ipnet::Ipv4Net`, of which the library reads the length and the address
/// alone.
#[verifier::external_type_specification]
#[verifier::external_body]
pub struct ExIpv4Net(ipnet::Ipv4Net);

/// The prefix length that an `Ipv4Net` holds.
pub uninterp spec fn ipv4_net_len(net: ipnet::Ipv4Net) -> u8;

/// The four address octets that an `Ipv4Net` holds.
pub uninterp spec fn ipv4_net_octets(net: ipnet::Ipv4Net) -> Seq<u8>;

impl Prefix for ipnet::Ipv4Net {
    open spec fn len_spec(&self) -> u8 {
        ipv4_net_len(*self)
    }

    open spec fn octets_spec(&self) -> Seq<u8> {
        ipv4_net_octets(*self)
    }

    fn prefix_len(&self) -> (n: u8)
        ensures
            n <= 32,
    {
        ipv4_prefix_len(self)
    }

    fn to_octets(&self) -> (v: Vec<u8>)
        ensures
            v@.len() == 4,
    {
        ipv4_octets(self)
    }
}

/// `Ipv4Net::prefix_len`: returns the stored length, which every constructor
/// of the type keeps at 32 or below.
#[verifier::external_body]
fn ipv4_prefix_len(net: &ipnet::Ipv4Net) -> (n: u8)
    ensures
        n == ipv4_net_len(*net),
        n <= 32,
{
    net.prefix_len()
}

/// `Ipv4Net::addr`, read as its four octets in network order.
#[verifier::external_body]
fn ipv4_octets(net: &ipnet::Ipv4Net) -> (v: Vec<u8>)
    ensures
        v@ == ipv4_net_octets(*net),
        v@.len() == 4,
{
    net.addr().octets().to_vec()
}

} // verus!
