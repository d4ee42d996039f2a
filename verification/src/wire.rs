//! The byte formats this codec prepares for its network-facing
//! collaborators: the compact peer list a tracker returns, the fixed
//! 68-byte peer handshake, and percent-encoding of the info hash for
//! transport in a tracker URL.

use vstd::prelude::*;

verus! {

broadcast use vstd::std_specs::vec::group_vec_axioms, vstd::seq::group_seq_axioms;

/// One peer of a compact tracker response: an IPv4 address and a port.
#[derive(Clone, Copy, Debug, PartialEq, Eq)]
pub struct Peer {
    pub ip: (u8, u8, u8, u8),
    pub port: u16,
}

/// The peer encoded in the `k`-th 6-byte record of a compact peer list:
/// four address octets, then the port in big-endian order.
pub open spec fn spec_peer_of(s: Seq<u8>, k: int) -> Peer {
    Peer {
        ip: (s[6 * k], s[6 * k + 1], s[6 * k + 2], s[6 * k + 3]),
        port: ((s[6 * k + 4] as int) * 256 + (s[6 * k + 5] as int)) as u16,
    }
}

/// Splits a compact peer list into peers: one per 6-byte record, in
/// order. Fails if and only if the data is not a whole number of
/// records.
pub fn parse_compact_peers(data: &[u8]) -> (r: Option<Vec<Peer>>)
    ensures
        match r {
            Some(ps) => data@.len() % 6 == 0 && ps@.len() == data@.len() / 6 && forall|k: int|
                0 <= k < ps@.len() ==> #[trigger] ps@[k] == spec_peer_of(data@, k),
            None => data@.len() % 6 != 0,
        },
{
    let n = data.len();
    if n % 6 != 0 {
        return None;
    }
    let count = n / 6;
    let mut ps: Vec<Peer> = Vec::new();
    let mut k: usize = 0;
    while k < count
        invariant
            n == data@.len(),
            n % 6 == 0,
            count == n / 6,
            k <= count,
            ps@.len() == k,
            forall|m: int| 0 <= m < k ==> #[trigger] ps@[m] == spec_peer_of(data@, m),
        decreases count - k,
    {
        let base = 6 * k;
        let port: u16 = (data[base + 4] as u16) * 256 + (data[base + 5] as u16);
        let peer = Peer {
            ip: (data[base], data[base + 1], data[base + 2], data[base + 3]),
            port,
        };
        ps.push(peer);
        k = k + 1;
    }
    Some(ps)
}

/// The 19 bytes of the protocol identifier `BitTorrent protocol`.
pub open spec fn protocol_id() -> Seq<u8> {
    seq![
        66u8,
        105u8,
        116u8,
        84u8,
        111u8,
        114u8,
        114u8,
        101u8,
        110u8,
        116u8,
        32u8,
        112u8,
        114u8,
        111u8,
        116u8,
        111u8,
        99u8,
        111u8,
        108u8,
    ]
}

/// The fixed 68-byte handshake: one length byte (19), the 19-byte
/// protocol identifier, 8 reserved zero bytes, the 20-byte info hash and
/// the 20-byte peer id.
pub open spec fn spec_handshake(info_hash: Seq<u8>, peer_id: Seq<u8>) -> Seq<u8> {
    seq![19u8] + protocol_id() + seq![0u8, 0u8, 0u8, 0u8, 0u8, 0u8, 0u8, 0u8] + info_hash + peer_id
}

/// Appends all bytes of `src`.
fn extend_bytes(src: &Vec<u8>, out: &mut Vec<u8>)
    ensures
        final(out)@ == old(out)@ + src@,
{
    let mut i: usize = 0;
    while i < src.len()
        invariant
            i <= src@.len(),
            out@ == old(out)@ + src@.subrange(0, i as int),
        decreases src@.len() - i,
    {
        out.push(src[i]);
        proof {
            assert(old(out)@ + src@.subrange(0, i as int) + seq![src@[i as int]] =~= old(out)@
                + src@.subrange(0, i as int + 1));
        }
        i = i + 1;
    }
    proof {
        assert(src@.subrange(0, src@.len() as int) =~= src@);
    }
}

/// Builds the 68-byte peer handshake message.
pub fn build_handshake(info_hash: &Vec<u8>, peer_id: &Vec<u8>) -> (r: Vec<u8>)
    requires
        info_hash@.len() == 20,
        peer_id@.len() == 20,
    ensures
        r@ == spec_handshake(info_hash@, peer_id@),
        r@.len() == 68,
{
    let mut out: Vec<u8> = Vec::new();
    out.push(19);
    out.push(66);
    out.push(105);
    out.push(116);
    out.push(84);
    out.push(111);
    out.push(114);
    out.push(114);
    out.push(101);
    out.push(110);
    out.push(116);
    out.push(32);
    out.push(112);
    out.push(114);
    out.push(111);
    out.push(116);
    out.push(111);
    out.push(99);
    out.push(111);
    out.push(108);
    proof {
        assert(out@ =~= seq![19u8] + protocol_id());
    }
    let mut z: usize = 0;
    let ghost mid = out@;
    while z < 8
        invariant
            z <= 8,
            out@.len() == mid.len() + z,
            out@.subrange(0, mid.len() as int) == mid,
            forall|m: int| mid.len() <= m < out@.len() ==> out@[m] == 0u8,
        decreases 8 - z,
    {
        out.push(0);
        proof {
            assert(out@.subrange(0, mid.len() as int) =~= mid);
        }
        z = z + 1;
    }
    proof {
        assert(out@ =~= mid + seq![0u8, 0u8, 0u8, 0u8, 0u8, 0u8, 0u8, 0u8]);
    }
    let ghost mid2 = out@;
    extend_bytes(info_hash, &mut out);
    extend_bytes(peer_id, &mut out);
    proof {
        assert(out@ == mid2 + info_hash@ + peer_id@);
        assert(out@ =~= spec_handshake(info_hash@, peer_id@));
    }
    out
}

/// Whether transport leaves the byte as it is: ASCII letters and digits
/// only.
pub open spec fn is_unreserved(b: u8) -> bool {
    (48 <= b <= 57) || (65 <= b <= 90) || (97 <= b <= 122)
}

/// The uppercase hexadecimal digit of a value below sixteen.
pub open spec fn hex_digit(n: int) -> u8 {
    if n < 10 {
        (48 + n) as u8
    } else {
        (55 + n) as u8
    }
}

/// A byte sequence percent-encoded for a URL: alphanumeric bytes stand
/// as they are, every other byte becomes `%` and two uppercase hex
/// digits.
pub open spec fn spec_percent_encode(s: Seq<u8>) -> Seq<u8>
    decreases s.len(),
{
    if s.len() == 0 {
        Seq::empty()
    } else {
        (if is_unreserved(s[0]) {
            seq![s[0]]
        } else {
            seq![37u8, hex_digit((s[0] / 16) as int), hex_digit((s[0] % 16) as int)]
        }) + spec_percent_encode(s.drop_first())
    }
}

/// Percent-encodes bytes for transport in a URL, escaping every
/// non-alphanumeric byte.
pub fn percent_encode_bytes(data: &Vec<u8>) -> (r: Vec<u8>)
    ensures
        r@ == spec_percent_encode(data@),
{
    let mut out: Vec<u8> = Vec::new();
    let mut i: usize = 0;
    proof {
        assert(data@.skip(0) =~= data@);
    }
    while i < data.len()
        invariant
            i <= data@.len(),
            spec_percent_encode(data@) == out@ + spec_percent_encode(data@.skip(i as int)),
        decreases data@.len() - i,
    {
        let b = data[i];
        let ghost pre = out@;
        let ghost rest = data@.skip(i as int);
        if (48 <= b && b <= 57) || (65 <= b && b <= 90) || (97 <= b && b <= 122) {
            out.push(b);
            proof {
                assert(pre + (seq![b] + spec_percent_encode(rest.drop_first())) =~= (pre + seq![b])
                    + spec_percent_encode(rest.drop_first()));
            }
        } else {
            out.push(37);
            let hi = b / 16;
            let lo = b % 16;
            out.push(
                if hi < 10 {
                    48 + hi
                } else {
                    55 + hi
                },
            );
            out.push(
                if lo < 10 {
                    48 + lo
                } else {
                    55 + lo
                },
            );
            proof {
                let chunk = seq![37u8, hex_digit((b / 16) as int), hex_digit((b % 16) as int)];
                assert(out@ =~= pre + chunk);
                assert(pre + (chunk + spec_percent_encode(rest.drop_first())) =~= (pre + chunk)
                    + spec_percent_encode(rest.drop_first()));
            }
        }
        proof {
            assert(rest.drop_first() =~= data@.skip(i as int + 1));
        }
        i = i + 1;
    }
    proof {
        assert(data@.skip(data@.len() as int) =~= Seq::<u8>::empty());
        assert(out@ + spec_percent_encode(data@.skip(data@.len() as int)) =~= out@);
    }
    out
}

} // verus!
