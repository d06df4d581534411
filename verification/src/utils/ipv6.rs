use vstd::prelude::*;
use vstd::arithmetic::power2::{pow2, lemma2_to64, lemma_pow2_unfold};
use vstd::string::StringSliceAdditionalSpecFns;
use super::structs::NetHelperError;
use super::text6::{parse_ipv6, parse_address6};
use super::ipv4::{mask_bits_in, lemma_pow2_monotone, lemma_one_shl};

verus! {

/// Segment `i` of the IPv6 subnet mask with `prefix` leading one-bits.
pub open spec fn mask_segment(prefix: nat, i: nat) -> int {
    65536 - pow2((16 - mask_bits_in(prefix, i, 16)) as nat)
}

/// The IPv6 subnet mask with `prefix` leading one-bits, most significant
/// segment first.
pub open spec fn subnet_mask6(prefix: nat) -> Seq<u16> {
    Seq::new(8, |i: int| mask_segment(prefix, i as nat) as u16)
}

/// Every segment of a subnet mask fits in sixteen bits.
pub proof fn lemma_mask_segment_range(prefix: nat, i: nat)
    requires
        prefix <= 128,
        i < 8,
    ensures
        0 <= mask_segment(prefix, i) <= 65535,
        subnet_mask6(prefix)[i as int] == mask_segment(prefix, i),
{
    lemma2_to64();
    let e = (16 - mask_bits_in(prefix, i, 16)) as nat;
    lemma_pow2_monotone(0, e);
    lemma_pow2_monotone(e, 16);
}

/// Segment `i` of a mask that was made by shifting 128 one-bits to the left.
proof fn lemma_shifted_mask_segment(c: u128, i: u128, part: u128, e: u128)
    requires
        1 <= c <= 128,
        i < 8,
        part == ((0xFFFF_FFFF_FFFF_FFFF_FFFF_FFFF_FFFF_FFFFu128 << ((128 - c) as u128)) >> ((112 - 16
            * i) as u128)) & 0xFFFF,
        e == 16 - mask_bits_in(c as nat, i as nat, 16),
    ensures
        part == mask_segment(c as nat, i as nat),
        part <= 65535,
{
    let sh: u128 = (128 - c) as u128;
    let down: u128 = (112 - 16 * i) as u128;
    let lo: u128 = (16 * i) as u128;
    let hi: u128 = (16 * i + 16) as u128;
    let e32: u32 = e as u32;
    assert(e == (if c >= hi {
        0
    } else if c <= lo {
        16
    } else {
        (hi - c) as u128
    }));
    assert(part == 65536 - (1u128 << e)) by (bit_vector)
        requires
            1 <= c <= 128,
            i < 8,
            sh == 128 - c,
            down == 112 - 16 * i,
            lo == 16 * i,
            hi == 16 * i + 16,
            part == ((0xFFFF_FFFF_FFFF_FFFF_FFFF_FFFF_FFFF_FFFFu128 << sh) >> down) & 0xFFFF,
            e == (if c >= hi {
                0
            } else if c <= lo {
                16
            } else {
                (hi - c) as u128
            }),
    ;
    assert((1u128 << e) == (1u32 << e32)) by (bit_vector)
        requires
            e <= 16,
            e32 == e,
    ;
    lemma_one_shl(e32);
}

/// The IPv6 subnet mask for a prefix length: `cidr` one-bits followed by
/// zeros, split into eight segments. A prefix length above 128 is refused.
pub fn cidr_to_sm6(cidr: u8) -> (r: Result<[u16; 8], NetHelperError>)
    ensures
        cidr > 128 ==> r == Err::<[u16; 8], NetHelperError>(NetHelperError::InvalidCidr),
        cidr <= 128 ==> r is Ok && r->Ok_0@ == subnet_mask6(cidr as nat),
{
    if cidr > 128 {
        return Err(NetHelperError::InvalidCidr);
    }
    if cidr == 0 {
        let zero: [u16; 8] = [0, 0, 0, 0, 0, 0, 0, 0];
        proof {
            lemma2_to64();
            assert(zero@ =~= subnet_mask6(0));
        }
        return Ok(zero);
    }
    let c: u128 = cidr as u128;
    let mask: u128 = 0xFFFF_FFFF_FFFF_FFFF_FFFF_FFFF_FFFF_FFFFu128 << (128 - c);
    let m0: u128 = (mask >> 112) & 0xFFFF;
    let m1: u128 = (mask >> 96) & 0xFFFF;
    let m2: u128 = (mask >> 80) & 0xFFFF;
    let m3: u128 = (mask >> 64) & 0xFFFF;
    let m4: u128 = (mask >> 48) & 0xFFFF;
    let m5: u128 = (mask >> 32) & 0xFFFF;
    let m6: u128 = (mask >> 16) & 0xFFFF;
    let m7: u128 = (mask >> 0) & 0xFFFF;
    proof {
        let p = cidr as nat;
        lemma_shifted_mask_segment(c, 0, m0, (16 - mask_bits_in(p, 0, 16)) as u128);
        lemma_shifted_mask_segment(c, 1, m1, (16 - mask_bits_in(p, 1, 16)) as u128);
        lemma_shifted_mask_segment(c, 2, m2, (16 - mask_bits_in(p, 2, 16)) as u128);
        lemma_shifted_mask_segment(c, 3, m3, (16 - mask_bits_in(p, 3, 16)) as u128);
        lemma_shifted_mask_segment(c, 4, m4, (16 - mask_bits_in(p, 4, 16)) as u128);
        lemma_shifted_mask_segment(c, 5, m5, (16 - mask_bits_in(p, 5, 16)) as u128);
        lemma_shifted_mask_segment(c, 6, m6, (16 - mask_bits_in(p, 6, 16)) as u128);
        lemma_shifted_mask_segment(c, 7, m7, (16 - mask_bits_in(p, 7, 16)) as u128);
    }
    let mask_vec: [u16; 8] = [
        m0 as u16,
        m1 as u16,
        m2 as u16,
        m3 as u16,
        m4 as u16,
        m5 as u16,
        m6 as u16,
        m7 as u16,
    ];
    proof {
        assert(mask_vec@ =~= subnet_mask6(cidr as nat));
    }
    Ok(mask_vec)
}

/// The wildcard mask of an IPv6 mask: every bit flipped.
pub open spec fn wildcard_of6(mask: Seq<u16>) -> Seq<u16> {
    Seq::new(mask.len(), |i: int| !mask[i])
}

/// What flipping every bit of a segment does.
pub proof fn lemma_complement6(m: u16)
    ensures
        !m == 65535 - m,
        !m | m == 0xFFFF,
        !m & m == 0,
{
    assert(!m == 65535 - m) by (bit_vector);
    assert(!m | m == 0xFFFF) by (bit_vector);
    assert(!m & m == 0) by (bit_vector);
}

/// The wildcard mask of an IPv6 subnet mask: its bitwise complement,
/// segment by segment. The mask is taken as it comes.
pub fn sm_to_wm6(sm: [u16; 8]) -> (wm: [u16; 8])
    ensures
        wm@ == wildcard_of6(sm@),
        forall|i: int| 0 <= i < 8 ==> wm[i] == 65535 - sm[i],
        forall|i: int| 0 <= i < 8 ==> wm[i] | sm[i] == 0xFFFF && wm[i] & sm[i] == 0,
{
    let wm: [u16; 8] = [!sm[0], !sm[1], !sm[2], !sm[3], !sm[4], !sm[5], !sm[6], !sm[7]];
    proof {
        assert forall|i: int| 0 <= i < 8 implies wm[i] == 65535 - sm[i] && wm[i] | sm[i] == 0xFFFF
            && wm[i] & sm[i] == 0 by {
            lemma_complement6(sm[i]);
        }
        assert(wm@ =~= wildcard_of6(sm@));
    }
    wm
}

/// The wildcard mask of an IPv6 subnet mask is its exact complement.
pub proof fn lemma_wildcard_complements_mask6(prefix: nat, i: int)
    requires
        prefix <= 128,
        0 <= i < 8,
    ensures
        wildcard_of6(subnet_mask6(prefix)).len() == 8,
        wildcard_of6(subnet_mask6(prefix))[i] == !subnet_mask6(prefix)[i],
        wildcard_of6(subnet_mask6(prefix))[i] | subnet_mask6(prefix)[i] == 0xFFFF,
        wildcard_of6(subnet_mask6(prefix))[i] & subnet_mask6(prefix)[i] == 0,
        wildcard_of6(subnet_mask6(prefix))[i] == 65535 - mask_segment(prefix, i as nat),
{
    lemma_mask_segment_range(prefix, i as nat);
    lemma_complement6(subnet_mask6(prefix)[i]);
}

/// The number of addresses under an IPv6 prefix length. Nothing is
/// reserved. The one count that does not fit in 128 bits, that of prefix
/// length 0, is given as the largest number that does.
pub open spec fn host_capacity6(prefix: nat) -> int {
    if prefix == 0 {
        0xFFFF_FFFF_FFFF_FFFF_FFFF_FFFF_FFFF_FFFF
    } else {
        pow2((128 - prefix) as nat) as int
    }
}

/// `1 << s` is the `s`-th power of two, in 128 bits.
pub proof fn lemma_one_shl128(s: u128)
    requires
        s < 128,
    ensures
        (1u128 << s) == pow2(s as nat),
    decreases s,
{
    if s == 0 {
        assert((1u128 << 0u128) == 1) by (bit_vector);
        lemma2_to64();
    } else {
        let t: u128 = (s - 1) as u128;
        lemma_one_shl128(t);
        assert((1u128 << s) == 2 * (1u128 << t)) by (bit_vector)
            requires
                0 < s < 128,
                t == s - 1,
        ;
        lemma_pow2_unfold(s as nat);
    }
}

/// The number of addresses under an IPv6 prefix length.
pub fn possible_host6(cidr: u8) -> (r: u128)
    requires
        cidr <= 128,
    ensures
        r == host_capacity6(cidr as nat),
{
    if cidr == 0 {
        u128::MAX
    } else {
        let sh: u128 = 128 - cidr as u128;
        proof {
            lemma_one_shl128(sh);
        }
        1u128 << sh
    }
}

/// The five addresses that describe the IPv6 network of `addr` under
/// `prefix`: network, subnet mask, wildcard mask, first address, last
/// address.
pub open spec fn descriptor6(addr: Seq<u16>, prefix: nat) -> Seq<Seq<u16>> {
    let mask = subnet_mask6(prefix);
    let wildcard = wildcard_of6(mask);
    let network = Seq::new(8, |i: int| addr[i] & mask[i]);
    let last = Seq::new(8, |i: int| (network[i] + wildcard[i]) as u16);
    seq![network, mask, wildcard, network, last]
}

/// Clearing host bits never raises a segment above the mask, and doing it
/// twice is doing it once.
pub proof fn lemma_masking6(a: u16, m: u16)
    ensures
        a & m <= m,
        (a & m) & m == a & m,
{
    assert(a & m <= m) by (bit_vector);
    assert((a & m) & m == a & m) by (bit_vector);
}

/// Deriving an IPv6 network again from its own network address changes
/// nothing.
pub proof fn lemma_descriptor6_idempotent(addr: Seq<u16>, prefix: nat)
    requires
        addr.len() == 8,
        prefix <= 128,
    ensures
        descriptor6(descriptor6(addr, prefix)[0], prefix) == descriptor6(addr, prefix),
{
    let mask = subnet_mask6(prefix);
    let network = descriptor6(addr, prefix)[0];
    assert forall|i: int| 0 <= i < 8 implies (network[i] & mask[i]) == network[i] by {
        lemma_masking6(addr[i], mask[i]);
    }
    assert(Seq::new(8, |i: int| network[i] & mask[i]) =~= network);
}

/// The network descriptor of an IPv6 address given by its segments:
/// network, subnet mask, wildcard mask, first address and last address, in
/// that order. A prefix length above 128 is refused.
pub fn network_from_segments(segments: [u16; 8], cidr: u8) -> (r: Result<
    [[u16; 8]; 5],
    NetHelperError,
>)
    ensures
        cidr > 128 ==> r == Err::<[[u16; 8]; 5], NetHelperError>(NetHelperError::InvalidCidr),
        cidr <= 128 ==> r is Ok && forall|j: int|
            0 <= j < 5 ==> (#[trigger] r->Ok_0[j])@ == descriptor6(segments@, cidr as nat)[j],
{
    let sm = match cidr_to_sm6(cidr) {
        Ok(sm) => sm,
        Err(err) => {
            return Err(err);
        },
    };
    let wm = sm_to_wm6(sm);
    proof {
        lemma_masking6(segments[0], sm[0]);
        lemma_masking6(segments[1], sm[1]);
        lemma_masking6(segments[2], sm[2]);
        lemma_masking6(segments[3], sm[3]);
        lemma_masking6(segments[4], sm[4]);
        lemma_masking6(segments[5], sm[5]);
        lemma_masking6(segments[6], sm[6]);
        lemma_masking6(segments[7], sm[7]);
    }
    let ghost d = descriptor6(segments@, cidr as nat);
    let network: [u16; 8] = [
        segments[0] & sm[0],
        segments[1] & sm[1],
        segments[2] & sm[2],
        segments[3] & sm[3],
        segments[4] & sm[4],
        segments[5] & sm[5],
        segments[6] & sm[6],
        segments[7] & sm[7],
    ];
    assert(network@ =~= d[0]);
    let first_host: [u16; 8] = network;
    let last_host: [u16; 8] = [
        network[0] + wm[0],
        network[1] + wm[1],
        network[2] + wm[2],
        network[3] + wm[3],
        network[4] + wm[4],
        network[5] + wm[5],
        network[6] + wm[6],
        network[7] + wm[7],
    ];
    assert(last_host@ =~= d[4]);
    let out: [[u16; 8]; 5] = [network, sm, wm, first_host, last_host];
    Ok(out)
}

/// Reads an IPv6 address in colon-separated hexadecimal notation and
/// describes its network under the prefix length: network, subnet mask,
/// wildcard mask, first address and last address, in that order. Text that
/// is no address is refused first, then a prefix length above 128.
pub fn get_network6(ip6_str: &str, cidr: u8) -> (r: Result<[[u16; 8]; 5], NetHelperError>)
    ensures
        parse_ipv6(ip6_str.spec_bytes()) is None ==> r == Err::<[[u16; 8]; 5], NetHelperError>(
            NetHelperError::InvalidIP,
        ),
        parse_ipv6(ip6_str.spec_bytes()) is Some && cidr > 128 ==> r == Err::<
            [[u16; 8]; 5],
            NetHelperError,
        >(NetHelperError::InvalidCidr),
        parse_ipv6(ip6_str.spec_bytes()) is Some && cidr <= 128 ==> r is Ok && forall|j: int|
            0 <= j < 5 ==> (#[trigger] r->Ok_0[j])@ == descriptor6(
                parse_ipv6(ip6_str.spec_bytes())->0,
                cidr as nat,
            )[j],
{
    match parse_address6(ip6_str) {
        Some(segments) => network_from_segments(segments, cidr),
        None => Err(NetHelperError::InvalidIP),
    }
}

} // verus!
