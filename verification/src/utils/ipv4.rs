use vstd::prelude::*;
use vstd::arithmetic::power2::{pow2, lemma2_to64, lemma_pow2_strictly_increases};
use vstd::arithmetic::power2::{lemma_pow2_adds, lemma_pow2_pos};
use vstd::bits::{lemma_u32_shl_is_mul, lemma_u64_shl_is_mul};
use vstd::seq_lib::to_multiset_len;
use vstd::string::{StringExecFns, StringSliceAdditionalSpecFns};
use super::structs::{IPv4Class, NetHelperError};
use super::text::{
    append_decimal, append_dotted, decimal, dotted, lemma_dotted_text_reads_back, parse_address,
    parse_ipv4,
};
use super::sizing::{
    demand_order, exponent_for, is_size_exponent, largest_first, lemma_demand_order_total,
    lemma_largest_first,
    size_exponent, sort_largest_first,
};

verus! {

/// The class that an address with the given first octet belongs to.
pub open spec fn class_of(first_octet: u8) -> IPv4Class {
    if first_octet <= 127 {
        IPv4Class::A
    } else if first_octet <= 191 {
        IPv4Class::B
    } else if first_octet <= 223 {
        IPv4Class::C
    } else if first_octet <= 239 {
        IPv4Class::D
    } else {
        IPv4Class::E
    }
}

/// Classifies an address by its first octet. The five ranges cover every
/// octet, so the result is never an error.
pub fn get_class(first_octet: u8) -> (r: Result<IPv4Class, NetHelperError>)
    ensures
        r == Ok::<IPv4Class, NetHelperError>(class_of(first_octet)),
{
    if first_octet <= 127 {
        Ok(IPv4Class::A)
    } else if first_octet <= 191 {
        Ok(IPv4Class::B)
    } else if first_octet <= 223 {
        Ok(IPv4Class::C)
    } else if first_octet <= 239 {
        Ok(IPv4Class::D)
    } else {
        Ok(IPv4Class::E)
    }
}

/// How many of the `prefix` leading one-bits of a mask fall into component
/// `i` of an address whose components are `width` bits wide.
pub open spec fn mask_bits_in(prefix: nat, i: nat, width: nat) -> nat {
    if prefix <= i * width {
        0
    } else if prefix >= (i + 1) * width {
        width
    } else {
        (prefix - i * width) as nat
    }
}

/// Octet `i` of the subnet mask with `prefix` leading one-bits.
pub open spec fn mask_octet(prefix: nat, i: nat) -> int {
    256 - pow2((8 - mask_bits_in(prefix, i, 8)) as nat)
}

/// The subnet mask with `prefix` leading one-bits, most significant octet first.
pub open spec fn subnet_mask(prefix: nat) -> Seq<u8> {
    Seq::new(4, |i: int| mask_octet(prefix, i as nat) as u8)
}

/// `1 << e` is the `e`-th power of two, as far as 16 bits.
pub proof fn lemma_one_shl(e: u32)
    requires
        e <= 16,
    ensures
        (1u32 << e) == pow2(e as nat),
        1 <= pow2(e as nat) <= 65536,
{
    lemma2_to64();
    lemma_u32_shl_is_mul(1, e);
    if e < 16 {
        lemma_pow2_strictly_increases(e as nat, 16);
    }
}

/// The subnet mask for a prefix length: `cidr` one-bits followed by zeros,
/// split into four octets. A prefix length above 32 is refused.
pub fn cidr_to_sm(cidr: u8) -> (r: Result<[u8; 4], NetHelperError>)
    ensures
        cidr > 32 ==> r == Err::<[u8; 4], NetHelperError>(NetHelperError::InvalidCidr),
        cidr <= 32 ==> r is Ok && r->Ok_0@ == subnet_mask(cidr as nat),
{
    if cidr > 32 {
        return Err(NetHelperError::InvalidCidr);
    }
    if cidr == 0 {
        let zero: [u8; 4] = [0, 0, 0, 0];
        proof {
            lemma2_to64();
            assert(zero@ =~= subnet_mask(0));
        }
        return Ok(zero);
    }
    let c: u32 = cidr as u32;
    let sh: u32 = 32 - c;
    let mask: u32 = 0xFFFF_FFFFu32 << sh;
    let m0: u32 = mask >> 24;
    let m1: u32 = (mask >> 16) & 0xFF;
    let m2: u32 = (mask >> 8) & 0xFF;
    let m3: u32 = mask & 0xFF;
    let e0: u32 = if c >= 8 { 0 } else { 8 - c };
    let e1: u32 = if c >= 16 { 0 } else if c <= 8 { 8 } else { 16 - c };
    let e2: u32 = if c >= 24 { 0 } else if c <= 16 { 8 } else { 24 - c };
    let e3: u32 = if c <= 24 { 8 } else { 32 - c };
    proof {
        assert(m0 == 256 - (1u32 << e0)) by (bit_vector)
            requires
                1 <= c <= 32,
                sh == 32 - c,
                mask == 0xFFFF_FFFFu32 << sh,
                m0 == mask >> 24,
                e0 == (if c >= 8 { 0 } else { (8 - c) as u32 }),
        ;
        assert(m1 == 256 - (1u32 << e1)) by (bit_vector)
            requires
                1 <= c <= 32,
                sh == 32 - c,
                mask == 0xFFFF_FFFFu32 << sh,
                m1 == (mask >> 16) & 0xFF,
                e1 == (if c >= 16 { 0 } else if c <= 8 { 8 } else { (16 - c) as u32 }),
        ;
        assert(m2 == 256 - (1u32 << e2)) by (bit_vector)
            requires
                1 <= c <= 32,
                sh == 32 - c,
                mask == 0xFFFF_FFFFu32 << sh,
                m2 == (mask >> 8) & 0xFF,
                e2 == (if c >= 24 { 0 } else if c <= 16 { 8 } else { (24 - c) as u32 }),
        ;
        assert(m3 == 256 - (1u32 << e3)) by (bit_vector)
            requires
                1 <= c <= 32,
                sh == 32 - c,
                mask == 0xFFFF_FFFFu32 << sh,
                m3 == mask & 0xFF,
                e3 == (if c <= 24 { 8 } else { (32 - c) as u32 }),
        ;
        lemma_one_shl(e0);
        lemma_one_shl(e1);
        lemma_one_shl(e2);
        lemma_one_shl(e3);
    }
    let mask_vec: [u8; 4] = [m0 as u8, m1 as u8, m2 as u8, m3 as u8];
    proof {
        assert(mask_vec@ =~= subnet_mask(cidr as nat));
    }
    Ok(mask_vec)
}


/// Powers of two grow with the exponent.
pub proof fn lemma_pow2_monotone(a: nat, b: nat)
    requires
        a <= b,
    ensures
        1 <= pow2(a) <= pow2(b),
{
    lemma_pow2_pos(a);
    if a < b {
        lemma_pow2_strictly_increases(a, b);
    }
}

/// Every octet of a subnet mask is a byte, and the last octet leaves at
/// least two host bits free while the prefix stays below 31.
pub proof fn lemma_mask_octet_range(prefix: nat, i: nat)
    requires
        prefix <= 32,
        i < 4,
    ensures
        0 <= mask_octet(prefix, i) <= 255,
        subnet_mask(prefix)[i as int] == mask_octet(prefix, i),
        prefix < 31 ==> mask_octet(prefix, 3) <= 252,
        prefix == 32 ==> mask_octet(prefix, i) == 255,
{
    lemma2_to64();
    let e = (8 - mask_bits_in(prefix, i, 8)) as nat;
    lemma_pow2_monotone(0, e);
    lemma_pow2_monotone(e, 8);
    if prefix < 31 {
        let e3 = (8 - mask_bits_in(prefix, 3, 8)) as nat;
        lemma_pow2_monotone(2, e3);
    }
}

/// The wildcard mask of a mask: every bit flipped.
pub open spec fn wildcard_of(mask: Seq<u8>) -> Seq<u8> {
    Seq::new(mask.len(), |i: int| !mask[i])
}

/// The wildcard mask of a subnet mask: its bitwise complement, octet by
/// octet. The mask is taken as it comes; nothing about it is checked.
pub fn sm_to_wm(sm: [u8; 4]) -> (wm: [u8; 4])
    ensures
        wm@ == wildcard_of(sm@),
        forall|i: int| 0 <= i < 4 ==> wm[i] == 255 - sm[i],
        forall|i: int| 0 <= i < 4 ==> wm[i] | sm[i] == 0xFF && wm[i] & sm[i] == 0,
{
    let wm: [u8; 4] = [!sm[0], !sm[1], !sm[2], !sm[3]];
    proof {
        assert forall|i: int| 0 <= i < 4 implies wm[i] == 255 - sm[i] && wm[i] | sm[i] == 0xFF
            && wm[i] & sm[i] == 0 by {
            lemma_complement(sm[i]);
        }
        assert(wm@ =~= wildcard_of(sm@));
    }
    wm
}

/// What flipping every bit of an octet does.
pub proof fn lemma_complement(m: u8)
    ensures
        !m == 255 - m,
        !m | m == 0xFF,
        !m & m == 0,
{
    assert(!m == 255 - m) by (bit_vector);
    assert(!m | m == 0xFF) by (bit_vector);
    assert(!m & m == 0) by (bit_vector);
}

/// The wildcard mask of a subnet mask is its exact complement: in every
/// octet the two share no bit, together they fill the octet, and the
/// wildcard octet is 255 minus the mask octet.
pub proof fn lemma_wildcard_complements_mask(prefix: nat, i: int)
    requires
        prefix <= 32,
        0 <= i < 4,
    ensures
        wildcard_of(subnet_mask(prefix)).len() == 4,
        wildcard_of(subnet_mask(prefix))[i] == !subnet_mask(prefix)[i],
        wildcard_of(subnet_mask(prefix))[i] | subnet_mask(prefix)[i] == 0xFF,
        wildcard_of(subnet_mask(prefix))[i] & subnet_mask(prefix)[i] == 0,
        wildcard_of(subnet_mask(prefix))[i] == 255 - mask_octet(prefix, i as nat),
{
    lemma_mask_octet_range(prefix, i as nat);
    lemma_complement(subnet_mask(prefix)[i]);
}

/// The number of usable host addresses under a prefix length: all
/// addresses of the block, less the network and broadcast addresses unless
/// the prefix is 31 or 32.
pub open spec fn host_capacity(prefix: nat) -> int {
    if prefix < 31 {
        pow2((32 - prefix) as nat) - 2
    } else {
        pow2((32 - prefix) as nat) as int
    }
}

/// The number of usable host addresses under a prefix length.
pub fn possible_host(cidr: u8) -> (r: u32)
    requires
        cidr <= 32,
    ensures
        r == host_capacity(cidr as nat),
        cidr < 31 ==> r == pow2((32 - cidr) as nat) - 2,
        cidr >= 31 ==> r == pow2((32 - cidr) as nat),
{
    let sh: u64 = 32 - cidr as u64;
    proof {
        lemma2_to64();
        lemma_pow2_monotone(sh as nat, 32);
        lemma_u64_shl_is_mul(1, sh);
        if cidr < 31 {
            lemma_pow2_monotone(2, sh as nat);
        } else {
            lemma_pow2_monotone(sh as nat, 1);
        }
    }
    let addr_num: u64 = 1u64 << sh;
    if cidr < 31 {
        (addr_num - 2) as u32
    } else {
        addr_num as u32
    }
}

/// The network address: the address with its host bits cleared.
pub open spec fn network_address(addr: Seq<u8>, mask: Seq<u8>) -> Seq<u8> {
    Seq::new(4, |i: int| addr[i] & mask[i])
}

/// The broadcast address: the network address with its host bits set,
/// which is the octet-wise sum of network and wildcard.
pub open spec fn broadcast_address(network: Seq<u8>, wildcard: Seq<u8>) -> Seq<u8> {
    Seq::new(4, |i: int| (network[i] + wildcard[i]) as u8)
}

/// The first usable host of a network: one above the network address,
/// or the network address itself when the prefix leaves nothing to reserve.
pub open spec fn first_host(network: Seq<u8>, prefix: nat) -> Seq<u8> {
    if prefix < 31 {
        network.update(3, (network[3] + 1) as u8)
    } else {
        network
    }
}

/// The last usable host of a network: one below the broadcast address,
/// or the broadcast address itself when the prefix leaves nothing to reserve.
pub open spec fn last_host(broadcast: Seq<u8>, prefix: nat) -> Seq<u8> {
    if prefix < 31 {
        broadcast.update(3, (broadcast[3] - 1) as u8)
    } else {
        broadcast
    }
}

/// The six addresses that describe the network of `addr` under `prefix`:
/// network, subnet mask, wildcard mask, broadcast, first host, last host.
pub open spec fn descriptor4(addr: Seq<u8>, prefix: nat) -> Seq<Seq<u8>> {
    let mask = subnet_mask(prefix);
    let wildcard = wildcard_of(mask);
    let network = network_address(addr, mask);
    let broadcast = broadcast_address(network, wildcard);
    seq![
        network,
        mask,
        wildcard,
        broadcast,
        first_host(network, prefix),
        last_host(broadcast, prefix),
    ]
}

/// An address as one number, the first octet being the most significant.
pub open spec fn address_value(a: Seq<u8>) -> int {
    a[0] * 16777216 + a[1] * 65536 + a[2] * 256 + a[3]
}

/// Read as one number, the subnet mask is `2^32 - 2^(32 - prefix)`: all
/// ones shifted left past the host bits. Its wildcard is `2^(32 - prefix) - 1`.
pub proof fn lemma_mask_value(prefix: nat)
    requires
        prefix <= 32,
    ensures
        address_value(subnet_mask(prefix)) == pow2(32) - pow2((32 - prefix) as nat),
        address_value(wildcard_of(subnet_mask(prefix))) == pow2((32 - prefix) as nat) - 1,
{
    lemma2_to64();
    let m = subnet_mask(prefix);
    let w = wildcard_of(m);
    assert forall|i: int| 0 <= i < 4 implies m[i] == mask_octet(prefix, i as nat) && w[i] == 255
        - m[i] by {
        lemma_mask_octet_range(prefix, i as nat);
        lemma_complement(m[i]);
    }
    assert(m[0] == mask_octet(prefix, 0) && m[1] == mask_octet(prefix, 1));
    assert(m[2] == mask_octet(prefix, 2) && m[3] == mask_octet(prefix, 3));
    assert(w[0] == 255 - m[0] && w[1] == 255 - m[1] && w[2] == 255 - m[2] && w[3] == 255 - m[3]);
    let host = (32 - prefix) as nat;
    if prefix < 8 {
        let e = (8 - prefix) as nat;
        lemma_pow2_adds(e, 24);
        assert(pow2(host) == pow2(e) * 16777216);
    } else if prefix < 16 {
        let e = (16 - prefix) as nat;
        lemma_pow2_adds(e, 16);
        assert(pow2(host) == pow2(e) * 65536);
    } else if prefix < 24 {
        let e = (24 - prefix) as nat;
        lemma_pow2_adds(e, 8);
        assert(pow2(host) == pow2(e) * 256);
    } else {
    }
}

/// Clearing host bits never raises an octet above the mask, and doing it
/// twice is doing it once.
pub proof fn lemma_masking(a: u8, m: u8)
    ensures
        a & m <= m,
        a & m <= a,
        (a & m) & m == a & m,
{
    assert(a & m <= m) by (bit_vector);
    assert(a & m <= a) by (bit_vector);
    assert((a & m) & m == a & m) by (bit_vector);
}

/// How the octets of a descriptor relate: the sums and differences in its
/// definition stay within a byte.
pub proof fn lemma_descriptor_octets(addr: Seq<u8>, prefix: nat)
    requires
        addr.len() == 4,
        prefix <= 32,
    ensures
        ({
            let d = descriptor4(addr, prefix);
            &&& d.len() == 6
            &&& forall|j: int| 0 <= j < 6 ==> (#[trigger] d[j]).len() == 4
            &&& forall|i: int| 0 <= i < 4 ==> #[trigger] d[1][i] == mask_octet(prefix, i as nat)
            &&& forall|i: int| 0 <= i < 4 ==> #[trigger] d[2][i] == 255 - d[1][i]
            &&& forall|i: int| 0 <= i < 4 ==> #[trigger] d[0][i] <= d[1][i]
            &&& forall|i: int| 0 <= i < 4 ==> #[trigger] d[3][i] == d[0][i] + d[2][i]
            &&& prefix < 31 ==> d[0][3] <= 252 && d[2][3] >= 3
            &&& prefix < 31 ==> d[4][3] == d[0][3] + 1 && d[5][3] == d[3][3] - 1
            &&& forall|i: int| 0 <= i < 3 ==> #[trigger] d[4][i] == d[0][i]
            &&& forall|i: int| 0 <= i < 3 ==> #[trigger] d[5][i] == d[3][i]
            &&& prefix >= 31 ==> d[4] == d[0] && d[5] == d[3]
        }),
{
    let d = descriptor4(addr, prefix);
    assert forall|i: int| 0 <= i < 4 implies d[1][i] == mask_octet(prefix, i as nat) && d[2][i]
        == 255 - d[1][i] && d[0][i] <= d[1][i] && d[3][i] == d[0][i] + d[2][i] by {
        lemma_mask_octet_range(prefix, i as nat);
        lemma_complement(d[1][i]);
        lemma_masking(addr[i], d[1][i]);
    }
    lemma_mask_octet_range(prefix, 3);
}

/// Deriving a network again from its own network address changes nothing.
pub proof fn lemma_descriptor_idempotent(addr: Seq<u8>, prefix: nat)
    requires
        addr.len() == 4,
        prefix <= 32,
    ensures
        descriptor4(descriptor4(addr, prefix)[0], prefix) == descriptor4(addr, prefix),
{
    let mask = subnet_mask(prefix);
    let network = network_address(addr, mask);
    assert forall|i: int| 0 <= i < 4 implies (network[i] & mask[i]) == network[i] by {
        lemma_masking(addr[i], mask[i]);
    }
    assert(network_address(network, mask) =~= network);
}

/// Read as numbers, the addresses of a descriptor are in order: the network
/// address is not above the first host, which is not above the last host,
/// which is not above the broadcast address. Below prefix 31 the hosts
/// lie strictly inside.
pub proof fn lemma_hosts_within_network(addr: Seq<u8>, prefix: nat)
    requires
        addr.len() == 4,
        prefix <= 32,
    ensures
        ({
            let d = descriptor4(addr, prefix);
            &&& address_value(d[0]) <= address_value(d[4])
            &&& address_value(d[4]) <= address_value(d[5])
            &&& address_value(d[5]) <= address_value(d[3])
            &&& prefix < 31 ==> address_value(d[4]) == address_value(d[0]) + 1
            &&& prefix < 31 ==> address_value(d[5]) == address_value(d[3]) - 1
        }),
{
    lemma_descriptor_octets(addr, prefix);
    let d = descriptor4(addr, prefix);
    assert(d[3][0] == d[0][0] + d[2][0]);
    assert(d[3][1] == d[0][1] + d[2][1]);
    assert(d[3][2] == d[0][2] + d[2][2]);
    assert(d[3][3] == d[0][3] + d[2][3]);
    assert(d[4][0] == d[0][0] && d[4][1] == d[0][1] && d[4][2] == d[0][2]);
    assert(d[5][0] == d[3][0] && d[5][1] == d[3][1] && d[5][2] == d[3][2]);
}

/// A network spans `2^(32 - prefix)` addresses: read as numbers, the
/// broadcast address is the network address plus that count less one.
pub proof fn lemma_network_extent(addr: Seq<u8>, prefix: nat)
    requires
        addr.len() == 4,
        prefix <= 32,
    ensures
        ({
            let d = descriptor4(addr, prefix);
            address_value(d[3]) == address_value(d[0]) + pow2((32 - prefix) as nat) - 1
        }),
{
    lemma_descriptor_octets(addr, prefix);
    lemma_mask_value(prefix);
    let d = descriptor4(addr, prefix);
    assert(d[3][0] == d[0][0] + d[2][0]);
    assert(d[3][1] == d[0][1] + d[2][1]);
    assert(d[3][2] == d[0][2] + d[2][2]);
    assert(d[3][3] == d[0][3] + d[2][3]);
    assert(d[2] == wildcard_of(subnet_mask(prefix)));
}

/// The network descriptor of an address given by its octets: network,
/// subnet mask, wildcard mask, broadcast, first host and last host, in
/// that order. A prefix length above 32 is refused.
pub fn network_from_octets(ip: [u8; 4], cidr: u8) -> (r: Result<[[u8; 4]; 6], NetHelperError>)
    ensures
        cidr > 32 ==> r == Err::<[[u8; 4]; 6], NetHelperError>(NetHelperError::InvalidCidr),
        cidr <= 32 ==> r is Ok && forall|j: int|
            0 <= j < 6 ==> (#[trigger] r->Ok_0[j])@ == descriptor4(ip@, cidr as nat)[j],
{
    let sm = match cidr_to_sm(cidr) {
        Ok(sm) => sm,
        Err(e) => {
            return Err(e);
        },
    };
    let wm = sm_to_wm(sm);
    proof {
        lemma_descriptor_octets(ip@, cidr as nat);
        lemma_masking(ip[0], sm[0]);
        lemma_masking(ip[1], sm[1]);
        lemma_masking(ip[2], sm[2]);
        lemma_masking(ip[3], sm[3]);
    }
    let ghost d = descriptor4(ip@, cidr as nat);
    let network: [u8; 4] = [ip[0] & sm[0], ip[1] & sm[1], ip[2] & sm[2], ip[3] & sm[3]];
    assert(network@ =~= d[0]);
    let broadcast: [u8; 4] = [
        network[0] + wm[0],
        network[1] + wm[1],
        network[2] + wm[2],
        network[3] + wm[3],
    ];
    assert(broadcast@ =~= d[3]);
    let mut first: [u8; 4] = network;
    let mut last: [u8; 4] = broadcast;
    if cidr < 31 {
        first = [network[0], network[1], network[2], network[3] + 1];
        last = [broadcast[0], broadcast[1], broadcast[2], broadcast[3] - 1];
    }
    assert(first@ =~= d[4]);
    assert(last@ =~= d[5]);
    let out: [[u8; 4]; 6] = [network, sm, wm, broadcast, first, last];
    Ok(out)
}


/// Reads an address in dotted decimal notation and describes its network
/// under the prefix length: network, subnet mask, wildcard mask, broadcast,
/// first host and last host, in that order. Text that is no address is
/// refused first, then a prefix length above 32.
pub fn get_network(ip4_str: &str, cidr: u8) -> (r: Result<[[u8; 4]; 6], NetHelperError>)
    ensures
        parse_ipv4(ip4_str.spec_bytes()) is None ==> r == Err::<[[u8; 4]; 6], NetHelperError>(
            NetHelperError::InvalidIP,
        ),
        parse_ipv4(ip4_str.spec_bytes()) is Some && cidr > 32 ==> r == Err::<
            [[u8; 4]; 6],
            NetHelperError,
        >(NetHelperError::InvalidCidr),
        parse_ipv4(ip4_str.spec_bytes()) is Some && cidr <= 32 ==> r is Ok && forall|j: int|
            0 <= j < 6 ==> (#[trigger] r->Ok_0[j])@ == descriptor4(
                parse_ipv4(ip4_str.spec_bytes())->0,
                cidr as nat,
            )[j],
{
    match parse_address(ip4_str) {
        Some(ip) => network_from_octets(ip, cidr),
        None => Err(NetHelperError::InvalidIP),
    }
}

/// Deriving again from the text of a network's own address, under the
/// same prefix length, yields the same descriptor.
pub proof fn lemma_get_network_idempotent(text: &str, again: &str, prefix: nat)
    requires
        prefix <= 32,
        parse_ipv4(text.spec_bytes()) is Some,
        again@ == dotted(descriptor4(parse_ipv4(text.spec_bytes())->0, prefix)[0]),
    ensures
        parse_ipv4(again.spec_bytes()) is Some,
        descriptor4(parse_ipv4(again.spec_bytes())->0, prefix) == descriptor4(
            parse_ipv4(text.spec_bytes())->0,
            prefix,
        ),
{
    let addr = parse_ipv4(text.spec_bytes())->0;
    let network = descriptor4(addr, prefix)[0];
    lemma_dotted_text_reads_back(again, network);
    lemma_descriptor_idempotent(addr, prefix);
}

/// The number of addresses that the feasibility check counts for a subnet
/// of `2^k` addresses: its host capacity and two reserved addresses.
pub open spec fn block_size(k: nat) -> int {
    if k <= 32 {
        host_capacity((32 - k) as nat) + 2
    } else {
        pow2(k) as int
    }
}

/// The sum of the block sizes of all demands.
pub open spec fn total_blocks(demands: Seq<u32>) -> int
    decreases demands.len(),
{
    if demands.len() == 0 {
        0
    } else {
        total_blocks(demands.drop_last()) + block_size(size_exponent(demands.last() as nat))
    }
}

/// Whether the demands pass the aggregate check against a parent prefix:
/// the sum of their blocks, less one reservation, is within the parent's
/// host capacity.
pub open spec fn demands_fit(demands: Seq<u32>, parent: nat) -> bool {
    total_blocks(demands) - 2 <= host_capacity(parent)
}

/// Each demand with its size exponent.
pub open spec fn sized(demands: Seq<u32>) -> Seq<(u32, u8)> {
    Seq::new(demands.len(), |i: int| (demands[i], size_exponent(demands[i] as nat) as u8))
}

/// A block of exponent `k` counts `2^k` addresses, but for exponent 1,
/// which counts four: the two addresses of the pair and two reserved ones.
pub proof fn lemma_block_size(k: nat)
    ensures
        block_size(k) >= 2,
        k >= 2 ==> block_size(k) == pow2(k),
        k == 1 ==> block_size(k) == 4,
        1 <= k <= 31 ==> block_size(k) <= 0x8000_0000,
        k >= 32 ==> block_size(k) >= 0x1_0000_0000,
{
    lemma2_to64();
    if k <= 32 {
        lemma_pow2_monotone(0, (32 - k) as nat);
        if 1 <= k <= 31 {
            lemma_pow2_monotone(k, 31);
        }
        if 32 - k < 31 {
            lemma_pow2_monotone(2, k);
        }
    } else {
        lemma_pow2_monotone(32, k);
    }
}

/// The blocks of the first `i` demands sum to no more than those of all.
pub proof fn lemma_total_blocks_prefix(demands: Seq<u32>, i: int)
    requires
        0 <= i <= demands.len(),
    ensures
        0 <= total_blocks(demands.take(i)) <= total_blocks(demands),
    decreases demands.len() - i,
{
    if i == demands.len() {
        assert(demands.take(i) =~= demands);
        lemma_total_blocks_nonnegative(demands);
    } else {
        lemma_total_blocks_prefix(demands, i + 1);
        lemma_total_blocks_step(demands, i);
        lemma_block_size(size_exponent(demands[i] as nat));
        lemma_total_blocks_nonnegative(demands.take(i));
    }
}

/// One more demand adds its block to the sum.
pub proof fn lemma_total_blocks_step(demands: Seq<u32>, i: int)
    requires
        0 <= i < demands.len(),
    ensures
        total_blocks(demands.take(i + 1)) == total_blocks(demands.take(i)) + block_size(
            size_exponent(demands[i] as nat),
        ),
{
    assert(demands.take(i + 1).drop_last() =~= demands.take(i));
}

/// A sum of blocks is never negative.
pub proof fn lemma_total_blocks_nonnegative(demands: Seq<u32>)
    ensures
        total_blocks(demands) >= 0,
    decreases demands.len(),
{
    if demands.len() > 0 {
        lemma_total_blocks_nonnegative(demands.drop_last());
        lemma_block_size(size_exponent(demands.last() as nat));
    }
}

/// Sizes every demand and checks that all of them fit under the parent
/// prefix. A parent prefix of 0, or of 31 and above, cannot be subdivided
/// and is refused. Each demand `d` gets the least `k` with `2^k >= d + 2`.
/// The demands fit when the sum of their blocks, less two, is within the
/// host capacity of the parent; otherwise there is no space. The answer
/// lists each demand with its exponent, the largest demand first.
pub fn is_space_enough(n_host: Vec<u32>, max_cidr: u8) -> (r: Result<
    Vec<(u32, u8)>,
    NetHelperError,
>)
    ensures
        max_cidr == 0 || max_cidr >= 31 ==> r == Err::<Vec<(u32, u8)>, NetHelperError>(
            NetHelperError::InvalidCidrVLSM,
        ),
        1 <= max_cidr <= 30 && !demands_fit(n_host@, max_cidr as nat) ==> r == Err::<
            Vec<(u32, u8)>,
            NetHelperError,
        >(NetHelperError::NoSpace),
        1 <= max_cidr <= 30 && demands_fit(n_host@, max_cidr as nat) ==> r is Ok && r->Ok_0@
            == sized(largest_first(n_host@)),
        r is Ok ==> forall|i: int|
            0 <= i < r->Ok_0@.len() ==> 1 <= (#[trigger] r->Ok_0@[i]).1 <= 31 && is_size_exponent(
                r->Ok_0@[i].0 as nat,
                r->Ok_0@[i].1 as nat,
            ),
{
    if max_cidr == 0 || max_cidr >= 31 {
        return Err(NetHelperError::InvalidCidrVLSM);
    }
    let capacity: u64 = possible_host(max_cidr) as u64;
    proof {
        lemma2_to64();
        lemma_pow2_monotone((32 - max_cidr) as nat, 31);
    }
    let n: usize = n_host.len();
    let mut sum: u64 = 0;
    let mut i: usize = 0;
    while i < n
        invariant
            n == n_host.len(),
            i <= n,
            1 <= max_cidr <= 30,
            capacity == host_capacity(max_cidr as nat),
            capacity <= 0x8000_0000,
            sum == total_blocks(n_host@.take(i as int)),
            sum <= 0x1_0000_0000,
            forall|j: int| 0 <= j < i ==> size_exponent(#[trigger] n_host@[j] as nat) <= 31,
        decreases n - i,
    {
        let k: u8 = exponent_for(n_host[i]);
        proof {
            lemma_total_blocks_step(n_host@, i as int);
            lemma_total_blocks_prefix(n_host@, i + 1);
            lemma_block_size(k as nat);
        }
        if k > 31 {
            return Err(NetHelperError::NoSpace);
        }
        let block: u64 = possible_host(32 - k) as u64 + 2;
        sum = sum + block;
        if sum > 0x1_0000_0000 {
            return Err(NetHelperError::NoSpace);
        }
        i = i + 1;
    }
    proof {
        assert(n_host@.take(n as int) =~= n_host@);
    }
    if sum > capacity + 2 {
        return Err(NetHelperError::NoSpace);
    }
    let sorted = sort_largest_first(&n_host);
    let mut pairs: Vec<(u32, u8)> = Vec::new();
    let mut j: usize = 0;
    proof {
        lemma_demand_order_total();
        n_host@.lemma_sort_by_ensures(demand_order());
        to_multiset_len(n_host@);
        to_multiset_len(sorted@);
    }
    while j < sorted.len()
        invariant
            j <= sorted.len(),
            pairs.len() == j,
            sorted@ == largest_first(n_host@),
            forall|x: u32| !n_host@.contains(x) ==> !(#[trigger] sorted@.contains(x)),
            forall|a: int| 0 <= a < n_host.len() ==> size_exponent(#[trigger] n_host@[a] as nat) <= 31,
            forall|a: int|
                0 <= a < j ==> #[trigger] pairs@[a] == (
                    sorted@[a],
                    size_exponent(sorted@[a] as nat) as u8,
                ) && 1 <= pairs@[a].1 <= 31 && is_size_exponent(
                    pairs@[a].0 as nat,
                    pairs@[a].1 as nat,
                ),
        decreases sorted.len() - j,
    {
        let d: u32 = sorted[j];
        let k: u8 = exponent_for(d);
        proof {
            assert(sorted@.contains(d));
            assert(n_host@.contains(d));
        }
        pairs.push((d, k));
        j = j + 1;
    }
    proof {
        assert(pairs@ =~= sized(sorted@));
    }
    Ok(pairs)
}


/// The four octets of a number below `2^32`, most significant first.
pub open spec fn octets_of(v: int) -> Seq<u8> {
    seq![
        (v / 16777216 % 256) as u8,
        (v / 65536 % 256) as u8,
        (v / 256 % 256) as u8,
        (v % 256) as u8,
    ]
}

/// The address that follows `a`, if `a` is not the last address there is.
pub open spec fn next_address(a: Seq<u8>) -> Option<Seq<u8>> {
    if address_value(a) + 1 < 0x1_0000_0000 {
        Some(octets_of(address_value(a) + 1))
    } else {
        None
    }
}

/// Splitting the number of an address into octets gives the address back.
pub proof fn lemma_octets_of_value(a: Seq<u8>)
    requires
        a.len() == 4,
    ensures
        0 <= address_value(a) < 0x1_0000_0000,
        octets_of(address_value(a)) == a,
{
    let v = address_value(a);
    let hi = a[0] * 256 + a[1];
    let lo = a[2] * 256 + a[3];
    assert(v == hi * 65536 + lo);
    assert(v % 256 == a[3]);
    assert(v / 256 == hi * 256 + a[2]);
    assert(v / 256 % 256 == a[2]);
    assert(v / 65536 == hi);
    assert(v / 65536 % 256 == a[1]);
    assert(v / 16777216 == a[0]);
    assert(octets_of(v) =~= a);
}

/// Steps from an address to the one that follows it: adds one to the last
/// octet and carries into the octets before it. There is no next address
/// when the carry leaves the first octet.
pub fn next_cursor(a: &[u8; 4]) -> (r: Option<[u8; 4]>)
    ensures
        match next_address(a@) {
            Some(next) => r is Some && r->0@ == next,
            None => r is None,
        },
{
    let mut carry: u8 = 1;
    let o3: u8 = if a[3] == 255 {
        0
    } else {
        carry = 0;
        a[3] + 1
    };
    let o2: u8 = if carry == 1 && a[2] == 255 {
        0
    } else {
        let v: u8 = a[2] + carry;
        carry = 0;
        v
    };
    let o1: u8 = if carry == 1 && a[1] == 255 {
        0
    } else {
        let v: u8 = a[1] + carry;
        carry = 0;
        v
    };
    if carry == 1 && a[0] == 255 {
        return None;
    }
    let o0: u8 = a[0] + carry;
    let out: [u8; 4] = [o0, o1, o2, o3];
    proof {
        assert(address_value(a@) + 1 == address_value(out@));
        lemma_octets_of_value(out@);
    }
    Some(out)
}

/// The label of an allocated subnet: the demand and the exponent granted.
pub open spec fn demand_label(demand: u32, k: u8) -> Seq<char> {
    decimal(demand as nat) + seq![' ', '(', '2', '^'] + decimal(k as nat) + seq![')']
}

/// The record of an allocated subnet, as five texts: the network with its
/// prefix length, the broadcast address, the first host, the last host,
/// and the label.
pub open spec fn record_text(d: Seq<Seq<u8>>, prefix: nat, demand: u32, k: u8) -> Seq<Seq<char>> {
    seq![
        dotted(d[0]) + seq!['/'] + decimal(prefix),
        dotted(d[3]),
        dotted(d[4]),
        dotted(d[5]),
        demand_label(demand, k),
    ]
}

/// Puts finished records in front of the outcome of the rest of an allocation.
pub open spec fn after(
    done: Seq<Seq<Seq<char>>>,
    rest: Result<Seq<Seq<Seq<char>>>, NetHelperError>,
) -> Result<Seq<Seq<Seq<char>>>, NetHelperError> {
    match rest {
        Ok(records) => Ok(done + records),
        Err(e) => Err(e),
    }
}

/// Lays the sized demands out one after another, starting at `cursor`.
/// Each subnet is the network of the cursor under prefix `32 - k`; the next
/// cursor is the address after its broadcast address. The space is
/// exhausted when a further subnet is due and no address follows.
pub open spec fn allocate(cursor: Seq<u8>, sizes: Seq<(u32, u8)>) -> Result<
    Seq<Seq<Seq<char>>>,
    NetHelperError,
>
    decreases sizes.len(),
{
    if sizes.len() == 0 {
        Ok(Seq::empty())
    } else {
        let prefix = (32 - sizes[0].1) as nat;
        let d = descriptor4(cursor, prefix);
        let record = record_text(d, prefix, sizes[0].0, sizes[0].1);
        if sizes.len() == 1 {
            Ok(seq![record])
        } else {
            match next_address(d[3]) {
                None => Err(NetHelperError::NoSpace),
                Some(next) => after(seq![record], allocate(next, sizes.drop_first())),
            }
        }
    }
}

/// One step of an allocation: with `done` finished and the cursor at the
/// subnet of demand `i`, the outcome is the finished records and the new
/// one if that demand is the last, exhaustion if no address follows its
/// broadcast address, and otherwise the outcome of going on from there.
pub proof fn lemma_allocate_step(
    done: Seq<Seq<Seq<char>>>,
    cursor: Seq<u8>,
    sizes: Seq<(u32, u8)>,
    i: int,
)
    requires
        0 <= i < sizes.len(),
    ensures
        ({
            let prefix = (32 - sizes[i].1) as nat;
            let d = descriptor4(cursor, prefix);
            let record = record_text(d, prefix, sizes[i].0, sizes[i].1);
            let now = after(done, allocate(cursor, sizes.skip(i)));
            if i == sizes.len() - 1 {
                now == Ok::<Seq<Seq<Seq<char>>>, NetHelperError>(done.push(record))
            } else {
                match next_address(d[3]) {
                    None => now == Err::<Seq<Seq<Seq<char>>>, NetHelperError>(
                        NetHelperError::NoSpace,
                    ),
                    Some(next) => now == after(
                        done.push(record),
                        allocate(next, sizes.skip(i + 1)),
                    ),
                }
            }
        }),
{
    let rest = sizes.skip(i);
    let prefix = (32 - sizes[i].1) as nat;
    let d = descriptor4(cursor, prefix);
    let record = record_text(d, prefix, sizes[i].0, sizes[i].1);
    assert(rest[0] == sizes[i]);
    assert(rest.drop_first() =~= sizes.skip(i + 1));
    if i == sizes.len() - 1 {
        assert(rest.len() == 1);
        assert(done + seq![record] =~= done.push(record));
    } else {
        assert(rest.len() > 1);
        match next_address(d[3]) {
            None => {},
            Some(next) => {
                match allocate(next, sizes.skip(i + 1)) {
                    Ok(records) => {
                        assert(done + (seq![record] + records) =~= done.push(record) + records);
                    },
                    Err(_) => {},
                }
            },
        }
    }
}

/// What subdividing a parent network yields: an unsuitable parent prefix is
/// refused first, then demands that fail the aggregate check, then text
/// that is no address; otherwise the demands are laid out from the parent's
/// network address, largest first.
pub open spec fn vlsm_outcome(text: Seq<u8>, cidr: u8, demands: Seq<u32>) -> Result<
    Seq<Seq<Seq<char>>>,
    NetHelperError,
> {
    if cidr == 0 || cidr >= 31 {
        Err(NetHelperError::InvalidCidrVLSM)
    } else if !demands_fit(demands, cidr as nat) {
        Err(NetHelperError::NoSpace)
    } else {
        match parse_ipv4(text) {
            None => Err(NetHelperError::InvalidIP),
            Some(addr) => allocate(
                descriptor4(addr, cidr as nat)[0],
                sized(largest_first(demands)),
            ),
        }
    }
}

/// A successful allocation reports one record of five texts for every
/// sized demand, in the order of the demands.
pub proof fn lemma_allocate_records(cursor: Seq<u8>, sizes: Seq<(u32, u8)>)
    ensures
        allocate(cursor, sizes) is Ok ==> allocate(cursor, sizes)->Ok_0.len() == sizes.len(),
        allocate(cursor, sizes) is Ok ==> forall|i: int|
            0 <= i < sizes.len() ==> (#[trigger] allocate(cursor, sizes)->Ok_0[i]).len() == 5
                && allocate(cursor, sizes)->Ok_0[i][4] == demand_label(sizes[i].0, sizes[i].1),
    decreases sizes.len(),
{
    if sizes.len() > 1 {
        let prefix = (32 - sizes[0].1) as nat;
        let d = descriptor4(cursor, prefix);
        match next_address(d[3]) {
            None => {},
            Some(next) => {
                lemma_allocate_records(next, sizes.drop_first());
            },
        }
    }
}

/// A successful subdivision reports one record for every demand.
pub proof fn lemma_vlsm_outcome_records(text: Seq<u8>, cidr: u8, demands: Seq<u32>)
    ensures
        vlsm_outcome(text, cidr, demands) is Ok ==> vlsm_outcome(text, cidr, demands)->Ok_0.len()
            == demands.len(),
{
    if vlsm_outcome(text, cidr, demands) is Ok {
        let addr = parse_ipv4(text)->0;
        lemma_largest_first(demands);
        lemma_allocate_records(descriptor4(addr, cidr as nat)[0], sized(largest_first(demands)));
    }
}

/// The texts held by a list of records.
pub open spec fn texts_of(records: Seq<Vec<String>>) -> Seq<Seq<Seq<char>>> {
    Seq::new(records.len(), |i: int| Seq::new(records[i]@.len(), |j: int| records[i]@[j]@))
}

/// The texts of a list with one more record.
pub proof fn lemma_texts_push(records: Seq<Vec<String>>, rec: Vec<String>)
    ensures
        texts_of(records.push(rec)) == texts_of(records).push(
            Seq::new(rec@.len(), |j: int| rec@[j]@),
        ),
{
    assert(texts_of(records.push(rec)) =~= texts_of(records).push(
        Seq::new(rec@.len(), |j: int| rec@[j]@),
    ));
}

/// Writes the record of one allocated subnet.
fn render_record(net: &[[u8; 4]; 6], prefix: u8, demand: u32, k: u8) -> (rec: Vec<String>)
    ensures
        rec@.len() == 5,
        Seq::new(5, |j: int| rec@[j]@) == record_text(
            Seq::new(6, |j: int| net@[j]@),
            prefix as nat,
            demand,
            k,
        ),
{
    proof {
        reveal_strlit("/");
        reveal_strlit(" (2^");
        reveal_strlit(")");
    }
    let mut network = String::new();
    append_dotted(&mut network, &net[0]);
    network.append("/");
    append_decimal(&mut network, prefix as u32);
    let mut broadcast = String::new();
    append_dotted(&mut broadcast, &net[3]);
    let mut first = String::new();
    append_dotted(&mut first, &net[4]);
    let mut last = String::new();
    append_dotted(&mut last, &net[5]);
    let mut label = String::new();
    append_decimal(&mut label, demand);
    label.append(" (2^");
    append_decimal(&mut label, k as u32);
    label.append(")");
    proof {
        assert("/"@ =~= seq!['/']);
        assert(" (2^"@ =~= seq![' ', '(', '2', '^']);
        assert(")"@ =~= seq![')']);
        assert(network@ =~= dotted(net@[0]@) + seq!['/'] + decimal(prefix as nat));
        assert(broadcast@ =~= dotted(net@[3]@));
        assert(first@ =~= dotted(net@[4]@));
        assert(last@ =~= dotted(net@[5]@));
        assert(label@ =~= demand_label(demand, k));
    }
    let mut rec: Vec<String> = Vec::new();
    rec.push(network);
    rec.push(broadcast);
    rec.push(first);
    rec.push(last);
    rec.push(label);
    proof {
        assert(Seq::new(5, |j: int| rec@[j]@) =~= record_text(
            Seq::new(6, |j: int| net@[j]@),
            prefix as nat,
            demand,
            k,
        ));
    }
    rec
}

/// Describes the subnet of `2^k` addresses at the cursor: its record, and
/// its broadcast address, after which the next subnet starts.
fn subnet_at(cursor: &[u8; 4], demand: u32, k: u8) -> (r: Result<
    (Vec<String>, [u8; 4]),
    NetHelperError,
>)
    requires
        k <= 32,
    ensures
        r is Ok,
        Seq::new(r->Ok_0.0@.len(), |j: int| r->Ok_0.0@[j]@) == record_text(
            descriptor4(cursor@, (32 - k) as nat),
            (32 - k) as nat,
            demand,
            k,
        ),
        r->Ok_0.1@ == descriptor4(cursor@, (32 - k) as nat)[3],
{
    let mask_sub: u8 = 32 - k;
    let ghost d = descriptor4(cursor@, mask_sub as nat);
    match network_from_octets(*cursor, mask_sub) {
        Ok(net) => {
            proof {
                assert(Seq::new(6, |j: int| net@[j]@) =~= d);
            }
            let rec = render_record(&net, mask_sub, demand, k);
            proof {
                assert(Seq::new(5, |j: int| rec@[j]@) =~= Seq::new(rec@.len(), |j: int| rec@[j]@));
            }
            Ok((rec, net[3]))
        },
        Err(e) => Err(e),
    }
}

/// Subdivides the network of `ip` under `cidr` into one subnet per demand,
/// each just large enough for its hosts and two reserved addresses, placed
/// one after another with the largest demand first. Every subnet is
/// reported as five texts: network and prefix length, broadcast address,
/// first host, last host, and the demand with the exponent granted.
/// Refused are, in this order: a parent prefix of 0 or of 31 and above,
/// demands that do not fit, and text that is no address. No demands give
/// no records.
pub fn vlsm(ip: &str, cidr: u8, n_hosts: Vec<u32>) -> (r: Result<Vec<Vec<String>>, NetHelperError>)
    ensures
        cidr == 0 || cidr >= 31 ==> r == Err::<Vec<Vec<String>>, NetHelperError>(
            NetHelperError::InvalidCidrVLSM,
        ),
        match vlsm_outcome(ip.spec_bytes(), cidr, n_hosts@) {
            Ok(records) => r is Ok && texts_of(r->Ok_0@) == records,
            Err(e) => r == Err::<Vec<Vec<String>>, NetHelperError>(e),
        },
{
    if cidr >= 31 || cidr == 0 {
        return Err(NetHelperError::InvalidCidrVLSM);
    }
    let sizes = match is_space_enough(n_hosts, cidr) {
        Ok(v) => v,
        Err(e) => {
            return Err(e);
        },
    };
    let network = match get_network(ip, cidr) {
        Ok(net) => net,
        Err(e) => {
            return Err(e);
        },
    };
    let mut cursor: [u8; 4] = network[0];
    let mut subnets: Vec<Vec<String>> = Vec::new();
    let ghost goal = allocate(cursor@, sizes@);
    let n: usize = sizes.len();
    let mut i: usize = 0;
    proof {
        assert(sizes@.skip(0) =~= sizes@);
        assert(texts_of(subnets@) =~= Seq::empty());
        match goal {
            Ok(records) => {
                assert(texts_of(subnets@) + records =~= records);
            },
            Err(_) => {},
        }
    }
    while i < n
        invariant
            n == sizes.len(),
            i <= n,
            forall|a: int| 0 <= a < n ==> 1 <= (#[trigger] sizes@[a]).1 <= 31,
            i < n ==> goal == after(texts_of(subnets@), allocate(cursor@, sizes@.skip(i as int))),
            i == n ==> goal == Ok::<Seq<Seq<Seq<char>>>, NetHelperError>(texts_of(subnets@)),
            goal == vlsm_outcome(ip.spec_bytes(), cidr, n_hosts@),
        decreases n - i,
    {
        let demand: u32 = sizes[i].0;
        let k: u8 = sizes[i].1;
        proof {
            lemma_allocate_step(texts_of(subnets@), cursor@, sizes@, i as int);
        }
        let (rec, broadcast) = match subnet_at(&cursor, demand, k) {
            Ok(subnet) => subnet,
            Err(e) => {
                return Err(e);
            },
        };
        proof {
            lemma_texts_push(subnets@, rec);
        }
        subnets.push(rec);
        if i != n - 1 {
            match next_cursor(&broadcast) {
                None => {
                    return Err(NetHelperError::NoSpace);
                },
                Some(next) => {
                    cursor = next;
                },
            }
        }
        i = i + 1;
    }
    Ok(subnets)
}

} // verus!
