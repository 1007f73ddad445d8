use vstd::arithmetic::power2::{lemma2_to64, pow2};
use vstd::prelude::*;

verus! {

/// The mask byte whose top `k` bits are set (`k` in `0..=8`).
pub open spec fn byte_mask(k: nat) -> int {
    256 - pow2((8 - k) as nat)
}

/// How many of the `p` prefix bits fall into byte `i` of a 4-byte mask.
pub open spec fn bits_in_byte(p: nat, i: int) -> nat {
    if p <= 8 * i {
        0
    } else if p >= 8 * i + 8 {
        8
    } else {
        (p - 8 * i) as nat
    }
}

/// Byte `i` of the canonical mask of prefix length `p`.
pub open spec fn mask_byte(p: nat, i: int) -> u8 {
    byte_mask(bits_in_byte(p, i)) as u8
}

/// Counts the leading one-bits of `b`, given that its top `k` bits are set.
pub open spec fn leading_ones_from(b: u8, k: nat) -> nat
    decreases 8 - k,
{
    if k < 8 && b >= byte_mask(k + 1) {
        leading_ones_from(b, k + 1)
    } else {
        k
    }
}

/// Number of leading one-bits of a byte.
pub open spec fn leading_ones(b: u8) -> nat {
    leading_ones_from(b, 0)
}

/// Prefix length of a mask: its leading one-bits, counted byte by byte and
/// stopping at the first byte that is not all ones.
pub open spec fn prefix_len(m: [u8; 4]) -> nat {
    if leading_ones(m[0]) < 8 {
        leading_ones(m[0])
    } else if leading_ones(m[1]) < 8 {
        8 + leading_ones(m[1])
    } else if leading_ones(m[2]) < 8 {
        16 + leading_ones(m[2])
    } else {
        24 + leading_ones(m[3])
    }
}

/// The canonical mask of prefix length `p`.
pub open spec fn is_mask_of(m: [u8; 4], p: nat) -> bool {
    forall|i: int| 0 <= i < 4 ==> #[trigger] m[i] == mask_byte(p, i)
}

/// Each byte of `r` is the byte of `a` and-ed with the byte of `m`.
pub open spec fn is_masked(r: [u8; 4], a: [u8; 4], m: [u8; 4]) -> bool {
    forall|i: int| 0 <= i < 4 ==> #[trigger] r[i] == a[i] & m[i]
}

/// An IPv4 network: a base address and a mask.
#[derive(Debug, Clone, Copy, Eq, Hash)]
pub struct IpV4Network {
    pub net: [u8; 4],
    pub mask: [u8; 4],
}

impl IpV4Network {
    /// Prefix length of the network's mask.
    pub open spec fn prefix(self) -> nat {
        prefix_len(self.mask)
    }

    /// A canonical network: the mask is a contiguous prefix mask and the base
    /// address has no bits outside it.
    pub open spec fn wf(self) -> bool {
        &&& is_mask_of(self.mask, self.prefix())
        &&& is_masked(self.net, self.net, self.mask)
    }

    /// `self` contains `other`: it is no narrower, and `other`'s base address
    /// masked with `self`'s mask is `self`'s base address.
    pub open spec fn spec_contains(self, other: IpV4Network) -> bool {
        &&& self.prefix() <= other.prefix()
        &&& is_masked(self.net, other.net, self.mask)
    }

    /// The network of prefix length `p` that holds address `a`.
    pub open spec fn spec_of(a: [u8; 4], p: nat) -> IpV4Network {
        IpV4Network {
            net: [a[0] & mask_byte(p, 0), a[1] & mask_byte(p, 1), a[2] & mask_byte(p, 2), a[3] & mask_byte(p, 3)],
            mask: [mask_byte(p, 0), mask_byte(p, 1), mask_byte(p, 2), mask_byte(p, 3)],
        }
    }

    /// Number of addresses in a network of this prefix length.
    pub open spec fn spec_size(self) -> nat {
        pow2((32 - self.prefix()) as nat)
    }

    /// The network of `address` under `mask`: each address byte and-ed with the
    /// mask byte.
    pub fn from_address(address: &[u8; 4], mask: &[u8; 4]) -> (r: IpV4Network)
        ensures
            r.mask == *mask,
            is_masked(r.net, *address, *mask),
    {
        IpV4Network {
            net: [address[0] & mask[0], address[1] & mask[1], address[2] & mask[2], address[3] & mask[3]],
            mask: *mask,
        }
    }

    /// The network of prefix length `mask_cidr` that holds `address`.
    pub fn from_address_cidr(address: &[u8; 4], mask_cidr: u8) -> (r: IpV4Network)
        requires
            mask_cidr <= 32,
        ensures
            r == IpV4Network::spec_of(*address, mask_cidr as nat),
            r.wf(),
            r.prefix() == mask_cidr,
    {
        let r = IpV4Network::from_address(address, &IpV4Network::mask_from_cidr(mask_cidr));
        proof {
            assert(r.net =~= IpV4Network::spec_of(*address, mask_cidr as nat).net);
            assert(r.mask =~= IpV4Network::spec_of(*address, mask_cidr as nat).mask);
            lemma_spec_of_wf(*address, mask_cidr as nat);
        }
        r
    }

    /// Whether `subnet` lies within this network.
    pub fn contains_subnet(&self, subnet: &IpV4Network) -> (r: bool)
        ensures
            r == self.spec_contains(*subnet),
    {
        if self.mask_in_cidr_notation() > subnet.mask_in_cidr_notation() {
            return false;
        }
        let projected = IpV4Network::from_address(&subnet.net, &self.mask);
        let r = self.eq(&projected);
        proof {
            if is_masked(self.net, subnet.net, self.mask) {
                assert(self.net =~= projected.net);
            }
        }
        r
    }

    /// Prefix length of the mask, as in CIDR notation.
    pub fn mask_in_cidr_notation(&self) -> (r: u8)
        ensures
            r == self.prefix(),
            r <= 32,
    {
        self.network_bits()
    }

    /// Leading one-bits of the mask, counted byte by byte up to the first byte
    /// that is not all ones.
    pub fn network_bits(&self) -> (r: u8)
        ensures
            r == prefix_len(self.mask),
            r <= 32,
    {
        let b0 = IpV4Network::num_high_one_bits(self.mask[0]);
        if b0 < 8 {
            return b0;
        }
        let b1 = IpV4Network::num_high_one_bits(self.mask[1]);
        if b1 < 8 {
            return 8 + b1;
        }
        let b2 = IpV4Network::num_high_one_bits(self.mask[2]);
        if b2 < 8 {
            return 16 + b2;
        }
        let b3 = IpV4Network::num_high_one_bits(self.mask[3]);
        24 + b3
    }

    /// Number of leading one-bits of a byte.
    pub fn num_high_one_bits(n: u8) -> (r: u8)
        ensures
            r == leading_ones(n),
            r <= 8,
    {
        let mut count: u8 = 0;
        while count < 8 && n >= IpV4Network::convert255(count + 1)
            invariant
                count <= 8,
                leading_ones_from(n, count as nat) == leading_ones(n),
            decreases 8 - count,
        {
            count += 1;
        }
        count
    }

    /// Number of addresses in the network: two to the power of the host bits.
    pub fn address_space_size(&self) -> (r: u64)
        ensures
            r == self.spec_size(),
    {
        let host_bits: u8 = 32 - self.mask_in_cidr_notation();
        let mut size: u64 = 1;
        let mut k: u8 = 0;
        proof {
            lemma2_to64();
        }
        while k < host_bits
            invariant
                k <= host_bits <= 32,
                host_bits == 32 - self.prefix(),
                size == pow2(k as nat),
            decreases host_bits - k,
        {
            proof {
                vstd::arithmetic::power2::lemma_pow2_unfold((k + 1) as nat);
                vstd::arithmetic::power2::lemma_pow2_strictly_increases(k as nat, 32);
                lemma2_to64();
            }
            size = size * 2;
            k += 1;
        }
        size
    }

    /// The canonical mask of prefix length `mask_cidr`.
    pub fn mask_from_cidr(mask_cidr: u8) -> (r: [u8; 4])
        requires
            mask_cidr <= 32,
        ensures
            is_mask_of(r, mask_cidr as nat),
    {
        let c0: u8 = if mask_cidr >= 8 { 8 } else { mask_cidr };
        let c1: u8 = if mask_cidr <= 8 { 0 } else if mask_cidr >= 16 { 8 } else { mask_cidr - 8 };
        let c2: u8 = if mask_cidr <= 16 { 0 } else if mask_cidr >= 24 { 8 } else { mask_cidr - 16 };
        let c3: u8 = if mask_cidr <= 24 { 0 } else { mask_cidr - 24 };
        let r = [
            IpV4Network::convert255(c0),
            IpV4Network::convert255(c1),
            IpV4Network::convert255(c2),
            IpV4Network::convert255(c3),
        ];
        assert(r[0] == mask_byte(mask_cidr as nat, 0));
        assert(r[1] == mask_byte(mask_cidr as nat, 1));
        assert(r[2] == mask_byte(mask_cidr as nat, 2));
        assert(r[3] == mask_byte(mask_cidr as nat, 3));
        r
    }

    /// The mask byte with its top `bits` bits set.
    fn convert255(bits: u8) -> (r: u8)
        requires
            bits <= 8,
        ensures
            r == byte_mask(bits as nat),
    {
        proof {
            lemma2_to64();
        }
        match bits {
            0 => 0,
            1 => 128,
            2 => 192,
            3 => 224,
            4 => 240,
            5 => 248,
            6 => 252,
            7 => 254,
            _ => 255,
        }
    }
}

impl PartialEq for IpV4Network {
    fn eq(&self, o: &IpV4Network) -> (r: bool) {
        let r = self.net[0] == o.net[0] && self.net[1] == o.net[1] && self.net[2] == o.net[2]
            && self.net[3] == o.net[3] && self.mask[0] == o.mask[0] && self.mask[1] == o.mask[1]
            && self.mask[2] == o.mask[2] && self.mask[3] == o.mask[3];
        proof {
            if r {
                assert(self.net =~= o.net);
                assert(self.mask =~= o.mask);
            }
        }
        r
    }
}

impl vstd::std_specs::cmp::PartialEqSpecImpl for IpV4Network {
    open spec fn obeys_eq_spec() -> bool {
        true
    }

    open spec fn eq_spec(&self, o: &IpV4Network) -> bool {
        *self == *o
    }
}

/// `byte_mask` grows strictly with the number of bits and stays within a byte.
pub proof fn lemma_byte_mask_increasing(a: nat, b: nat)
    requires
        a < b <= 8,
    ensures
        0 <= byte_mask(a) < byte_mask(b) <= 255,
{
    vstd::arithmetic::power2::lemma_pow2_strictly_increases((8 - b) as nat, (8 - a) as nat);
    if a > 0 {
        vstd::arithmetic::power2::lemma_pow2_strictly_increases((8 - a) as nat, 8);
    }
    vstd::arithmetic::power2::lemma_pow2_pos((8 - b) as nat);
    lemma2_to64();
}

proof fn lemma_leading_ones_from_mask(k: nat, j: nat)
    requires
        j <= k <= 8,
    ensures
        leading_ones_from(byte_mask(k) as u8, j) == k,
    decreases k - j,
{
    lemma2_to64();
    if j < k {
        if j + 1 < k {
            lemma_byte_mask_increasing(j + 1, k);
        } else {
            lemma_byte_mask_increasing(0, k);
        }
        lemma_leading_ones_from_mask(k, j + 1);
    } else if k < 8 {
        lemma_byte_mask_increasing(k, k + 1);
        if k > 0 {
            lemma_byte_mask_increasing(0, k);
        }
    }
}

/// A byte with its top `k` bits set has exactly `k` leading one-bits.
pub proof fn lemma_leading_ones_mask(k: nat)
    requires
        k <= 8,
    ensures
        leading_ones(byte_mask(k) as u8) == k,
{
    lemma_leading_ones_from_mask(k, 0);
}

/// The canonical mask of prefix length `p` has prefix length `p`: longer
/// prefixes give longer lengths, all ones gives 32 and all zeros 0.
pub proof fn lemma_mask_prefix(m: [u8; 4], p: nat)
    requires
        p <= 32,
        is_mask_of(m, p),
    ensures
        prefix_len(m) == p,
{
    assert(m[0] == mask_byte(p, 0));
    assert(m[1] == mask_byte(p, 1));
    assert(m[2] == mask_byte(p, 2));
    assert(m[3] == mask_byte(p, 3));
    lemma_leading_ones_mask(bits_in_byte(p, 0));
    lemma_leading_ones_mask(bits_in_byte(p, 1));
    lemma_leading_ones_mask(bits_in_byte(p, 2));
    lemma_leading_ones_mask(bits_in_byte(p, 3));
}

proof fn lemma_and_idempotent(a: u8, m: u8)
    ensures
        (a & m) & m == a & m,
{
    assert((a & m) & m == a & m) by (bit_vector);
}

/// The network of prefix length `p` holding any address is canonical, with
/// prefix length `p`.
pub proof fn lemma_spec_of_wf(a: [u8; 4], p: nat)
    requires
        p <= 32,
    ensures
        IpV4Network::spec_of(a, p).wf(),
        IpV4Network::spec_of(a, p).prefix() == p,
{
    let n = IpV4Network::spec_of(a, p);
    assert(is_mask_of(n.mask, p));
    lemma_mask_prefix(n.mask, p);
    lemma_and_idempotent(a[0], mask_byte(p, 0));
    lemma_and_idempotent(a[1], mask_byte(p, 1));
    lemma_and_idempotent(a[2], mask_byte(p, 2));
    lemma_and_idempotent(a[3], mask_byte(p, 3));
    assert(is_masked(n.net, n.net, n.mask));
}

/// One of the nine bytes that can stand in a contiguous mask.
pub open spec fn is_mask_byte(x: u8) -> bool {
    x == 0 || x == 128 || x == 192 || x == 224 || x == 240 || x == 248 || x == 252 || x == 254
        || x == 255
}

proof fn lemma_byte_mask_is_mask_byte(k: nat)
    requires
        k <= 8,
    ensures
        is_mask_byte(byte_mask(k) as u8),
{
    lemma2_to64();
    assert(k == 0 || k == 1 || k == 2 || k == 3 || k == 4 || k == 5 || k == 6 || k == 7 || k == 8);
}

proof fn lemma_mask_bytes_nest(x: u8, y: u8)
    requires
        is_mask_byte(x),
        is_mask_byte(y),
        x <= y,
    ensures
        x & y == x,
{
    assert(x & y == x) by (bit_vector)
        requires
            x == 0 || x == 128 || x == 192 || x == 224 || x == 240 || x == 248 || x == 252 || x
                == 254 || x == 255,
            y == 0 || y == 128 || y == 192 || y == 224 || y == 240 || y == 248 || y == 252 || y
                == 254 || y == 255,
            x <= y,
    ;
}

/// The canonical mask of a shorter prefix is a sub-mask of that of a longer one.
pub proof fn lemma_masks_nest(ma: [u8; 4], pa: nat, mb: [u8; 4], pb: nat, i: int)
    requires
        pa <= pb,
        0 <= i < 4,
        is_mask_of(ma, pa),
        is_mask_of(mb, pb),
    ensures
        ma[i] & mb[i] == ma[i],
{
    let ka = bits_in_byte(pa, i);
    let kb = bits_in_byte(pb, i);
    assert(ma[i] == mask_byte(pa, i));
    assert(mb[i] == mask_byte(pb, i));
    lemma_byte_mask_is_mask_byte(ka);
    lemma_byte_mask_is_mask_byte(kb);
    if ka < kb {
        lemma_byte_mask_increasing(ka, kb);
    }
    if ka > 0 {
        lemma_byte_mask_increasing(0, ka);
    }
    if kb > 0 {
        lemma_byte_mask_increasing(0, kb);
    }
    lemma_mask_bytes_nest(ma[i], mb[i]);
}

proof fn lemma_and_chain(x: u8, y: u8, z: u8, ma: u8, mb: u8)
    requires
        x & mb == y,
        y & ma == z,
        ma & mb == ma,
    ensures
        x & ma == z,
{
    assert(x & ma == z) by (bit_vector)
        requires
            x & mb == y,
            y & ma == z,
            ma & mb == ma,
    ;
}

/// Masking an address that is already masked with the same mask changes
/// nothing: a network built from an address has no bits outside its mask.
pub proof fn lemma_from_address_masked(a: [u8; 4], m: [u8; 4], r: IpV4Network)
    requires
        r.mask == m,
        is_masked(r.net, a, m),
    ensures
        is_masked(r.net, r.net, m),
{
    lemma_and_idempotent(a[0], m[0]);
    lemma_and_idempotent(a[1], m[1]);
    lemma_and_idempotent(a[2], m[2]);
    lemma_and_idempotent(a[3], m[3]);
}

/// Every canonical network contains itself.
pub proof fn lemma_contains_reflexive(a: IpV4Network)
    requires
        a.wf(),
    ensures
        a.spec_contains(a),
{
}

/// Containment is transitive over canonical networks.
pub proof fn lemma_contains_transitive(a: IpV4Network, b: IpV4Network, c: IpV4Network)
    requires
        a.wf(),
        b.wf(),
        a.spec_contains(b),
        b.spec_contains(c),
    ensures
        a.spec_contains(c),
{
    assert forall|i: int| 0 <= i < 4 implies #[trigger] a.net[i] == c.net[i] & a.mask[i] by {
        lemma_masks_nest(a.mask, a.prefix(), b.mask, b.prefix(), i);
        lemma_and_chain(c.net[i], b.net[i], a.net[i], a.mask[i], b.mask[i]);
    }
}

/// Two canonical networks of one prefix length contain each other only when
/// they are equal; a network never contains a strictly wider one.
pub proof fn lemma_contains_antisymmetric(a: IpV4Network, b: IpV4Network)
    requires
        a.wf(),
        b.wf(),
    ensures
        a.spec_contains(b) && a.prefix() == b.prefix() ==> a == b,
        a.spec_contains(b) && a.prefix() < b.prefix() ==> !b.spec_contains(a),
        a.spec_contains(b) && b.spec_contains(a) ==> a == b,
{
    if a.spec_contains(b) && a.prefix() == b.prefix() {
        assert(a.mask =~= b.mask);
        assert(a.net =~= b.net);
    }
}

proof fn lemma_leading_ones_from_bounded(b: u8, k: nat)
    requires
        k <= 8,
    ensures
        k <= leading_ones_from(b, k) <= 8,
    decreases 8 - k,
{
    if k < 8 {
        lemma_leading_ones_from_bounded(b, k + 1);
    }
}

/// A prefix length never exceeds 32.
pub proof fn lemma_prefix_bounded(m: [u8; 4])
    ensures
        prefix_len(m) <= 32,
{
    lemma_leading_ones_from_bounded(m[0], 0);
    lemma_leading_ones_from_bounded(m[1], 0);
    lemma_leading_ones_from_bounded(m[2], 0);
    lemma_leading_ones_from_bounded(m[3], 0);
}

/// A canonical network that contains `n` is the network of its own prefix
/// length that holds `n`'s base address.
pub proof fn lemma_container_is_spec_of(x: IpV4Network, n: IpV4Network)
    requires
        x.wf(),
        x.spec_contains(n),
    ensures
        x == IpV4Network::spec_of(n.net, x.prefix()),
{
    let y = IpV4Network::spec_of(n.net, x.prefix());
    assert(x.mask =~= y.mask);
    assert(x.net =~= y.net);
}

proof fn lemma_and_common(x: u8, y: u8, z: u8, ma: u8, mb: u8)
    requires
        x & mb == y,
        x & ma == z,
        ma & mb == ma,
    ensures
        y & ma == z,
{
    assert(y & ma == z) by (bit_vector)
        requires
            x & mb == y,
            x & ma == z,
            ma & mb == ma,
    ;
}

/// Of two canonical networks that contain one network, the wider contains the
/// narrower.
pub proof fn lemma_containers_nest(a: IpV4Network, b: IpV4Network, n: IpV4Network)
    requires
        a.wf(),
        b.wf(),
        a.spec_contains(n),
        b.spec_contains(n),
        a.prefix() <= b.prefix(),
    ensures
        a.spec_contains(b),
{
    assert forall|i: int| 0 <= i < 4 implies #[trigger] a.net[i] == b.net[i] & a.mask[i] by {
        lemma_masks_nest(a.mask, a.prefix(), b.mask, b.prefix(), i);
        lemma_and_common(n.net[i], b.net[i], a.net[i], a.mask[i], b.mask[i]);
    }
}

} // verus!
