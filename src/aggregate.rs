use vstd::arithmetic::power2::lemma2_to64;
use vstd::prelude::*;

use crate::network::{
    lemma_container_is_spec_of, lemma_containers_nest, lemma_contains_antisymmetric,
    lemma_contains_reflexive, lemma_contains_transitive, lemma_prefix_bounded, IpV4Network,
};
use crate::seqs::{lemma_push_contains, lemma_push_no_dup};

verus! {

/// How many of `nets` lie within `c`.
pub open spec fn matches(nets: Seq<IpV4Network>, c: IpV4Network) -> nat
    decreases nets.len(),
{
    if nets.len() == 0 {
        0
    } else {
        matches(nets.drop_last(), c) + if c.spec_contains(nets.last()) {
            1nat
        } else {
            0nat
        }
    }
}

/// The matching networks, at 256 addresses each, cover at least the fraction
/// `num / den` of `c`'s address space.
pub open spec fn qualifies(nets: Seq<IpV4Network>, c: IpV4Network, num: u32, den: u32) -> bool {
    matches(nets, c) * 256 * den >= num * c.spec_size()
}

/// `c` is a supernet of prefix length 8 or more, strictly wider than one of
/// `nets` that it contains.
pub open spec fn is_candidate(nets: Seq<IpV4Network>, c: IpV4Network) -> bool {
    &&& c.wf()
    &&& 8 <= c.prefix()
    &&& exists|n: IpV4Network| #[trigger]
        nets.contains(n) && c.prefix() < n.prefix() && c.spec_contains(n)
}

/// `c` is a candidate that reaches the coverage threshold while no wider
/// candidate around it does: the widest qualifying candidate on its chain.
pub open spec fn is_accepted(nets: Seq<IpV4Network>, c: IpV4Network, num: u32, den: u32) -> bool {
    &&& is_candidate(nets, c)
    &&& qualifies(nets, c, num, den)
    &&& forall|d: IpV4Network|
        #![trigger d.spec_contains(c)]
        d.wf() && 8 <= d.prefix() < c.prefix() && d.spec_contains(c) ==> !qualifies(
            nets,
            d,
            num,
            den,
        )
}

/// Some accepted supernet contains `x`.
pub open spec fn is_absorbed(nets: Seq<IpV4Network>, x: IpV4Network, num: u32, den: u32) -> bool {
    exists|c: IpV4Network| #[trigger] is_accepted(nets, c, num, den) && c.spec_contains(x)
}

/// `x` belongs to the aggregate of `nets`: an accepted supernet that was not
/// an input, or an input that no accepted supernet contains.
pub open spec fn in_aggregate(nets: Seq<IpV4Network>, x: IpV4Network, num: u32, den: u32) -> bool {
    ||| is_accepted(nets, x, num, den) && !nets.contains(x)
    ||| nets.contains(x) && !is_absorbed(nets, x, num, den)
}

/// Every element is canonical.
pub open spec fn all_wf(nets: Seq<IpV4Network>) -> bool {
    forall|k: int| 0 <= k < nets.len() ==> (#[trigger] nets[k]).wf()
}

/// Counts the networks of `nets` that `c` contains.
fn count_matching(nets: &Vec<IpV4Network>, c: &IpV4Network) -> (r: usize)
    ensures
        r == matches(nets@, *c),
{
    let mut count: usize = 0;
    let mut i: usize = 0;
    while i < nets.len()
        invariant
            i <= nets@.len(),
            count == matches(nets@.take(i as int), *c),
            count <= i,
        decreases nets@.len() - i,
    {
        assert(nets@.take(i + 1).drop_last() == nets@.take(i as int));
        if c.contains_subnet(&nets[i]) {
            count += 1;
        }
        i += 1;
    }
    assert(nets@.take(nets@.len() as int) == nets@);
    count
}

/// Whether the networks of `nets` inside `c` cover at least the fraction
/// `num / den` of `c`'s address space.
fn coverage_reached(nets: &Vec<IpV4Network>, c: &IpV4Network, num: u32, den: u32) -> (r: bool)
    ensures
        r == qualifies(nets@, *c, num, den),
{
    let count = count_matching(nets, c);
    let size = c.address_space_size();
    proof {
        lemma_prefix_bounded(c.mask);
        lemma2_to64();
        if c.prefix() > 0 {
            vstd::arithmetic::power2::lemma_pow2_strictly_increases((32 - c.prefix()) as nat, 32);
        }
        assert((count as u128) * 256 * (den as u128) <= 0xffff_ffff_ffff_ffffu128 * 256
            * 0xffff_ffffu128) by (nonlinear_arith)
            requires
                count <= 0xffff_ffff_ffff_ffffu128,
                den <= 0xffff_ffffu128,
        ;
        assert((num as u128) * (size as u128) <= 0xffff_ffffu128 * 0x1_0000_0000u128)
            by (nonlinear_arith)
            requires
                num <= 0xffff_ffffu128,
                size <= 0x1_0000_0000u128,
        ;
    }
    (count as u128) * 256 * (den as u128) >= (num as u128) * (size as u128)
}

/// Whether some network of `nets` contains `x`.
fn covered(nets: &Vec<IpV4Network>, x: &IpV4Network) -> (r: bool)
    ensures
        r == exists|k: int| 0 <= k < nets@.len() && (#[trigger] nets@[k]).spec_contains(*x),
{
    let mut i: usize = 0;
    while i < nets.len()
        invariant
            i <= nets@.len(),
            forall|k: int| 0 <= k < i ==> !(#[trigger] nets@[k]).spec_contains(*x),
        decreases nets@.len() - i,
    {
        if nets[i].contains_subnet(x) {
            return true;
        }
        i += 1;
    }
    false
}

/// Whether `nets` holds `x`.
fn holds(nets: &Vec<IpV4Network>, x: &IpV4Network) -> (r: bool)
    ensures
        r == nets@.contains(*x),
{
    let mut i: usize = 0;
    while i < nets.len()
        invariant
            i <= nets@.len(),
            forall|k: int| 0 <= k < i ==> nets@[k] != *x,
        decreases nets@.len() - i,
    {
        if nets[i] == *x {
            return true;
        }
        i += 1;
    }
    false
}

/// Some input of prefix length over `q` among the first `j` has `x` as its
/// network of prefix length `q`.
pub open spec fn level_seen(nets: Seq<IpV4Network>, x: IpV4Network, q: nat, j: int) -> bool {
    exists|k: int|
        0 <= k < j && (#[trigger] nets[k]).prefix() > q && x == IpV4Network::spec_of(nets[k].net, q)
}

/// A qualifying candidate lies within an accepted one of no greater prefix
/// length: the widest qualifying candidate around it.
pub proof fn lemma_accepted_above(nets: Seq<IpV4Network>, d: IpV4Network, num: u32, den: u32) -> (w:
    IpV4Network)
    requires
        is_candidate(nets, d),
        qualifies(nets, d, num, den),
    ensures
        is_accepted(nets, w, num, den),
        w.spec_contains(d),
        w.prefix() <= d.prefix(),
    decreases d.prefix(),
{
    if is_accepted(nets, d, num, den) {
        d
    } else {
        let d2 = choose|d2: IpV4Network|
            d2.wf() && 8 <= d2.prefix() < d.prefix() && #[trigger] d2.spec_contains(d) && qualifies(
                nets,
                d2,
                num,
                den,
            );
        let n = choose|n: IpV4Network| #[trigger]
            nets.contains(n) && d.prefix() < n.prefix() && d.spec_contains(n);
        lemma_contains_transitive(d2, d, n);
        assert(is_candidate(nets, d2));
        let w = lemma_accepted_above(nets, d2, num, den);
        lemma_contains_transitive(w, d2, d);
        w
    }
}

/// The aggregate of the networks `class_c_networks`: going from the widest
/// prefix length (8) to the narrowest, each supernet of an input whose inputs
/// cover at least the fraction `coverage_num / coverage_den` of its address
/// space is accepted, unless an accepted supernet already contains it. The
/// result holds the accepted supernets and the inputs that none of them
/// contains, each once.
pub fn collect_networks(class_c_networks: &Vec<IpV4Network>, coverage_num: u32, coverage_den: u32) -> (r: Vec<
    IpV4Network,
>)
    requires
        all_wf(class_c_networks@),
        class_c_networks@.no_duplicates(),
    ensures
        r@.no_duplicates(),
        forall|x: IpV4Network| #[trigger]
            r@.contains(x) <==> in_aggregate(class_c_networks@, x, coverage_num, coverage_den),
        all_wf(r@),
        class_c_networks@.len() == 0 ==> r@.len() == 0,
{
    let ghost inputs = class_c_networks@;
    let mut accepted: Vec<IpV4Network> = Vec::new();
    let mut q: u8 = 8;
    while q < 32
        invariant
            inputs == class_c_networks@,
            all_wf(inputs),
            8 <= q <= 32,
            accepted@.no_duplicates(),
            forall|x: IpV4Network| #[trigger]
                accepted@.contains(x) <==> is_accepted(inputs, x, coverage_num, coverage_den)
                    && x.prefix() < q,
        decreases 32 - q,
    {
        let mut j: usize = 0;
        while j < class_c_networks.len()
            invariant
                inputs == class_c_networks@,
                all_wf(inputs),
                8 <= q < 32,
                j <= inputs.len(),
                accepted@.no_duplicates(),
                forall|x: IpV4Network| #[trigger]
                    accepted@.contains(x) <==> is_accepted(inputs, x, coverage_num, coverage_den) && (
                    x.prefix() < q || (x.prefix() == q && level_seen(inputs, x, q as nat, j as int))),
            decreases inputs.len() - j,
        {
            let n = class_c_networks[j];
            proof {
                assert(inputs[j as int] == n);
                assert(inputs.contains(n));
                assert forall|x: IpV4Network|
                    level_seen(inputs, x, q as nat, j + 1) <==> #[trigger] level_seen(
                        inputs,
                        x,
                        q as nat,
                        j as int,
                    ) || (n.prefix() > q && x == IpV4Network::spec_of(n.net, q as nat)) by {
                    if level_seen(inputs, x, q as nat, j + 1) {
                        let k = choose|k: int|
                            0 <= k < j + 1 && (#[trigger] inputs[k]).prefix() > q && x
                                == IpV4Network::spec_of(inputs[k].net, q as nat);
                        if k < j {
                            assert(level_seen(inputs, x, q as nat, j as int));
                        }
                    }
                    if level_seen(inputs, x, q as nat, j as int) {
                        let k = choose|k: int|
                            0 <= k < j && (#[trigger] inputs[k]).prefix() > q && x
                                == IpV4Network::spec_of(inputs[k].net, q as nat);
                        assert(level_seen(inputs, x, q as nat, j + 1));
                    }
                    if n.prefix() > q && x == IpV4Network::spec_of(n.net, q as nat) {
                        assert(inputs[j as int] == n);
                    }
                }
            }
            if n.mask_in_cidr_notation() > q {
                let c = IpV4Network::from_address_cidr(&n.net, q);
                proof {
                    assert(c.spec_contains(n));
                    assert(is_candidate(inputs, c));
                }
                let cov = covered(&accepted, &c);
                proof {
                    if cov {
                        let k = choose|k: int|
                            0 <= k < accepted@.len() && (#[trigger] accepted@[k]).spec_contains(c);
                        let a = accepted@[k];
                        assert(accepted@.contains(a));
                        if a.prefix() == q {
                            lemma_contains_antisymmetric(a, c);
                        }
                    }
                }
                if !cov && coverage_reached(class_c_networks, &c, coverage_num, coverage_den) {
                    proof {
                        assert forall|d: IpV4Network|
                            d.wf() && 8 <= d.prefix() < c.prefix() && #[trigger] d.spec_contains(
                                c,
                            ) implies !qualifies(inputs, d, coverage_num, coverage_den) by {
                            if qualifies(inputs, d, coverage_num, coverage_den) {
                                lemma_contains_transitive(d, c, n);
                                assert(is_candidate(inputs, d));
                                let w = lemma_accepted_above(inputs, d, coverage_num, coverage_den);
                                lemma_contains_transitive(w, d, c);
                                assert(accepted@.contains(w));
                                let k = choose|k: int| 0 <= k < accepted@.len() && accepted@[k] == w;
                                assert((accepted@[k]).spec_contains(c));
                            }
                        }
                        assert(is_accepted(inputs, c, coverage_num, coverage_den));
                        if accepted@.contains(c) {
                            let k = choose|k: int| 0 <= k < accepted@.len() && accepted@[k] == c;
                            lemma_contains_reflexive(c);
                            assert((accepted@[k]).spec_contains(c));
                        }
                        lemma_push_no_dup(accepted@, c);
                        lemma_push_contains(accepted@, c);
                    }
                    accepted.push(c);
                }
            }
            j += 1;
        }
        proof {
            assert forall|x: IpV4Network|
                is_accepted(inputs, x, coverage_num, coverage_den) && x.prefix() == q implies #[trigger]
                level_seen(inputs, x, q as nat, inputs.len() as int) by {
                let n = choose|n: IpV4Network| #[trigger]
                    inputs.contains(n) && x.prefix() < n.prefix() && x.spec_contains(n);
                let k = choose|k: int| 0 <= k < inputs.len() && inputs[k] == n;
                lemma_container_is_spec_of(x, n);
                assert(inputs[k].prefix() > q);
            }
        }
        q += 1;
    }
    proof {
        assert forall|x: IpV4Network| #[trigger]
            accepted@.contains(x) <==> is_accepted(inputs, x, coverage_num, coverage_den) by {
            if is_accepted(inputs, x, coverage_num, coverage_den) {
                let n = choose|n: IpV4Network| #[trigger]
                    inputs.contains(n) && x.prefix() < n.prefix() && x.spec_contains(n);
                lemma_prefix_bounded(n.mask);
            }
        }
    }
    let mut r: Vec<IpV4Network> = Vec::new();
    let mut k: usize = 0;
    while k < accepted.len()
        invariant
            inputs == class_c_networks@,
            k <= accepted@.len(),
            accepted@.no_duplicates(),
            r@.no_duplicates(),
            forall|x: IpV4Network| #[trigger]
                accepted@.contains(x) <==> is_accepted(inputs, x, coverage_num, coverage_den),
            forall|x: IpV4Network| #[trigger]
                r@.contains(x) <==> !inputs.contains(x) && exists|k2: int|
                    0 <= k2 < k && #[trigger] accepted@[k2] == x,
        decreases accepted@.len() - k,
    {
        let a = accepted[k];
        let ghost old_r = r@;
        if !holds(class_c_networks, &a) {
            proof {
                if r@.contains(a) {
                    let k2 = choose|k2: int| 0 <= k2 < k && #[trigger] accepted@[k2] == a;
                    assert(accepted@[k2] == accepted@[k as int]);
                }
                lemma_push_no_dup(r@, a);
                lemma_push_contains(r@, a);
            }
            r.push(a);
        }
        proof {
            assert forall|x: IpV4Network| #[trigger]
                r@.contains(x) <==> !inputs.contains(x) && exists|k2: int|
                    0 <= k2 < k + 1 && #[trigger] accepted@[k2] == x by {
                if r@.contains(x) && !old_r.contains(x) {
                    assert(accepted@[k as int] == x);
                }
                if !inputs.contains(x) && exists|k2: int|
                    0 <= k2 < k + 1 && #[trigger] accepted@[k2] == x {
                    let k2 = choose|k2: int| 0 <= k2 < k + 1 && #[trigger] accepted@[k2] == x;
                    if k2 < k {
                        assert(old_r.contains(x));
                    }
                }
            }
        }
        k += 1;
    }
    proof {
        assert forall|x: IpV4Network| #[trigger]
            r@.contains(x) <==> !inputs.contains(x) && is_accepted(
                inputs,
                x,
                coverage_num,
                coverage_den,
            ) by {
            if accepted@.contains(x) {
                let k2 = choose|k2: int| 0 <= k2 < accepted@.len() && accepted@[k2] == x;
                assert(accepted@[k2] == x);
            }
        }
    }
    let mut j: usize = 0;
    while j < class_c_networks.len()
        invariant
            inputs == class_c_networks@,
            inputs.no_duplicates(),
            j <= inputs.len(),
            r@.no_duplicates(),
            forall|x: IpV4Network| #[trigger]
                accepted@.contains(x) <==> is_accepted(inputs, x, coverage_num, coverage_den),
            forall|x: IpV4Network| #[trigger]
                r@.contains(x) <==> (!inputs.contains(x) && is_accepted(
                    inputs,
                    x,
                    coverage_num,
                    coverage_den,
                )) || (!is_absorbed(inputs, x, coverage_num, coverage_den) && exists|j2: int|
                    0 <= j2 < j && #[trigger] inputs[j2] == x),
        decreases inputs.len() - j,
    {
        let n = class_c_networks[j];
        let ghost old_r = r@;
        let cov = covered(&accepted, &n);
        proof {
            assert(inputs[j as int] == n);
            if cov {
                let k2 = choose|k2: int|
                    0 <= k2 < accepted@.len() && (#[trigger] accepted@[k2]).spec_contains(n);
                assert(accepted@.contains(accepted@[k2]));
            }
            if is_absorbed(inputs, n, coverage_num, coverage_den) {
                let c = choose|c: IpV4Network| #[trigger]
                    is_accepted(inputs, c, coverage_num, coverage_den) && c.spec_contains(n);
                assert(accepted@.contains(c));
                let k2 = choose|k2: int| 0 <= k2 < accepted@.len() && accepted@[k2] == c;
                assert((accepted@[k2]).spec_contains(n));
            }
        }
        if !cov {
            proof {
                if r@.contains(n) {
                    assert(inputs.contains(n));
                    let j2 = choose|j2: int| 0 <= j2 < j && #[trigger] inputs[j2] == n;
                    assert(inputs[j2] == inputs[j as int]);
                }
                lemma_push_no_dup(r@, n);
                lemma_push_contains(r@, n);
            }
            r.push(n);
        }
        proof {
            assert forall|x: IpV4Network| #[trigger]
                r@.contains(x) <==> (!inputs.contains(x) && is_accepted(
                    inputs,
                    x,
                    coverage_num,
                    coverage_den,
                )) || (!is_absorbed(inputs, x, coverage_num, coverage_den) && exists|j2: int|
                    0 <= j2 < j + 1 && #[trigger] inputs[j2] == x) by {
                if exists|j2: int| 0 <= j2 < j + 1 && #[trigger] inputs[j2] == x {
                    let j2 = choose|j2: int| 0 <= j2 < j + 1 && #[trigger] inputs[j2] == x;
                    if j2 < j {
                        assert(exists|j3: int| 0 <= j3 < j && #[trigger] inputs[j3] == x);
                    }
                }
                if exists|j2: int| 0 <= j2 < j && #[trigger] inputs[j2] == x {
                    let j2 = choose|j2: int| 0 <= j2 < j && #[trigger] inputs[j2] == x;
                    assert(0 <= j2 < j + 1 && inputs[j2] == x);
                }
            }
        }
        j += 1;
    }
    proof {
        assert forall|x: IpV4Network| #[trigger]
            r@.contains(x) <==> in_aggregate(inputs, x, coverage_num, coverage_den) by {
            if inputs.contains(x) {
                let j2 = choose|j2: int| 0 <= j2 < inputs.len() && inputs[j2] == x;
                assert(inputs[j2] == x);
            }
            if exists|j2: int| 0 <= j2 < inputs.len() && #[trigger] inputs[j2] == x {
                let j2 = choose|j2: int| 0 <= j2 < inputs.len() && #[trigger] inputs[j2] == x;
                assert(inputs.contains(x));
            }
        }
        assert forall|k2: int| 0 <= k2 < r@.len() implies (#[trigger] r@[k2]).wf() by {
            let x = r@[k2];
            assert(r@.contains(x));
            if inputs.contains(x) {
                let j2 = choose|j2: int| 0 <= j2 < inputs.len() && inputs[j2] == x;
                assert(inputs[j2].wf());
            }
        }
        if inputs.len() == 0 && r@.len() > 0 {
            assert(r@.contains(r@[0]));
            assert(is_candidate(inputs, r@[0]));
        }
    }
    r
}

proof fn lemma_no_dup_drop_last<T>(s: Seq<T>)
    requires
        s.no_duplicates(),
        s.len() > 0,
    ensures
        s.drop_last().no_duplicates(),
        !s.drop_last().contains(s.last()),
{
    assert forall|i: int, j: int|
        0 <= i < s.drop_last().len() && 0 <= j < s.drop_last().len() && i != j implies s.drop_last()[i]
        != s.drop_last()[j] by {
        assert(s.drop_last()[i] == s[i] && s.drop_last()[j] == s[j]);
    }
    if s.drop_last().contains(s.last()) {
        let i = choose|i: int| 0 <= i < s.drop_last().len() && s.drop_last()[i] == s.last();
        assert(s[i] == s[s.len() - 1]);
    }
}

/// Without duplicates, `matches` counts the set of contained elements.
proof fn lemma_matches_card(s: Seq<IpV4Network>, c: IpV4Network)
    requires
        s.no_duplicates(),
    ensures
        matches(s, c) == s.to_set().filter(|x: IpV4Network| c.spec_contains(x)).len(),
        s.to_set().filter(|x: IpV4Network| c.spec_contains(x)).finite(),
    decreases s.len(),
{
    let p = |x: IpV4Network| c.spec_contains(x);
    vstd::seq_lib::seq_to_set_is_finite(s);
    s.to_set().lemma_len_filter(p);
    if s.len() == 0 {
        assert(s.to_set().filter(p) =~= Set::empty());
    } else {
        let t = s.drop_last();
        lemma_no_dup_drop_last(s);
        lemma_matches_card(t, c);
        assert(s.to_set() =~= t.to_set().insert(s.last())) by {
            assert(s == t.push(s.last()));
            lemma_push_contains(t, s.last());
        }
        assert(!t.to_set().filter(p).contains(s.last()));
        if c.spec_contains(s.last()) {
            assert(s.to_set().filter(p) =~= t.to_set().filter(p).insert(s.last()));
        } else {
            assert(s.to_set().filter(p) =~= t.to_set().filter(p));
        }
    }
}

/// An input that an accepted supernet `r` was grown from.
pub open spec fn source_of(inputs: Seq<IpV4Network>, r: IpV4Network) -> IpV4Network {
    if inputs.contains(r) {
        r
    } else {
        choose|n: IpV4Network| #[trigger]
            inputs.contains(n) && r.prefix() < n.prefix() && r.spec_contains(n)
    }
}

/// The aggregate never holds more networks inside a supernet than the inputs
/// it came from.
proof fn lemma_aggregate_matches_fewer(
    inputs: Seq<IpV4Network>,
    result: Seq<IpV4Network>,
    c: IpV4Network,
    num: u32,
    den: u32,
)
    requires
        all_wf(inputs),
        inputs.no_duplicates(),
        result.no_duplicates(),
        c.wf(),
        forall|x: IpV4Network| #[trigger] result.contains(x) <==> in_aggregate(inputs, x, num, den),
    ensures
        matches(result, c) <= matches(inputs, c),
{
    let p = |x: IpV4Network| c.spec_contains(x);
    let sa = result.to_set().filter(p);
    let sb = inputs.to_set().filter(p);
    let f = |r: IpV4Network| source_of(inputs, r);
    lemma_matches_card(result, c);
    lemma_matches_card(inputs, c);
    assert forall|r: IpV4Network| #[trigger] sa.contains(r) implies inputs.contains(f(r)) && c.spec_contains(
        f(r),
    ) && r.wf() && r.spec_contains(f(r)) && (!inputs.contains(r) ==> is_accepted(inputs, r, num, den)) by {
        assert(result.contains(r));
        if inputs.contains(r) {
            let k = choose|k: int| 0 <= k < inputs.len() && inputs[k] == r;
            assert(inputs[k].wf());
        } else {
            assert(is_accepted(inputs, r, num, den));
            lemma_contains_transitive(c, r, f(r));
        }
    }
    assert forall|r1: IpV4Network, r2: IpV4Network|
        sa.contains(r1) && sa.contains(r2) && #[trigger] f(r1) == #[trigger] f(r2) implies r1 == r2 by {
        let n = f(r1);
        if inputs.contains(r1) && !inputs.contains(r2) {
            assert(result.contains(r1));
            assert(is_absorbed(inputs, r1, num, den));
        } else if !inputs.contains(r1) && inputs.contains(r2) {
            assert(result.contains(r2));
            assert(is_absorbed(inputs, r2, num, den));
        } else if !inputs.contains(r1) && !inputs.contains(r2) {
            if r1.prefix() <= r2.prefix() {
                lemma_containers_nest(r1, r2, n);
                lemma_contains_antisymmetric(r1, r2);
                if r1.prefix() < r2.prefix() {
                    assert(r1.spec_contains(r2));
                }
            } else {
                lemma_containers_nest(r2, r1, n);
                assert(r2.spec_contains(r1));
            }
        }
    }
    assert(vstd::relations::injective_on(f, sa));
    vstd::set_lib::lemma_map_size(sa, sa.map(f), f);
    assert(sa.map(f).subset_of(sb)) by {
        assert forall|n: IpV4Network| #[trigger] sa.map(f).contains(n) implies sb.contains(n) by {
            let r = choose|r: IpV4Network| sa.contains(r) && f(r) == n;
            assert(inputs.contains(f(r)));
        }
    }
    vstd::set_lib::lemma_len_subset(sa.map(f), sb);
}

/// Aggregating an aggregate again changes nothing: with the same threshold,
/// the networks that one run yields are exactly the networks that a second run
/// on them yields.
pub proof fn lemma_aggregate_idempotent(
    inputs: Seq<IpV4Network>,
    result: Seq<IpV4Network>,
    num: u32,
    den: u32,
)
    requires
        all_wf(inputs),
        inputs.no_duplicates(),
        result.no_duplicates(),
        forall|x: IpV4Network| #[trigger] result.contains(x) <==> in_aggregate(inputs, x, num, den),
    ensures
        forall|x: IpV4Network| #[trigger] in_aggregate(result, x, num, den) <==> result.contains(x),
{
    assert forall|c: IpV4Network| !#[trigger] is_accepted(result, c, num, den) by {
        if is_accepted(result, c, num, den) {
            let r = choose|r: IpV4Network| #[trigger]
                result.contains(r) && c.prefix() < r.prefix() && c.spec_contains(r);
            assert(in_aggregate(inputs, r, num, den));
            let n = source_of(inputs, r);
            if inputs.contains(r) {
                let k = choose|k: int| 0 <= k < inputs.len() && inputs[k] == r;
                assert(inputs[k].wf());
            } else {
                lemma_contains_transitive(c, r, n);
            }
            assert(inputs.contains(n) && c.prefix() < n.prefix() && c.spec_contains(n));
            assert(is_candidate(inputs, c));
            lemma_aggregate_matches_fewer(inputs, result, c, num, den);
            let lo = matches(result, c);
            let hi = matches(inputs, c);
            assert(lo * 256 * den <= hi * 256 * den) by (nonlinear_arith)
                requires
                    lo <= hi,
            ;
            let w = lemma_accepted_above(inputs, c, num, den);
            lemma_contains_transitive(w, c, r);
            if inputs.contains(r) {
                assert(is_absorbed(inputs, r, num, den));
            } else {
                assert(w.spec_contains(r));
            }
        }
    }
}

} // verus!
