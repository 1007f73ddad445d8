use vstd::prelude::*;

use crate::network::IpV4Network;
use crate::seqs::{lemma_push_contains, lemma_push_no_dup};

verus! {

/// The /24 network that holds address `a`.
pub open spec fn class_c_of(a: [u8; 4]) -> IpV4Network {
    IpV4Network::spec_of(a, 24)
}

/// How many of the addresses lie in the /24 network `n`.
pub open spec fn hits(addresses: Seq<[u8; 4]>, n: IpV4Network) -> nat
    decreases addresses.len(),
{
    if addresses.len() == 0 {
        0
    } else {
        hits(addresses.drop_last(), n) + if class_c_of(addresses.last()) == n {
            1nat
        } else {
            0nat
        }
    }
}

/// Some address lies in the /24 network `n`.
pub open spec fn observed(addresses: Seq<[u8; 4]>, n: IpV4Network) -> bool {
    exists|i: int| 0 <= i < addresses.len() && class_c_of(#[trigger] addresses[i]) == n
}

proof fn lemma_hits_bounded(addresses: Seq<[u8; 4]>, n: IpV4Network)
    ensures
        hits(addresses, n) <= addresses.len(),
    decreases addresses.len(),
{
    if addresses.len() > 0 {
        lemma_hits_bounded(addresses.drop_last(), n);
    }
}

/// The /24 networks that hold at least `hits_needed` of the (distinct)
/// addresses, each listed once.
pub fn mark_class_c_nets(addresses: &Vec<[u8; 4]>, hits_needed: u8) -> (r: Vec<IpV4Network>)
    requires
        addresses@.no_duplicates(),
    ensures
        r@.no_duplicates(),
        forall|n: IpV4Network| #[trigger]
            r@.contains(n) <==> observed(addresses@, n) && hits(addresses@, n) >= hits_needed,
        forall|k: int| 0 <= k < r@.len() ==> (#[trigger] r@[k]).wf() && r@[k].prefix() == 24,
        addresses@.len() == 0 ==> r@.len() == 0,
{
    let mut nets: Vec<IpV4Network> = Vec::new();
    let mut counts: Vec<usize> = Vec::new();
    let mut i: usize = 0;
    while i < addresses.len()
        invariant
            i <= addresses@.len(),
            nets@.len() == counts@.len(),
            nets@.no_duplicates(),
            forall|k: int| 0 <= k < nets@.len() ==> #[trigger] counts@[k] == hits(
                addresses@.take(i as int),
                nets@[k],
            ),
            forall|n: IpV4Network| #[trigger]
                nets@.contains(n) <==> observed(addresses@.take(i as int), n),
            forall|k: int| 0 <= k < nets@.len() ==> (#[trigger] nets@[k]).wf() && nets@[k].prefix()
                == 24,
        decreases addresses.len() - i,
    {
        let ghost prev = addresses@.take(i as int);
        let ghost next = addresses@.take(i + 1);
        assert(next.drop_last() == prev);
        assert(next.last() == addresses@[i as int]);
        let net = IpV4Network::from_address_cidr(&addresses[i], 24);
        let mut j: usize = 0;
        let mut found = false;
        while j < nets.len()
            invariant
                j <= nets@.len(),
                !found ==> forall|k: int| 0 <= k < j ==> nets@[k] != net,
                found ==> j < nets@.len() && nets@[j as int] == net,
            ensures
                !found ==> forall|k: int| 0 <= k < nets@.len() ==> nets@[k] != net,
                found ==> j < nets@.len() && nets@[j as int] == net,
            decreases nets@.len() - j + if found { 0int } else { 1 },
        {
            if nets[j] == net {
                found = true;
                break;
            }
            j += 1;
        }
        proof {
            lemma_hits_bounded(prev, net);
            assert forall|k: int| 0 <= k < nets@.len() implies hits(next, #[trigger] nets@[k]) == hits(
                prev,
                nets@[k],
            ) + if nets@[k] == net {
                1nat
            } else {
                0nat
            } by {}
            assert forall|n: IpV4Network| #[trigger]
                observed(next, n) <==> observed(prev, n) || n == net by {
                if observed(next, n) {
                    let w = choose|w: int| 0 <= w < next.len() && class_c_of(#[trigger] next[w]) == n;
                    if w < prev.len() {
                        assert(prev[w] == next[w]);
                    }
                }
                if observed(prev, n) {
                    let w = choose|w: int| 0 <= w < prev.len() && class_c_of(#[trigger] prev[w]) == n;
                    assert(prev[w] == next[w]);
                }
                if n == net {
                    assert(class_c_of(next[i as int]) == n);
                }
            }
        }
        if found {
            proof {
                lemma_hits_bounded(prev, nets@[j as int]);
            }
            let c = counts[j] + 1;
            counts.set(j, c);
        } else {
            proof {
                assert(!nets@.contains(net));
                if hits(prev, net) > 0 {
                    lemma_hits_positive(prev, net);
                }
                lemma_push_no_dup(nets@, net);
                lemma_push_contains(nets@, net);
            }
            nets.push(net);
            counts.push(1);
            proof {
                assert forall|k: int| 0 <= k < nets@.len() - 1 implies #[trigger] nets@[k] != net by {
                    assert(nets@[k] == nets@.drop_last()[k]);
                }
            }
        }
        i += 1;
    }
    assert(addresses@.take(addresses@.len() as int) == addresses@);
    let mut r: Vec<IpV4Network> = Vec::new();
    let mut k: usize = 0;
    while k < nets.len()
        invariant
            k <= nets@.len(),
            nets@.len() == counts@.len(),
            nets@.no_duplicates(),
            r@.no_duplicates(),
            forall|k2: int| 0 <= k2 < nets@.len() ==> #[trigger] counts@[k2] == hits(
                addresses@,
                nets@[k2],
            ),
            forall|n: IpV4Network| #[trigger] nets@.contains(n) <==> observed(addresses@, n),
            forall|k2: int| 0 <= k2 < nets@.len() ==> (#[trigger] nets@[k2]).wf()
                && nets@[k2].prefix() == 24,
            forall|k2: int| 0 <= k2 < r@.len() ==> (#[trigger] r@[k2]).wf() && r@[k2].prefix() == 24,
            forall|n: IpV4Network| #[trigger]
                r@.contains(n) <==> exists|k2: int|
                    0 <= k2 < k && #[trigger] nets@[k2] == n && counts@[k2] >= hits_needed,
        decreases nets@.len() - k,
    {
        let ghost old_r = r@;
        if counts[k] >= hits_needed as usize {
            proof {
                assert forall|k2: int| 0 <= k2 < k implies #[trigger] nets@[k2] != nets@[k as int] by {}
                lemma_push_no_dup(r@, nets@[k as int]);
                lemma_push_contains(r@, nets@[k as int]);
            }
            r.push(nets[k]);
        }
        proof {
            assert forall|n: IpV4Network| #[trigger] r@.contains(n) implies exists|k2: int|
                0 <= k2 < k + 1 && #[trigger] nets@[k2] == n && counts@[k2] >= hits_needed by {
                if !old_r.contains(n) {
                    assert(nets@[k as int] == n);
                }
            }
            assert forall|k2: int| 0 <= k2 < k + 1 && counts@[k2] >= hits_needed implies r@.contains(
                #[trigger] nets@[k2],
            ) by {
                if k2 < k {
                    assert(old_r.contains(nets@[k2]));
                }
            }
        }
        k += 1;
    }
    proof {
        assert forall|n: IpV4Network| #[trigger]
            r@.contains(n) <==> observed(addresses@, n) && hits(addresses@, n) >= hits_needed by {
            if observed(addresses@, n) {
                assert(nets@.contains(n));
                let k2 = choose|k2: int| 0 <= k2 < nets@.len() && nets@[k2] == n;
                assert(nets@[k2] == n);
            }
            if r@.contains(n) {
                let k2 = choose|k2: int|
                    0 <= k2 < k && #[trigger] nets@[k2] == n && counts@[k2] >= hits_needed;
                assert(nets@[k2] == n);
                assert(nets@.contains(n));
            }
        }
        if addresses@.len() == 0 && r@.len() > 0 {
            assert(r@.contains(r@[0]));
        }
    }
    r
}

proof fn lemma_hits_positive(addresses: Seq<[u8; 4]>, n: IpV4Network)
    requires
        hits(addresses, n) > 0,
    ensures
        observed(addresses, n),
    decreases addresses.len(),
{
    let last = addresses.len() - 1;
    if class_c_of(addresses[last]) == n {
        assert(class_c_of(addresses[last]) == n);
    } else {
        lemma_hits_positive(addresses.drop_last(), n);
        let w = choose|w: int|
            0 <= w < addresses.drop_last().len() && class_c_of(#[trigger] addresses.drop_last()[w]) == n;
        assert(addresses.drop_last()[w] == addresses[w]);
    }
}

} // verus!
