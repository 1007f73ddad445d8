use vstd::prelude::*;
use vstd::string::StringSliceAdditionalSpecFns;
use vstd::utf8::encode_utf8;

use crate::seqs::{lemma_push_contains, lemma_push_no_dup};

verus! {

/// Why a line is not a dotted-decimal IPv4 address.
#[derive(Debug, Clone, Copy, PartialEq, Eq, Structural)]
pub enum AddressError {
    /// The line is not four parts separated by dots.
    WrongPartCount,
    /// A part is empty.
    EmptyOctet,
    /// A part holds something other than decimal digits (after an optional `+`).
    InvalidDigit,
    /// A part's value exceeds 255.
    OctetTooLarge,
}

/// The byte `.`.
pub const DOT: u8 = 46;

/// The byte `+`.
pub const PLUS: u8 = 43;

/// The parts of `b` between dots, in order (one more than there are dots).
pub open spec fn split_dots(b: Seq<u8>) -> Seq<Seq<u8>>
    decreases b.len(),
{
    if b.len() == 0 {
        seq![Seq::empty()]
    } else {
        let s = split_dots(b.drop_last());
        if b.last() == DOT {
            s.push(Seq::empty())
        } else {
            s.update(s.len() - 1, s.last().push(b.last()))
        }
    }
}

/// An ASCII decimal digit.
pub open spec fn is_digit(c: u8) -> bool {
    48 <= c <= 57
}

/// Reads decimal digits left to right, failing at the first byte that is not
/// a digit or at the first digit that takes the value past 255.
pub open spec fn scan_digits(d: Seq<u8>) -> Result<nat, AddressError>
    decreases d.len(),
{
    if d.len() == 0 {
        Ok(0)
    } else {
        match scan_digits(d.drop_last()) {
            Err(e) => Err(e),
            Ok(v) => if !is_digit(d.last()) {
                Err(AddressError::InvalidDigit)
            } else if v * 10 + (d.last() - 48) > 255 {
                Err(AddressError::OctetTooLarge)
            } else {
                Ok((v * 10 + (d.last() - 48)) as nat)
            },
        }
    }
}

/// The value of one part: decimal digits with an optional leading `+`.
pub open spec fn octet(f: Seq<u8>) -> Result<u8, AddressError> {
    if f.len() == 0 {
        Err(AddressError::EmptyOctet)
    } else if f[0] == PLUS && f.len() == 1 {
        Err(AddressError::InvalidDigit)
    } else {
        match scan_digits(if f[0] == PLUS { f.drop_first() } else { f }) {
            Ok(v) => Ok(v as u8),
            Err(e) => Err(e),
        }
    }
}

/// The address that the text `b` denotes, or the first thing wrong with it.
pub open spec fn ipv4_of(b: Seq<u8>) -> Result<[u8; 4], AddressError> {
    let p = split_dots(b);
    if p.len() != 4 {
        Err(AddressError::WrongPartCount)
    } else {
        match (octet(p[0]), octet(p[1]), octet(p[2]), octet(p[3])) {
            (Err(e), _, _, _) => Err(e),
            (Ok(_), Err(e), _, _) => Err(e),
            (Ok(_), Ok(_), Err(e), _) => Err(e),
            (Ok(_), Ok(_), Ok(_), Err(e)) => Err(e),
            (Ok(a), Ok(b), Ok(c), Ok(d)) => Ok([a, b, c, d]),
        }
    }
}

proof fn lemma_scan_err_sticks(d: Seq<u8>, k: int)
    requires
        0 <= k <= d.len(),
        scan_digits(d.take(k)) is Err,
    ensures
        scan_digits(d) == scan_digits(d.take(k)),
    decreases d.len() - k,
{
    if k < d.len() {
        assert(d.take(k + 1).drop_last() == d.take(k));
        lemma_scan_err_sticks(d, k + 1);
    } else {
        assert(d.take(k) == d);
    }
}

/// Parses the part `b[start..end]` as an octet.
fn parse_octet(b: &[u8], start: usize, end: usize) -> (r: Result<u8, AddressError>)
    requires
        start <= end <= b@.len(),
    ensures
        r == octet(b@.subrange(start as int, end as int)),
{
    let ghost f = b@.subrange(start as int, end as int);
    if start == end {
        return Err(AddressError::EmptyOctet);
    }
    if b[start] == PLUS && end - start == 1 {
        return Err(AddressError::InvalidDigit);
    }
    let first: usize = if b[start] == PLUS { start + 1 } else { start };
    let ghost d = b@.subrange(first as int, end as int);
    assert(d == (if f[0] == PLUS { f.drop_first() } else { f }));
    let mut value: u16 = 0;
    let mut i: usize = first;
    while i < end
        invariant
            first <= i <= end <= b@.len(),
            d == b@.subrange(first as int, end as int),
            f == b@.subrange(start as int, end as int),
            f.len() > 0,
            !(f[0] == PLUS && f.len() == 1),
            d == (if f[0] == PLUS { f.drop_first() } else { f }),
            scan_digits(d.take(i - first)) == Ok::<nat, AddressError>(value as nat),
            value <= 255,
        decreases end - i,
    {
        let c = b[i];
        assert(d.take(i + 1 - first).drop_last() == d.take(i - first));
        assert(d.take(i + 1 - first).last() == c);
        if c < 48 || c > 57 {
            proof {
                lemma_scan_err_sticks(d, i + 1 - first);
            }
            return Err(AddressError::InvalidDigit);
        }
        let next: u16 = value * 10 + (c - 48) as u16;
        if next > 255 {
            proof {
                lemma_scan_err_sticks(d, i + 1 - first);
            }
            return Err(AddressError::OctetTooLarge);
        }
        value = next;
        i += 1;
    }
    assert(d.take(end - first) == d);
    Ok(value as u8)
}

/// Parses a dotted-decimal IPv4 address: four parts separated by dots, each a
/// decimal number from 0 to 255 with an optional leading `+`.
pub fn parse_ipv4(ip: &str) -> (r: Result<[u8; 4], AddressError>)
    ensures
        r == ipv4_of(ip.spec_bytes()),
{
    let b = ip.as_bytes();
    let mut starts: Vec<usize> = Vec::new();
    starts.push(0);
    let mut ends: Vec<usize> = Vec::new();
    let mut i: usize = 0;
    assert(b@.take(0) == Seq::<u8>::empty());
    assert(split_dots(b@.take(0))[0] == b@.subrange(0, 0));
    while i < b.len()
        invariant
            i <= b@.len(),
            starts@.len() == ends@.len() + 1,
            split_dots(b@.take(i as int)).len() == starts@.len(),
            forall|k: int| 0 <= k < ends@.len() ==> starts@[k] <= #[trigger] ends@[k] <= i,
            forall|k: int|
                0 <= k < ends@.len() ==> #[trigger] split_dots(b@.take(i as int))[k] == b@.subrange(
                    starts@[k] as int,
                    ends@[k] as int,
                ),
            starts@.last() <= i,
            split_dots(b@.take(i as int)).last() == b@.subrange(starts@.last() as int, i as int),
        decreases b@.len() - i,
    {
        let ghost prev = split_dots(b@.take(i as int));
        let ghost next = b@.take(i + 1);
        assert(next.drop_last() == b@.take(i as int));
        assert(next.last() == b@[i as int]);
        let ghost done = split_dots(next);
        let ghost old_starts = starts@;
        let ghost old_ends = ends@;
        if b[i] == DOT {
            ends.push(i);
            starts.push(i + 1);
            assert(done == prev.push(Seq::empty()));
            assert(b@.subrange(i + 1, i + 1) == Seq::<u8>::empty());
            assert forall|k: int| 0 <= k < ends@.len() implies starts@[k] <= #[trigger] ends@[k]
                <= i + 1 by {
                if k < old_ends.len() {
                    assert(starts@[k] == old_starts[k] && ends@[k] == old_ends[k]);
                }
            }
            assert forall|k: int| 0 <= k < ends@.len() implies #[trigger] done[k] == b@.subrange(
                starts@[k] as int,
                ends@[k] as int,
            ) by {
                if k < old_ends.len() {
                    assert(starts@[k] == old_starts[k] && ends@[k] == old_ends[k]);
                    assert(prev[k] == split_dots(b@.take(i as int))[k]);
                } else {
                    assert(starts@[k] == old_starts.last());
                }
            }
        } else {
            assert(done == prev.update(prev.len() - 1, prev.last().push(b@[i as int])));
            assert forall|k: int| 0 <= k < ends@.len() implies #[trigger] done[k] == b@.subrange(
                starts@[k] as int,
                ends@[k] as int,
            ) by {
                assert(prev[k] == split_dots(b@.take(i as int))[k]);
            }
            assert(b@.subrange(starts@.last() as int, i + 1) == b@.subrange(
                starts@.last() as int,
                i as int,
            ).push(b@[i as int]));
        }
        i += 1;
        assert(b@.take(i as int) == next);
    }
    assert(b@.take(b@.len() as int) == b@);
    if starts.len() != 4 {
        return Err(AddressError::WrongPartCount);
    }
    let ghost p = split_dots(b@);
    assert(p[3] == p.last());
    let o0 = parse_octet(b, starts[0], ends[0]);
    let o1 = parse_octet(b, starts[1], ends[1]);
    let o2 = parse_octet(b, starts[2], ends[2]);
    let o3 = parse_octet(b, starts[3], b.len());
    match (o0, o1, o2, o3) {
        (Err(e), _, _, _) => Err(e),
        (Ok(_), Err(e), _, _) => Err(e),
        (Ok(_), Ok(_), Err(e), _) => Err(e),
        (Ok(_), Ok(_), Ok(_), Err(e)) => Err(e),
        (Ok(a0), Ok(a1), Ok(a2), Ok(a3)) => Ok([a0, a1, a2, a3]),
    }
}

/// The set of addresses on the lines, skipping empty lines, or the error of the
/// first line that is not an address.
pub open spec fn addresses_of(lines: Seq<String>) -> Result<Set<[u8; 4]>, AddressError>
    decreases lines.len(),
{
    if lines.len() == 0 {
        Ok(Set::empty())
    } else {
        match addresses_of(lines.drop_last()) {
            Err(e) => Err(e),
            Ok(found) => if lines.last()@.len() == 0 {
                Ok(found)
            } else {
                match ipv4_of(encode_utf8(lines.last()@)) {
                    Err(e) => Err(e),
                    Ok(a) => Ok(found.insert(a)),
                }
            },
        }
    }
}

proof fn lemma_addresses_err_sticks(lines: Seq<String>, k: int)
    requires
        0 <= k <= lines.len(),
        addresses_of(lines.take(k)) is Err,
    ensures
        addresses_of(lines) == addresses_of(lines.take(k)),
    decreases lines.len() - k,
{
    if k < lines.len() {
        assert(lines.take(k + 1).drop_last() == lines.take(k));
        lemma_addresses_err_sticks(lines, k + 1);
    } else {
        assert(lines.take(k) == lines);
    }
}

fn same_address(x: &[u8; 4], y: &[u8; 4]) -> (r: bool)
    ensures
        r == (*x == *y),
{
    let r = x[0] == y[0] && x[1] == y[1] && x[2] == y[2] && x[3] == y[3];
    proof {
        if r {
            assert(*x =~= *y);
        }
    }
    r
}

/// Parses every non-empty line as an address; the addresses come back once
/// each, or the error of the first line that is not an address.
pub fn parse_ipv4_addresses(raw_addresses: &Vec<String>) -> (r: Result<Vec<[u8; 4]>, AddressError>)
    ensures
        match r {
            Ok(v) => v@.no_duplicates() && addresses_of(raw_addresses@) == Ok::<
                Set<[u8; 4]>,
                AddressError,
            >(v@.to_set()),
            Err(e) => addresses_of(raw_addresses@) == Err::<Set<[u8; 4]>, AddressError>(e),
        },
{
    let mut result: Vec<[u8; 4]> = Vec::new();
    let mut i: usize = 0;
    assert(raw_addresses@.take(0) == Seq::<String>::empty());
    assert(result@.to_set() == Set::<[u8; 4]>::empty());
    while i < raw_addresses.len()
        invariant
            i <= raw_addresses@.len(),
            result@.no_duplicates(),
            addresses_of(raw_addresses@.take(i as int)) == Ok::<Set<[u8; 4]>, AddressError>(
                result@.to_set(),
            ),
        decreases raw_addresses@.len() - i,
    {
        let ghost next = raw_addresses@.take(i + 1);
        assert(next.drop_last() == raw_addresses@.take(i as int));
        assert(next.last() == raw_addresses@[i as int]);
        let line: &str = raw_addresses[i].as_str();
        if !line.is_empty() {
            match parse_ipv4(line) {
                Ok(a) => {
                    let ghost before = result@;
                    let mut seen = false;
                    let mut j: usize = 0;
                    while j < result.len()
                        invariant
                            j <= result@.len(),
                            !seen ==> forall|k: int| 0 <= k < j ==> result@[k] != a,
                            seen ==> result@.contains(a),
                        ensures
                            !seen ==> !result@.contains(a),
                            seen ==> result@.contains(a),
                        decreases result@.len() - j,
                    {
                        if same_address(&result[j], &a) {
                            seen = true;
                            break;
                        }
                        j += 1;
                    }
                    if !seen {
                        proof {
                            lemma_push_no_dup(result@, a);
                            lemma_push_contains(result@, a);
                        }
                        result.push(a);
                    }
                    assert(result@.to_set() =~= before.to_set().insert(a));
                },
                Err(e) => {
                    proof {
                        lemma_addresses_err_sticks(raw_addresses@, i + 1);
                    }
                    return Err(e);
                },
            }
        }
        i += 1;
        assert(raw_addresses@.take(i as int) == next);
    }
    assert(raw_addresses@.take(raw_addresses@.len() as int) == raw_addresses@);
    Ok(result)
}

} // verus!
