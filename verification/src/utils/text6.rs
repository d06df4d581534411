use vstd::prelude::*;
use vstd::slice::slice_subrange;
use vstd::string::StringSliceAdditionalSpecFns;
use super::text::{parse_ipv4, parse_quad};

verus! {

/// Whether a byte is an ASCII hexadecimal digit, in either case.
pub open spec fn is_hex_digit(b: u8) -> bool {
    48 <= b <= 57 || 97 <= b <= 102 || 65 <= b <= 70
}

/// The value of a hexadecimal digit.
pub open spec fn hex_digit_value(b: u8) -> int {
    if 48 <= b <= 57 {
        b - 48
    } else if 97 <= b <= 102 {
        b - 87
    } else {
        b - 55
    }
}

/// The number that a run of hexadecimal digits denotes.
pub open spec fn hex_number(f: Seq<u8>) -> int
    decreases f.len(),
{
    if f.len() == 0 {
        0
    } else {
        hex_number(f.drop_last()) * 16 + hex_digit_value(f.last())
    }
}

/// The value of one group of an IPv6 address: one to four hexadecimal digits.
pub open spec fn group_value(f: Seq<u8>) -> Option<u16> {
    if 1 <= f.len() <= 4 && forall|i: int| 0 <= i < f.len() ==> is_hex_digit(#[trigger] f[i]) {
        Some(hex_number(f) as u16)
    } else {
        None
    }
}

/// Where the group that starts at `from` ends: at the first colon at or
/// after `from`, or at the end of the text.
pub open spec fn group_end(s: Seq<u8>, from: int) -> int
    decreases s.len() - from,
{
    if from >= s.len() || s[from] == 58 {
        from
    } else {
        group_end(s, from + 1)
    }
}

/// The two groups that an embedded dotted address fills.
pub open spec fn quad_groups(o: Seq<u8>) -> Seq<u16> {
    seq![(o[0] * 256 + o[1]) as u16, (o[2] * 256 + o[3]) as u16]
}

/// What the last field of a list of groups stands for: one group, or two
/// where a dotted address is allowed and stands there.
pub open spec fn last_groups(f: Seq<u8>, allow_quad: bool) -> Option<Seq<u16>> {
    match group_value(f) {
        Some(g) => Some(seq![g]),
        None => if allow_quad {
            match parse_ipv4(f) {
                Some(o) => Some(quad_groups(o)),
                None => None,
            }
        } else {
            None
        },
    }
}

/// Puts a group in front of the groups that follow it.
pub open spec fn group_then(g: Option<u16>, rest: Option<Seq<u16>>) -> Option<Seq<u16>> {
    match (g, rest) {
        (Some(first), Some(others)) => Some(seq![first] + others),
        _ => None,
    }
}

/// The groups that a text lists, separated by single colons. The text
/// holds at least one field, and none of its fields is empty.
pub open spec fn groups(s: Seq<u8>, allow_quad: bool) -> Option<Seq<u16>>
    decreases s.len(),
{
    let e = group_end(s, 0);
    if e < 0 || e >= s.len() {
        last_groups(s, allow_quad)
    } else {
        group_then(
            group_value(s.subrange(0, e)),
            groups(s.subrange(e + 1, s.len() as int), allow_quad),
        )
    }
}

/// Where the first pair of colons stands at or after `from`, or the length
/// of the text if there is none.
pub open spec fn double_colon(s: Seq<u8>, from: int) -> int
    decreases s.len() - from,
{
    if from + 1 >= s.len() {
        s.len() as int
    } else if s[from] == 58 && s[from + 1] == 58 {
        from
    } else {
        double_colon(s, from + 1)
    }
}

/// The groups on one side of a pair of colons: none if nothing stands there.
pub open spec fn side_groups(s: Seq<u8>, allow_quad: bool) -> Option<Seq<u16>> {
    if s.len() == 0 {
        Some(Seq::empty())
    } else {
        groups(s, allow_quad)
    }
}

/// The groups before a pair of colons, as many zero groups as are missing,
/// and the groups after it.
pub open spec fn expand(head: Seq<u16>, tail: Seq<u16>) -> Seq<u16> {
    Seq::new(
        8,
        |j: int|
            if j < head.len() {
                head[j]
            } else if j >= 8 - tail.len() {
                tail[j - (8 - tail.len())]
            } else {
                0u16
            },
    )
}

/// The address that a text denotes in colon-separated hexadecimal
/// notation. Without a pair of colons the text lists all eight groups. A
/// pair of colons, which may stand once, replaces one or more groups of
/// zero. The last two groups may be written as a dotted address, but not
/// before a pair of colons.
pub open spec fn parse_ipv6(s: Seq<u8>) -> Option<Seq<u16>> {
    let i = double_colon(s, 0);
    if i >= s.len() {
        match groups(s, true) {
            Some(g) => if g.len() == 8 {
                Some(g)
            } else {
                None
            },
            None => None,
        }
    } else {
        match (
            side_groups(s.subrange(0, i), false),
            side_groups(s.subrange(i + 2, s.len() as int), true),
        ) {
            (Some(head), Some(tail)) => if head.len() + tail.len() <= 7 {
                Some(expand(head, tail))
            } else {
                None
            },
            _ => None,
        }
    }
}

/// Finds the end of the first group of a text.
fn find_group_end(b: &[u8]) -> (r: usize)
    ensures
        r == group_end(b@, 0),
        r <= b.len(),
{
    let mut i: usize = 0;
    while i < b.len() && b[i] != 58
        invariant
            i <= b.len(),
            group_end(b@, 0) == group_end(b@, i as int),
        decreases b.len() - i,
    {
        i = i + 1;
    }
    i
}

/// Finds the first pair of colons in a text.
fn find_double_colon(b: &[u8]) -> (r: usize)
    ensures
        r == double_colon(b@, 0),
        r <= b.len(),
        r < b.len() ==> r + 2 <= b.len(),
{
    let mut i: usize = 0;
    while i < b.len() && i + 1 < b.len() && !(b[i] == 58 && b[i + 1] == 58)
        invariant
            i <= b.len(),
            double_colon(b@, 0) == double_colon(b@, i as int),
        decreases b.len() - i,
    {
        i = i + 1;
    }
    if b.len() - i <= 1 {
        b.len()
    } else {
        i
    }
}

/// Reads one hexadecimal digit.
fn hex_digit(c: u8) -> (r: Option<u8>)
    ensures
        is_hex_digit(c) ==> r == Some(hex_digit_value(c) as u8),
        !is_hex_digit(c) ==> r is None,
        r is Some ==> r->0 < 16,
{
    if c >= 48 && c <= 57 {
        Some(c - 48)
    } else if c >= 97 && c <= 102 {
        Some(c - 87)
    } else if c >= 65 && c <= 70 {
        Some(c - 55)
    } else {
        None
    }
}

/// Reads a field as one group.
fn parse_group(f: &[u8]) -> (r: Option<u16>)
    ensures
        r == group_value(f@),
{
    let n: usize = f.len();
    if n == 0 || n > 4 {
        return None;
    }
    let mut v: u32 = 0;
    let mut j: usize = 0;
    proof {
        assert(f@.take(0) =~= Seq::<u8>::empty());
    }
    while j < n
        invariant
            n == f.len(),
            1 <= n <= 4,
            j <= n,
            v == hex_number(f@.take(j as int)),
            forall|i: int| 0 <= i < j ==> is_hex_digit(#[trigger] f@[i]),
            j == 0 ==> v == 0,
            j == 1 ==> v < 0x10,
            j == 2 ==> v < 0x100,
            j == 3 ==> v < 0x1000,
            j == 4 ==> v < 0x10000,
        decreases n - j,
    {
        let d = match hex_digit(f[j]) {
            Some(d) => d,
            None => {
                return None;
            },
        };
        proof {
            assert(f@.take(j + 1).drop_last() =~= f@.take(j as int));
        }
        v = v * 16 + d as u32;
        j = j + 1;
    }
    proof {
        assert(f@.take(n as int) =~= f@);
    }
    Some(v as u16)
}

/// Reads the last field of a list of groups.
fn parse_last_groups(f: &[u8], allow_quad: bool) -> (r: Option<Vec<u16>>)
    ensures
        match last_groups(f@, allow_quad) {
            Some(g) => r is Some && r->0@ == g,
            None => r is None,
        },
{
    let mut out: Vec<u16> = Vec::new();
    match parse_group(f) {
        Some(g) => {
            out.push(g);
            assert(out@ =~= seq![g]);
            Some(out)
        },
        None => {
            if !allow_quad {
                return None;
            }
            match parse_quad(f) {
                Some(o) => {
                    let hi: u16 = o[0] as u16 * 256 + o[1] as u16;
                    let lo: u16 = o[2] as u16 * 256 + o[3] as u16;
                    out.push(hi);
                    out.push(lo);
                    assert(out@ =~= quad_groups(o@));
                    Some(out)
                },
                None => None,
            }
        },
    }
}

/// Puts finished groups in front of the outcome of reading the rest.
pub open spec fn groups_after(done: Seq<u16>, rest: Option<Seq<u16>>) -> Option<Seq<u16>> {
    match rest {
        Some(others) => Some(done + others),
        None => None,
    }
}

/// Reads a list of groups separated by single colons.
fn parse_groups(b: &[u8], allow_quad: bool) -> (r: Option<Vec<u16>>)
    ensures
        match groups(b@, allow_quad) {
            Some(g) => r is Some && r->0@ == g,
            None => r is None,
        },
{
    let mut out: Vec<u16> = Vec::new();
    let mut cur: &[u8] = b;
    let ghost goal = groups(b@, allow_quad);
    proof {
        match goal {
            Some(g) => {
                assert(out@ + g =~= g);
            },
            None => {},
        }
    }
    loop
        invariant
            goal == groups(b@, allow_quad),
            goal == groups_after(out@, groups(cur@, allow_quad)),
        decreases cur@.len(),
    {
        let e = find_group_end(cur);
        if e >= cur.len() {
            match parse_last_groups(cur, allow_quad) {
                Some(mut last) => {
                    out.append(&mut last);
                    return Some(out);
                },
                None => {
                    return None;
                },
            }
        }
        let field = slice_subrange(cur, 0, e);
        let g = match parse_group(field) {
            Some(g) => g,
            None => {
                return None;
            },
        };
        let rest = slice_subrange(cur, e + 1, cur.len());
        proof {
            match groups(rest@, allow_quad) {
                Some(others) => {
                    assert(out@ + (seq![g] + others) =~= out@.push(g) + others);
                },
                None => {},
            }
        }
        out.push(g);
        cur = rest;
    }
}

/// Reads the groups on one side of a pair of colons.
fn parse_side(b: &[u8], allow_quad: bool) -> (r: Option<Vec<u16>>)
    ensures
        match side_groups(b@, allow_quad) {
            Some(g) => r is Some && r->0@ == g,
            None => r is None,
        },
{
    if b.len() == 0 {
        let out: Vec<u16> = Vec::new();
        assert(out@ =~= Seq::<u16>::empty());
        Some(out)
    } else {
        parse_groups(b, allow_quad)
    }
}

/// Group `j` of an address written with a pair of colons.
fn expanded_group(head: &Vec<u16>, tail: &Vec<u16>, j: usize) -> (r: u16)
    requires
        head.len() + tail.len() <= 7,
        j < 8,
    ensures
        r == expand(head@, tail@)[j as int],
{
    if j < head.len() {
        head[j]
    } else if j >= 8 - tail.len() {
        tail[j - (8 - tail.len())]
    } else {
        0
    }
}

/// Reads an IPv6 address in colon-separated hexadecimal notation from bytes.
pub fn parse_segments(b: &[u8]) -> (r: Option<[u16; 8]>)
    ensures
        match parse_ipv6(b@) {
            Some(segments) => r is Some && r->0@ == segments,
            None => r is None,
        },
{
    let i = find_double_colon(b);
    if i >= b.len() {
        match parse_groups(b, true) {
            Some(g) => {
                if g.len() == 8 {
                    let out: [u16; 8] = [g[0], g[1], g[2], g[3], g[4], g[5], g[6], g[7]];
                    assert(out@ =~= g@);
                    Some(out)
                } else {
                    None
                }
            },
            None => None,
        }
    } else {
        let head = match parse_side(slice_subrange(b, 0, i), false) {
            Some(h) => h,
            None => {
                return None;
            },
        };
        let tail = match parse_side(slice_subrange(b, i + 2, b.len()), true) {
            Some(t) => t,
            None => {
                return None;
            },
        };
        if head.len() > 7 || tail.len() > 7 - head.len() {
            return None;
        }
        let out: [u16; 8] = [
            expanded_group(&head, &tail, 0),
            expanded_group(&head, &tail, 1),
            expanded_group(&head, &tail, 2),
            expanded_group(&head, &tail, 3),
            expanded_group(&head, &tail, 4),
            expanded_group(&head, &tail, 5),
            expanded_group(&head, &tail, 6),
            expanded_group(&head, &tail, 7),
        ];
        assert(out@ =~= expand(head@, tail@));
        Some(out)
    }
}

/// Reads an IPv6 address in colon-separated hexadecimal notation.
pub fn parse_address6(text: &str) -> (r: Option<[u16; 8]>)
    ensures
        match parse_ipv6(text.spec_bytes()) {
            Some(segments) => r is Some && r->0@ == segments,
            None => r is None,
        },
{
    parse_segments(text.as_bytes())
}

} // verus!
