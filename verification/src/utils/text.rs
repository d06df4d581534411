use vstd::prelude::*;
use vstd::string::{StringExecFns, StringSliceAdditionalSpecFns};
use vstd::utf8::{is_ascii_chars, is_ascii_chars_encode_utf8};

verus! {

/// The character that stands for a decimal digit.
pub open spec fn digit_char(d: nat) -> char {
    if d == 0 {
        '0'
    } else if d == 1 {
        '1'
    } else if d == 2 {
        '2'
    } else if d == 3 {
        '3'
    } else if d == 4 {
        '4'
    } else if d == 5 {
        '5'
    } else if d == 6 {
        '6'
    } else if d == 7 {
        '7'
    } else if d == 8 {
        '8'
    } else {
        '9'
    }
}

/// A number in decimal notation, without leading zeros.
pub open spec fn decimal(n: nat) -> Seq<char>
    decreases n,
{
    if n < 10 {
        seq![digit_char(n)]
    } else {
        decimal(n / 10).push(digit_char(n % 10))
    }
}

/// An address in dotted decimal notation.
pub open spec fn dotted(a: Seq<u8>) -> Seq<char> {
    decimal(a[0] as nat) + seq!['.'] + decimal(a[1] as nat) + seq!['.'] + decimal(a[2] as nat)
        + seq!['.'] + decimal(a[3] as nat)
}

/// A decimal digit as text.
fn digit_str(d: u8) -> (r: &'static str)
    requires
        d < 10,
    ensures
        r@ == seq![digit_char(d as nat)],
{
    proof {
        reveal_strlit("0");
        reveal_strlit("1");
        reveal_strlit("2");
        reveal_strlit("3");
        reveal_strlit("4");
        reveal_strlit("5");
        reveal_strlit("6");
        reveal_strlit("7");
        reveal_strlit("8");
        reveal_strlit("9");
    }
    let r = if d == 0 {
        "0"
    } else if d == 1 {
        "1"
    } else if d == 2 {
        "2"
    } else if d == 3 {
        "3"
    } else if d == 4 {
        "4"
    } else if d == 5 {
        "5"
    } else if d == 6 {
        "6"
    } else if d == 7 {
        "7"
    } else if d == 8 {
        "8"
    } else {
        "9"
    };
    assert(r@ =~= seq![digit_char(d as nat)]);
    r
}

/// Writes a number in decimal notation at the end of a text.
pub fn append_decimal(s: &mut String, n: u32)
    ensures
        final(s)@ == old(s)@ + decimal(n as nat),
    decreases n,
{
    if n >= 10 {
        append_decimal(s, n / 10);
    }
    s.append(digit_str((n % 10) as u8));
    assert(final(s)@ =~= old(s)@ + decimal(n as nat));
}

/// Writes an address in dotted decimal notation at the end of a text.
pub fn append_dotted(s: &mut String, a: &[u8; 4])
    ensures
        final(s)@ == old(s)@ + dotted(a@),
{
    proof {
        reveal_strlit(".");
    }
    append_decimal(s, a[0] as u32);
    s.append(".");
    append_decimal(s, a[1] as u32);
    s.append(".");
    append_decimal(s, a[2] as u32);
    s.append(".");
    append_decimal(s, a[3] as u32);
    assert("."@ =~= seq!['.']);
    assert(final(s)@ =~= old(s)@ + dotted(a@));
}

/// Whether a byte is an ASCII decimal digit.
pub open spec fn is_digit(b: u8) -> bool {
    48 <= b <= 57
}

/// The value of one field of a dotted address: one to three decimal digits,
/// no leading zero before another digit, and at most 255.
pub open spec fn octet_text_value(f: Seq<u8>) -> Option<u8> {
    if f.len() == 1 && is_digit(f[0]) {
        Some((f[0] - 48) as u8)
    } else if f.len() == 2 && is_digit(f[0]) && is_digit(f[1]) && f[0] != 48 {
        Some(((f[0] - 48) * 10 + (f[1] - 48)) as u8)
    } else if f.len() == 3 && is_digit(f[0]) && is_digit(f[1]) && is_digit(f[2]) && f[0] != 48
        && (f[0] - 48) * 100 + (f[1] - 48) * 10 + (f[2] - 48) <= 255 {
        Some(((f[0] - 48) * 100 + (f[1] - 48) * 10 + (f[2] - 48)) as u8)
    } else {
        None
    }
}

/// Where the field that starts at `from` ends: at the first dot at or
/// after `from`, or at the end of the text.
pub open spec fn field_end(s: Seq<u8>, from: int) -> int
    decreases s.len() - from,
{
    if from >= s.len() || s[from] == 46 {
        from
    } else {
        field_end(s, from + 1)
    }
}

/// The address that a text denotes in dotted decimal notation: exactly four
/// fields, each a valid octet, with a single dot between neighbours.
pub open spec fn parse_ipv4(s: Seq<u8>) -> Option<Seq<u8>> {
    let e0 = field_end(s, 0);
    let e1 = field_end(s, e0 + 1);
    let e2 = field_end(s, e1 + 1);
    if e2 >= s.len() {
        None
    } else {
        let f0 = octet_text_value(s.subrange(0, e0));
        let f1 = octet_text_value(s.subrange(e0 + 1, e1));
        let f2 = octet_text_value(s.subrange(e1 + 1, e2));
        let f3 = octet_text_value(s.subrange(e2 + 1, s.len() as int));
        if f0 is Some && f1 is Some && f2 is Some && f3 is Some {
            Some(seq![f0->0, f1->0, f2->0, f3->0])
        } else {
            None
        }
    }
}

/// A field never ends before it starts, nor beyond the text it starts in.
pub proof fn lemma_field_end_bounds(s: Seq<u8>, from: int)
    ensures
        from <= field_end(s, from),
        from <= s.len() ==> field_end(s, from) <= s.len(),
        field_end(s, from) < s.len() ==> s[field_end(s, from)] == 46,
    decreases s.len() - from,
{
    if from >= s.len() || s[from] == 46 {
    } else {
        lemma_field_end_bounds(s, from + 1);
    }
}

/// Finds the end of the field that starts at `from`.
fn find_field_end(b: &[u8], from: usize) -> (r: usize)
    requires
        from <= b.len(),
    ensures
        r == field_end(b@, from as int),
        from <= r <= b.len(),
{
    let mut i: usize = from;
    while i < b.len() && b[i] != 46
        invariant
            from <= i <= b.len(),
            field_end(b@, from as int) == field_end(b@, i as int),
        decreases b.len() - i,
    {
        i = i + 1;
    }
    i
}

/// Reads the field between `from` and `to` as an octet.
fn parse_octet(b: &[u8], from: usize, to: usize) -> (r: Option<u8>)
    requires
        from <= to <= b.len(),
    ensures
        r == octet_text_value(b@.subrange(from as int, to as int)),
{
    let ghost f = b@.subrange(from as int, to as int);
    let n: usize = to - from;
    if n == 0 || n > 3 {
        return None;
    }
    assert(f[0] == b@[from as int]);
    let c0: u8 = b[from];
    if c0 < 48 || c0 > 57 {
        return None;
    }
    let d0: u32 = (c0 - 48) as u32;
    if n == 1 {
        return Some(d0 as u8);
    }
    assert(f[1] == b@[from + 1]);
    let c1: u8 = b[from + 1];
    if c1 < 48 || c1 > 57 || c0 == 48 {
        return None;
    }
    let d1: u32 = (c1 - 48) as u32;
    if n == 2 {
        return Some((d0 * 10 + d1) as u8);
    }
    assert(f[2] == b@[from + 2]);
    let c2: u8 = b[from + 2];
    if c2 < 48 || c2 > 57 {
        return None;
    }
    let d2: u32 = (c2 - 48) as u32;
    let v: u32 = d0 * 100 + d1 * 10 + d2;
    if v > 255 {
        return None;
    }
    Some(v as u8)
}

/// The bytes of a text of ASCII characters.
pub open spec fn ascii_bytes(t: Seq<char>) -> Seq<u8> {
    Seq::new(t.len(), |i: int| t[i] as u8)
}

/// The decimal notation of an octet is a field that reads as that octet.
pub proof fn lemma_decimal_octet(n: u8)
    ensures
        1 <= decimal(n as nat).len() <= 3,
        forall|i: int|
            0 <= i < decimal(n as nat).len() ==> is_digit(
                #[trigger] ascii_bytes(decimal(n as nat))[i],
            ),
        forall|i: int|
            0 <= i < decimal(n as nat).len() ==> '0' <= #[trigger] decimal(n as nat)[i] <= '9',
        octet_text_value(ascii_bytes(decimal(n as nat))) == Some(n),
{
    reveal_with_fuel(decimal, 3);
    let t = ascii_bytes(decimal(n as nat));
    assert forall|d: nat| d < 10 implies #[trigger] digit_char(d) as u8 == 48 + d by {}
    if n < 10 {
        assert(decimal(n as nat) =~= seq![digit_char(n as nat)]);
        assert(t[0] == 48 + n);
    } else if n < 100 {
        let hi = (n / 10) as nat;
        let lo = (n % 10) as nat;
        assert(decimal(n as nat) =~= seq![digit_char(hi), digit_char(lo)]);
        assert(t[0] == 48 + hi && t[1] == 48 + lo);
    } else {
        let top = (n / 100) as nat;
        let hi = (n / 10 % 10) as nat;
        let lo = (n % 10) as nat;
        assert((n / 10) as nat / 10 == top);
        assert((n / 10) as nat % 10 == hi);
        assert(decimal(n as nat) =~= seq![digit_char(top), digit_char(hi), digit_char(lo)]);
        assert(t[0] == 48 + top && t[1] == 48 + hi && t[2] == 48 + lo);
    }
}

/// A run of digits that is followed by a dot, or by nothing, is one field.
pub proof fn lemma_field_of_digits(s: Seq<u8>, from: int, to: int)
    requires
        0 <= from <= to <= s.len(),
        forall|i: int| from <= i < to ==> is_digit(#[trigger] s[i]),
        to == s.len() || s[to] == 46,
    ensures
        field_end(s, from) == to,
    decreases to - from,
{
    if from < to {
        assert(is_digit(s[from]));
        lemma_field_of_digits(s, from + 1, to);
    }
}

/// Every address, written in dotted decimal notation, reads back as itself.
pub proof fn lemma_dotted_reads_back(a: Seq<u8>)
    requires
        a.len() == 4,
    ensures
        parse_ipv4(ascii_bytes(dotted(a))) == Some(a),
{
    let t0 = ascii_bytes(decimal(a[0] as nat));
    let t1 = ascii_bytes(decimal(a[1] as nat));
    let t2 = ascii_bytes(decimal(a[2] as nat));
    let t3 = ascii_bytes(decimal(a[3] as nat));
    lemma_decimal_octet(a[0]);
    lemma_decimal_octet(a[1]);
    lemma_decimal_octet(a[2]);
    lemma_decimal_octet(a[3]);
    let dot = seq![46u8];
    let s = ascii_bytes(dotted(a));
    assert(s =~= t0 + dot + t1 + dot + t2 + dot + t3);
    let e0 = t0.len() as int;
    let e1 = e0 + 1 + t1.len();
    let e2 = e1 + 1 + t2.len();
    let n = s.len() as int;
    assert(n == e2 + 1 + t3.len());
    assert forall|i: int| 0 <= i < e0 implies is_digit(#[trigger] s[i]) by {
        assert(s[i] == t0[i]);
    }
    assert forall|i: int| e0 + 1 <= i < e1 implies is_digit(#[trigger] s[i]) by {
        assert(s[i] == t1[i - e0 - 1]);
    }
    assert forall|i: int| e1 + 1 <= i < e2 implies is_digit(#[trigger] s[i]) by {
        assert(s[i] == t2[i - e1 - 1]);
    }
    assert(s[e0] == 46 && s[e1] == 46 && s[e2] == 46);
    lemma_field_of_digits(s, 0, e0);
    lemma_field_of_digits(s, e0 + 1, e1);
    lemma_field_of_digits(s, e1 + 1, e2);
    assert(s.subrange(0, e0) =~= t0);
    assert(s.subrange(e0 + 1, e1) =~= t1);
    assert(s.subrange(e1 + 1, e2) =~= t2);
    assert(s.subrange(e2 + 1, n) =~= t3);
    assert(seq![a[0], a[1], a[2], a[3]] =~= a);
}

/// A text that holds an address in dotted decimal notation reads as that
/// address.
pub proof fn lemma_dotted_text_reads_back(text: &str, a: Seq<u8>)
    requires
        a.len() == 4,
        text@ == dotted(a),
    ensures
        parse_ipv4(text.spec_bytes()) == Some(a),
{
    lemma_dotted_reads_back(a);
    lemma_decimal_octet(a[0]);
    lemma_decimal_octet(a[1]);
    lemma_decimal_octet(a[2]);
    lemma_decimal_octet(a[3]);
    let d0 = decimal(a[0] as nat);
    let d1 = decimal(a[1] as nat);
    let d2 = decimal(a[2] as nat);
    let d3 = decimal(a[3] as nat);
    let t = dotted(a);
    assert forall|i: int| 0 <= i < t.len() implies '\0' <= #[trigger] t[i] <= '\u{7f}' by {
        let e0 = d0.len() as int;
        let e1 = e0 + 1 + d1.len();
        let e2 = e1 + 1 + d2.len();
        if i < e0 {
            assert(t[i] == d0[i]);
        } else if i == e0 {
        } else if i < e1 {
            assert(t[i] == d1[i - e0 - 1]);
        } else if i == e1 {
        } else if i < e2 {
            assert(t[i] == d2[i - e1 - 1]);
        } else if i == e2 {
        } else {
            assert(t[i] == d3[i - e2 - 1]);
        }
    }
    assert(is_ascii_chars(text@));
    is_ascii_chars_encode_utf8(text@);
    assert(text.spec_bytes() =~= ascii_bytes(t));
}

/// Reads an address in dotted decimal notation from bytes.
pub fn parse_quad(b: &[u8]) -> (r: Option<[u8; 4]>)
    ensures
        match parse_ipv4(b@) {
            Some(octets) => r is Some && r->0@ == octets,
            None => r is None,
        },
{
    let n: usize = b.len();
    let e0 = find_field_end(b, 0);
    proof {
        lemma_field_end_bounds(b@, e0 + 1);
        lemma_field_end_bounds(b@, field_end(b@, e0 + 1) + 1);
    }
    if e0 >= n {
        return None;
    }
    let e1 = find_field_end(b, e0 + 1);
    if e1 >= n {
        return None;
    }
    let e2 = find_field_end(b, e1 + 1);
    if e2 >= n {
        return None;
    }
    let f0 = parse_octet(b, 0, e0);
    let f1 = parse_octet(b, e0 + 1, e1);
    let f2 = parse_octet(b, e1 + 1, e2);
    let f3 = parse_octet(b, e2 + 1, n);
    match (f0, f1, f2, f3) {
        (Some(a), Some(b), Some(c), Some(d)) => {
            let out: [u8; 4] = [a, b, c, d];
            assert(out@ =~= seq![a, b, c, d]);
            Some(out)
        },
        _ => None,
    }
}

/// Reads an address in dotted decimal notation.
pub fn parse_address(text: &str) -> (r: Option<[u8; 4]>)
    ensures
        match parse_ipv4(text.spec_bytes()) {
            Some(octets) => r is Some && r->0@ == octets,
            None => r is None,
        },
{
    parse_quad(text.as_bytes())
}

} // verus!
