//! IP addresses as the library sees them, their text form, and the
//! private-range test.
use vstd::prelude::*;
use crate::text::{decimal, push_decimal, string_of};

verus! {

/// An IPv4 or IPv6 address.
#[derive(Clone, Copy, Debug, PartialEq, Eq, Structural, Hash)]
pub enum IpAddr {
    /// The four octets of an IPv4 address, most significant first.
    V4(u8, u8, u8, u8),
    /// The eight 16-bit segments of an IPv6 address, most significant first.
    V6(u16, u16, u16, u16, u16, u16, u16, u16),
}

/// Whether an address lies in a private, loopback or link-local range:
/// 10.0.0.0/8, 172.16.0.0/12, 192.168.0.0/16, 127.0.0.0/8, 169.254.0.0/16,
/// or the IPv6 loopback address `::1`.
pub open spec fn is_private_spec(ip: IpAddr) -> bool {
    match ip {
        IpAddr::V4(a, b, _c, _d) => {
            ||| a == 10
            ||| (a == 172 && 16 <= b <= 31)
            ||| (a == 192 && b == 168)
            ||| a == 127
            ||| (a == 169 && b == 254)
        },
        IpAddr::V6(a, b, c, d, e, f, g, h) => a == 0 && b == 0 && c == 0 && d == 0 && e == 0
            && f == 0 && g == 0 && h == 1,
    }
}

/// Whether an address is private (RFC 1918), loopback or link-local.
pub fn is_private_ip(ip: &IpAddr) -> (r: bool)
    ensures
        r == is_private_spec(*ip),
{
    match ip {
        IpAddr::V4(a, b, _c, _d) => {
            let a = *a;
            let b = *b;
            a == 10 || (a == 172 && 16 <= b && b <= 31) || (a == 192 && b == 168) || a == 127
                || (a == 169 && b == 254)
        },
        IpAddr::V6(a, b, c, d, e, f, g, h) => *a == 0 && *b == 0 && *c == 0 && *d == 0 && *e == 0
            && *f == 0 && *g == 0 && *h == 1,
    }
}

/// The private IPv4 ranges are exactly 10.0.0.0/8, 172.16.0.0/12,
/// 192.168.0.0/16, 127.0.0.0/8 and 169.254.0.0/16: an address in 192.0.0.0/8
/// outside 192.168.0.0/16, or in 172.0.0.0/8 outside 172.16.0.0/12, is
/// public, and so is every address whose first byte is none of 10, 127,
/// 169, 172 and 192. The only private IPv6 address is `::1`.
pub proof fn law_private_ranges(a: u8, b: u8, c: u8, d: u8)
    ensures
        is_private_spec(IpAddr::V4(a, b, c, d)) <==> (10 * 0x1000000 <= a * 0x1000000 + b * 0x10000
            + c * 0x100 + d <= 10 * 0x1000000 + 0xffffff || 172 * 0x1000000 + 16 * 0x10000 <= a
            * 0x1000000 + b * 0x10000 + c * 0x100 + d <= 172 * 0x1000000 + 31 * 0x10000 + 0xffff
            || 192 * 0x1000000 + 168 * 0x10000 <= a * 0x1000000 + b * 0x10000 + c * 0x100 + d <= 192
            * 0x1000000 + 168 * 0x10000 + 0xffff || 127 * 0x1000000 <= a * 0x1000000 + b * 0x10000
            + c * 0x100 + d <= 127 * 0x1000000 + 0xffffff || 169 * 0x1000000 + 254 * 0x10000 <= a
            * 0x1000000 + b * 0x10000 + c * 0x100 + d <= 169 * 0x1000000 + 254 * 0x10000 + 0xffff),
        a == 192 && b != 168 ==> !is_private_spec(IpAddr::V4(a, b, c, d)),
        a == 172 && (b < 16 || b > 31) ==> !is_private_spec(IpAddr::V4(a, b, c, d)),
        a == 169 && b != 254 ==> !is_private_spec(IpAddr::V4(a, b, c, d)),
        a != 10 && a != 127 && a != 169 && a != 172 && a != 192 ==> !is_private_spec(
            IpAddr::V4(a, b, c, d),
        ),
        !is_private_spec(IpAddr::V4(192, 30, 255, 113)),
        !is_private_spec(IpAddr::V4(8, 8, 8, 8)),
        is_private_spec(IpAddr::V4(192, 168, c, d)),
        is_private_spec(IpAddr::V4(10, b, c, d)),
        is_private_spec(IpAddr::V4(127, b, c, d)),
        forall|x: u16, y: u16, z: u16, w: u16, e: u16, f: u16, g: u16, h: u16|
            #[trigger] is_private_spec(IpAddr::V6(x, y, z, w, e, f, g, h)) <==> (x == 0 && y == 0
                && z == 0 && w == 0 && e == 0 && f == 0 && g == 0 && h == 1),
{
    let n = a * 0x1000000 + b * 0x10000 + c * 0x100 + d;
    assert(0 <= c * 0x100 + d <= 0xffff) by (nonlinear_arith)
        requires
            c < 256,
            d < 256,
    ;
    assert(0 <= b * 0x10000 + c * 0x100 + d <= 0xffffff) by (nonlinear_arith)
        requires
            b < 256,
            0 <= c * 0x100 + d <= 0xffff,
    ;
}

// ---------------------------------------------------------------------------
// Text form
// ---------------------------------------------------------------------------

/// Dotted-quad text of an IPv4 address.
pub open spec fn ipv4_text(a: u8, b: u8, c: u8, d: u8) -> Seq<char> {
    decimal(a as nat) + seq!['.'] + decimal(b as nat) + seq!['.'] + decimal(c as nat) + seq!['.']
        + decimal(d as nat)
}

/// The character of a lowercase hexadecimal digit.
pub open spec fn hex_lower_char(d: nat) -> char {
    if d < 10 {
        digit_char_of(d)
    } else if d == 10 {
        'a'
    } else if d == 11 {
        'b'
    } else if d == 12 {
        'c'
    } else if d == 13 {
        'd'
    } else if d == 14 {
        'e'
    } else {
        'f'
    }
}

/// The decimal digit character (shared with `hex_lower_char`).
pub open spec fn digit_char_of(d: nat) -> char {
    crate::text::digit_char(d)
}

/// Lowercase hexadecimal notation without leading zeros (`{:x}`).
pub open spec fn hex_lower(n: nat) -> Seq<char>
    decreases n,
{
    if n < 16 {
        seq![hex_lower_char(n)]
    } else {
        hex_lower(n / 16).push(hex_lower_char(n % 16))
    }
}

/// Segments `s[i..8]` in hex, separated by ':'.
pub open spec fn join_segments(s: Seq<u16>, i: int, j: int) -> Seq<char>
    decreases j - i,
{
    if i >= j {
        Seq::empty()
    } else if i + 1 == j {
        hex_lower(s[i] as nat)
    } else {
        hex_lower(s[i] as nat) + seq![':'] + join_segments(s, i + 1, j)
    }
}

/// Number of consecutive zero segments starting at `i`.
pub open spec fn zero_run(s: Seq<u16>, i: int) -> nat
    decreases 8 - i,
{
    if i < 0 || i >= 8 || s[i] != 0 {
        0
    } else {
        1 + zero_run(s, i + 1)
    }
}

/// The first longest run of zero segments at or after `i`, as (start, length).
pub open spec fn longest_zero_run(s: Seq<u16>, i: int) -> (int, nat)
    decreases 8 - i,
{
    if i < 0 || i >= 8 {
        (8, 0)
    } else {
        let rest = longest_zero_run(s, i + 1);
        if zero_run(s, i) > 0 && zero_run(s, i) >= rest.1 {
            (i, zero_run(s, i))
        } else {
            rest
        }
    }
}

/// Whether the address is an IPv4-mapped IPv6 address (`::ffff:a.b.c.d`).
pub open spec fn is_v4_mapped(s: Seq<u16>) -> bool {
    s[0] == 0 && s[1] == 0 && s[2] == 0 && s[3] == 0 && s[4] == 0 && s[5] == 0xffff
}

/// Text of an IPv6 address as RFC 5952 writes it: lowercase hex segments
/// without leading zeros, the first longest run of two or more zero
/// segments written `::`, and IPv4-mapped addresses as `::ffff:a.b.c.d`.
pub open spec fn ipv6_text(s: Seq<u16>) -> Seq<char> {
    if is_v4_mapped(s) {
        seq![':', ':', 'f', 'f', 'f', 'f', ':'] + ipv4_text(
            (s[6] / 256) as u8,
            (s[6] % 256) as u8,
            (s[7] / 256) as u8,
            (s[7] % 256) as u8,
        )
    } else {
        let z = longest_zero_run(s, 0);
        if z.1 > 1 {
            join_segments(s, 0, z.0) + seq![':', ':'] + join_segments(s, z.0 + z.1, 8)
        } else {
            join_segments(s, 0, 8)
        }
    }
}

/// Text form of an address, as `IpAddr`'s `Display` writes it.
pub open spec fn ip_text(ip: IpAddr) -> Seq<char> {
    match ip {
        IpAddr::V4(a, b, c, d) => ipv4_text(a, b, c, d),
        IpAddr::V6(a, b, c, d, e, f, g, h) => ipv6_text(seq![a, b, c, d, e, f, g, h]),
    }
}

fn hex_digit_of(d: u16) -> (c: char)
    requires
        d < 16,
    ensures
        c == hex_lower_char(d as nat),
{
    if d < 10 {
        let c = crate::text::digit_char_exec(d as u64);
        c
    } else if d == 10 {
        'a'
    } else if d == 11 {
        'b'
    } else if d == 12 {
        'c'
    } else if d == 13 {
        'd'
    } else if d == 14 {
        'e'
    } else {
        'f'
    }
}

fn push_hex(out: &mut Vec<char>, n: u16)
    ensures
        final(out)@ == old(out)@ + hex_lower(n as nat),
    decreases n,
{
    if n < 16 {
        out.push(hex_digit_of(n));
        assert(out@ =~= old(out)@ + hex_lower(n as nat));
    } else {
        push_hex(out, n / 16);
        out.push(hex_digit_of(n % 16));
        assert(out@ =~= old(out)@ + hex_lower(n as nat));
    }
}

proof fn lemma_join_step(s: Seq<u16>, i: int, j: int)
    requires
        i < j,
    ensures
        join_segments(s, i, j + 1) == join_segments(s, i, j) + seq![':'] + hex_lower(
            s[j] as nat,
        ),
    decreases j - i,
{
    if i + 1 == j {
        assert(join_segments(s, i + 1, j + 1) == hex_lower(s[j] as nat));
    } else {
        lemma_join_step(s, i + 1, j);
        assert(join_segments(s, i, j + 1) =~= hex_lower(s[i] as nat) + seq![':'] + join_segments(
            s,
            i + 1,
            j + 1,
        ));
    }
}

fn push_segments(out: &mut Vec<char>, s: &[u16; 8], i: usize, j: usize)
    requires
        i <= j <= 8,
    ensures
        final(out)@ == old(out)@ + join_segments(s@, i as int, j as int),
{
    if i == j {
        assert(out@ =~= old(out)@ + join_segments(s@, i as int, j as int));
        return;
    }
    push_hex(out, s[i]);
    let mut k = i + 1;
    while k < j
        invariant
            i < k <= j <= 8,
            out@ == old(out)@ + join_segments(s@, i as int, k as int),
        decreases j - k,
    {
        proof {
            lemma_join_step(s@, i as int, k as int);
        }
        out.push(':');
        push_hex(out, s[k]);
        assert(out@ =~= old(out)@ + join_segments(s@, i as int, k + 1));
        k = k + 1;
    }
}

fn zero_run_exec(s: &[u16; 8], i: usize) -> (r: usize)
    requires
        i <= 8,
    ensures
        r == zero_run(s@, i as int),
        r <= 8 - i,
    decreases 8 - i,
{
    if i >= 8 || s[i] != 0 {
        0
    } else {
        1 + zero_run_exec(s, i + 1)
    }
}

fn longest_zero_run_exec(s: &[u16; 8], i: usize) -> (r: (usize, usize))
    requires
        i <= 8,
    ensures
        r.0 as int == longest_zero_run(s@, i as int).0,
        r.1 as nat == longest_zero_run(s@, i as int).1,
        r.0 + r.1 <= 8,
    decreases 8 - i,
{
    if i >= 8 {
        (8, 0)
    } else {
        let rest = longest_zero_run_exec(s, i + 1);
        let z = zero_run_exec(s, i);
        if z > 0 && z >= rest.1 {
            (i, z)
        } else {
            rest
        }
    }
}

fn ipv6_to_string(s: &[u16; 8]) -> (r: String)
    ensures
        r@ == ipv6_text(s@),
{
    let mut v: Vec<char> = Vec::new();
    if s[0] == 0 && s[1] == 0 && s[2] == 0 && s[3] == 0 && s[4] == 0 && s[5] == 0xffff {
        v.push(':');
        v.push(':');
        v.push('f');
        v.push('f');
        v.push('f');
        v.push('f');
        v.push(':');
        push_decimal(&mut v, (s[6] / 256) as u64);
        v.push('.');
        push_decimal(&mut v, (s[6] % 256) as u64);
        v.push('.');
        push_decimal(&mut v, (s[7] / 256) as u64);
        v.push('.');
        push_decimal(&mut v, (s[7] % 256) as u64);
        assert(v@ =~= ipv6_text(s@));
    } else {
        let z = longest_zero_run_exec(s, 0);
        if z.1 > 1 {
            push_segments(&mut v, s, 0, z.0);
            v.push(':');
            v.push(':');
            push_segments(&mut v, s, z.0 + z.1, 8);
        } else {
            push_segments(&mut v, s, 0, 8);
        }
        assert(v@ =~= ipv6_text(s@));
    }
    string_of(&v)
}

/// The text form of an address (`"192.168.1.1"`, `"2001:db8::1"`).
pub fn ip_to_string(ip: &IpAddr) -> (s: String)
    ensures
        s@ == ip_text(*ip),
{
    match ip {
        IpAddr::V4(a, b, c, d) => {
            let mut v: Vec<char> = Vec::new();
            push_decimal(&mut v, *a as u64);
            v.push('.');
            push_decimal(&mut v, *b as u64);
            v.push('.');
            push_decimal(&mut v, *c as u64);
            v.push('.');
            push_decimal(&mut v, *d as u64);
            assert(v@ =~= ip_text(*ip));
            string_of(&v)
        },
        IpAddr::V6(a, b, c, d, e, f, g, h) => {
            let arr: [u16; 8] = [*a, *b, *c, *d, *e, *f, *g, *h];
            assert(arr@ =~= seq![*a, *b, *c, *d, *e, *f, *g, *h]);
            ipv6_to_string(&arr)
        },
    }
}

} // verus!
