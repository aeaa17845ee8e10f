//! Host resolution, the verifiable part: recognising address literals and
//! choosing among lookup results.  The DNS lookup itself is network I/O and
//! lives in the unverified shell; it hands its results back here as plain
//! values.

use vstd::prelude::*;

verus! {

/// A routable address as plain values: four octets, or the two 64-bit
/// halves of a 128-bit address.
#[derive(Debug, Clone, Copy, PartialEq, Eq, Structural)]
pub enum IpAddress {
    V4 { a: u8, b: u8, c: u8, d: u8 },
    V6 { hi: u64, lo: u64 },
}

/// Why a host could not be resolved at setup.
#[derive(Debug, Clone, Copy, PartialEq, Eq, Structural)]
pub enum ResolutionError {
    /// The lookup itself failed.
    LookupFailed,
    /// The lookup succeeded but returned no addresses.
    NoAddresses,
}

impl ResolutionError {
    pub fn describe(&self) -> (d: &'static str)
        ensures
            d@ == (match *self {
                ResolutionError::LookupFailed => "DNS lookup failed"@,
                ResolutionError::NoAddresses => "no IP addresses found"@,
            }),
    {
        match self {
            ResolutionError::LookupFailed => "DNS lookup failed",
            ResolutionError::NoAddresses => "no IP addresses found",
        }
    }
}

/// Resolution keeps the first address a lookup yielded and fails on an
/// empty result.
pub fn first_address(candidates: &Vec<IpAddress>) -> (r: Result<IpAddress, ResolutionError>)
    ensures
        candidates@.len() > 0 ==> r == Ok::<IpAddress, ResolutionError>(candidates@[0]),
        candidates@.len() == 0 ==> r == Err::<IpAddress, ResolutionError>(
            ResolutionError::NoAddresses,
        ),
{
    if candidates.len() > 0 {
        Ok(candidates[0])
    } else {
        Err(ResolutionError::NoAddresses)
    }
}

pub open spec fn is_digit(c: char) -> bool {
    '0' <= c && c <= '9'
}

pub open spec fn digit_val(c: char) -> int {
    c as int - '0' as int
}

/// Decimal value of a digit string, most significant first.
pub open spec fn octet_val(s: Seq<char>) -> int
    decreases s.len(),
{
    if s.len() == 0 {
        0
    } else {
        octet_val(s.drop_last()) * 10 + digit_val(s.last())
    }
}

/// A decimal octet as it may appear in a dotted-quad literal: one to three
/// digits, no leading zero, value at most 255.
pub open spec fn is_octet_text(s: Seq<char>) -> bool {
    &&& 1 <= s.len() <= 3
    &&& (forall|i: int| 0 <= i < s.len() ==> is_digit(#[trigger] s[i]))
    &&& (s.len() > 1 ==> s[0] != '0')
    &&& octet_val(s) <= 255
}

/// `i < j < k` are the positions of the three dots of a dotted-quad
/// literal, the string holds no other dot, and the four parts between them
/// are decimal octets.
pub open spec fn is_ipv4_split(s: Seq<char>, i: int, j: int, k: int) -> bool {
    &&& 0 < i < j < k < s.len()
    &&& s[i] == '.' && s[j] == '.' && s[k] == '.'
    &&& (forall|m: int| 0 <= m < s.len() && #[trigger] s[m] == '.' ==> m == i || m == j || m == k)
    &&& is_octet_text(s.subrange(0, i))
    &&& is_octet_text(s.subrange(i + 1, j))
    &&& is_octet_text(s.subrange(j + 1, k))
    &&& is_octet_text(s.subrange(k + 1, s.len() as int))
}

/// The string is a dotted-quad address literal.
pub open spec fn is_ipv4_literal(s: Seq<char>) -> bool {
    exists|i: int, j: int, k: int| is_ipv4_split(s, i, j, k)
}

/// The address a dotted-quad literal denotes.
pub open spec fn ipv4_value(s: Seq<char>) -> IpAddress {
    let (i, j, k) = choose|i: int, j: int, k: int| is_ipv4_split(s, i, j, k);
    IpAddress::V4 {
        a: octet_val(s.subrange(0, i)) as u8,
        b: octet_val(s.subrange(i + 1, j)) as u8,
        c: octet_val(s.subrange(j + 1, k)) as u8,
        d: octet_val(s.subrange(k + 1, s.len() as int)) as u8,
    }
}

proof fn lemma_ipv4_literal_ascii(s: Seq<char>)
    requires
        is_ipv4_literal(s),
    ensures
        vstd::utf8::is_ascii_chars(s),
{
    let (i, j, k) = choose|i: int, j: int, k: int| is_ipv4_split(s, i, j, k);
    assert forall|m: int| 0 <= m < s.len() implies '\0' <= #[trigger] s[m] <= '\u{7f}' by {
        if m == i || m == j || m == k {
        } else if m < i {
            assert(is_digit(s.subrange(0, i)[m]));
        } else if m < j {
            assert(is_digit(s.subrange(i + 1, j)[m - i - 1]));
        } else if m < k {
            assert(is_digit(s.subrange(j + 1, k)[m - j - 1]));
        } else {
            assert(is_digit(s.subrange(k + 1, s.len() as int)[m - k - 1]));
        }
    }
}

/// Three dot positions in increasing order pin down the split of a literal.
proof fn lemma_split_is_dots(s: Seq<char>, i: int, j: int, k: int, d0: int, d1: int, d2: int)
    requires
        is_ipv4_split(s, i, j, k),
        0 <= d0 < d1 < d2 < s.len(),
        s[d0] == '.',
        s[d1] == '.',
        s[d2] == '.',
    ensures
        i == d0,
        j == d1,
        k == d2,
{
}

/// Parse the characters `lo..hi` of an ASCII string as a decimal octet.
fn parse_octet(s: &str, lo: usize, hi: usize) -> (r: Option<u8>)
    requires
        s.is_ascii(),
        lo <= hi <= s@.len(),
    ensures
        ({
            let seg = s@.subrange(lo as int, hi as int);
            &&& (r is Some <==> is_octet_text(seg))
            &&& (r is Some ==> r == Some(octet_val(seg) as u8) && 0 <= octet_val(seg) <= 255)
        }),
{
    let ghost seg = s@.subrange(lo as int, hi as int);
    let len = hi - lo;
    if len == 0 || len > 3 {
        return None;
    }
    let mut value: u32 = 0;
    let mut m: usize = 0;
    while m < len
        invariant
            m <= len,
            1 <= len <= 3,
            len == hi - lo,
            lo <= hi <= s@.len(),
            s.is_ascii(),
            seg == s@.subrange(lo as int, hi as int),
            forall|t: int| 0 <= t < m ==> is_digit(#[trigger] seg[t]),
            value == octet_val(seg.take(m as int)),
            value <= (if m == 0 {
                0int
            } else if m == 1 {
                9int
            } else if m == 2 {
                99int
            } else {
                999int
            }),
        decreases len - m,
    {
        let b = s.get_ascii(lo + m);
        proof {
            assert('\0' <= s@[lo + m] <= '\u{7f}');
            assert(seg[m as int] == s@[lo + m]);
        }
        if b < 48 || b > 57 {
            proof {
                assert(!is_digit(seg[m as int]));
            }
            return None;
        }
        proof {
            assert(is_digit(seg[m as int]));
            assert(digit_val(seg[m as int]) == b - 48);
            assert(seg.take(m + 1).drop_last() =~= seg.take(m as int));
            assert(seg.take(m + 1).last() == seg[m as int]);
        }
        value = value * 10 + ((b - 48) as u32);
        m = m + 1;
    }
    proof {
        assert(seg.take(len as int) =~= seg);
    }
    if len > 1 {
        let b0 = s.get_ascii(lo);
        proof {
            assert('\0' <= s@[lo as int] <= '\u{7f}');
            assert(seg[0] == s@[lo as int]);
        }
        if b0 == 48 {
            proof {
                assert(seg[0] == '0');
            }
            return None;
        }
        proof {
            assert(seg[0] != '0');
        }
    }
    if value > 255 {
        return None;
    }
    Some(value as u8)
}

/// Parse a dotted-quad address literal; `None` exactly on strings that are
/// no such literal.
pub fn parse_ipv4(s: &str) -> (r: Option<IpAddress>)
    ensures
        r is Some <==> is_ipv4_literal(s@),
        is_ipv4_literal(s@) ==> r == Some(ipv4_value(s@)),
{
    broadcast use vstd::string::group_string_axioms;

    if !s.is_ascii() {
        proof {
            if is_ipv4_literal(s@) {
                lemma_ipv4_literal_ascii(s@);
            }
        }
        return None;
    }
    let len = s.unicode_len();

    // Find every dot.
    let mut dots: Vec<usize> = Vec::new();
    let mut m: usize = 0;
    while m < len
        invariant
            m <= len,
            len == s@.len(),
            s.is_ascii(),
            forall|t: int|
                0 <= t < dots@.len() ==> (#[trigger] dots@[t]) < m && s@[dots@[t] as int] == '.',
            forall|t1: int, t2: int| 0 <= t1 < t2 < dots@.len() ==> dots@[t1] < dots@[t2],
            forall|q: int|
                0 <= q < m && #[trigger] s@[q] == '.' ==> exists|t: int|
                    0 <= t < dots@.len() && dots@[t] == q,
        decreases len - m,
    {
        let b = s.get_ascii(m);
        proof {
            assert('\0' <= s@[m as int] <= '\u{7f}');
        }
        if b == 46 {
            proof {
                assert(s@[m as int] == '.');
            }
            let ghost pre = dots@;
            dots.push(m);
            proof {
                assert forall|q: int| 0 <= q < m + 1 && #[trigger] s@[q] == '.' implies exists|
                    t: int,
                |
                    0 <= t < dots@.len() && dots@[t] == q by {
                    if q < m {
                        let t = choose|t: int| 0 <= t < pre.len() && pre[t] == q;
                        assert(dots@[t] == q);
                    } else {
                        assert(dots@[dots@.len() - 1] == q);
                    }
                }
            }
        } else {
            proof {
                assert(s@[m as int] != '.');
            }
        }
        m = m + 1;
    }

    if dots.len() != 3 {
        proof {
            if is_ipv4_literal(s@) {
                let (i, j, k) = choose|i: int, j: int, k: int| is_ipv4_split(s@, i, j, k);
                let ti = choose|t: int| 0 <= t < dots@.len() && dots@[t] == i;
                let tj = choose|t: int| 0 <= t < dots@.len() && dots@[t] == j;
                let tk = choose|t: int| 0 <= t < dots@.len() && dots@[t] == k;
                if dots@.len() < 3 {
                    assert(ti != tj && tj != tk && ti != tk);
                    assert(false);
                } else {
                    assert(dots@[0] < dots@[1] < dots@[2] < dots@[3]);
                    assert(false);
                }
            }
        }
        return None;
    }

    let d0 = dots[0];
    let d1 = dots[1];
    let d2 = dots[2];
    proof {
        assert(d0 < d1 < d2 < len);
    }
    let o1 = parse_octet(s, 0, d0);
    let o2 = parse_octet(s, d0 + 1, d1);
    let o3 = parse_octet(s, d1 + 1, d2);
    let o4 = parse_octet(s, d2 + 1, len);

    proof {
        // The found dots are all the dots: any dot position equals one of
        // the three collected ones.
        assert forall|q: int| 0 <= q < s@.len() && #[trigger] s@[q] == '.' implies q == d0 || q
            == d1 || q == d2 by {
            let t = choose|t: int| 0 <= t < dots@.len() && dots@[t] == q;
            assert(t == 0 || t == 1 || t == 2);
        }
    }

    match (o1, o2, o3, o4) {
        (Some(a), Some(b), Some(c), Some(d)) => {
            proof {
                assert(is_ipv4_split(s@, d0 as int, d1 as int, d2 as int));
                assert(is_ipv4_literal(s@));
                let (i, j, k) = choose|i: int, j: int, k: int| is_ipv4_split(s@, i, j, k);
                lemma_split_is_dots(s@, i, j, k, d0 as int, d1 as int, d2 as int);
            }
            Some(IpAddress::V4 { a, b, c, d })
        },
        _ => {
            proof {
                if is_ipv4_literal(s@) {
                    let (i, j, k) = choose|i: int, j: int, k: int| is_ipv4_split(s@, i, j, k);
                    lemma_split_is_dots(s@, i, j, k, d0 as int, d1 as int, d2 as int);
                    assert(false);
                }
            }
            None
        },
    }
}

pub open spec fn is_hex_digit(c: char) -> bool {
    ('0' <= c && c <= '9') || ('a' <= c && c <= 'f') || ('A' <= c && c <= 'F')
}

pub open spec fn hex_val(c: char) -> int {
    if '0' <= c && c <= '9' {
        c as int - '0' as int
    } else if 'a' <= c && c <= 'f' {
        10 + c as int - 'a' as int
    } else {
        10 + c as int - 'A' as int
    }
}

/// A 16-bit group of a hexadecimal address literal: one to four hex digits.
pub open spec fn is_h16(s: Seq<char>) -> bool {
    &&& 1 <= s.len() <= 4
    &&& (forall|i: int| 0 <= i < s.len() ==> is_hex_digit(#[trigger] s[i]))
}

/// Hexadecimal value of a digit string, most significant first.
pub open spec fn h16_val(s: Seq<char>) -> int
    decreases s.len(),
{
    if s.len() == 0 {
        0
    } else {
        h16_val(s.drop_last()) * 16 + hex_val(s.last())
    }
}

/// The positions of `c` in `s`, in increasing order.
pub open spec fn positions_of(s: Seq<char>, c: char) -> Seq<int>
    decreases s.len(),
{
    if s.len() == 0 {
        Seq::empty()
    } else {
        let rest = positions_of(s.drop_last(), c);
        if s.last() == c {
            rest.push(s.len() - 1)
        } else {
            rest
        }
    }
}

proof fn lemma_positions_of_facts(s: Seq<char>, c: char)
    ensures
        forall|t: int|
            0 <= t < positions_of(s, c).len() ==> 0 <= #[trigger] positions_of(s, c)[t] < s.len()
                && s[positions_of(s, c)[t]] == c,
        forall|t1: int, t2: int|
            0 <= t1 < t2 < positions_of(s, c).len() ==> positions_of(s, c)[t1] < positions_of(
                s,
                c,
            )[t2],
    decreases s.len(),
{
    if s.len() > 0 {
        lemma_positions_of_facts(s.drop_last(), c);
        let rest = positions_of(s.drop_last(), c);
        let cur = positions_of(s, c);
        assert forall|t: int| 0 <= t < cur.len() implies 0 <= #[trigger] cur[t] < s.len()
            && s[cur[t]] == c by {
            if t < rest.len() {
                assert(cur[t] == rest[t]);
                assert(s.drop_last()[rest[t]] == s[rest[t]]);
            }
        }
        assert forall|t1: int, t2: int| 0 <= t1 < t2 < cur.len() implies cur[t1] < cur[t2] by {
            if t2 < rest.len() {
                assert(rest[t1] < rest[t2]);
            } else {
                assert(0 <= cur[t1] < s.len() && s[cur[t1]] == c);
                if t1 < rest.len() {
                    assert(rest[t1] < s.drop_last().len());
                }
            }
        }
    }
}

/// Number of colon-separated segments.
pub open spec fn seg_count(s: Seq<char>) -> int {
    positions_of(s, ':').len() as int + 1
}

/// The `t`-th colon-separated segment of `s`.
pub open spec fn seg_of(s: Seq<char>, t: int) -> Seq<char> {
    let cols = positions_of(s, ':');
    let lo = if t == 0 {
        0int
    } else {
        cols[t - 1] + 1
    };
    let hi = if t == cols.len() {
        s.len() as int
    } else {
        cols[t]
    };
    s.subrange(lo, hi)
}

/// One side of a hexadecimal address literal (before or after the
/// compression): empty, or a colon-separated list of 16-bit groups whose
/// last member may instead be a dotted-quad when `v4_tail` allows it.
pub open spec fn side_ok(s: Seq<char>, v4_tail: bool) -> bool {
    if s.len() == 0 {
        true
    } else {
        let n = seg_count(s);
        &&& (forall|t: int| 0 <= t < n - 1 ==> is_h16(#[trigger] seg_of(s, t)))
        &&& (is_h16(seg_of(s, n - 1)) || (v4_tail && is_ipv4_literal(seg_of(s, n - 1))))
    }
}

/// How many 16-bit groups a side stands for (a dotted-quad tail counts as
/// two).
pub open spec fn side_weight(s: Seq<char>) -> int {
    if s.len() == 0 {
        0
    } else if is_h16(seg_of(s, seg_count(s) - 1)) {
        seg_count(s)
    } else {
        seg_count(s) + 1
    }
}

/// The 16-bit groups a side stands for.
pub open spec fn side_groups(s: Seq<char>) -> Seq<u16> {
    if s.len() == 0 {
        Seq::empty()
    } else {
        let n = seg_count(s);
        let heads = Seq::new((n - 1) as nat, |t: int| h16_val(seg_of(s, t)) as u16);
        let last = seg_of(s, n - 1);
        if is_h16(last) {
            heads.push(h16_val(last) as u16)
        } else {
            match ipv4_value(last) {
                IpAddress::V4 { a, b, c, d } => heads.push(
                    ((a as int) * 256 + (b as int)) as u16,
                ).push(((c as int) * 256 + (d as int)) as u16),
                _ => heads,
            }
        }
    }
}

/// Position of the first occurrence of a double colon, if any.
pub open spec fn first_double_colon(s: Seq<char>) -> Option<int>
    decreases s.len(),
{
    if s.len() < 2 {
        None
    } else if s[0] == ':' && s[1] == ':' {
        Some(0)
    } else {
        match first_double_colon(s.drop_first()) {
            Some(p) => Some(p + 1),
            None => None,
        }
    }
}

proof fn lemma_first_double_colon_facts(s: Seq<char>)
    ensures
        match first_double_colon(s) {
            Some(p) => 0 <= p && p + 1 < s.len() && s[p] == ':' && s[p + 1] == ':' && (forall|
                q: int,
            |
                0 <= q < p ==> !(#[trigger] s[q] == ':' && s[q + 1] == ':')),
            None => forall|q: int|
                0 <= q && q + 1 < s.len() ==> !(#[trigger] s[q] == ':' && s[q + 1] == ':'),
        },
    decreases s.len(),
{
    if s.len() >= 2 && !(s[0] == ':' && s[1] == ':') {
        lemma_first_double_colon_facts(s.drop_first());
        assert forall|q: int| 0 <= q && q + 1 < s.len() implies (#[trigger] s[q] == ':' && s[q + 1]
            == ':') == (q >= 1 && s.drop_first()[q - 1] == ':' && s.drop_first()[q] == ':') by {
            if q >= 1 {
                assert(s.drop_first()[q - 1] == s[q]);
                assert(s.drop_first()[q] == s[q + 1]);
            }
        }
    }
}

/// Parse the characters `lo..hi` of an ASCII string as a 16-bit hex group.
fn parse_h16(s: &str, lo: usize, hi: usize) -> (r: Option<u16>)
    requires
        s.is_ascii(),
        lo <= hi <= s@.len(),
    ensures
        ({
            let seg = s@.subrange(lo as int, hi as int);
            &&& (r is Some <==> is_h16(seg))
            &&& (r is Some ==> r == Some(h16_val(seg) as u16) && 0 <= h16_val(seg) < 0x10000)
        }),
{
    let ghost seg = s@.subrange(lo as int, hi as int);
    let len = hi - lo;
    if len == 0 || len > 4 {
        return None;
    }
    let mut value: u32 = 0;
    let mut m: usize = 0;
    while m < len
        invariant
            m <= len,
            1 <= len <= 4,
            len == hi - lo,
            lo <= hi <= s@.len(),
            s.is_ascii(),
            seg == s@.subrange(lo as int, hi as int),
            forall|t: int| 0 <= t < m ==> is_hex_digit(#[trigger] seg[t]),
            value == h16_val(seg.take(m as int)),
            value <= (if m == 0 {
                0int
            } else if m == 1 {
                15int
            } else if m == 2 {
                255int
            } else if m == 3 {
                4095int
            } else {
                65535int
            }),
        decreases len - m,
    {
        let b = s.get_ascii(lo + m);
        proof {
            assert('\0' <= s@[lo + m] <= '\u{7f}');
            assert(seg[m as int] == s@[lo + m]);
        }
        let digit: u32 = if b >= 48 && b <= 57 {
            (b - 48) as u32
        } else if b >= 97 && b <= 102 {
            (b - 87) as u32
        } else if b >= 65 && b <= 70 {
            (b - 55) as u32
        } else {
            proof {
                assert(!is_hex_digit(seg[m as int]));
            }
            return None;
        };
        proof {
            assert(is_hex_digit(seg[m as int]));
            assert(hex_val(seg[m as int]) == digit);
            assert(seg.take(m + 1).drop_last() =~= seg.take(m as int));
            assert(seg.take(m + 1).last() == seg[m as int]);
        }
        value = value * 16 + digit;
        m = m + 1;
    }
    proof {
        assert(seg.take(len as int) =~= seg);
    }
    Some(value as u16)
}

/// Find the colons among the characters `lo..hi` of an ASCII string.
fn colon_positions_in(s: &str, lo: usize, hi: usize) -> (cols: Vec<usize>)
    requires
        s.is_ascii(),
        lo <= hi <= s@.len(),
    ensures
        ({
            let side = s@.subrange(lo as int, hi as int);
            &&& cols@.map_values(|u: usize| u as int - lo as int) == positions_of(side, ':')
            &&& forall|t: int| 0 <= t < cols@.len() ==> lo <= #[trigger] cols@[t] < hi
        }),
{
    let ghost side = s@.subrange(lo as int, hi as int);
    let mut cols: Vec<usize> = Vec::new();
    let mut m: usize = lo;
    proof {
        assert(side.take(0) =~= Seq::<char>::empty());
    }
    while m < hi
        invariant
            lo <= m <= hi <= s@.len(),
            s.is_ascii(),
            side == s@.subrange(lo as int, hi as int),
            cols@.map_values(|u: usize| u as int - lo as int) == positions_of(
                side.take(m - lo),
                ':',
            ),
            forall|t: int| 0 <= t < cols@.len() ==> lo <= #[trigger] cols@[t] < m,
        decreases hi - m,
    {
        let b = s.get_ascii(m);
        proof {
            assert('\0' <= s@[m as int] <= '\u{7f}');
            assert(side[m - lo] == s@[m as int]);
            assert(side.take(m - lo + 1).drop_last() =~= side.take(m - lo));
            assert(side.take(m - lo + 1).last() == side[m - lo]);
        }
        let ghost pre = cols@;
        let ghost f = |u: usize| u as int - lo as int;
        if b == 58 {
            proof {
                assert(side[m - lo] == ':');
            }
            cols.push(m);
            proof {
                assert(cols@.map_values(f) =~= pre.map_values(f).push(m - lo as int));
            }
        } else {
            proof {
                assert(side[m - lo] != ':');
            }
        }
        m = m + 1;
    }
    proof {
        assert(side.take((hi - lo) as int) =~= side);
    }
    cols
}

/// Parse the characters `lo..hi` of an ASCII string as one side of a
/// hexadecimal address literal, returning its 16-bit groups.
fn parse_side(s: &str, lo: usize, hi: usize, v4_tail: bool) -> (r: Option<Vec<u16>>)
    requires
        s.is_ascii(),
        lo <= hi <= s@.len(),
    ensures
        ({
            let side = s@.subrange(lo as int, hi as int);
            &&& (r is Some <==> side_ok(side, v4_tail))
            &&& (match r {
                Some(groups) => groups@ == side_groups(side) && groups@.len() == side_weight(
                    side,
                ),
                None => true,
            })
        }),
{
    let ghost side = s@.subrange(lo as int, hi as int);
    if lo == hi {
        proof {
            assert(side =~= Seq::<char>::empty());
            assert(side_groups(side) =~= Seq::<u16>::empty());
        }
        let groups: Vec<u16> = Vec::new();
        return Some(groups);
    }

    let cols = colon_positions_in(s, lo, hi);
    let ghost scols = positions_of(side, ':');
    let ghost f = |u: usize| u as int - lo as int;

    let mut groups: Vec<u16> = Vec::new();
    let mut t: usize = 0;
    while t < cols.len()
        invariant
            t <= cols@.len(),
            lo < hi <= s@.len(),
            s.is_ascii(),
            side == s@.subrange(lo as int, hi as int),
            scols == positions_of(side, ':'),
            f == (|u: usize| u as int - lo as int),
            cols@.map_values(f) == scols,
            groups@.len() == t,
            forall|q: int| 0 <= q < t ==> is_h16(#[trigger] seg_of(side, q)),
            forall|q: int| 0 <= q < t ==> groups@[q] == h16_val(seg_of(side, q)) as u16,
        decreases cols@.len() - t,
    {
        proof {
            lemma_positions_of_facts(side, ':');
            assert(scols[t as int] == f(cols@[t as int]));
            if t > 0 {
                assert(scols[t - 1] == f(cols@[t - 1]));
                assert(scols[t - 1] < scols[t as int]);
            }
        }
        let seg_lo = if t == 0 {
            lo
        } else {
            cols[t - 1] + 1
        };
        let seg_hi = cols[t];
        proof {
            assert(seg_of(side, t as int) =~= s@.subrange(seg_lo as int, seg_hi as int));
        }
        match parse_h16(s, seg_lo, seg_hi) {
            Some(v) => {
                groups.push(v);
            },
            None => {
                proof {
                    assert(!is_h16(seg_of(side, t as int)));
                    assert(!side_ok(side, v4_tail));
                }
                return None;
            },
        }
        t = t + 1;
    }

    proof {
        lemma_positions_of_facts(side, ':');
        if cols@.len() > 0 {
            assert(scols[scols.len() - 1] == f(cols@[cols@.len() - 1]));
        }
    }
    let seg_lo = if cols.len() == 0 {
        lo
    } else {
        cols[cols.len() - 1] + 1
    };
    proof {
        assert(seg_of(side, seg_count(side) - 1) =~= s@.subrange(seg_lo as int, hi as int));
    }
    match parse_h16(s, seg_lo, hi) {
        Some(v) => {
            groups.push(v);
            proof {
                assert(groups@ =~= side_groups(side));
            }
            Some(groups)
        },
        None => {
            if v4_tail {
                let sub = s.substring_ascii(seg_lo, hi);
                match parse_ipv4(sub) {
                    Some(IpAddress::V4 { a, b, c, d }) => {
                        groups.push((a as u16) * 256 + (b as u16));
                        groups.push((c as u16) * 256 + (d as u16));
                        proof {
                            assert(!is_h16(seg_of(side, seg_count(side) - 1)));
                            assert(groups@ =~= side_groups(side));
                        }
                        Some(groups)
                    },
                    Some(IpAddress::V6 { .. }) => {
                        proof {
                            assert(false);
                        }
                        None
                    },
                    None => {
                        proof {
                            assert(!side_ok(side, v4_tail));
                        }
                        None
                    },
                }
            } else {
                proof {
                    assert(!side_ok(side, v4_tail));
                }
                None
            }
        },
    }
}

/// The string is a hexadecimal (IPv6) address literal: eight 16-bit groups
/// separated by colons, or fewer around a single `::` that stands for at
/// least one zero group; the final group may instead be a dotted-quad
/// standing for the last two groups.
pub open spec fn is_ipv6_literal(s: Seq<char>) -> bool {
    match first_double_colon(s) {
        Some(p) => side_ok(s.take(p), false) && side_ok(s.skip(p + 2), true) && side_weight(
            s.take(p),
        ) + side_weight(s.skip(p + 2)) <= 7,
        None => s.len() > 0 && side_ok(s, true) && side_weight(s) == 8,
    }
}

/// The eight 16-bit groups a hexadecimal address literal denotes.
pub open spec fn ipv6_groups(s: Seq<char>) -> Seq<u16> {
    match first_double_colon(s) {
        Some(p) => {
            let head = side_groups(s.take(p));
            let tail = side_groups(s.skip(p + 2));
            head + Seq::new((8 - head.len() - tail.len()) as nat, |q: int| 0u16) + tail
        },
        None => side_groups(s),
    }
}

/// The address eight 16-bit groups denote.
pub open spec fn address_of_groups(g: Seq<u16>) -> IpAddress {
    IpAddress::V6 {
        hi: ((g[0] as u64) << 48) | ((g[1] as u64) << 32) | ((g[2] as u64) << 16) | (g[3] as u64),
        lo: ((g[4] as u64) << 48) | ((g[5] as u64) << 32) | ((g[6] as u64) << 16) | (g[7] as u64),
    }
}

/// The address a hexadecimal address literal denotes.
pub open spec fn ipv6_value(s: Seq<char>) -> IpAddress {
    address_of_groups(ipv6_groups(s))
}

/// Every position of a string that holds no colon lies inside one of the
/// colon-separated segments.
proof fn lemma_segment_covering(x: Seq<char>, q: int, j: int)
    requires
        0 <= q < x.len(),
        x[q] != ':',
        0 <= j <= positions_of(x, ':').len(),
        forall|t: int|
            j <= t < positions_of(x, ':').len() ==> q < #[trigger] positions_of(x, ':')[t],
    ensures
        exists|t: int|
            0 <= t < seg_count(x) && (#[trigger] seg_of(x, t)).len() > 0 && (exists|i: int|
                0 <= i < seg_of(x, t).len() && seg_of(x, t)[i] == x[q]),
    decreases j,
{
    let cols = positions_of(x, ':');
    lemma_positions_of_facts(x, ':');
    if j == 0 {
        let hi = if cols.len() == 0 {
            x.len() as int
        } else {
            cols[0]
        };
        assert(seg_of(x, 0)[q] == x[q]);
    } else if cols[j - 1] < q {
        let lo = cols[j - 1] + 1;
        assert(seg_of(x, j)[q - lo] == x[q]);
    } else {
        assert(cols[j - 1] != q);
        lemma_segment_covering(x, q, j - 1);
    }
}

/// Every character of a valid side is ASCII.
proof fn lemma_side_ascii(x: Seq<char>, v4_tail: bool)
    requires
        side_ok(x, v4_tail),
    ensures
        forall|q: int| 0 <= q < x.len() ==> '\0' <= #[trigger] x[q] <= '\u{7f}',
{
    assert forall|q: int| 0 <= q < x.len() implies '\0' <= #[trigger] x[q] <= '\u{7f}' by {
        if x[q] != ':' {
            lemma_positions_of_facts(x, ':');
            lemma_segment_covering(x, q, positions_of(x, ':').len() as int);
            let t = choose|t: int|
                0 <= t < seg_count(x) && (#[trigger] seg_of(x, t)).len() > 0 && (exists|i: int|
                    0 <= i < seg_of(x, t).len() && seg_of(x, t)[i] == x[q]);
            let seg = seg_of(x, t);
            let i = choose|i: int| 0 <= i < seg.len() && seg[i] == x[q];
            if is_h16(seg) {
                assert(is_hex_digit(seg[i]));
            } else {
                assert(is_ipv4_literal(seg));
                lemma_ipv4_literal_ascii(seg);
            }
        }
    }
}

proof fn lemma_ipv6_literal_ascii(s: Seq<char>)
    requires
        is_ipv6_literal(s),
    ensures
        vstd::utf8::is_ascii_chars(s),
{
    lemma_first_double_colon_facts(s);
    match first_double_colon(s) {
        Some(p) => {
            lemma_side_ascii(s.take(p), false);
            lemma_side_ascii(s.skip(p + 2), true);
            assert forall|m: int| 0 <= m < s.len() implies '\0' <= #[trigger] s[m] <= '\u{7f}' by {
                if m < p {
                    assert(s.take(p)[m] == s[m]);
                } else if m >= p + 2 {
                    assert(s.skip(p + 2)[m - p - 2] == s[m]);
                }
            }
        },
        None => {
            lemma_side_ascii(s, true);
        },
    }
}

/// Append `count` zero groups.
fn push_zero_groups(groups: &mut Vec<u16>, count: usize)
    requires
        old(groups)@.len() + count <= usize::MAX,
    ensures
        final(groups)@ == old(groups)@ + Seq::new(count as nat, |q: int| 0u16),
{
    let mut z: usize = 0;
    while z < count
        invariant
            z <= count,
            groups@ == old(groups)@ + Seq::new(z as nat, |q: int| 0u16),
        decreases count - z,
    {
        groups.push(0);
        proof {
            assert(groups@ =~= old(groups)@ + Seq::new((z + 1) as nat, |q: int| 0u16));
        }
        z = z + 1;
    }
}

/// Assemble eight 16-bit groups into an address.
fn groups_to_address(groups: &Vec<u16>) -> (r: IpAddress)
    requires
        groups@.len() == 8,
    ensures
        r == address_of_groups(groups@),
{
    IpAddress::V6 {
        hi: ((groups[0] as u64) << 48) | ((groups[1] as u64) << 32) | ((groups[2] as u64) << 16)
            | (groups[3] as u64),
        lo: ((groups[4] as u64) << 48) | ((groups[5] as u64) << 32) | ((groups[6] as u64) << 16)
            | (groups[7] as u64),
    }
}

/// Parse a hexadecimal (IPv6) address literal; `None` exactly on strings
/// that are no such literal.
pub fn parse_ipv6(s: &str) -> (r: Option<IpAddress>)
    ensures
        r is Some <==> is_ipv6_literal(s@),
        is_ipv6_literal(s@) ==> r == Some(ipv6_value(s@)),
{
    broadcast use vstd::string::group_string_axioms;

    if !s.is_ascii() {
        proof {
            if is_ipv6_literal(s@) {
                lemma_ipv6_literal_ascii(s@);
            }
        }
        return None;
    }
    let len = s.unicode_len();
    proof {
        lemma_first_double_colon_facts(s@);
    }

    // Locate the first double colon, if any.
    let mut found: Option<usize> = None;
    if len >= 1 {
        let mut m: usize = 0;
        while m < len - 1 && found.is_none()
            invariant
                m <= len - 1,
                1 <= len == s@.len(),
                s.is_ascii(),
                match found {
                    Some(p) => 0 <= p < len - 1 && s@[p as int] == ':' && s@[p as int + 1] == ':'
                        && (forall|q: int|
                        0 <= q < p ==> !(#[trigger] s@[q] == ':' && s@[q + 1] == ':')),
                    None => forall|q: int|
                        0 <= q < m ==> !(#[trigger] s@[q] == ':' && s@[q + 1] == ':'),
                },
            decreases len - m,
        {
            let b0 = s.get_ascii(m);
            let b1 = s.get_ascii(m + 1);
            proof {
                assert('\0' <= s@[m as int] <= '\u{7f}');
                assert('\0' <= s@[m + 1] <= '\u{7f}');
            }
            if b0 == 58 && b1 == 58 {
                found = Some(m);
                proof {
                    assert(s@[m as int] == ':' && s@[m + 1] == ':');
                }
            } else {
                proof {
                    assert(!(s@[m as int] == ':' && s@[m + 1] == ':'));
                }
            }
            m = m + 1;
        }
        proof {
            if found is None {
                assert(m == len - 1);
            }
        }
    }

    match found {
        Some(p) => {
            proof {
                assert(first_double_colon(s@) == Some(p as int)) by {
                    match first_double_colon(s@) {
                        Some(fp) => {
                            if fp < p {
                                assert(false);
                            } else if fp > p {
                                assert(!(s@[p as int] == ':' && s@[p + 1] == ':'));
                                assert(false);
                            }
                        },
                        None => {
                            assert(!(s@[p as int] == ':' && s@[p + 1] == ':'));
                            assert(false);
                        },
                    }
                }
            }
            let ghost head_side = s@.take(p as int);
            let ghost tail_side = s@.skip(p + 2);
            proof {
                assert(head_side =~= s@.subrange(0, p as int));
                assert(tail_side =~= s@.subrange(p + 2, len as int));
            }
            let head = parse_side(s, 0, p, false);
            let tail = parse_side(s, p + 2, len, true);
            match (head, tail) {
                (Some(head_groups), Some(tail_groups)) => {
                    if head_groups.len() <= 7 && tail_groups.len() <= 7 - head_groups.len() {
                        let mut groups = head_groups;
                        let zeros = 8 - groups.len() - tail_groups.len();
                        push_zero_groups(&mut groups, zeros);
                        let mut t: usize = 0;
                        let ghost mid = groups@;
                        while t < tail_groups.len()
                            invariant
                                t <= tail_groups@.len(),
                                groups@ == mid + tail_groups@.take(t as int),
                            decreases tail_groups@.len() - t,
                        {
                            groups.push(tail_groups[t]);
                            proof {
                                assert(groups@ =~= mid + tail_groups@.take(t + 1));
                            }
                            t = t + 1;
                        }
                        proof {
                            assert(tail_groups@.take(tail_groups@.len() as int) =~= tail_groups@);
                            assert(groups@ =~= ipv6_groups(s@));
                        }
                        Some(groups_to_address(&groups))
                    } else {
                        None
                    }
                },
                _ => None,
            }
        },
        None => {
            proof {
                assert(first_double_colon(s@) is None) by {
                    match first_double_colon(s@) {
                        Some(fp) => {
                            if len >= 1 {
                                assert(!(s@[fp] == ':' && s@[fp + 1] == ':'));
                            }
                            assert(false);
                        },
                        None => {},
                    }
                }
            }
            if len == 0 {
                return None;
            }
            proof {
                assert(s@.subrange(0, len as int) =~= s@);
            }
            match parse_side(s, 0, len, true) {
                Some(groups) => {
                    if groups.len() == 8 {
                        proof {
                            assert(groups@ =~= ipv6_groups(s@));
                        }
                        Some(groups_to_address(&groups))
                    } else {
                        None
                    }
                },
                None => None,
            }
        },
    }
}

/// Parse an address literal of either family: a dotted quad, else a
/// hexadecimal address.
pub fn parse_ip(s: &str) -> (r: Option<IpAddress>)
    ensures
        r is Some <==> is_ipv4_literal(s@) || is_ipv6_literal(s@),
        is_ipv4_literal(s@) ==> r == Some(ipv4_value(s@)),
        !is_ipv4_literal(s@) && is_ipv6_literal(s@) ==> r == Some(ipv6_value(s@)),
{
    match parse_ipv4(s) {
        Some(address) => Some(address),
        None => parse_ipv6(s),
    }
}

} // verus!
