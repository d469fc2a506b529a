//! Parsing IP literals from text. The query interface accepts addresses as
//! text; parsing is strict: no whitespace trimming, no CIDR suffix, no port.
//!
//! The grammar is the usual one. An IPv4 literal is four decimal octets
//! separated by dots, each of one to three digits, no leading zero, value at
//! most 255, greedily read. An IPv6 literal is up to eight groups of one to
//! four hex digits separated by colons, at most one `::` standing for a run
//! of zero groups, and optionally an embedded IPv4 literal taking the place
//! of the last two groups.

use vstd::prelude::*;

verus! {

/// A parsed address: the 32-bit or 128-bit big-endian numeric form.
#[derive(Clone, Copy, PartialEq, Eq, Structural, Debug)]
pub enum ParsedIp {
    V4(u32),
    V6(u128),
}

pub open spec fn is_digit(b: u8) -> bool {
    0x30 <= b <= 0x39
}

pub open spec fn is_hex_digit(b: u8) -> bool {
    is_digit(b) || (0x61 <= b <= 0x66) || (0x41 <= b <= 0x46)
}

pub open spec fn hex_val(b: u8) -> int {
    if is_digit(b) {
        b - 0x30
    } else if 0x61 <= b <= 0x66 {
        b - 0x61 + 10
    } else {
        b - 0x41 + 10
    }
}

/// Length of the maximal run of decimal digits starting at `pos`.
pub open spec fn dec_run(s: Seq<u8>, pos: int) -> int
    decreases s.len() - pos,
{
    if pos < 0 || pos >= s.len() || !is_digit(s[pos]) {
        0
    } else {
        1 + dec_run(s, pos + 1)
    }
}

/// Length of the maximal run of hex digits starting at `pos`.
pub open spec fn hex_run(s: Seq<u8>, pos: int) -> int
    decreases s.len() - pos,
{
    if pos < 0 || pos >= s.len() || !is_hex_digit(s[pos]) {
        0
    } else {
        1 + hex_run(s, pos + 1)
    }
}

/// Value of the `n` decimal digits at `pos`.
pub open spec fn dec_value(s: Seq<u8>, pos: int, n: int) -> int
    decreases n,
{
    if n <= 0 {
        0
    } else {
        dec_value(s, pos, n - 1) * 10 + (s[pos + n - 1] - 0x30)
    }
}

/// Value of the `n` hex digits at `pos`.
pub open spec fn hex_value(s: Seq<u8>, pos: int, n: int) -> int
    decreases n,
{
    if n <= 0 {
        0
    } else {
        hex_value(s, pos, n - 1) * 16 + hex_val(s[pos + n - 1])
    }
}

/// One IPv4 octet read greedily at `pos`: one to three digits, no leading
/// zero, value at most 255. Yields the value and the position after it.
pub open spec fn spec_octet_at(s: Seq<u8>, pos: int) -> Option<(u32, int)> {
    let n = dec_run(s, pos);
    if n < 1 || n > 3 {
        None
    } else if n > 1 && s[pos] == 0x30 {
        None
    } else if dec_value(s, pos, n) > 255 {
        None
    } else {
        Some((dec_value(s, pos, n) as u32, pos + n))
    }
}

/// An IPv4 literal read at `pos`: four octets separated by dots.
pub open spec fn spec_ipv4_at(s: Seq<u8>, pos: int) -> Option<(u32, int)> {
    match spec_octet_at(s, pos) {
        None => None,
        Some((a, p1)) => if p1 < s.len() && s[p1] == 0x2e {
            match spec_octet_at(s, p1 + 1) {
                None => None,
                Some((b, p2)) => if p2 < s.len() && s[p2] == 0x2e {
                    match spec_octet_at(s, p2 + 1) {
                        None => None,
                        Some((c, p3)) => if p3 < s.len() && s[p3] == 0x2e {
                            match spec_octet_at(s, p3 + 1) {
                                None => None,
                                Some((d, p4)) => Some(
                                    ((a << 24) | (b << 16) | (c << 8) | d, p4),
                                ),
                            }
                        } else {
                            None
                        },
                    }
                } else {
                    None
                },
            }
        } else {
            None
        },
    }
}

/// An entire IPv4 literal.
pub open spec fn spec_parse_ipv4(s: Seq<u8>) -> Option<u32> {
    match spec_ipv4_at(s, 0) {
        Some((v, p)) => if p == s.len() {
            Some(v)
        } else {
            None
        },
        None => None,
    }
}

/// One IPv6 group read greedily at `pos`: one to four hex digits.
pub open spec fn spec_group_at(s: Seq<u8>, pos: int) -> Option<(u16, int)> {
    let n = hex_run(s, pos);
    if n < 1 || n > 4 {
        None
    } else {
        Some((hex_value(s, pos, n) as u16, pos + n))
    }
}

/// A run of colon-separated IPv6 groups, group index `i` up to `limit`
/// slots. A group after the first needs a `:` before it. An embedded IPv4
/// literal may stand where at least two slots are left; it fills two groups
/// and ends the run. Yields the groups, the position after them, and
/// whether an embedded IPv4 literal was read.
pub open spec fn spec_groups(s: Seq<u8>, pos: int, i: int, limit: int) -> (Seq<u16>, int, bool)
    decreases limit - i,
{
    if i >= limit {
        (Seq::<u16>::empty(), pos, false)
    } else {
        let p2 = if i == 0 {
            pos
        } else if pos < s.len() && s[pos] == 0x3a {
            pos + 1
        } else {
            -1
        };
        if p2 < 0 {
            (Seq::<u16>::empty(), pos, false)
        } else if i < limit - 1 && spec_ipv4_at(s, p2) is Some {
            match spec_ipv4_at(s, p2) {
                Some((v, p3)) => (
                    seq![((v >> 16) & 0xffff) as u16, (v & 0xffff) as u16],
                    p3,
                    true,
                ),
                None => (Seq::<u16>::empty(), pos, false),
            }
        } else {
            match spec_group_at(s, p2) {
                None => (Seq::<u16>::empty(), pos, false),
                Some((g, p3)) => {
                    let rest = spec_groups(s, p3, i + 1, limit);
                    (seq![g] + rest.0, rest.1, rest.2)
                },
            }
        }
    }
}

/// Eight 16-bit groups as one 128-bit number, first group most significant.
pub open spec fn spec_groups_to_u128(g: Seq<u16>) -> u128
    recommends
        g.len() == 8,
{
    ((g[0] as u128) << 112) | ((g[1] as u128) << 96) | ((g[2] as u128) << 80) | ((g[3]
        as u128) << 64) | ((g[4] as u128) << 48) | ((g[5] as u128) << 32) | ((g[6] as u128) << 16)
        | (g[7] as u128)
}

/// Group `j` of the full address: head groups first, tail groups aligned to
/// the end, zeros from the `::` in between.
pub open spec fn spec_group8(head: Seq<u16>, tail: Seq<u16>, j: int) -> u16 {
    if j < head.len() {
        head[j]
    } else if j >= 8 - tail.len() {
        tail[j - (8 - tail.len())]
    } else {
        0
    }
}

/// An entire IPv6 literal: head groups, then either all eight groups, or a
/// `::` and tail groups aligned to the end. An embedded IPv4 literal that
/// does not complete the address before a `::` is rejected.
pub open spec fn spec_parse_ipv6(s: Seq<u8>) -> Option<u128> {
    let head = spec_groups(s, 0, 0, 8);
    if head.0.len() == 8 {
        if head.1 == s.len() {
            Some(spec_groups_to_u128(head.0))
        } else {
            None
        }
    } else if head.2 {
        None
    } else if head.1 + 1 < s.len() && s[head.1] == 0x3a && s[head.1 + 1] == 0x3a {
        let tail = spec_groups(s, head.1 + 2, 0, 8 - head.0.len() - 1);
        if tail.1 == s.len() {
            Some(spec_groups_to_u128(Seq::new(8, |j: int| spec_group8(head.0, tail.0, j))))
        } else {
            None
        }
    } else {
        None
    }
}

/// An IP literal: an IPv4 literal, else an IPv6 literal, consuming all of
/// the text either way.
pub open spec fn spec_parse_ip(s: Seq<u8>) -> Option<ParsedIp> {
    match spec_parse_ipv4(s) {
        Some(v) => Some(ParsedIp::V4(v)),
        None => match spec_parse_ipv6(s) {
            Some(v) => Some(ParsedIp::V6(v)),
            None => None,
        },
    }
}

fn is_digit_x(b: u8) -> (r: bool)
    ensures
        r == is_digit(b),
{
    0x30 <= b && b <= 0x39
}

fn is_hex_digit_x(b: u8) -> (r: bool)
    ensures
        r == is_hex_digit(b),
{
    (0x30 <= b && b <= 0x39) || (0x61 <= b && b <= 0x66) || (0x41 <= b && b <= 0x46)
}

fn hex_val_x(b: u8) -> (r: u32)
    requires
        is_hex_digit(b),
    ensures
        r == hex_val(b),
        r <= 15,
{
    if 0x30 <= b && b <= 0x39 {
        (b - 0x30) as u32
    } else if 0x61 <= b && b <= 0x66 {
        (b - 0x61 + 10) as u32
    } else {
        (b - 0x41 + 10) as u32
    }
}

fn dec_run_at(s: &[u8], pos: usize) -> (n: usize)
    requires
        pos <= s@.len(),
    ensures
        n == dec_run(s@, pos as int),
        pos + n <= s@.len(),
        forall|k: int| pos <= k < pos + n ==> is_digit(s@[k]),
    decreases s@.len() - pos,
{
    let len = s.len();
    let mut n: usize = 0;
    while pos + n < len && is_digit_x(*vstd::slice::slice_index_get(s, pos + n))
        invariant
            pos + n <= len,
            len == s@.len(),
            forall|k: int| pos <= k < pos + n ==> is_digit(s@[k]),
        decreases len - pos - n,
    {
        n = n + 1;
    }
    proof {
        lemma_dec_run_value(s@, pos as int, n as int);
    }
    n
}

fn hex_run_at(s: &[u8], pos: usize) -> (n: usize)
    requires
        pos <= s@.len(),
    ensures
        n == hex_run(s@, pos as int),
        pos + n <= s@.len(),
        forall|k: int| pos <= k < pos + n ==> is_hex_digit(s@[k]),
    decreases s@.len() - pos,
{
    let len = s.len();
    let mut n: usize = 0;
    while pos + n < len && is_hex_digit_x(*vstd::slice::slice_index_get(s, pos + n))
        invariant
            pos + n <= len,
            len == s@.len(),
            forall|k: int| pos <= k < pos + n ==> is_hex_digit(s@[k]),
        decreases len - pos - n,
    {
        n = n + 1;
    }
    proof {
        lemma_hex_run_value(s@, pos as int, n as int);
    }
    n
}

proof fn lemma_dec_run_value(s: Seq<u8>, pos: int, n: int)
    requires
        0 <= pos,
        0 <= n,
        pos + n <= s.len(),
        forall|k: int| pos <= k < pos + n ==> is_digit(s[k]),
        pos + n == s.len() || !is_digit(s[pos + n]),
    ensures
        dec_run(s, pos) == n,
    decreases n,
{
    if n > 0 {
        lemma_dec_run_value(s, pos + 1, n - 1);
    }
}

proof fn lemma_hex_run_value(s: Seq<u8>, pos: int, n: int)
    requires
        0 <= pos,
        0 <= n,
        pos + n <= s.len(),
        forall|k: int| pos <= k < pos + n ==> is_hex_digit(s[k]),
        pos + n == s.len() || !is_hex_digit(s[pos + n]),
    ensures
        hex_run(s, pos) == n,
    decreases n,
{
    if n > 0 {
        lemma_hex_run_value(s, pos + 1, n - 1);
    }
}

fn read_octet(s: &[u8], pos: usize) -> (r: Option<(u32, usize)>)
    requires
        pos <= s@.len(),
    ensures
        (r is Some) == (spec_octet_at(s@, pos as int) is Some),
        r matches Some((v, p)) ==> spec_octet_at(s@, pos as int) == Some((v, p as int)) && p
            <= s@.len(),
{
    let len = s.len();
    let n = dec_run_at(s, pos);
    if n < 1 || n > 3 {
        return None;
    }
    let d0 = *vstd::slice::slice_index_get(s, pos);
    if n > 1 && d0 == 0x30 {
        return None;
    }
    proof {
        reveal_with_fuel(dec_value, 4);
    }
    let mut v: u32 = (d0 - 0x30) as u32;
    if n >= 2 {
        let d1 = *vstd::slice::slice_index_get(s, pos + 1);
        v = v * 10 + (d1 - 0x30) as u32;
    }
    if n == 3 {
        let d2 = *vstd::slice::slice_index_get(s, pos + 2);
        v = v * 10 + (d2 - 0x30) as u32;
    }
    proof {
        assert(v == dec_value(s@, pos as int, n as int));
    }
    if v > 255 {
        None
    } else {
        Some((v, pos + n))
    }
}

fn read_ipv4_at(s: &[u8], pos: usize) -> (r: Option<(u32, usize)>)
    requires
        pos <= s@.len(),
    ensures
        (r is Some) == (spec_ipv4_at(s@, pos as int) is Some),
        r matches Some((v, p)) ==> spec_ipv4_at(s@, pos as int) == Some((v, p as int)) && p
            <= s@.len(),
{
    let a = match read_octet(s, pos) {
        Some(x) => x,
        None => {
            return None;
        },
    };
    if !(a.1 < s.len() && *vstd::slice::slice_index_get(s, a.1) == 0x2e) {
        return None;
    }
    let b = match read_octet(s, a.1 + 1) {
        Some(x) => x,
        None => {
            return None;
        },
    };
    if !(b.1 < s.len() && *vstd::slice::slice_index_get(s, b.1) == 0x2e) {
        return None;
    }
    let c = match read_octet(s, b.1 + 1) {
        Some(x) => x,
        None => {
            return None;
        },
    };
    if !(c.1 < s.len() && *vstd::slice::slice_index_get(s, c.1) == 0x2e) {
        return None;
    }
    let d = match read_octet(s, c.1 + 1) {
        Some(x) => x,
        None => {
            return None;
        },
    };
    Some(((a.0 << 24) | (b.0 << 16) | (c.0 << 8) | d.0, d.1))
}

/// Parse an entire IPv4 literal.
pub fn parse_ipv4(s: &[u8]) -> (r: Option<u32>)
    ensures
        r == spec_parse_ipv4(s@),
{
    match read_ipv4_at(s, 0) {
        Some((v, p)) => {
            if p == s.len() {
                Some(v)
            } else {
                None
            }
        },
        None => None,
    }
}

fn read_group(s: &[u8], pos: usize) -> (r: Option<(u16, usize)>)
    requires
        pos <= s@.len(),
    ensures
        (r is Some) == (spec_group_at(s@, pos as int) is Some),
        r matches Some((g, p)) ==> spec_group_at(s@, pos as int) == Some((g, p as int)) && p
            <= s@.len(),
{
    let len = s.len();
    let n = hex_run_at(s, pos);
    if n < 1 || n > 4 {
        return None;
    }
    proof {
        reveal_with_fuel(hex_value, 5);
    }
    let mut v: u32 = hex_val_x(*vstd::slice::slice_index_get(s, pos));
    if n >= 2 {
        v = v * 16 + hex_val_x(*vstd::slice::slice_index_get(s, pos + 1));
    }
    if n >= 3 {
        v = v * 16 + hex_val_x(*vstd::slice::slice_index_get(s, pos + 2));
    }
    if n == 4 {
        v = v * 16 + hex_val_x(*vstd::slice::slice_index_get(s, pos + 3));
    }
    proof {
        assert(v == hex_value(s@, pos as int, n as int));
        assert(v <= 0xffff);
    }
    Some((v as u16, pos + n))
}

fn read_groups(s: &[u8], pos0: usize, limit: usize) -> (r: (Vec<u16>, usize, bool))
    requires
        pos0 <= s@.len(),
        limit <= 8,
    ensures
        r.0@ == spec_groups(s@, pos0 as int, 0, limit as int).0,
        r.1 as int == spec_groups(s@, pos0 as int, 0, limit as int).1,
        r.2 == spec_groups(s@, pos0 as int, 0, limit as int).2,
        r.1 <= s@.len(),
        r.0@.len() <= limit,
{
    let ghost whole = spec_groups(s@, pos0 as int, 0, limit as int);
    let mut groups: Vec<u16> = Vec::new();
    let mut pos: usize = pos0;
    let mut i: usize = 0;
    while i < limit
        invariant
            whole == spec_groups(s@, pos0 as int, 0, limit as int),
            0 <= i <= limit <= 8,
            pos0 <= pos <= s@.len(),
            groups@.len() == i,
            groups@ + spec_groups(s@, pos as int, i as int, limit as int).0 == whole.0,
            spec_groups(s@, pos as int, i as int, limit as int).1 == whole.1,
            spec_groups(s@, pos as int, i as int, limit as int).2 == whole.2,
        decreases limit - i,
    {
        let ghost state = spec_groups(s@, pos as int, i as int, limit as int);
        // The separator: a group after the first needs a `:` before it.
        let mut sep_ok = true;
        let mut p2 = pos;
        if i > 0 {
            if pos < s.len() && *vstd::slice::slice_index_get(s, pos) == 0x3a {
                p2 = pos + 1;
            } else {
                sep_ok = false;
            }
        }
        if !sep_ok {
            proof {
                assert(state.0 =~= Seq::<u16>::empty());
                assert(groups@ + state.0 =~= groups@);
            }
            return (groups, pos, false);
        }
        if i < limit - 1 {
            match read_ipv4_at(s, p2) {
                Some((v, p3)) => {
                    proof {
                        assert(state.0 =~= seq![
                            ((v >> 16) & 0xffff) as u16,
                            (v & 0xffff) as u16,
                        ]);
                        assert(groups@ + state.0 =~= groups@.push(((v >> 16) & 0xffff) as u16).push(
                            (v & 0xffff) as u16,
                        ));
                    }
                    groups.push(((v >> 16) & 0xffff) as u16);
                    groups.push((v & 0xffff) as u16);
                    return (groups, p3, true);
                },
                None => {},
            }
        }
        match read_group(s, p2) {
            Some((g, p3)) => {
                proof {
                    let rest = spec_groups(s@, p3 as int, i + 1, limit as int);
                    assert(state.0 == seq![g] + rest.0);
                    assert(groups@.push(g) + rest.0 =~= groups@ + state.0);
                }
                groups.push(g);
                pos = p3;
                i = i + 1;
            },
            None => {
                proof {
                    assert(state.0 =~= Seq::<u16>::empty());
                    assert(groups@ + state.0 =~= groups@);
                }
                return (groups, pos, false);
            },
        }
    }
    proof {
        let state = spec_groups(s@, pos as int, i as int, limit as int);
        assert(state.0 =~= Seq::<u16>::empty());
        assert(groups@ + state.0 =~= groups@);
    }
    (groups, pos, false)
}

/// Parse an entire IPv6 literal.
pub fn parse_ipv6(s: &[u8]) -> (r: Option<u128>)
    ensures
        r == spec_parse_ipv6(s@),
{
    let len = s.len();
    let (head, hpos, head_v4) = read_groups(s, 0, 8);
    if head.len() == 8 {
        if hpos == len {
            return Some(groups_to_u128_full(&head));
        } else {
            return None;
        }
    }
    if head_v4 {
        return None;
    }
    if !(hpos < len && *vstd::slice::slice_index_get(s, hpos) == 0x3a) {
        return None;
    }
    if !(hpos + 1 < len && *vstd::slice::slice_index_get(s, hpos + 1) == 0x3a) {
        return None;
    }
    let limit = 8 - head.len() - 1;
    let (tail, tpos, _tail_v4) = read_groups(s, hpos + 2, limit);
    if tpos != len {
        return None;
    }
    // Assemble the eight groups: head first, tail aligned to the end.
    let mut full: Vec<u16> = Vec::new();
    let head_len = head.len();
    let tail_len = tail.len();
    let mut j: usize = 0;
    while j < 8
        invariant
            head_len == head@.len() <= 8,
            tail_len == tail@.len() <= 8,
            0 <= j <= 8,
            full@ =~= Seq::new(j as nat, |k: int| spec_group8(head@, tail@, k)),
        decreases 8 - j,
    {
        let g: u16 = if j < head_len {
            head[j]
        } else if j >= 8 - tail_len {
            tail[j - (8 - tail_len)]
        } else {
            0
        };
        full.push(g);
        proof {
            assert(full@ =~= Seq::new((j + 1) as nat, |k: int| spec_group8(head@, tail@, k)));
        }
        j = j + 1;
    }
    Some(groups_to_u128_full(&full))
}

fn groups_to_u128_full(g: &Vec<u16>) -> (r: u128)
    requires
        g@.len() == 8,
    ensures
        r == spec_groups_to_u128(g@),
{
    ((g[0] as u128) << 112) | ((g[1] as u128) << 96) | ((g[2] as u128) << 80) | ((g[3]
        as u128) << 64) | ((g[4] as u128) << 48) | ((g[5] as u128) << 32) | ((g[6] as u128) << 16)
        | (g[7] as u128)
}

/// Parse an IP literal of either family.
pub fn parse_ip(s: &[u8]) -> (r: Option<ParsedIp>)
    ensures
        r == spec_parse_ip(s@),
{
    match parse_ipv4(s) {
        Some(v) => Some(ParsedIp::V4(v)),
        None => match parse_ipv6(s) {
            Some(v) => Some(ParsedIp::V6(v)),
            None => None,
        },
    }
}

} // verus!
