//! Splitting the tab-separated dump into lines and fields, and parsing the
//! decimal AS number field.

use vstd::prelude::*;
use crate::ipparse::{is_digit, dec_value};

verus! {

/// Index of the first occurrence of `sep`, or the length if absent.
pub open spec fn first_sep(s: Seq<u8>, sep: u8) -> int
    decreases s.len(),
{
    if s.len() == 0 {
        0
    } else if s[0] == sep {
        0
    } else {
        1 + first_sep(s.skip(1), sep)
    }
}

pub proof fn lemma_first_sep_bounds(s: Seq<u8>, sep: u8)
    ensures
        0 <= first_sep(s, sep) <= s.len(),
    decreases s.len(),
{
    if s.len() > 0 && s[0] != sep {
        lemma_first_sep_bounds(s.skip(1), sep);
    }
}

proof fn lemma_first_sep_at(s: Seq<u8>, sep: u8, i: int)
    requires
        0 <= i <= s.len(),
        forall|k: int| 0 <= k < i ==> s[k] != sep,
        i == s.len() || s[i] == sep,
    ensures
        first_sep(s, sep) == i,
    decreases s.len(),
{
    if i > 0 {
        assert(s[0] != sep);
        assert forall|k: int| 0 <= k < i - 1 implies s.skip(1)[k] != sep by {
            assert(s.skip(1)[k] == s[k + 1]);
        }
        if i < s.len() {
            assert(s.skip(1)[i - 1] == s[i]);
        }
        lemma_first_sep_at(s.skip(1), sep, i - 1);
    }
}

/// The pieces of `s` between occurrences of `sep`. Always at least one
/// piece; a trailing separator yields a trailing empty piece.
pub open spec fn spec_split(s: Seq<u8>, sep: u8) -> Seq<Seq<u8>>
    decreases s.len(),
    via spec_split_decreases
{
    let i = first_sep(s, sep);
    if i >= s.len() {
        seq![s]
    } else {
        seq![s.take(i)] + spec_split(s.skip(i + 1), sep)
    }
}

#[via_fn]
proof fn spec_split_decreases(s: Seq<u8>, sep: u8) {
    lemma_first_sep_bounds(s, sep);
}

/// Split `s` on `sep`.
pub fn split_bytes(s: &[u8], sep: u8) -> (r: Vec<Vec<u8>>)
    ensures
        r@.map_values(|v: Vec<u8>| v@) == spec_split(s@, sep),
        r@.len() >= 1,
{
    let len = s.len();
    let mut r: Vec<Vec<u8>> = Vec::new();
    let mut start: usize = 0;
    let mut i: usize = 0;
    proof {
        assert(s@.skip(0) =~= s@);
        assert(r@.map_values(|v: Vec<u8>| v@) =~= Seq::<Seq<u8>>::empty());
    }
    while i < len
        invariant
            0 <= start <= i <= len,
            len == s@.len(),
            forall|k: int| start <= k < i ==> s@[k] != sep,
            r@.map_values(|v: Vec<u8>| v@) + spec_split(s@.skip(start as int), sep) =~= spec_split(
                s@,
                sep,
            ),
        decreases len - i,
    {
        if *vstd::slice::slice_index_get(s, i) == sep {
            let piece = vstd::slice::slice_to_vec(vstd::slice::slice_subrange(s, start, i));
            proof {
                let rest = s@.skip(start as int);
                assert forall|k: int| 0 <= k < i - start implies rest[k] != sep by {
                    assert(rest[k] == s@[start + k]);
                }
                assert(rest[i - start] == s@[i as int]);
                lemma_first_sep_at(rest, sep, i - start);
                assert(rest.take(i - start) =~= s@.subrange(start as int, i as int));
                assert(rest.skip(i - start + 1) =~= s@.skip(i + 1));
                assert(spec_split(rest, sep) == seq![s@.subrange(start as int, i as int)]
                    + spec_split(s@.skip(i + 1), sep));
                assert(piece@ == s@.subrange(start as int, i as int));
            }
            let ghost prev = r@.map_values(|v: Vec<u8>| v@);
            r.push(piece);
            proof {
                assert(r@.map_values(|v: Vec<u8>| v@) =~= prev.push(piece@));
                assert(prev.push(piece@) + spec_split(s@.skip(i + 1), sep) =~= prev + (seq![
                    s@.subrange(start as int, i as int),
                ] + spec_split(s@.skip(i + 1), sep)));
            }
            start = i + 1;
        }
        i = i + 1;
    }
    let piece = vstd::slice::slice_to_vec(vstd::slice::slice_subrange(s, start, len));
    proof {
        let rest = s@.skip(start as int);
        assert forall|k: int| 0 <= k < rest.len() implies rest[k] != sep by {
            assert(rest[k] == s@[start + k]);
        }
        lemma_first_sep_at(rest, sep, rest.len() as int);
        assert(spec_split(rest, sep) == seq![rest]);
        assert(piece@ =~= rest);
    }
    let ghost prev = r@.map_values(|v: Vec<u8>| v@);
    r.push(piece);
    proof {
        assert(r@.map_values(|v: Vec<u8>| v@) =~= prev.push(piece@));
        assert(prev.push(piece@) =~= prev + seq![piece@]);
    }
    r
}

pub open spec fn all_digits(s: Seq<u8>) -> bool {
    forall|k: int| 0 <= k < s.len() ==> is_digit(#[trigger] s[k])
}

/// How the AS number field parses: an optional `+`, then one or more
/// decimal digits, value within 32 bits.
pub open spec fn spec_parse_u32(s: Seq<u8>) -> Option<u32> {
    let t = if s.len() > 0 && s[0] == 0x2b {
        s.skip(1)
    } else {
        s
    };
    if t.len() == 0 {
        None
    } else if !all_digits(t) {
        None
    } else if dec_value(t, 0, t.len() as int) > 0xffff_ffff {
        None
    } else {
        Some(dec_value(t, 0, t.len() as int) as u32)
    }
}

proof fn lemma_dec_value_nonneg(s: Seq<u8>, n: int)
    requires
        forall|k: int| 0 <= k < n ==> is_digit(#[trigger] s[k]),
        n <= s.len(),
    ensures
        dec_value(s, 0, n) >= 0,
    decreases n,
{
    if n > 0 {
        lemma_dec_value_nonneg(s, n - 1);
    }
}

/// Parse the decimal AS number field.
pub fn parse_u32_bytes(s: &[u8]) -> (r: Option<u32>)
    ensures
        r == spec_parse_u32(s@),
{
    let len = s.len();
    let mut i: usize = 0;
    if len > 0 && *vstd::slice::slice_index_get(s, 0) == 0x2b {
        i = 1;
    }
    let ghost t = if s@.len() > 0 && s@[0] == 0x2b {
        s@.skip(1)
    } else {
        s@
    };
    let start = i;
    if i == len {
        return None;
    }
    let mut acc: u64 = 0;
    let mut over = false;
    while i < len
        invariant
            0 <= start <= i <= len,
            len == s@.len(),
            start <= 1,
            t == (if s@.len() > 0 && s@[0] == 0x2b { s@.skip(1) } else { s@ }),
            t =~= s@.skip(start as int),
            forall|k: int| start <= k < i ==> is_digit(#[trigger] s@[k]),
            !over ==> acc == dec_value(t, 0, i - start) && acc <= 0xffff_ffff,
            over ==> dec_value(t, 0, i - start) > 0xffff_ffff,
        decreases len - i,
    {
        let b = *vstd::slice::slice_index_get(s, i);
        if !(0x30 <= b && b <= 0x39) {
            proof {
                assert(t.len() == s@.len() - start);
                assert(t[i - start] == s@[i as int]);
                assert(0 <= i - start < t.len());
                assert(!is_digit(t[i - start]));
                assert(!all_digits(t));
                assert(spec_parse_u32(s@) is None);
            }
            return None;
        }
        proof {
            assert(t[i - start] == s@[i as int]);
            assert(forall|k: int| 0 <= k < i - start ==> t[k] == s@[start + k]);
            assert(dec_value(t, 0, i - start + 1) == dec_value(t, 0, i - start) * 10 + (t[i - start]
                - 0x30));
            if over {
                lemma_dec_value_nonneg(t, i - start);
            }
        }
        if !over {
            let d = (b - 0x30) as u64;
            let next = acc * 10 + d;
            if next > 0xffff_ffff {
                over = true;
            } else {
                acc = next;
            }
        }
        i = i + 1;
    }
    proof {
        assert(i - start == t.len());
        assert forall|k: int| 0 <= k < t.len() implies is_digit(#[trigger] t[k]) by {
            assert(t[k] == s@[start + k]);
        }
        assert(all_digits(t));
    }
    if over {
        None
    } else {
        Some(acc as u32)
    }
}

} // verus!
