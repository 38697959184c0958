//! Parsing of decimal numbers and booleans written in ASCII.
use vstd::prelude::*;

verus! {

/// An ASCII decimal digit.
pub open spec fn is_digit(b: u8) -> bool {
    48 <= b <= 57
}

/// The value of a sequence of decimal digits, most significant first.
pub open spec fn decimal_value(s: Seq<u8>) -> nat
    decreases s.len(),
{
    if s.len() == 0 {
        0
    } else {
        decimal_value(s.drop_last()) * 10 + (s.last() - 48) as nat
    }
}

/// The digits of a number, after an optional leading `+`.
pub open spec fn unsigned_digits(s: Seq<u8>) -> Seq<u8> {
    if s.len() > 0 && s[0] == 43 {
        s.drop_first()
    } else {
        s
    }
}

/// The `usize` that `s` spells: an optional `+` and at least one digit,
/// with a value that fits.
pub open spec fn parse_usize_spec(s: Seq<u8>) -> Option<usize> {
    let d = unsigned_digits(s);
    if d.len() > 0 && (forall|i: int| 0 <= i < d.len() ==> is_digit(#[trigger] d[i])) && decimal_value(d)
        <= usize::MAX {
        Some(decimal_value(d) as usize)
    } else {
        None
    }
}

/// The boolean that `s` spells: exactly `true` or `false`.
pub open spec fn parse_bool_spec(s: Seq<u8>) -> Option<bool> {
    if s == seq![116u8, 114, 117, 101] {
        Some(true)
    } else if s == seq![102u8, 97, 108, 115, 101] {
        Some(false)
    } else {
        None
    }
}

/// Appending digits never lowers the value of a number.
proof fn lemma_decimal_value_monotone(s: Seq<u8>, t: Seq<u8>)
    requires
        forall|i: int| 0 <= i < t.len() ==> is_digit(#[trigger] t[i]),
    ensures
        decimal_value(s + t) >= decimal_value(s),
    decreases t.len(),
{
    if t.len() > 0 {
        let t0 = t.drop_last();
        assert((s + t).drop_last() =~= s + t0);
        assert forall|i: int| 0 <= i < t0.len() implies is_digit(#[trigger] t0[i]) by {
            assert(t0[i] == t[i]);
        }
        lemma_decimal_value_monotone(s, t0);
    }
}

/// Parses the bytes `s[lo..hi]` as a `usize`, as `str::parse::<usize>` does.
pub fn parse_usize(s: &[u8], lo: usize, hi: usize) -> (r: Option<usize>)
    requires
        lo <= hi <= s@.len(),
    ensures
        r == parse_usize_spec(s@.subrange(lo as int, hi as int)),
{
    let ghost whole = s@.subrange(lo as int, hi as int);
    let mut start = lo;
    if lo < hi && s[lo] == 43 {
        start = lo + 1;
    }
    let ghost d = s@.subrange(start as int, hi as int);
    proof {
        assert(unsigned_digits(whole) =~= d);
    }
    if start == hi {
        return None;
    }
    let mut acc: usize = 0;
    let mut k = start;
    while k < hi
        invariant
            lo <= start <= k <= hi <= s@.len(),
            d == s@.subrange(start as int, hi as int),
            unsigned_digits(s@.subrange(lo as int, hi as int)) == d,
            forall|i: int| start <= i < k ==> is_digit(#[trigger] s@[i]),
            acc == decimal_value(s@.subrange(start as int, k as int)),
        decreases hi - k,
    {
        let b = s[k];
        if b < 48 || b > 57 {
            proof {
                assert(d[k - start] == b);
                assert(!is_digit(d[k - start]));
            }
            return None;
        }
        let ghost prefix = s@.subrange(start as int, k + 1);
        proof {
            assert(prefix.drop_last() =~= s@.subrange(start as int, k as int));
        }
        let digit = (b - 48) as usize;
        proof {
            assert(prefix.last() == b);
            assert(decimal_value(prefix) == acc * 10 + digit);
        }
        match acc.checked_mul(10) {
            Some(t) => match t.checked_add(digit) {
                Some(v) => {
                    acc = v;
                },
                None => {
                    proof {
                        lemma_none_when_too_large(s@, start as int, k + 1, hi as int, d);
                    }
                    return None;
                },
            },
            None => {
                proof {
                    lemma_none_when_too_large(s@, start as int, k + 1, hi as int, d);
                }
                return None;
            },
        }
        k += 1;
    }
    proof {
        assert(s@.subrange(start as int, hi as int) =~= d);
        assert forall|i: int| 0 <= i < d.len() implies is_digit(#[trigger] d[i]) by {
            assert(d[i] == s@[start + i]);
        }
    }
    Some(acc)
}

/// A number whose first digits already exceed `usize::MAX` does not parse.
proof fn lemma_none_when_too_large(s: Seq<u8>, start: int, k1: int, hi: int, d: Seq<u8>)
    requires
        0 <= start < k1 <= hi <= s.len(),
        d == s.subrange(start, hi),
        decimal_value(s.subrange(start, k1)) > usize::MAX,
    ensures
        !((forall|i: int| 0 <= i < d.len() ==> is_digit(#[trigger] d[i])) && decimal_value(d)
            <= usize::MAX),
{
    if forall|i: int| 0 <= i < d.len() ==> is_digit(#[trigger] d[i]) {
        let t = s.subrange(k1, hi);
        assert forall|i: int| 0 <= i < t.len() implies is_digit(#[trigger] t[i]) by {
            assert(t[i] == d[k1 - start + i]);
        }
        assert(s.subrange(start, k1) + t =~= d);
        lemma_decimal_value_monotone(s.subrange(start, k1), t);
    }
}

/// Parses the bytes `s[lo..hi]` as a boolean, as `str::parse::<bool>` does.
pub fn parse_bool(s: &[u8], lo: usize, hi: usize) -> (r: Option<bool>)
    requires
        lo <= hi <= s@.len(),
    ensures
        r == parse_bool_spec(s@.subrange(lo as int, hi as int)),
{
    let ghost w = s@.subrange(lo as int, hi as int);
    if hi - lo == 4 && s[lo] == 116 && s[lo + 1] == 114 && s[lo + 2] == 117 && s[lo + 3] == 101 {
        assert(w =~= seq![116u8, 114, 117, 101]);
        Some(true)
    } else if hi - lo == 5 && s[lo] == 102 && s[lo + 1] == 97 && s[lo + 2] == 108 && s[lo + 3] == 115
        && s[lo + 4] == 101 {
        assert(w =~= seq![102u8, 97, 108, 115, 101]);
        Some(false)
    } else {
        proof {
            if w == seq![116u8, 114, 117, 101] {
                assert(w.len() == 4);
                assert(w[0] == s@[lo as int] && w[1] == s@[lo + 1] && w[2] == s@[lo + 2] && w[3] == s@[lo + 3]);
            }
            if w == seq![102u8, 97, 108, 115, 101] {
                assert(w.len() == 5);
                assert(w[0] == s@[lo as int] && w[1] == s@[lo + 1] && w[2] == s@[lo + 2] && w[3] == s@[lo + 3] && w[4] == s@[lo + 4]);
            }
        }
        None
    }
}

/// The position of the first byte `b` in `s[lo..]`, or `s.len()` when there is none.
pub open spec fn find_byte_spec(s: Seq<u8>, lo: int, b: u8) -> int
    decreases s.len() - lo,
{
    if lo >= s.len() {
        s.len() as int
    } else if s[lo] == b {
        lo
    } else {
        find_byte_spec(s, lo + 1, b)
    }
}

/// The position of the first byte `b` in `s[lo..]`, or `s.len()` when there is none.
pub fn find_byte(s: &[u8], lo: usize, b: u8) -> (r: usize)
    requires
        lo <= s@.len(),
    ensures
        r == find_byte_spec(s@, lo as int, b),
        lo <= r <= s@.len(),
{
    let mut k = lo;
    while k < s.len()
        invariant
            lo <= k <= s@.len(),
            find_byte_spec(s@, k as int, b) == find_byte_spec(s@, lo as int, b),
        decreases s@.len() - k,
    {
        if s[k] == b {
            return k;
        }
        k += 1;
    }
    k
}

/// `s` begins with the bytes `prefix`.
pub open spec fn has_prefix(s: Seq<u8>, prefix: Seq<u8>) -> bool {
    prefix.len() <= s.len() && s.subrange(0, prefix.len() as int) == prefix
}

/// Whether `s` begins with `prefix`.
pub fn starts_with(s: &[u8], prefix: &[u8]) -> (r: bool)
    ensures
        r == has_prefix(s@, prefix@),
{
    if prefix.len() > s.len() {
        return false;
    }
    let mut k: usize = 0;
    while k < prefix.len()
        invariant
            k <= prefix@.len() <= s@.len(),
            forall|i: int| 0 <= i < k ==> s@[i] == prefix@[i],
        decreases prefix@.len() - k,
    {
        if s[k] != prefix[k] {
            proof {
                assert(s@.subrange(0, prefix@.len() as int)[k as int] != prefix@[k as int]);
            }
            return false;
        }
        k += 1;
    }
    assert(s@.subrange(0, prefix@.len() as int) =~= prefix@);
    true
}

} // verus!
