//! Parsing of squawk-code entries: a decimal number, or a half-open
//! range written `low-high`, with any trailing dots ignored.  The
//! contracts speak of the UTF-8 bytes of the input text; every byte an
//! accepted input may hold is ASCII.

use vstd::prelude::*;
use vstd::string::StringSliceAdditionalSpecFns;

verus! {

/// The byte of the character `0`.
pub const DIGIT_ZERO_BYTE: u8 = 0x30;

/// The byte of the character `9`.
pub const DIGIT_NINE_BYTE: u8 = 0x39;

/// The byte of the range separator `-`.
pub const DASH_BYTE: u8 = 0x2d;

/// The byte of the trailing-dot character `.`.
pub const DOT_BYTE: u8 = 0x2e;

/// A decimal digit byte.
pub open spec fn is_digit_byte(b: u8) -> bool {
    DIGIT_ZERO_BYTE <= b <= DIGIT_NINE_BYTE
}

/// Value of a run of decimal digit bytes.
pub open spec fn spec_digits_value(s: Seq<u8>) -> int
    decreases s.len(),
{
    if s.len() == 0 {
        0
    } else {
        spec_digits_value(s.drop_last()) * 10 + (s.last() - DIGIT_ZERO_BYTE)
    }
}

/// `s` with every trailing dot removed.
pub open spec fn spec_trim_dots(s: Seq<u8>) -> Seq<u8>
    decreases s.len(),
{
    if s.len() > 0 && s.last() == DOT_BYTE {
        spec_trim_dots(s.drop_last())
    } else {
        s
    }
}

/// Index of the first dash in `s`, or -1 if there is none.
pub open spec fn spec_dash_pos(s: Seq<u8>) -> int
    decreases s.len(),
{
    if s.len() == 0 {
        -1
    } else if s[0] == DASH_BYTE {
        0
    } else if spec_dash_pos(s.skip(1)) == -1 {
        -1
    } else {
        spec_dash_pos(s.skip(1)) + 1
    }
}

/// A non-empty run of digits whose value fits an `i32`.
pub open spec fn spec_number(s: Seq<u8>) -> bool {
    &&& s.len() > 0
    &&& forall|i: int| 0 <= i < s.len() ==> is_digit_byte(#[trigger] s[i])
    &&& spec_digits_value(s) <= i32::MAX as int
}

/// What `parse_number` accepts: after trailing dots are trimmed,
/// either one number, or two numbers around the first dash.
pub open spec fn spec_valid_input(s: Seq<u8>) -> bool {
    let t = spec_trim_dots(s);
    let p = spec_dash_pos(t);
    if p == -1 {
        spec_number(t)
    } else {
        spec_number(t.take(p)) && spec_number(t.skip(p + 1))
    }
}

/// What `parse_number` returns: the single number, or the half-open
/// run of numbers from the one before the dash up to, and excluding,
/// the one after it (empty when the first is not below the second).
pub open spec fn spec_numbers(s: Seq<u8>) -> Seq<i32> {
    let t = spec_trim_dots(s);
    let p = spec_dash_pos(t);
    if p == -1 {
        seq![spec_digits_value(t) as i32]
    } else {
        let lo = spec_digits_value(t.take(p));
        let hi = spec_digits_value(t.skip(p + 1));
        Seq::new(
            if hi >= lo {
                (hi - lo) as nat
            } else {
                0
            },
            |i: int| (lo + i) as i32,
        )
    }
}

/// The value of a run of digits is non-negative.
proof fn lemma_digits_value_nonneg(s: Seq<u8>)
    requires
        forall|i: int| 0 <= i < s.len() ==> is_digit_byte(#[trigger] s[i]),
    ensures
        spec_digits_value(s) >= 0,
    decreases s.len(),
{
    if s.len() > 0 {
        lemma_digits_value_nonneg(s.drop_last());
    }
}

/// The value of a prefix of a run of digits never exceeds the value
/// of the whole run, and is never negative.
proof fn lemma_digits_value_take(s: Seq<u8>, k: int)
    requires
        forall|i: int| 0 <= i < s.len() ==> is_digit_byte(#[trigger] s[i]),
        0 <= k <= s.len(),
    ensures
        0 <= spec_digits_value(s.take(k)) <= spec_digits_value(s),
    decreases s.len() - k,
{
    lemma_digits_value_nonneg(s.take(k));
    if k == s.len() {
        assert(s.take(k) =~= s);
    } else {
        lemma_digits_value_take(s, k + 1);
        assert(s.take(k + 1).drop_last() =~= s.take(k));
    }
}

/// Where `spec_dash_pos` points: at the first dash if there is one.
proof fn lemma_dash_pos_bounds(s: Seq<u8>)
    ensures
        spec_dash_pos(s) == -1 ==> (forall|i: int| 0 <= i < s.len() ==> s[i] != DASH_BYTE),
        spec_dash_pos(s) != -1 ==> 0 <= spec_dash_pos(s) < s.len() && s[spec_dash_pos(s)]
            == DASH_BYTE && (forall|i: int| 0 <= i < spec_dash_pos(s) ==> s[i] != DASH_BYTE),
    decreases s.len(),
{
    if s.len() > 0 && s[0] != DASH_BYTE {
        let tail = s.skip(1);
        lemma_dash_pos_bounds(tail);
        let q = spec_dash_pos(tail);
        if q == -1 {
            assert forall|i: int| 0 <= i < s.len() implies s[i] != DASH_BYTE by {
                if i >= 1 {
                    assert(tail[i - 1] != DASH_BYTE);
                }
            }
        } else {
            assert(s[q + 1] == tail[q]);
            assert forall|i: int| 0 <= i < q + 1 implies s[i] != DASH_BYTE by {
                if i >= 1 {
                    assert(tail[i - 1] != DASH_BYTE);
                }
            }
        }
    }
}

/// Digits between `from` and `to` read as a decimal value.
fn parse_digits(bytes: &[u8], from: usize, to: usize) -> (v: i32)
    requires
        from <= to <= bytes@.len(),
        spec_number(bytes@.subrange(from as int, to as int)),
    ensures
        v == spec_digits_value(bytes@.subrange(from as int, to as int)),
{
    let ghost seg = bytes@.subrange(from as int, to as int);
    let mut v: i32 = 0;
    let mut i: usize = from;
    proof {
        assert(seg.take(0) =~= Seq::<u8>::empty());
    }
    while i < to
        invariant
            from <= i <= to <= bytes@.len(),
            seg == bytes@.subrange(from as int, to as int),
            spec_number(seg),
            v == spec_digits_value(seg.take(i - from)),
        decreases to - i,
    {
        proof {
            lemma_digits_value_take(seg, i - from);
            lemma_digits_value_take(seg, i - from + 1);
            assert(seg.take(i - from + 1).drop_last() =~= seg.take(i - from));
            assert(seg.take(i - from + 1).last() == seg[i - from]);
            assert(seg[i - from] == bytes@[i as int]);
        }
        let d = bytes[i];
        v = v * 10 + ((d - DIGIT_ZERO_BYTE) as i32);
        i = i + 1;
    }
    proof {
        assert(seg.take(to - from) =~= seg);
    }
    v
}

/// Parse a squawk-code entry: one decimal number yields that number,
/// and `low-high` yields every number from `low` up to, excluding,
/// `high`.  Trailing dots are ignored.
pub fn parse_number(s: &str) -> (r: Vec<i32>)
    requires
        spec_valid_input(s.spec_bytes()),
    ensures
        r@ == spec_numbers(s.spec_bytes()),
{
    let bytes: &[u8] = s.as_bytes();
    let ghost t = spec_trim_dots(bytes@);
    let ghost p = spec_dash_pos(t);
    proof {
        lemma_dash_pos_bounds(t);
    }

    let mut end: usize = bytes.len();
    proof {
        assert(bytes@.take(end as int) =~= bytes@);
    }
    while end > 0 && bytes[end - 1] == DOT_BYTE
        invariant
            end <= bytes@.len(),
            t == spec_trim_dots(bytes@.take(end as int)),
        decreases end,
    {
        proof {
            assert(bytes@.take(end as int).drop_last() =~= bytes@.take(end as int - 1));
        }
        end = end - 1;
    }
    proof {
        if end == 0 {
            assert(bytes@.take(0) =~= Seq::<u8>::empty());
        }
        assert(t == bytes@.take(end as int));
    }

    let mut dash: usize = end;
    let mut i: usize = 0;
    while i < end
        invariant
            i <= end <= bytes@.len(),
            t == bytes@.take(end as int),
            dash == end || (dash < i && bytes@[dash as int] == DASH_BYTE && (forall|j: int|
                0 <= j < dash ==> t[j] != DASH_BYTE)),
            dash == end ==> (forall|j: int| 0 <= j < i ==> t[j] != DASH_BYTE),
        decreases end - i,
    {
        if dash == end && bytes[i] == DASH_BYTE {
            dash = i;
        }
        i = i + 1;
    }

    if dash == end {
        proof {
            assert(p == -1);
            assert(t =~= bytes@.subrange(0, end as int));
        }
        let v = parse_digits(bytes, 0, end);
        let mut out: Vec<i32> = Vec::new();
        out.push(v);
        proof {
            assert(out@ =~= spec_numbers(bytes@));
        }
        out
    } else {
        proof {
            assert(t[dash as int] == DASH_BYTE);
            assert(p == dash);
            assert(t.take(p) =~= bytes@.subrange(0, dash as int));
            assert(t.skip(p + 1) =~= bytes@.subrange(dash as int + 1, end as int));
        }
        let lo = parse_digits(bytes, 0, dash);
        let hi = parse_digits(bytes, dash + 1, end);
        let ghost bound: i32 = if hi >= lo {
            hi
        } else {
            lo
        };
        let mut out: Vec<i32> = Vec::new();
        let mut v: i32 = lo;
        while v < hi
            invariant
                lo <= v <= bound,
                bound == (if hi >= lo {
                    hi
                } else {
                    lo
                }),
                out@.len() == v - lo,
                forall|j: int| 0 <= j < out@.len() ==> out@[j] == lo + j,
            decreases hi - v,
        {
            out.push(v);
            v = v + 1;
        }
        proof {
            assert(out@ =~= spec_numbers(bytes@));
        }
        out
    }
}

} // verus!
