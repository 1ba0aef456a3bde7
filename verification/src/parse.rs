//! Parsing of numeric command-line values: plain integers, and byte
//! quantities with a case-insensitive size suffix.

use crate::error::Error;
use vstd::prelude::*;
use vstd::string::StringExecFns;
use vstd::string::StringSliceAdditionalSpecFns;

verus! {

/// Whether `b` is an ASCII decimal digit.
pub open spec fn is_digit(b: u8) -> bool {
    48 <= b <= 57
}

/// The value of a string of decimal digits.
pub open spec fn digits_val(s: Seq<u8>) -> int
    decreases s.len(),
{
    if s.len() == 0 {
        0
    } else {
        digits_val(s.drop_last()) * 10 + (s.last() - 48)
    }
}

/// Whether every byte is a decimal digit.
pub open spec fn all_digits(s: Seq<u8>) -> bool {
    forall|i: int| 0 <= i < s.len() ==> is_digit(#[trigger] s[i])
}

/// What parsing an unsigned decimal integer gives: a value for a nonempty
/// digit string (with an optional leading plus sign) that fits, nothing
/// otherwise.
pub open spec fn parse_u64_spec(s: Seq<u8>) -> Option<u64> {
    let t = if s.len() > 0 && s[0] == 43 {
        s.skip(1)
    } else {
        s
    };
    if t.len() >= 1 && all_digits(t) && digits_val(t) <= u64::MAX {
        Some(digits_val(t) as u64)
    } else {
        None
    }
}

/// A digit string's value never shrinks as digits are appended.
proof fn lemma_digits_val_bounds(s: Seq<u8>)
    requires
        all_digits(s),
    ensures
        digits_val(s) >= 0,
        forall|j: int| 0 <= j <= s.len() ==> digits_val(#[trigger] s.take(j)) <= digits_val(s),
    decreases s.len(),
{
    if s.len() > 0 {
        assert(all_digits(s.drop_last())) by {
            assert(forall|i: int| 0 <= i < s.len() - 1 ==> s.drop_last()[i] == #[trigger] s[i]);
        }
        lemma_digits_val_bounds(s.drop_last());
        assert(digits_val(s) >= digits_val(s.drop_last()));
        assert forall|j: int| 0 <= j <= s.len() implies digits_val(#[trigger] s.take(j))
            <= digits_val(s) by {
            if j < s.len() {
                assert(s.take(j) =~= s.drop_last().take(j));
            } else {
                assert(s.take(j) =~= s);
            }
        }
    }
}

/// Parse an unsigned decimal integer, exactly when the bytes are a nonempty
/// digit string (optionally signed with a plus) whose value fits.
pub fn parse_u64(s: &[u8]) -> (r: Option<u64>)
    ensures
        r == parse_u64_spec(s@),
{
    let mut i: usize = 0;
    if s.len() > 0 && s[0] == 43 {
        i = 1;
    }
    let ghost t = if s@.len() > 0 && s@[0] == 43 {
        s@.skip(1)
    } else {
        s@
    };
    if i >= s.len() {
        proof {
            assert(t.len() == 0);
        }
        return None;
    }
    let start = i;
    let mut val: u64 = 0;
    proof {
        assert(t.take(0) =~= Seq::<u8>::empty());
    }
    while i < s.len()
        invariant
            start <= i <= s@.len(),
            start == if s@.len() > 0 && s@[0] == 43 {
                1int
            } else {
                0int
            },
            t == (if s@.len() > 0 && s@[0] == 43 {
                s@.skip(1)
            } else {
                s@
            }),
            all_digits(t.take(i - start)),
            val == digits_val(t.take(i - start)),
        decreases s@.len() - i,
    {
        let b = s[i];
        if b < 48 || b > 57 {
            proof {
                assert(t[i - start] == b);
                assert(!is_digit(t[i - start]));
            }
            return None;
        }
        let d = (b - 48) as u64;
        if val > (u64::MAX - d) / 10 {
            proof {
                let w = t.take(i - start + 1);
                assert(w.drop_last() =~= t.take(i - start));
                assert(w.last() == b);
                assert(digits_val(w) == val * 10 + d);
                assert(val * 10 + d > u64::MAX) by (nonlinear_arith)
                    requires
                        val > (u64::MAX - d) / 10,
                        0 <= d <= 9,
                ;
                assert(all_digits(w)) by {
                    assert(forall|k: int| 0 <= k < w.len() - 1 ==> w[k] == #[trigger] t.take(
                        i - start,
                    )[k]);
                }
                if i - start + 1 < t.len() {
                    if all_digits(t) {
                        lemma_digits_val_bounds(t);
                        assert(digits_val(t.take(i - start + 1)) <= digits_val(t));
                        assert(digits_val(t) > u64::MAX);
                    }
                } else {
                    assert(t.take(i - start + 1) =~= t);
                    assert(digits_val(t) > u64::MAX);
                }
                assert(parse_u64_spec(s@) is None);
            }
            return None;
        }
        proof {
            let w = t.take(i - start + 1);
            assert(w.drop_last() =~= t.take(i - start));
            assert(w.last() == b);
            assert(val * 10 + d <= u64::MAX) by (nonlinear_arith)
                requires
                    val <= (u64::MAX - d) / 10,
                    0 <= d <= 9,
            ;
            assert(all_digits(w)) by {
                assert(forall|k: int| 0 <= k < w.len() - 1 ==> w[k] == #[trigger] t.take(
                    i - start,
                )[k]);
            }
        }
        val = val * 10 + d;
        i += 1;
    }
    proof {
        assert(t.take(i - start) =~= t);
    }
    Some(val)
}

/// Parse a width or height argument; the error names which one was invalid.
pub fn parse_arg_u64(s: &str, height: bool) -> (r: Result<u64, Error>)
    ensures
        ({
            match parse_u64_spec(s.spec_bytes()) {
                Some(v) => r matches Ok(u) && u == v,
                None => r matches Err(e) && (if height {
                    e is ParseHeight
                } else {
                    e is ParseWidth
                }),
            }
        }),
{
    match parse_u64(s.as_bytes()) {
        Some(v) => Ok(v),
        None => {
            if height {
                Err(Error::ParseHeight(String::from_str(s)))
            } else {
                Err(Error::ParseWidth(String::from_str(s)))
            }
        },
    }
}

/// Lowercase an ASCII letter; other bytes stay as they are.
pub open spec fn ascii_lower(b: u8) -> u8 {
    if 65 <= b <= 90 {
        (b + 32) as u8
    } else {
        b
    }
}

/// Whether `b` is ASCII whitespace.
pub open spec fn is_space(b: u8) -> bool {
    b == 32 || (9 <= b <= 13)
}

/// `s` with its leading whitespace removed.
pub open spec fn trim_front(s: Seq<u8>) -> Seq<u8>
    decreases s.len(),
{
    if s.len() > 0 && is_space(s[0]) {
        trim_front(s.skip(1))
    } else {
        s
    }
}

/// `s` with its trailing whitespace removed.
pub open spec fn trim_back(s: Seq<u8>) -> Seq<u8>
    decreases s.len(),
{
    if s.len() > 0 && is_space(s.last()) {
        trim_back(s.drop_last())
    } else {
        s
    }
}

/// The multiplier a lowercased byte-quantity string ends with, and the
/// string with that suffix removed: the longest of "gb", "mb", "kb" and "b"
/// wins, and no suffix means a plain byte count.
pub open spec fn split_suffix(lower: Seq<u8>) -> (Seq<u8>, u64) {
    if lower.len() >= 2 && lower[lower.len() - 2] == 103 && lower[lower.len() - 1] == 98 {
        (lower.take(lower.len() - 2), 0x4000_0000u64)
    } else if lower.len() >= 2 && lower[lower.len() - 2] == 109 && lower[lower.len() - 1] == 98 {
        (lower.take(lower.len() - 2), 0x10_0000u64)
    } else if lower.len() >= 2 && lower[lower.len() - 2] == 107 && lower[lower.len() - 1] == 98 {
        (lower.take(lower.len() - 2), 0x400u64)
    } else if lower.len() >= 1 && lower[lower.len() - 1] == 98 {
        (lower.take(lower.len() - 1), 1u64)
    } else {
        (lower, 1u64)
    }
}

/// What parsing a byte-quantity string gives: the number before the suffix,
/// scaled by the suffix, when the number parses and the product fits.
pub open spec fn parse_byte_string_spec(s: Seq<u8>) -> Option<u64> {
    let lower = Seq::new(s.len(), |i: int| ascii_lower(s[i]));
    let (num_part, mult) = split_suffix(lower);
    match parse_u64_spec(trim_back(trim_front(num_part))) {
        Some(v) => {
            if v * mult <= u64::MAX {
                Some((v * mult) as u64)
            } else {
                None
            }
        },
        None => None,
    }
}

/// Parse a byte-quantity string such as a plain count or one with a "kb",
/// "mb" or "gb" suffix, case-insensitively.
pub fn parse_byte_string(s: &str) -> (r: Result<u64, Error>)
    ensures
        ({
            match parse_byte_string_spec(s.spec_bytes()) {
                Some(v) => r matches Ok(u) && u == v,
                None => r matches Err(e) && e is ParseBuffer,
            }
        }),
{
    let b = s.as_bytes();
    let ghost sb = s.spec_bytes();
    let mut lower: Vec<u8> = Vec::new();
    let mut i: usize = 0;
    while i < b.len()
        invariant
            i <= b@.len(),
            b@ == sb,
            lower@ == Seq::new(i as nat, |j: int| ascii_lower(sb[j])),
        decreases b@.len() - i,
    {
        let c = b[i];
        let lc = if c >= 65 && c <= 90 {
            c + 32
        } else {
            c
        };
        lower.push(lc);
        i += 1;
        proof {
            assert(lower@ =~= Seq::new(i as nat, |j: int| ascii_lower(sb[j])));
        }
    }
    let ghost lseq = Seq::new(sb.len(), |j: int| ascii_lower(sb[j]));
    proof {
        assert(lower@ =~= lseq);
    }
    let n = lower.len();
    let (num_end, mult): (usize, u64) = if n >= 2 && lower[n - 2] == 103 && lower[n - 1] == 98 {
        (n - 2, 0x4000_0000)
    } else if n >= 2 && lower[n - 2] == 109 && lower[n - 1] == 98 {
        (n - 2, 0x10_0000)
    } else if n >= 2 && lower[n - 2] == 107 && lower[n - 1] == 98 {
        (n - 2, 0x400)
    } else if n >= 1 && lower[n - 1] == 98 {
        (n - 1, 1)
    } else {
        (n, 1)
    };
    proof {
        assert(split_suffix(lseq) == (lseq.take(num_end as int), mult));
    }
    let mut lo: usize = 0;
    proof {
        assert(lseq.take(num_end as int).skip(0) =~= lseq.take(num_end as int));
    }
    while lo < num_end && is_space_byte(lower[lo])
        invariant
            lo <= num_end <= lower@.len(),
            lower@ == lseq,
            trim_front(lseq.take(num_end as int)) == trim_front(
                lseq.take(num_end as int).skip(lo as int),
            ),
        decreases num_end - lo,
    {
        proof {
            let part = lseq.take(num_end as int).skip(lo as int);
            assert(part[0] == lseq[lo as int]);
            assert(part.skip(1) =~= lseq.take(num_end as int).skip(lo + 1));
        }
        lo += 1;
    }
    let mut hi: usize = num_end;
    proof {
        assert(lseq.take(num_end as int).skip(lo as int) =~= lseq.subrange(
            lo as int,
            num_end as int,
        ));
    }
    while hi > lo && is_space_byte(lower[hi - 1])
        invariant
            lo <= hi <= num_end <= lower@.len(),
            lower@ == lseq,
            trim_front(lseq.take(num_end as int)) == trim_front(
                lseq.take(num_end as int).skip(lo as int),
            ),
            lo < num_end ==> !is_space(lseq[lo as int]),
            trim_back(lseq.take(num_end as int).skip(lo as int)) == trim_back(
                lseq.subrange(lo as int, hi as int),
            ),
        decreases hi,
    {
        proof {
            let part = lseq.subrange(lo as int, hi as int);
            assert(part.last() == lseq[hi - 1]);
            assert(part.drop_last() =~= lseq.subrange(lo as int, hi - 1));
        }
        hi -= 1;
    }
    let ghost trimmed = trim_back(trim_front(lseq.take(num_end as int)));
    proof {
        let part = lseq.subrange(lo as int, hi as int);
        if lo < hi {
            assert(part.last() == lseq[hi - 1]);
            assert(trim_back(part) == part);
        } else {
            assert(part.len() == 0);
        }
        if lo < num_end {
            assert(lseq.take(num_end as int).skip(lo as int)[0] == lseq[lo as int]);
            assert(trim_front(lseq.take(num_end as int).skip(lo as int)) == lseq.take(
                num_end as int,
            ).skip(lo as int));
            assert(trim_back(lseq.take(num_end as int).skip(lo as int)) == part);
        } else {
            assert(lseq.take(num_end as int).skip(lo as int).len() == 0);
            assert(part.len() == 0);
        }
        assert(trimmed == part);
    }
    let mut num: Vec<u8> = Vec::new();
    crate::bytes::append_range(&mut num, &lower, lo, hi - lo);
    proof {
        assert(num@ =~= lseq.subrange(lo as int, hi as int));
    }
    let v = match parse_u64(num.as_slice()) {
        Some(v) => v,
        None => {
            return Err(Error::ParseBuffer(String::from_str(s)));
        },
    };
    if mult == 1 {
        Ok(v)
    } else if v > u64::MAX / mult {
        proof {
            assert(v * mult > u64::MAX) by (nonlinear_arith)
                requires
                    v > u64::MAX / mult,
                    mult == 0x400 || mult == 0x10_0000 || mult == 0x4000_0000,
            ;
        }
        Err(Error::ParseBuffer(String::from_str(s)))
    } else {
        proof {
            assert(v * mult <= u64::MAX) by (nonlinear_arith)
                requires
                    v <= u64::MAX / mult,
                    mult == 0x400 || mult == 0x10_0000 || mult == 0x4000_0000,
            ;
        }
        Ok(v * mult)
    }
}

/// Whether `b` is ASCII whitespace.
fn is_space_byte(b: u8) -> (r: bool)
    ensures
        r == is_space(b),
{
    b == 32 || (b >= 9 && b <= 13)
}

/// Parse a bit-depth argument: it must be a decimal 8 or 16.
pub fn parse_bit_depth(s: &str) -> (r: Result<u8, Error>)
    ensures
        ({
            match parse_u64_spec(s.spec_bytes()) {
                Some(v) => {
                    if v == 8 || v == 16 {
                        r matches Ok(d) && d == v
                    } else {
                        r matches Err(e) && e is ParseBitDepth
                    }
                },
                None => r matches Err(e) && e is ParseBitDepth,
            }
        }),
{
    match parse_u64(s.as_bytes()) {
        Some(v) => {
            if v == 8 || v == 16 {
                Ok(v as u8)
            } else {
                Err(Error::ParseBitDepth(String::from_str(s)))
            }
        },
        None => Err(Error::ParseBitDepth(String::from_str(s))),
    }
}

/// Parse a color-type argument: a numeric tag, or one of the mnemonic names.
pub fn parse_color_type(s: &str) -> (r: Result<u8, Error>)
    ensures
        r matches Ok(c) ==> crate::color_type::spec_type_exists(c),
        ({
            match parse_u64_spec(s.spec_bytes()) {
                Some(v) => {
                    if v <= 255 && crate::color_type::spec_type_exists(v as u8) {
                        r matches Ok(c) && c == v
                    } else {
                        r matches Err(e) && e is ParseColorType
                    }
                },
                None => {
                    match crate::color_type::spec_type_str_translate(s@) {
                        Some(t) => r matches Ok(c) && c == t,
                        None => r matches Err(e) && e is ParseColorType,
                    }
                },
            }
        }),
{
    match parse_u64(s.as_bytes()) {
        Some(v) => {
            if v <= 255 && crate::color_type::type_exists(v as u8) {
                Ok(v as u8)
            } else {
                Err(Error::ParseColorType(String::from_str(s)))
            }
        },
        None => {
            match crate::color_type::type_str_translate(s) {
                Some(t) => Ok(t),
                None => Err(Error::ParseColorType(String::from_str(s))),
            }
        },
    }
}

} // verus!
