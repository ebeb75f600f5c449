//! Decimal text: writing unsigned integers and reading integers the way `str::parse` does.
use crate::text::{chars_of, push_char};
use vstd::prelude::*;

verus! {

/// `c` is an ASCII decimal digit.
pub open spec fn is_digit(c: char) -> bool {
    '0' <= c && c <= '9'
}

/// The value of an ASCII decimal digit.
pub open spec fn digit_value(c: char) -> int {
    (c as u32) - ('0' as u32)
}

/// Every character of `s` is an ASCII decimal digit.
pub open spec fn all_digits(s: Seq<char>) -> bool {
    forall|i: int| 0 <= i < s.len() ==> is_digit(#[trigger] s[i])
}

/// The number that the digits of `s` denote in base ten.
pub open spec fn digits_value(s: Seq<char>) -> int
    decreases s.len(),
{
    if s.len() == 0 {
        0
    } else {
        digits_value(s.drop_last()) * 10 + digit_value(s.last())
    }
}

/// The number `s` denotes as an optional `+` followed by at least one decimal digit, when that
/// number is at most `max`.
pub open spec fn unsigned_value(s: Seq<char>, max: int) -> Option<int> {
    let d = if s.len() > 0 && s[0] == '+' {
        s.drop_first()
    } else {
        s
    };
    if d.len() > 0 && all_digits(d) && digits_value(d) <= max {
        Some(digits_value(d))
    } else {
        None
    }
}

/// What `s.parse::<i64>()` gives: an optional sign and at least one decimal digit, in range.
pub open spec fn i64_value(s: Seq<char>) -> Option<int> {
    if s.len() > 0 && s[0] == '-' {
        let d = s.drop_first();
        if d.len() > 0 && all_digits(d) && digits_value(d) <= 0x8000_0000_0000_0000 {
            Some(-digits_value(d))
        } else {
            None
        }
    } else {
        unsigned_value(s, i64::MAX as int)
    }
}

/// What `s.parse::<u32>()` gives.
pub open spec fn u32_value(s: Seq<char>) -> Option<int> {
    unsigned_value(s, u32::MAX as int)
}

/// What `s.parse::<usize>()` gives.
pub open spec fn usize_value(s: Seq<char>) -> Option<int> {
    unsigned_value(s, usize::MAX as int)
}

/// The digit character for `d`, below ten.
pub open spec fn digit_char(d: int) -> char {
    if d == 0 {
        '0'
    } else if d == 1 {
        '1'
    } else if d == 2 {
        '2'
    } else if d == 3 {
        '3'
    } else if d == 4 {
        '4'
    } else if d == 5 {
        '5'
    } else if d == 6 {
        '6'
    } else if d == 7 {
        '7'
    } else if d == 8 {
        '8'
    } else {
        '9'
    }
}

/// The decimal representation of `n`, without leading zeros.
pub open spec fn decimal_text(n: nat) -> Seq<char>
    decreases n,
{
    if n < 10 {
        seq![digit_char(n as int)]
    } else {
        decimal_text(n / 10).push(digit_char((n % 10) as int))
    }
}

fn digit_of(d: u64) -> (r: char)
    requires
        d < 10,
    ensures
        r == digit_char(d as int),
{
    if d == 0 {
        '0'
    } else if d == 1 {
        '1'
    } else if d == 2 {
        '2'
    } else if d == 3 {
        '3'
    } else if d == 4 {
        '4'
    } else if d == 5 {
        '5'
    } else if d == 6 {
        '6'
    } else if d == 7 {
        '7'
    } else if d == 8 {
        '8'
    } else {
        '9'
    }
}

/// The decimal text of `n` (its `Display`).
pub fn decimal(n: u64) -> (r: String)
    ensures
        r@ == decimal_text(n as nat),
    decreases n,
{
    if n < 10 {
        let mut s = String::new();
        push_char(&mut s, digit_of(n));
        assert(s@ =~= seq![digit_char(n as int)]);
        s
    } else {
        let mut s = decimal(n / 10);
        push_char(&mut s, digit_of(n % 10));
        s
    }
}

/// The digits of `cs` from `start` on, read in base ten and capped at `cap`; `None` when one is
/// not a digit or there is none.
fn read_digits(cs: &Vec<char>, start: usize, cap: u128) -> (r: Option<u128>)
    requires
        start <= cs@.len(),
        cap <= 0x1_0000_0000_0000_0000,
    ensures
        match r {
            Some(v) => {
                let d = cs@.skip(start as int);
                &&& d.len() > 0
                &&& all_digits(d)
                &&& v == if digits_value(d) < cap {
                    digits_value(d)
                } else {
                    cap as int
                }
            },
            None => {
                let d = cs@.skip(start as int);
                d.len() == 0 || !all_digits(d)
            },
        },
{
    if start == cs.len() {
        return None;
    }
    let ghost all = cs@.skip(start as int);
    let mut acc: u128 = 0;
    let mut i: usize = start;
    while i < cs.len()
        invariant
            start <= i <= cs@.len(),
            all == cs@.skip(start as int),
            cap <= 0x1_0000_0000_0000_0000,
            all_digits(cs@.subrange(start as int, i as int)),
            digits_value(cs@.subrange(start as int, i as int)) >= 0,
            acc == if digits_value(cs@.subrange(start as int, i as int)) < cap {
                digits_value(cs@.subrange(start as int, i as int))
            } else {
                cap as int
            },
        decreases cs@.len() - i,
    {
        let c = cs[i];
        if !('0' <= c && c <= '9') {
            proof {
                assert(all[i - start] == c);
            }
            return None;
        }
        let ghost before = cs@.subrange(start as int, i as int);
        let ghost after = cs@.subrange(start as int, i + 1);
        proof {
            assert(after.drop_last() =~= before);
            assert(after.last() == c);
            assert(all_digits(after)) by {
                assert forall|k: int| 0 <= k < after.len() implies is_digit(#[trigger] after[k]) by {
                    if k < before.len() {
                        assert(after[k] == before[k]);
                    }
                }
            }
        }
        let d = ((c as u32) - ('0' as u32)) as u128;
        acc = if acc >= cap {
            cap
        } else {
            let n = acc * 10 + d;
            if n >= cap {
                cap
            } else {
                n
            }
        };
        i = i + 1;
    }
    assert(cs@.subrange(start as int, i as int) =~= all);
    Some(acc)
}

/// `s.parse::<i64>().ok()`.
pub fn parse_i64(s: &str) -> (r: Option<i64>)
    ensures
        match r {
            Some(v) => i64_value(s@) == Some(v as int),
            None => i64_value(s@) is None,
        },
{
    let cs = chars_of(s);
    proof {
        assert(cs@.skip(0) =~= s@);
        if s@.len() > 0 {
            assert(cs@.skip(1) =~= s@.drop_first());
        }
    }
    if cs.len() > 0 && cs[0] == '-' {
        match read_digits(&cs, 1, 0x8000_0000_0000_0001) {
            Some(v) => if v <= 0x8000_0000_0000_0000 {
                if v == 0x8000_0000_0000_0000 {
                    Some(i64::MIN)
                } else {
                    Some(-(v as i64))
                }
            } else {
                None
            },
            None => None,
        }
    } else {
        let start: usize = if cs.len() > 0 && cs[0] == '+' {
            1
        } else {
            0
        };
        match read_digits(&cs, start, 0x8000_0000_0000_0000) {
            Some(v) => if v <= 0x7fff_ffff_ffff_ffff {
                Some(v as i64)
            } else {
                None
            },
            None => None,
        }
    }
}

/// `s.parse::<u32>().ok()`.
pub fn parse_u32(s: &str) -> (r: Option<u32>)
    ensures
        match r {
            Some(v) => u32_value(s@) == Some(v as int),
            None => u32_value(s@) is None,
        },
{
    let cs = chars_of(s);
    proof {
        assert(cs@.skip(0) =~= s@);
        if s@.len() > 0 {
            assert(cs@.skip(1) =~= s@.drop_first());
        }
    }
    let start: usize = if cs.len() > 0 && cs[0] == '+' {
        1
    } else {
        0
    };
    match read_digits(&cs, start, 0x1_0000_0000) {
        Some(v) => if v <= 0xffff_ffff {
            Some(v as u32)
        } else {
            None
        },
        None => None,
    }
}

/// `s.parse::<usize>().ok()`.
pub fn parse_usize(s: &str) -> (r: Option<usize>)
    ensures
        match r {
            Some(v) => usize_value(s@) == Some(v as int),
            None => usize_value(s@) is None,
        },
{
    let cs = chars_of(s);
    proof {
        assert(cs@.skip(0) =~= s@);
        if s@.len() > 0 {
            assert(cs@.skip(1) =~= s@.drop_first());
        }
    }
    let start: usize = if cs.len() > 0 && cs[0] == '+' {
        1
    } else {
        0
    };
    let cap: u128 = usize::MAX as u128 + 1;
    match read_digits(&cs, start, cap) {
        Some(v) => if v <= usize::MAX as u128 {
            Some(v as usize)
        } else {
            None
        },
        None => None,
    }
}

} // verus!
