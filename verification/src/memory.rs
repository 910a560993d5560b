//! A cap on the process's address space, so a runaway in the linked compiler
//! aborts at a ceiling instead of exhausting the machine.
//!
//! The dusk front end is young and can loop or allocate without bound on some
//! inputs. Vesper guards the buffer shapes it can see before they reach the
//! parser, but this is the last line behind that guard. If any pass ever climbs
//! past the cap, the allocator fails and the process aborts, which restarts one
//! server rather than taking the machine into swap. The cap is generous, far
//! above any real workspace. Move it with `VESPER_MEMORY_CAP_MB`, or set that to
//! `0` to lift it.

use vstd::prelude::*;
#[allow(unused_imports)]
use vstd::std_specs::iter::IteratorSpec;

verus! {

/// The cap where the setting names none, in mebibytes.
pub const DEFAULT_CAP_MB: u64 = 8192;

/// The bytes in a mebibyte.
pub const MEBIBYTE: u64 = 1048576;

/// Whether a text is one or more decimal digits.
pub open spec fn all_digits(s: Seq<char>) -> bool {
    s.len() > 0 && forall|i: int| 0 <= i < s.len() ==> '0' <= #[trigger] s[i] && s[i] <= '9'
}

/// The number the first `k` characters write in decimal.
pub open spec fn digits_value(s: Seq<char>, k: int) -> nat
    decreases k,
{
    if k <= 0 {
        0
    } else {
        digits_value(s, k - 1) * 10 + ((s[k - 1] as int - '0' as int) as nat)
    }
}

/// The number a setting writes: decimal digits behind an optional plus sign. One
/// that holds anything else, or more than 64 bits, writes none.
pub open spec fn number_in(s: Seq<char>) -> Option<u64> {
    let digits = if s.len() > 0 && s[0] == '+' {
        s.skip(1)
    } else {
        s
    };
    if all_digits(digits) && digits_value(digits, digits.len() as int) <= u64::MAX {
        Some(digits_value(digits, digits.len() as int) as u64)
    } else {
        None
    }
}

/// More digits never write a smaller number.
proof fn lemma_digits_grow(s: Seq<char>, j: int, k: int)
    requires
        0 <= j <= k <= s.len(),
    ensures
        digits_value(s, j) <= digits_value(s, k),
    decreases k - j,
{
    if j < k {
        lemma_digits_grow(s, j, k - 1);
    }
}

/// The number a setting writes.
pub fn parse_number(text: &str) -> (number: Option<u64>)
    ensures
        number == number_in(text@),
{
    let ghost s = text@;
    let mut it = text.chars();
    let ghost mut k: int = 0;
    let mut value: u64 = 0;
    let mut any: bool = false;
    let mut first: bool = true;
    let ghost signed: int = if s.len() > 0 && s[0] == '+' {
        1
    } else {
        0
    };
    let ghost digits = if signed == 1 {
        s.skip(1)
    } else {
        s
    };
    assert(s.skip(0) =~= s);
    loop
        invariant_except_break
            it.remaining() == s.skip(k),
        invariant
            s == text@,
            signed == if s.len() > 0 && s[0] == '+' {
                1int
            } else {
                0int
            },
            digits == if signed == 1 {
                s.skip(1)
            } else {
                s
            },
            0 <= k <= s.len(),
            first == (k == 0),
            any == (k > signed),
            k > 0 ==> k >= signed,
            forall|i: int|
                0 <= i < k - signed ==> '0' <= #[trigger] digits[i] && digits[i] <= '9',
            k >= signed ==> value == digits_value(digits, k - signed),
            k < signed ==> value == 0,
        ensures
            k == s.len(),
        decreases s.len() - k,
    {
        match it.next() {
            Some(c) => {
                proof {
                    assert(c == s[k]);
                    assert(s.skip(k).drop_first() =~= s.skip(k + 1));
                }
                if first && c == '+' {
                    proof {
                        k = k + 1;
                    }
                } else {
                    assert(c == digits[k - signed]);
                    if c < '0' || c > '9' {
                        return None;
                    }
                    let digit: u64 = (c as u64) - 48;
                    proof {
                        assert(digits_value(digits, k - signed + 1) == value * 10 + digit);
                        lemma_digits_grow(digits, k - signed + 1, digits.len() as int);
                    }
                    if value > (u64::MAX - digit) / 10 {
                        return None;
                    }
                    value = value * 10 + digit;
                    any = true;
                    proof {
                        k = k + 1;
                    }
                }
                first = false;
            },
            None => {
                break;
            },
        }
    }
    if any {
        Some(value)
    } else {
        None
    }
}

/// The cap a setting asks for, in mebibytes.
pub open spec fn cap_of(setting: Option<Seq<char>>) -> u64 {
    match setting {
        Some(text) => match number_in(text) {
            Some(n) => n,
            None => DEFAULT_CAP_MB,
        },
        None => DEFAULT_CAP_MB,
    }
}

/// The cap in bytes that a setting comes to, as far as 64 bits and the hard limit
/// the system already enforces let it go. None where the cap is lifted.
pub open spec fn target_of(setting: Option<Seq<char>>, hard: Option<u64>) -> Option<u64> {
    let cap_mb = cap_of(setting);
    if cap_mb == 0 {
        None
    } else {
        let cap = if cap_mb * MEBIBYTE <= u64::MAX {
            (cap_mb * MEBIBYTE) as u64
        } else {
            u64::MAX
        };
        match hard {
            Some(most) => if cap <= most {
                Some(cap)
            } else {
                Some(most)
            },
            None => Some(cap),
        }
    }
}

/// The soft limit to set, given the limits in force: the target, where that lowers
/// the soft limit, and none where the cap is lifted or the soft limit is already at
/// or below the target.
pub open spec fn soft_limit(
    setting: Option<Seq<char>>,
    soft: Option<u64>,
    hard: Option<u64>,
) -> Option<u64> {
    match (target_of(setting, hard), soft) {
        (Some(target), Some(now)) => if target < now {
            Some(target)
        } else {
            None
        },
        (target, None) => target,
        (None, _) => None,
    }
}

/// The soft limit to cap the address space at, from the setting and the soft and
/// hard limits in force, each where there is one. The soft limit is only ever
/// lowered, and never set above the hard limit. Nothing where the cap is lifted or
/// the soft limit is low enough as it is.
pub fn install_memory_backstop(setting: Option<&str>, soft: Option<u64>, hard: Option<u64>) -> (limit:
    Option<u64>)
    ensures
        limit == soft_limit(
            match setting {
                Some(text) => Some(text@),
                None => None,
            },
            soft,
            hard,
        ),
        limit matches Some(l) ==> (hard matches Some(most) ==> l <= most),
        limit matches Some(l) ==> (soft matches Some(now) ==> l < now),
{
    let cap_mb: u64 = match setting {
        Some(text) => match parse_number(text) {
            Some(n) => n,
            None => DEFAULT_CAP_MB,
        },
        None => DEFAULT_CAP_MB,
    };
    if cap_mb == 0 {
        return None;
    }
    let cap: u64 = match cap_mb.checked_mul(MEBIBYTE) {
        Some(bytes) => bytes,
        None => u64::MAX,
    };
    let target: u64 = match hard {
        Some(most) => if cap <= most {
            cap
        } else {
            most
        },
        None => cap,
    };
    match soft {
        Some(now) => if target < now {
            Some(target)
        } else {
            None
        },
        None => Some(target),
    }
}

/// The soft limit in force once the backstop is installed.
pub open spec fn limit_after(
    setting: Option<Seq<char>>,
    soft: Option<u64>,
    hard: Option<u64>,
) -> Option<u64> {
    match soft_limit(setting, soft, hard) {
        Some(limit) => Some(limit),
        None => soft,
    }
}

/// The soft limit is only ever lowered, never above the hard limit the system
/// already enforces, and one at or below the target stays as it is.
pub proof fn law_the_soft_limit_is_only_lowered(
    setting: Option<Seq<char>>,
    soft: Option<u64>,
    hard: Option<u64>,
)
    ensures
        soft matches Some(now) ==> (limit_after(setting, soft, hard) matches Some(after) && after
            <= now),
        soft_limit(setting, soft, hard) matches Some(limit) ==> (hard matches Some(most) ==> limit
            <= most),
        soft matches Some(now) ==> (target_of(setting, hard) matches Some(target) ==> now <= target
            ==> limit_after(setting, soft, hard) == soft),
{
}

/// Unless the cap is lifted, the soft limit ends up at or below it.
pub proof fn law_the_cap_holds(
    setting: Option<Seq<char>>,
    soft: Option<u64>,
    hard: Option<u64>,
)
    ensures
        target_of(setting, hard) matches Some(target) ==> (limit_after(setting, soft, hard)
            matches Some(after) && after <= target),
{
}

/// Zero lifts the cap, and nothing else does.
pub proof fn law_only_zero_lifts_the_cap(setting: Option<Seq<char>>, hard: Option<u64>)
    ensures
        target_of(setting, hard) is None <==> setting is Some && number_in(setting->0) == Some(
            0u64,
        ),
{
}

proof fn lemma_digits_worth(s: Seq<char>, k: int)
    requires
        0 <= k <= s.len(),
        forall|i: int| 0 <= i < k ==> '0' <= #[trigger] s[i] && s[i] <= '9',
    ensures
        digits_value(s, k) == s.take(k).fold_left(
            0int,
            |sum: int, c: char| sum * 10 + (c as int - '0' as int),
        ),
    decreases k,
{
    if k > 0 {
        lemma_digits_worth(s, k - 1);
        assert(s.take(k).drop_last() =~= s.take(k - 1));
        assert(s.take(k).last() == s[k - 1]);
    }
}

/// What decimal digits are worth.
pub open spec fn worth(digits: Seq<char>) -> int {
    digits.fold_left(0int, |sum: int, c: char| sum * 10 + (c as int - '0' as int))
}

/// A setting writes a number exactly where it is decimal digits, at least one, that
/// are worth it, alone or behind one plus sign, and the number fits 64 bits.
pub proof fn law_a_setting_writes_its_digits(s: Seq<char>, n: u64)
    ensures
        number_in(s) == Some(n) <==> exists|digits: Seq<char>|
            #![trigger worth(digits)]
            (s == digits || s == seq!['+'] + digits) && digits.len() > 0 && (forall|i: int|
                0 <= i < digits.len() ==> '0' <= #[trigger] digits[i] && digits[i] <= '9')
                && worth(digits) == n,
{
    let digits = if s.len() > 0 && s[0] == '+' {
        s.skip(1)
    } else {
        s
    };
    if all_digits(digits) {
        lemma_digits_worth(digits, digits.len() as int);
        assert(digits.take(digits.len() as int) =~= digits);
        assert(worth(digits) == digits_value(digits, digits.len() as int));
    }
    if number_in(s) == Some(n) {
        if s.len() > 0 && s[0] == '+' {
            assert(s =~= seq!['+'] + digits);
        }
        assert(worth(digits) == n);
    }
    if exists|d: Seq<char>|
        #![trigger worth(d)]
        (s == d || s == seq!['+'] + d) && d.len() > 0 && (forall|i: int|
            0 <= i < d.len() ==> '0' <= #[trigger] d[i] && d[i] <= '9') && worth(d) == n {
        let d = choose|d: Seq<char>|
            #![trigger worth(d)]
            (s == d || s == seq!['+'] + d) && d.len() > 0 && (forall|i: int|
                0 <= i < d.len() ==> '0' <= #[trigger] d[i] && d[i] <= '9') && worth(d) == n;
        assert('0' <= d[0]);
        if s == d {
            assert(digits == d);
        } else {
            assert(digits =~= d);
        }
    }
}

/// The target is the least of the cap in bytes, the largest 64 bit number and the
/// hard limit, where the cap is the setting's number of mebibytes, and 8192 of them
/// where it writes none.
pub proof fn law_the_target_is_the_least_bound(setting: Option<Seq<char>>, hard: Option<u64>)
    ensures
        ({
            let cap = if setting is Some && number_in(setting->0) is Some {
                number_in(setting->0)->0 * 1048576
            } else {
                8589934592int
            };
            match target_of(setting, hard) {
                Some(target) => {
                    &&& cap > 0
                    &&& target <= cap
                    &&& hard is Some ==> target <= hard->0
                    &&& target == cap || target == 0xffff_ffff_ffff_ffff || hard == Some(target)
                },
                None => cap == 0,
            }
        }),
{
}

/// The limit set is the target itself, exactly where there is a target and no soft
/// limit, or one above the target, is in force.
pub proof fn law_the_limit_set_is_the_target(
    setting: Option<Seq<char>>,
    soft: Option<u64>,
    hard: Option<u64>,
)
    ensures
        soft_limit(setting, soft, hard) is Some <==> target_of(setting, hard) is Some && (soft
            is None || soft->0 > target_of(setting, hard)->0),
        soft_limit(setting, soft, hard) is Some ==> soft_limit(setting, soft, hard) == target_of(
            setting,
            hard,
        ),
{
}

} // verus!
