//! Parsing of ISO-8601 style durations (`PnYnMnDTnHnMnS`) into seconds.
//!
//! Only the hour, minute and second components contribute to the result
//! (`H * 3600 + M * 60 + S`); any other unit letter is ignored rather than
//! rejected.  A digit run that does not fit a signed 64-bit value counts
//! as zero, and a sum that would not fit saturates.

use vstd::prelude::*;

verus! {

/// An ASCII decimal digit.
pub open spec fn is_digit_char(c: char) -> bool {
    0x30 <= (c as u32) && (c as u32) <= 0x39
}

/// The numeric value of a digit run, most significant first.
pub open spec fn run_value(ds: Seq<char>) -> int
    decreases ds.len(),
{
    if ds.len() == 0 {
        0
    } else {
        run_value(ds.drop_last()) * 10 + ((ds.last() as u32) - 0x30)
    }
}

/// The value a digit run parses to: the run's value when it fits a signed
/// 64-bit integer, zero otherwise (an empty run also parses to zero).
pub open spec fn parsed_run(ds: Seq<char>) -> int {
    if run_value(ds) > i64::MAX {
        0
    } else {
        run_value(ds)
    }
}

/// Seconds per unit letter; unknown letters weigh nothing.
pub open spec fn unit_seconds(c: char) -> int {
    if c == 'H' {
        3600
    } else if c == 'M' {
        60
    } else if c == 'S' {
        1
    } else {
        0
    }
}

/// `x` clipped from above to the largest signed 64-bit value.
pub open spec fn cap_i64(x: int) -> int {
    if x > i64::MAX {
        i64::MAX as int
    } else {
        x
    }
}

/// One grammar step: the pending digit run `cur` is closed by the unit
/// letter `c` and added to `total`.
pub open spec fn add_component(total: int, cur: Seq<char>, c: char) -> int {
    cap_i64(total + parsed_run(cur) * unit_seconds(c))
}

/// The walk over the remaining characters `s`, with pending digit run
/// `cur` and seconds so far `total`.  Trailing digits without a unit
/// letter are discarded.
pub open spec fn duration_walk(s: Seq<char>, cur: Seq<char>, total: int) -> int
    decreases s.len(),
{
    if s.len() == 0 {
        total
    } else if is_digit_char(s[0]) {
        duration_walk(s.skip(1), cur.push(s[0]), total)
    } else {
        duration_walk(s.skip(1), Seq::empty(), add_component(total, cur, s[0]))
    }
}

/// The number of seconds an ISO-8601 duration string denotes.
pub open spec fn spec_duration_seconds(s: Seq<char>) -> int {
    duration_walk(s, Seq::empty(), 0)
}

/// A digit run is never negative.
proof fn lemma_run_value_nonneg(ds: Seq<char>)
    requires
        forall|j: int| 0 <= j < ds.len() ==> is_digit_char(ds[j]),
    ensures
        run_value(ds) >= 0,
    decreases ds.len(),
{
    if ds.len() > 0 {
        lemma_run_value_nonneg(ds.drop_last());
    }
}

/// Appending a digit multiplies the run's value by ten and adds the digit.
proof fn lemma_run_value_push(ds: Seq<char>, c: char)
    ensures
        run_value(ds.push(c)) == run_value(ds) * 10 + ((c as u32) - 0x30),
{
    assert(ds.push(c).drop_last() =~= ds);
    assert(ds.push(c).last() == c);
}

/// Seconds denoted by an ISO-8601 duration string.
///
/// Sums `H * 3600 + M * 60 + S` over the grammar's components, ignores
/// unknown unit letters, treats an overflowing digit run as zero and
/// saturates the total.
pub fn parse_duration_to_seconds(iso_duration: &str) -> (r: i64)
    ensures
        r == spec_duration_seconds(iso_duration@),
{
    let chars = crate::text::str_to_chars(iso_duration);
    let ghost s = chars@;
    let mut total: i64 = 0;
    let mut cur_val: i64 = 0;
    let mut overflowed: bool = false;
    let ghost mut cur = Seq::<char>::empty();
    let mut i: usize = 0;
    proof {
        assert(s.skip(0) =~= s);
    }
    while i < chars.len()
        invariant
            i <= s.len(),
            s == chars@,
            0 <= total,
            0 <= cur_val,
            forall|j: int| 0 <= j < cur.len() ==> is_digit_char(cur[j]),
            !overflowed ==> cur_val == run_value(cur) && run_value(cur) <= i64::MAX,
            overflowed ==> run_value(cur) > i64::MAX,
            spec_duration_seconds(s) == duration_walk(s.skip(i as int), cur, total as int),
        decreases s.len() - i,
    {
        let c = chars[i];
        proof {
            assert(s.skip(i as int)[0] == s[i as int]);
            assert(s.skip(i as int).skip(1) =~= s.skip(i + 1));
        }
        let u = c as u32;
        if 0x30 <= u && u <= 0x39 {
            let d = (u - 0x30) as i64;
            proof {
                lemma_run_value_push(cur, c);
                lemma_run_value_nonneg(cur);
            }
            if !overflowed {
                match cur_val.checked_mul(10) {
                    Some(t) => match t.checked_add(d) {
                        Some(nv) => {
                            cur_val = nv;
                        },
                        None => {
                            overflowed = true;
                        },
                    },
                    None => {
                        overflowed = true;
                    },
                }
            }
            proof {
                cur = cur.push(c);
            }
        } else {
            let val: i64 = if overflowed {
                0
            } else {
                cur_val
            };
            proof {
                lemma_run_value_nonneg(cur);
            }
            assert(val == parsed_run(cur));
            let ghost weighted = parsed_run(cur) * unit_seconds(c);
            proof {
                if c == 'H' {
                    assert(weighted == parsed_run(cur) * 3600);
                } else if c == 'M' {
                    assert(weighted == parsed_run(cur) * 60);
                } else if c == 'S' {
                    assert(weighted == parsed_run(cur) * 1);
                } else {
                    assert(weighted == parsed_run(cur) * 0);
                }
            }
            let contribution: i64 = if c == 'H' {
                match val.checked_mul(3600) {
                    Some(p) => p,
                    None => i64::MAX,
                }
            } else if c == 'M' {
                match val.checked_mul(60) {
                    Some(p) => p,
                    None => i64::MAX,
                }
            } else if c == 'S' {
                val
            } else {
                0
            };
            assert(0 <= contribution && (contribution == weighted || (contribution == i64::MAX
                && weighted > i64::MAX)));
            let ghost total_before = total as int;
            total = match total.checked_add(contribution) {
                Some(t) => t,
                None => i64::MAX,
            };
            assert(total == add_component(total_before, cur, c));
            cur_val = 0;
            overflowed = false;
            proof {
                cur = Seq::empty();
            }
        }
        i += 1;
    }
    proof {
        assert(s.skip(s.len() as int) =~= Seq::<char>::empty());
    }
    total
}

} // verus!
