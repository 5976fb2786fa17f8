use vstd::prelude::*;

use vstd::arithmetic::div_mod::{lemma_div_pos_is_pos, lemma_fundamental_div_mod};

use crate::capacity::{reserve_capacity, spec_capacity_error, spec_contract_error, vec_with_capacity};
use crate::error::{contract_violation, unsupported_at, LowerError};
use crate::span::Span;
use crate::text::{i64_to_decimal, signed_decimal};

verus! {

/// The `k`-th value of the range `start:step:end` (counting from 0).
pub open spec fn range_term(start: int, step: int, k: int) -> int {
    start + k * step
}

/// How many values the range `start:step:end` has.
pub open spec fn range_count(start: int, step: int, end: int) -> int {
    if step > 0 {
        if start <= end {
            (end - start) / step + 1
        } else {
            0
        }
    } else if step < 0 {
        if start >= end {
            (start - end) / (-step) + 1
        } else {
            0
        }
    } else {
        0
    }
}

/// The values of the range `start:step:end`, `start` first.
pub open spec fn range_values(start: int, step: int, end: int) -> Seq<int> {
    Seq::new(range_count(start, step, end) as nat, |k: int| range_term(start, step, k))
}

/// A range walk continues while the current value has not passed `end`.
pub fn range_step_keeps_going(current: i64, end: i64, step: i64) -> (b: bool)
    ensures
        b == (if step > 0 {
            current <= end
        } else {
            current >= end
        }),
{
    if step > 0 {
        current <= end
    } else {
        current >= end
    }
}

/// The current value is the last one of the range: the next step would
/// pass `end`. A step of `i64::MIN` is never reported as overshooting.
pub fn range_would_overshoot_i64(current: i64, end: i64, step: i64) -> (b: bool)
    ensures
        b == ((step > 0 && current <= end && end - current < step) || (step < 0 && step
            > i64::MIN && current >= end && current - end < -step)),
{
    if step > 0 && current <= end {
        return match end.checked_sub(current) {
            Some(remaining) => remaining < step,
            None => false,
        };
    }
    if step < 0 && current >= end {
        if step == i64::MIN {
            return false;
        }
        let step_abs = -step;
        return match current.checked_sub(end) {
            Some(remaining) => remaining < step_abs,
            None => false,
        };
    }
    false
}

pub open spec fn spec_range_step_overflow_reason(current: i64, step: i64) -> Seq<char> {
    "derivative slice range step overflows after index "@ + signed_decimal(current as int)
        + " with step "@ + signed_decimal(step as int)
}

/// The value after `current` in a range walk.
pub fn next_range_value(current: i64, step: i64, span: Span) -> (r: Result<i64, LowerError>)
    ensures
        match r {
            Ok(v) => v == current + step,
            Err(e) => (current + step < i64::MIN || current + step > i64::MAX)
                && spec_contract_error(e, spec_range_step_overflow_reason(current, step), span),
        },
{
    match current.checked_add(step) {
        Some(v) => Ok(v),
        None => {
            let mut reason = String::from_str("derivative slice range step overflows after index ");
            let c = i64_to_decimal(current);
            reason.append(c.as_str());
            reason.append(" with step ");
            let s = i64_to_decimal(step);
            reason.append(s.as_str());
            Err(contract_violation(reason, span))
        },
    }
}

/// Position of the `k`-th value of an ascending range relative to its end.
proof fn lemma_ascending(start: int, step: int, end: int, k: int)
    requires
        step > 0,
        start <= end,
        0 <= k,
    ensures
        (start + k * step <= end) == (k < range_count(start, step, end)),
        (start + k * step <= end && end - (start + k * step) < step) == (k == range_count(
            start,
            step,
            end,
        ) - 1),
{
    let q = (end - start) / step;
    let r = (end - start) % step;
    lemma_fundamental_div_mod(end - start, step);
    lemma_div_pos_is_pos(end - start, step);
    assert((start + k * step <= end) == (k <= q)) by (nonlinear_arith)
        requires
            end - start == step * q + r,
            0 <= r < step,
            step > 0,
    ;
    assert((start + k * step <= end && end - (start + k * step) < step) == (k == q))
        by (nonlinear_arith)
        requires
            end - start == step * q + r,
            0 <= r < step,
            step > 0,
    ;
}

/// Position of the `k`-th value of a descending range relative to its end.
proof fn lemma_descending(start: int, step: int, end: int, k: int)
    requires
        step < 0,
        start >= end,
        0 <= k,
    ensures
        (start + k * step >= end) == (k < range_count(start, step, end)),
        (start + k * step >= end && (start + k * step) - end < -step) == (k == range_count(
            start,
            step,
            end,
        ) - 1),
{
    let s = -step;
    let q = (start - end) / s;
    let r = (start - end) % s;
    lemma_fundamental_div_mod(start - end, s);
    lemma_div_pos_is_pos(start - end, s);
    assert((start + k * step >= end) == (k <= q)) by (nonlinear_arith)
        requires
            start - end == s * q + r,
            0 <= r < s,
            s == -step,
            s > 0,
    ;
    assert((start + k * step >= end && (start + k * step) - end < s) == (k == q))
        by (nonlinear_arith)
        requires
            start - end == s * q + r,
            0 <= r < s,
            s == -step,
            s > 0,
    ;
}

/// The largest derivative slice range that projection expands.
pub const MAX_SLICE_RANGE_LEN: usize = 100_000;

/// The one-based positions selected by the compile-time range
/// `start:step:end` of a derivative slice.
pub fn positive_range_indices(start: i64, step: i64, end: i64, span: Span) -> (r: Result<
    Vec<usize>,
    LowerError,
>)
    ensures
        step == 0 ==> (r matches Err(e) && e.spec_reason()
            == "zero derivative slice range step is unsupported"@),
        match r {
            Ok(v) => step != 0 && v@.len() <= MAX_SLICE_RANGE_LEN && v@.map_values(
                |x: usize| x as int,
            ) == range_values(start as int, step as int, end as int),
            Err(e) => step == 0 || spec_capacity_error(e, "derivative slice range index count"@, span)
                || (e.spec_reason() == "derivative slice range index must be positive"@ && exists|
                k: int|
                0 <= k < range_count(start as int, step as int, end as int) && k
                    <= MAX_SLICE_RANGE_LEN && !(1 <= #[trigger] range_term(start as int, step as int, k)
                    <= usize::MAX)) || (e.spec_reason() == "derivative slice range is too large"@
                && range_count(start as int, step as int, end as int) > MAX_SLICE_RANGE_LEN),
        },
        step != 0 && range_count(start as int, step as int, end as int) <= MAX_SLICE_RANGE_LEN && (
        forall|k: int|
            0 <= k < range_count(start as int, step as int, end as int) ==> 1 <= #[trigger] range_term(
                start as int,
                step as int,
                k,
            ) <= usize::MAX) ==> (r is Ok || (r matches Err(e) && spec_capacity_error(
            e,
            "derivative slice range index count"@,
            span,
        ))),
{
    if step == 0 {
        return Err(
            unsupported_at(String::from_str("zero derivative slice range step is unsupported"), span),
        );
    }
    let ghost count = range_count(start as int, step as int, end as int);
    let mut values: Vec<usize> = vec_with_capacity(0, "derivative slice range index count", span)?;
    let mut current = start;
    proof {
        if step > 0 {
            if start <= end {
                lemma_ascending(start as int, step as int, end as int, 0);
            }
        } else {
            if start >= end {
                lemma_descending(start as int, step as int, end as int, 0);
            }
        }
    }
    while range_step_keeps_going(current, end, step)
        invariant_except_break
            step != 0,
            count == range_count(start as int, step as int, end as int),
            current as int == range_term(start as int, step as int, values@.len() as int),
            values@.len() <= MAX_SLICE_RANGE_LEN,
            values@.len() <= count,
            values@.map_values(|x: usize| x as int) == range_values(
                start as int,
                step as int,
                end as int,
            ).take(values@.len() as int),
            values@.len() < count <==> (if step > 0 {
                current <= end
            } else {
                current >= end
            }),
        ensures
            values@.len() == count,
            values@.len() <= MAX_SLICE_RANGE_LEN,
            values@.map_values(|x: usize| x as int) == range_values(
                start as int,
                step as int,
                end as int,
            ).take(count),
        decreases count - values@.len(),
    {
        let k = values.len();
        proof {
            if step > 0 {
                lemma_ascending(start as int, step as int, end as int, k as int);
                lemma_ascending(start as int, step as int, end as int, k + 1);
            } else {
                lemma_descending(start as int, step as int, end as int, k as int);
                lemma_descending(start as int, step as int, end as int, k + 1);
            }
        }
        if current < 1 || current as u64 > usize::MAX as u64 {
            proof {
                assert(!(1 <= range_term(start as int, step as int, k as int) <= usize::MAX));
            }
            return Err(
                unsupported_at(
                    String::from_str("derivative slice range index must be positive"),
                    span,
                ),
            );
        }
        let value = current as usize;
        reserve_capacity(&mut values, 1, "derivative slice range index count", span)?;
        let ghost before = values@;
        values.push(value);
        proof {
            assert(values@.map_values(|x: usize| x as int) =~= before.map_values(
                |x: usize| x as int,
            ).push(value as int));
            assert(range_values(start as int, step as int, end as int).take(k + 1) =~= range_values(
                start as int,
                step as int,
                end as int,
            ).take(k as int).push(range_term(start as int, step as int, k as int)));
        }
        if values.len() > MAX_SLICE_RANGE_LEN {
            return Err(
                unsupported_at(String::from_str("derivative slice range is too large"), span),
            );
        }
        if range_would_overshoot_i64(current, end, step) {
            break;
        }
        proof {
            assert(current as int + step as int >= i64::MIN && current as int + step as int
                <= i64::MAX) by (nonlinear_arith)
                requires
                    current >= 1,
                    step > 0 ==> (current <= end && end - current >= step),
                    step < 0 ==> (step == i64::MIN || (current >= end && current - end >= -step)),
                    step != 0,
            ;
            assert(range_term(start as int, step as int, k + 1) == current as int + step as int)
                by (nonlinear_arith)
                requires
                    current as int == range_term(start as int, step as int, k as int),
            ;
        }
        current = next_range_value(current, step, span)?;
    }
    proof {
        assert(range_values(start as int, step as int, end as int).take(count) =~= range_values(
            start as int,
            step as int,
            end as int,
        ));
    }
    Ok(values)
}

/// The values `start, start + step, ...` up to and including `end`,
/// stopping early where the next value would leave the `i64` range.
pub fn build_range_values(start: i64, end: i64, step: i64) -> (values: Vec<i64>)
    requires
        step != 0,
    ensures
        values@.map_values(|x: i64| x as int) == range_values(start as int, step as int, end as int),
{
    let ghost count = range_count(start as int, step as int, end as int);
    let mut values: Vec<i64> = Vec::new();
    let mut current = start;
    proof {
        if step > 0 {
            if start <= end {
                lemma_ascending(start as int, step as int, end as int, 0);
            }
        } else {
            if start >= end {
                lemma_descending(start as int, step as int, end as int, 0);
            }
        }
    }
    while range_step_keeps_going(current, end, step)
        invariant_except_break
            step != 0,
            count == range_count(start as int, step as int, end as int),
            current as int == range_term(start as int, step as int, values@.len() as int),
            values@.len() <= count,
            values@.map_values(|x: i64| x as int) == range_values(
                start as int,
                step as int,
                end as int,
            ).take(values@.len() as int),
            values@.len() < count <==> (if step > 0 {
                current <= end
            } else {
                current >= end
            }),
        ensures
            values@.len() == count,
            values@.map_values(|x: i64| x as int) == range_values(
                start as int,
                step as int,
                end as int,
            ).take(count),
        decreases count - values@.len(),
    {
        let k = values.len();
        proof {
            if step > 0 {
                lemma_ascending(start as int, step as int, end as int, k as int);
                lemma_ascending(start as int, step as int, end as int, k + 1);
            } else {
                lemma_descending(start as int, step as int, end as int, k as int);
                lemma_descending(start as int, step as int, end as int, k + 1);
            }
        }
        let ghost before = values@;
        values.push(current);
        proof {
            assert(values@.map_values(|x: i64| x as int) =~= before.map_values(
                |x: i64| x as int,
            ).push(current as int));
            assert(range_values(start as int, step as int, end as int).take(k + 1) =~= range_values(
                start as int,
                step as int,
                end as int,
            ).take(k as int).push(range_term(start as int, step as int, k as int)));
            assert(range_term(start as int, step as int, k + 1) == current as int + step as int)
                by (nonlinear_arith)
                requires
                    current as int == range_term(start as int, step as int, k as int),
            ;
        }
        let next = match current.checked_add(step) {
            Some(next) => next,
            None => {
                proof {
                    assert(k + 1 == count);
                }
                break;
            },
        };
        current = next;
    }
    proof {
        assert(range_values(start as int, step as int, end as int).take(count) =~= range_values(
            start as int,
            step as int,
            end as int,
        ));
    }
    values
}

} // verus!
