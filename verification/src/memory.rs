use vstd::prelude::*;

use crate::consts::{INPUT_CAP, MEMORY_SIZE};

verus! {

/// The sum of a sequence of signals, as a mathematical integer.
pub open spec fn sum_of(s: Seq<i32>) -> int
    decreases s.len(),
{
    if s.len() == 0 {
        0
    } else {
        sum_of(s.drop_last()) + s.last()
    }
}

/// The sum of the magnitudes of a sequence of signals.
pub open spec fn abs_total(s: Seq<i32>) -> int
    decreases s.len(),
{
    if s.len() == 0 {
        0
    } else {
        abs_total(s.drop_last()) + if s.last() < 0 { -s.last() } else { s.last() as int }
    }
}

/// Every running total met while adding up `s` from the front fits in an `i32`:
/// exactly the inputs on which summing them with `i32` arithmetic does not overflow.
pub open spec fn sums_fit(s: Seq<i32>) -> bool {
    forall|k: int| 0 <= k <= s.len() ==> i32::MIN <= #[trigger] sum_of(s.take(k)) <= i32::MAX
}

/// The memory after `ticks` (1 to `MEMORY_SIZE`) ticks have passed: the `ticks` oldest
/// entries are dropped from the back, the newest total goes to the front, followed by
/// a zero for each other tick that passed.
pub open spec fn shifted_memory(memory: Seq<i32>, newest: i32, ticks: int) -> Seq<i32> {
    let kept = if memory.len() >= ticks { memory.len() - ticks } else { 0 };
    seq![newest] + Seq::new((ticks - 1) as nat, |i: int| 0i32) + memory.take(kept)
}

/// A memory made anew: `newest` in front, then a zero for each other tick it holds.
pub open spec fn replaced_memory(newest: i32) -> Seq<i32> {
    seq![newest] + Seq::new((MEMORY_SIZE - 1) as nat, |i: int| 0i32)
}

pub proof fn lemma_abs_total_bounds_sum(s: Seq<i32>)
    ensures
        -abs_total(s) <= sum_of(s) <= abs_total(s),
        0 <= abs_total(s),
    decreases s.len(),
{
    if s.len() > 0 {
        lemma_abs_total_bounds_sum(s.drop_last());
    }
}

pub proof fn lemma_abs_total_prefix(s: Seq<i32>, k: int)
    requires
        0 <= k <= s.len(),
    ensures
        abs_total(s.take(k)) <= abs_total(s),
    decreases s.len() - k,
{
    if k < s.len() {
        lemma_abs_total_prefix(s, k + 1);
        assert(s.take(k + 1).drop_last() =~= s.take(k));
    } else {
        assert(s.take(k) =~= s);
    }
}

/// A sequence whose magnitudes add up to at most `i32::MAX` can be summed in `i32`.
pub proof fn lemma_small_total_fits(s: Seq<i32>)
    requires
        abs_total(s) <= i32::MAX,
    ensures
        sums_fit(s),
        i32::MIN < sum_of(s),
{
    assert forall|k: int| 0 <= k <= s.len() implies i32::MIN <= #[trigger] sum_of(s.take(k))
        <= i32::MAX by {
        lemma_abs_total_prefix(s, k);
        lemma_abs_total_bounds_sum(s.take(k));
    }
    lemma_abs_total_bounds_sum(s);
}

pub proof fn lemma_abs_total_push(s: Seq<i32>, x: i32)
    ensures
        abs_total(s.push(x)) == abs_total(s) + if x < 0 { -x } else { x as int },
        sum_of(s.push(x)) == sum_of(s) + x,
{
    assert(s.push(x).drop_last() =~= s);
}

/// A sequence whose entries all lie within `b` in magnitude has magnitudes adding up
/// to at most `len * b`.
pub proof fn lemma_abs_total_bounded(s: Seq<i32>, b: int)
    requires
        0 <= b,
        forall|i: int| 0 <= i < s.len() ==> -b <= #[trigger] s[i] <= b,
    ensures
        abs_total(s) <= s.len() * b,
    decreases s.len(),
{
    if s.len() > 0 {
        let t = s.drop_last();
        assert forall|i: int| 0 <= i < t.len() implies -b <= #[trigger] t[i] <= b by {
            assert(t[i] == s[i]);
        }
        lemma_abs_total_bounded(t, b);
        assert(s.len() * b == t.len() * b + b) by (nonlinear_arith)
            requires
                s.len() == t.len() + 1,
        ;
    }
}

/// A memory the tick arithmetic can work with: at most `MEMORY_SIZE` totals, each at
/// most `INPUT_CAP` in magnitude.
pub open spec fn memory_calm(memory: Seq<i32>) -> bool {
    &&& memory.len() <= MEMORY_SIZE
    &&& forall|i: int|
        0 <= i < memory.len() ==> -(INPUT_CAP as int) <= #[trigger] memory[i] <= INPUT_CAP
}

/// A calm memory can be summed in `i32`, and its sum is not `i32::MIN`.
pub proof fn lemma_calm_memory_fits(memory: Seq<i32>)
    requires
        memory_calm(memory),
    ensures
        sums_fit(memory),
        sum_of(memory) != i32::MIN,
{
    lemma_abs_total_bounded(memory, INPUT_CAP as int);
    assert(memory.len() * (INPUT_CAP as int) <= 5 * (INPUT_CAP as int)) by (nonlinear_arith)
        requires
            memory.len() <= 5,
    ;
    lemma_small_total_fits(memory);
}

/// Shifting a calm memory by 1 to `MEMORY_SIZE` ticks with a calm total in front keeps
/// it calm.
/// A memory made anew from a total within `INPUT_CAP` is calm.
pub proof fn lemma_replaced_calm(newest: i32)
    requires
        -(INPUT_CAP as int) <= newest <= INPUT_CAP,
    ensures
        memory_calm(replaced_memory(newest)),
        replaced_memory(newest).len() == MEMORY_SIZE,
{
    let r = replaced_memory(newest);
    assert forall|i: int| 0 <= i < r.len() implies -(INPUT_CAP as int) <= #[trigger] r[i]
        <= INPUT_CAP by {
        if i == 0 {
            assert(r[i] == newest);
        } else {
            assert(r[i] == 0);
        }
    }
}

pub proof fn lemma_shifted_calm(memory: Seq<i32>, newest: i32, ticks: int)
    requires
        memory_calm(memory),
        1 <= ticks <= MEMORY_SIZE,
        -(INPUT_CAP as int) <= newest <= INPUT_CAP,
    ensures
        memory_calm(shifted_memory(memory, newest, ticks)),
{
    let kept = if memory.len() >= ticks { memory.len() - ticks } else { 0 };
    let zeros = Seq::new((ticks - 1) as nat, |i: int| 0i32);
    let r = shifted_memory(memory, newest, ticks);
    assert(r == seq![newest] + zeros + memory.take(kept));
    assert forall|i: int| 0 <= i < r.len() implies -(INPUT_CAP as int) <= #[trigger] r[i]
        <= INPUT_CAP by {
        if i == 0 {
            assert(r[i] == newest);
        } else if i < ticks {
            assert(r[i] == zeros[i - 1]);
        } else {
            assert(r[i] == memory.take(kept)[i - ticks]);
            assert(memory[i - ticks] == r[i]);
        }
    }
}

/// The total magnitude of the signals when it is at most `INPUT_CAP`; `None` when it
/// is more.
pub fn calm_total(v: &Vec<i32>) -> (r: Option<u32>)
    ensures
        match r {
            Some(t) => t == abs_total(v@) && t <= INPUT_CAP,
            None => abs_total(v@) > INPUT_CAP,
        },
{
    let mut acc: u64 = 0;
    let mut i: usize = 0;
    assert(v@.take(0) =~= Seq::<i32>::empty());
    while i < v.len()
        invariant
            i <= v.len(),
            acc == abs_total(v@.take(i as int)),
            acc <= INPUT_CAP,
        decreases v.len() - i,
    {
        assert(v@.take(i + 1).drop_last() =~= v@.take(i as int));
        let x = v[i];
        let m: u64 = if x < 0 {
            (-(x as i64)) as u64
        } else {
            x as u64
        };
        acc = acc + m;
        if acc > INPUT_CAP as u64 {
            proof {
                lemma_abs_total_prefix(v@, i + 1);
            }
            return None;
        }
        i = i + 1;
    }
    assert(v@.take(v.len() as int) =~= v@);
    Some(acc as u32)
}

/// Whether a memory is calm (see `memory_calm`).
pub fn is_calm(memory: &Vec<i32>) -> (b: bool)
    ensures
        b == memory_calm(memory@),
{
    if memory.len() > MEMORY_SIZE {
        return false;
    }
    let mut i: usize = 0;
    while i < memory.len()
        invariant
            i <= memory@.len() <= MEMORY_SIZE,
            forall|j: int|
                0 <= j < i ==> -(INPUT_CAP as int) <= #[trigger] memory@[j] <= INPUT_CAP,
        decreases memory.len() - i,
    {
        if memory[i] < -INPUT_CAP || memory[i] > INPUT_CAP {
            return false;
        }
        i = i + 1;
    }
    true
}

/// Adds up the signals with `i32` arithmetic, as `iter().sum()` does.
pub fn total(v: &Vec<i32>) -> (r: i32)
    requires
        sums_fit(v@),
    ensures
        r == sum_of(v@),
{
    let mut acc: i32 = 0;
    let mut i: usize = 0;
    assert(v@.take(0) =~= Seq::<i32>::empty());
    while i < v.len()
        invariant
            i <= v.len(),
            sums_fit(v@),
            acc == sum_of(v@.take(i as int)),
        decreases v.len() - i,
    {
        assert(v@.take(i + 1).drop_last() =~= v@.take(i as int));
        assert(i32::MIN <= sum_of(v@.take(i + 1)) <= i32::MAX);
        acc = acc + v[i];
        i = i + 1;
    }
    assert(v@.take(v.len() as int) =~= v@);
    acc
}

/// Brings a memory up to date after some ticks passed: with `None` the memory is
/// replaced by the total of the pending inputs followed by zeros, and the pending
/// inputs are dropped; with `Some(0)` nothing changes; with `Some(u)` the memory is
/// shifted by `min(u, MEMORY_SIZE)` ticks with the total of the pending inputs in front.
/// The pending inputs are added up first in every case.
pub fn forget_into(inputs: &mut Vec<i32>, memory: &mut Vec<i32>, ticks: Option<usize>)
    requires
        sums_fit(old(inputs)@),
    ensures
        match ticks {
            None => final(inputs)@ == Seq::<i32>::empty() && final(memory)@ == replaced_memory(
                sum_of(old(inputs)@) as i32,
            ),
            Some(u) => final(inputs)@ == old(inputs)@ && if u == 0 {
                final(memory)@ == old(memory)@
            } else {
                final(memory)@ == shifted_memory(
                    old(memory)@,
                    sum_of(old(inputs)@) as i32,
                    if u < MEMORY_SIZE { u as int } else { MEMORY_SIZE as int },
                )
            },
        },
{
    let sum: i32 = total(inputs);
    if ticks == Some(0usize) {
        return ;
    }
    match ticks {
        None => {
            let mut fresh: Vec<i32> = vec![sum];
            let mut zeros: Vec<i32> = vec![0; MEMORY_SIZE - 1];
            fresh.append(&mut zeros);
            *memory = fresh;
            inputs.clear();
            proof {
                assert(memory@ =~= replaced_memory(sum));
            }
        },
        Some(u) => {
            let u: usize = if u < MEMORY_SIZE {
                u
            } else {
                MEMORY_SIZE
            };
            let ghost start = memory@;
            let mut popped: usize = 0;
            while popped < u
                invariant
                    popped <= u,
                    memory@ == start.take(
                        if start.len() >= popped { start.len() - popped } else { 0 },
                    ),
                decreases u - popped,
            {
                memory.pop();
                popped = popped + 1;
            }
            let sum: i32 = total(inputs);
            let mut new: Vec<i32> = vec![sum];
            let mut zeros: Vec<i32> = vec![0; u - 1];
            new.append(&mut zeros);
            new.append(memory);
            proof {
                assert(zeros@.len() == 0);
            }
            *memory = new;
            proof {
                let kept = if start.len() >= u { start.len() - u } else { 0 };
                assert(memory@ =~= shifted_memory(start, sum, u as int));
            }
        },
    }
}

} // verus!
