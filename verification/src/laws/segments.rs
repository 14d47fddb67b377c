//! Where segments begin and end, and how many there are.
use crate::segments;
use crate::segments::Keyframe;
use crate::text;
use vstd::prelude::*;

verus! {

/// Whether `k` of `many` keyframes is as far along as `i` of `n` segments, rounded down.
pub open spec fn is_as_far(many: int, n: int, i: int, k: int) -> bool {
    k * n <= i * many < (k + 1) * n
}

/// Segments are evenly spaced: segment `i` of `n` begins at the keyframe that is as far along as
/// it is, and the segment before it ends at the tick of that keyframe. The first begins with
/// the demo and the last has no end.
pub proof fn law_segments_are_even(keyframes: Seq<Keyframe>, n: int, i: int, k: int)
    requires
        keyframes.len() > 0,
        0 < i < n,
        is_as_far(keyframes.len() as int, n, i, k),
    ensures
        0 <= k < keyframes.len(),
        segments::segment_start(keyframes, n, i) == Some(keyframes[k].offset),
        segments::segment_end(keyframes, n, i - 1) == keyframes[k].tick,
        segments::segment_start(keyframes, n, 0) is None,
        segments::segment_end(keyframes, n, n - 1) == 0x7fff_ffff,
{
    let many = keyframes.len() as int;
    assert(i * many / n == k) by (nonlinear_arith)
        requires
            0 < n,
            k * n <= i * many < (k + 1) * n,
    ;
    assert(0 <= k < many) by (nonlinear_arith)
        requires
            0 < many,
            0 < i < n,
            k * n <= i * many < (k + 1) * n,
    ;
}

/// Every segment but the first has a keyframe that is as far along as it is.
pub proof fn law_segments_have_keyframes(many: int, n: int, i: int)
    requires
        many > 0,
        0 < i < n,
    ensures
        exists|k: int| #[trigger] is_as_far(many, n, i, k),
{
    let k = i * many / n;
    assert(k * n <= i * many < (k + 1) * n) by (nonlinear_arith)
        requires
            0 < n,
            k == i * many / n,
    ;
    assert(is_as_far(many, n, i, k));
}

/// There are as many segments as a budget allows, but no more than keyframes, and at least one.
pub proof fn law_segments_within(budget: int, many: int, m: int)
    ensures
        ({
            let n = segments::segments_within(budget, many);
            &&& n >= 1
            &&& n > 1 ==> n <= budget && n <= many
            &&& m <= budget && m <= many ==> m <= n
        }),
{
}

/// The budget is the number that the setting writes, if it writes one that a count can hold;
/// else the number of processors, if that is known; else one.
pub proof fn law_budget(setting: Option<Seq<char>>, processors: Option<usize>)
    ensures
        ({
            let asked = setting is Some && text::unsigned_value(setting->0) is Some && 0
                <= text::unsigned_value(setting->0)->0 <= usize::MAX;
            let n = segments::budget_of(setting, processors);
            &&& asked ==> n == text::unsigned_value(setting->0)->0
            &&& !asked && processors is Some ==> n == processors->0
            &&& !asked && processors is None ==> n == 1
        }),
{
}

} // verus!
