//! How a demo is split into segments that can be decoded side by side.
use crate::text;
use crate::text::parse_usize;
use vstd::prelude::*;

verus! {

/// A full packet: where it stands in the demo file, and its tick. A demo can be decoded
/// from any of them on.
#[derive(Clone, Copy, Debug, PartialEq, Eq, Structural)]
pub struct Keyframe {
    pub offset: usize,
    pub tick: i32,
}

/// The keyframe at which segment `i` of `n` begins, by position.
pub open spec fn cut(many: int, n: int, i: int) -> int {
    i * many / n
}

/// Where segment `i` of `n` begins: the first with the demo, the others at evenly spaced
/// keyframes.
pub open spec fn segment_start(keyframes: Seq<Keyframe>, n: int, i: int) -> Option<usize> {
    if i == 0 {
        None
    } else {
        Some(keyframes[cut(keyframes.len() as int, n, i)].offset)
    }
}

/// The tick at which segment `i` of `n` ends: that of the keyframe at which the next one
/// begins. The last has no end.
pub open spec fn segment_end(keyframes: Seq<Keyframe>, n: int, i: int) -> i32 {
    if i == n - 1 {
        i32::MAX
    } else {
        keyframes[cut(keyframes.len() as int, n, i + 1)].tick
    }
}

/// A cut between segments is one of the keyframes.
proof fn lemma_cut(many: int, n: int, i: int)
    requires
        0 < many,
        0 <= i < n,
    ensures
        0 <= cut(many, n, i) < many,
        0 <= i * many <= (n - 1) * many,
{
    assert(0 <= i * many / n < many) by (nonlinear_arith)
        requires
            0 < many,
            0 <= i < n,
    ;
    assert(0 <= i * many <= (n - 1) * many) by (nonlinear_arith)
        requires
            0 < many,
            0 <= i < n,
    ;
}

/// Later segments begin at later keyframes.
proof fn lemma_cuts_ascend(many: int, n: int, i: int, j: int)
    requires
        0 < many,
        0 <= i <= j < n,
    ensures
        0 <= cut(many, n, i) <= cut(many, n, j) < many,
{
    lemma_cut(many, n, i);
    lemma_cut(many, n, j);
    assert(i * many / n <= j * many / n) by (nonlinear_arith)
        requires
            0 < many,
            0 <= i <= j < n,
    ;
}

/// The first tick that segment `i` of `n` may hold: that at which the segment before it ends.
/// There is no bound to the first segment; past the last one there are no ticks.
pub open spec fn first_tick(keyframes: Seq<Keyframe>, n: int, i: int) -> int {
    if i <= 0 {
        i32::MIN as int
    } else if i >= n {
        i32::MAX + 1
    } else {
        segment_end(keyframes, n, i - 1) as int
    }
}

/// Whether keyframes are in tick order.
pub open spec fn in_tick_order(keyframes: Seq<Keyframe>) -> bool {
    forall|a: int, b: int|
        0 <= a <= b < keyframes.len() ==> (#[trigger] keyframes[a]).tick <= (
        #[trigger] keyframes[b]).tick
}

/// Segments follow one another: of keyframes in tick order, each segment begins no earlier
/// than the one before it, and all but the first at a keyframe.
pub proof fn law_segments_ascend(keyframes: Seq<Keyframe>, n: int, i: int)
    requires
        keyframes.len() > 0 || n <= 1,
        in_tick_order(keyframes),
        0 <= i < n,
    ensures
        first_tick(keyframes, n, i) <= first_tick(keyframes, n, i + 1),
        0 < i ==> exists|k: int|
            0 <= k < keyframes.len() && first_tick(keyframes, n, i) == (
            #[trigger] keyframes[k]).tick,
{
    let many = keyframes.len() as int;
    if 0 < i {
        lemma_cuts_ascend(many, n, i, i);
        assert(first_tick(keyframes, n, i) == keyframes[cut(many, n, i)].tick);
        if i + 1 < n {
            lemma_cuts_ascend(many, n, i, i + 1);
            assert(first_tick(keyframes, n, i + 1) == keyframes[cut(many, n, i + 1)].tick);
        }
    }
}

/// Split the demo into `n` contiguous segments at keyframes, each by the offset it starts
/// at (the first: none) and the tick it ends at.
pub fn segment_ranges(keyframes: &[Keyframe], n: usize) -> (ranges: Vec<(Option<usize>, i32)>)
    requires
        keyframes@.len() > 0 || n <= 1,
        n > 0 ==> (n - 1) * keyframes@.len() <= usize::MAX,
    ensures
        ranges@.len() == n,
        forall|i: int|
            0 <= i < n ==> #[trigger] ranges@[i] == (
                segment_start(keyframes@, n as int, i),
                segment_end(keyframes@, n as int, i),
            ),
{
    let mut ranges: Vec<(Option<usize>, i32)> = Vec::new();
    let many: usize = keyframes.len();
    let mut i: usize = 0;
    while i < n
        invariant
            i <= n,
            many == keyframes@.len(),
            many > 0 || n <= 1,
            n > 0 ==> (n - 1) * many <= usize::MAX,
            ranges@.len() == i,
            forall|j: int|
                0 <= j < i ==> #[trigger] ranges@[j] == (
                    segment_start(keyframes@, n as int, j),
                    segment_end(keyframes@, n as int, j),
                ),
        decreases n - i,
    {
        let start: Option<usize> = if i == 0 {
            None
        } else {
            proof {
                lemma_cut(many as int, n as int, i as int);
            }
            Some(keyframes[i * many / n].offset)
        };
        let end: i32 = if i == n - 1 {
            i32::MAX
        } else {
            proof {
                lemma_cut(many as int, n as int, i + 1);
            }
            keyframes[(i + 1) * many / n].tick
        };
        ranges.push((start, end));
        i = i + 1;
    }
    ranges
}

/// Segments meet: each ends at the tick of the keyframe at which the next one begins, the
/// first begins with the demo, and the last goes on to its end.
pub proof fn law_segments_meet(keyframes: Seq<Keyframe>, n: int, i: int)
    requires
        keyframes.len() > 0,
        0 <= i < n,
    ensures
        segment_start(keyframes, n, 0) is None,
        segment_end(keyframes, n, n - 1) == i32::MAX,
        i + 1 < n ==> exists|k: int|
            0 <= k < keyframes.len() && segment_start(keyframes, n, i + 1) == Some(
                (#[trigger] keyframes[k]).offset,
            ) && segment_end(keyframes, n, i) == keyframes[k].tick,
{
    if i + 1 < n {
        lemma_cut(keyframes.len() as int, n, i + 1);
        let k = cut(keyframes.len() as int, n, i + 1);
        assert(keyframes[k].tick == segment_end(keyframes, n, i));
    }
}

/// How many segments a setting asks for: the number it writes, else one per processor,
/// else one.
pub open spec fn budget_of(setting: Option<Seq<char>>, processors: Option<usize>) -> int {
    let asked = match setting {
        Some(s) => text::in_range(text::unsigned_value(s), 0, usize::MAX as int),
        None => None,
    };
    match asked {
        Some(n) => n,
        None => match processors {
            Some(p) => p as int,
            None => 1,
        },
    }
}

/// How many segments to decode side by side: the setting, where it writes a number, else
/// the processor count, where it is known. One disables parallelism.
pub fn segment_budget(setting: Option<&str>, processors: Option<usize>) -> (n: usize)
    ensures
        n == budget_of(
            match setting {
                Some(s) => Some(s@),
                None => None,
            },
            processors,
        ),
{
    let asked = match setting {
        Some(s) => parse_usize(s),
        None => None,
    };
    match asked {
        Some(n) => n,
        None => match processors {
            Some(p) => p,
            None => 1,
        },
    }
}

/// How many segments there are within a budget: no more than keyframes, and at least one.
pub open spec fn segments_within(budget: int, many: int) -> int {
    let most = if many > 1 {
        many
    } else {
        1
    };
    if budget <= 1 {
        1
    } else if budget < most {
        budget
    } else {
        most
    }
}

/// The segments to decode within a budget.
pub fn plan_segments(keyframes: &[Keyframe], budget: usize) -> (ranges: Vec<(Option<usize>, i32)>)
    requires
        (segments_within(budget as int, keyframes@.len() as int) - 1) * keyframes@.len()
            <= usize::MAX,
    ensures
        ranges@.len() == segments_within(budget as int, keyframes@.len() as int),
        forall|i: int|
            0 <= i < ranges@.len() ==> #[trigger] ranges@[i] == (
                segment_start(keyframes@, ranges@.len() as int, i),
                segment_end(keyframes@, ranges@.len() as int, i),
            ),
{
    let many: usize = keyframes.len();
    let most: usize = if many > 1 {
        many
    } else {
        1
    };
    let n: usize = if budget <= 1 {
        1
    } else if budget < most {
        budget
    } else {
        most
    };
    segment_ranges(keyframes, n)
}

} // verus!
