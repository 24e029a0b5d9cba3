//! The size of the result, and which source pixel stands under a result pixel.

use vstd::prelude::*;

use crate::lang::{Translator, fill, fill_holes, t, translated};
use crate::model::{MAX_SIZE, SizePolicy};
use crate::text::{decimal, decimal_chars, string_of};

verus! {

pub open spec fn area(s: (u32, u32)) -> int {
    s.0 as int * s.1 as int
}

/// The position of the size that `max_by_key` on the area picks: the last
/// of the largest.
pub open spec fn largest_at(sizes: Seq<(u32, u32)>) -> int
    decreases sizes.len(),
{
    if sizes.len() <= 1 {
        0
    } else {
        let b = largest_at(sizes.drop_last());
        if area(sizes.last()) >= area(sizes[b]) {
            sizes.len() - 1
        } else {
            b
        }
    }
}

/// The position of the size that `min_by_key` on the area picks: the first
/// of the smallest.
pub open spec fn smallest_at(sizes: Seq<(u32, u32)>) -> int
    decreases sizes.len(),
{
    if sizes.len() <= 1 {
        0
    } else {
        let b = smallest_at(sizes.drop_last());
        if area(sizes.last()) < area(sizes[b]) {
            sizes.len() - 1
        } else {
            b
        }
    }
}

pub open spec fn clamp_side(v: u32) -> u32 {
    if v < 1 {
        1
    } else if v > MAX_SIZE {
        MAX_SIZE
    } else {
        v
    }
}

/// The size of the result from the sizes of the sources. `None`: there are
/// no sources and no size was set by hand.
pub open spec fn target_of(sizes: Seq<(u32, u32)>, policy: SizePolicy, custom: (u32, u32)) -> Option<
    (u32, u32),
> {
    match policy {
        SizePolicy::Custom => Some((clamp_side(custom.0), clamp_side(custom.1))),
        _ => if sizes.len() == 0 {
            None
        } else if policy == SizePolicy::Largest {
            Some(sizes[largest_at(sizes)])
        } else {
            Some(sizes[smallest_at(sizes)])
        },
    }
}

proof fn lemma_extremes(sizes: Seq<(u32, u32)>)
    requires
        sizes.len() > 0,
    ensures
        0 <= largest_at(sizes) < sizes.len(),
        0 <= smallest_at(sizes) < sizes.len(),
        forall|k: int| 0 <= k < sizes.len() ==> area(#[trigger] sizes[k]) <= area(sizes[largest_at(sizes)]),
        forall|k: int| 0 <= k < sizes.len() ==> area(sizes[smallest_at(sizes)]) <= area(#[trigger] sizes[k]),
    decreases sizes.len(),
{
    if sizes.len() > 1 {
        let d = sizes.drop_last();
        lemma_extremes(d);
        assert forall|k: int| 0 <= k < d.len() implies #[trigger] d[k] == sizes[k] by {}
        let bl = largest_at(d);
        let bs = smallest_at(d);
        assert(d[bl] == sizes[bl] && d[bs] == sizes[bs]);
        assert forall|k: int| 0 <= k < sizes.len() implies area(#[trigger] sizes[k]) <= area(
            sizes[largest_at(sizes)],
        ) by {
            if k < d.len() {
                assert(area(d[k]) <= area(d[bl]));
            }
        }
        assert forall|k: int| 0 <= k < sizes.len() implies area(sizes[smallest_at(sizes)]) <= area(
            #[trigger] sizes[k],
        ) by {
            if k < d.len() {
                assert(area(d[bs]) <= area(d[k]));
            }
        }
    }
}

/// A policy picks a size within the limits, and without one set by hand it
/// picks the size of one of the sources: the largest or the smallest by area.
pub proof fn law_target_size(sizes: Seq<(u32, u32)>, policy: SizePolicy, custom: (u32, u32))
    ensures
        (target_of(sizes, policy, custom) matches Some(t) ==> (policy != SizePolicy::Custom ==> sizes.contains(t))),
        policy == SizePolicy::Custom ==> (target_of(sizes, policy, custom) matches Some(t) && 1 <= t.0 <= MAX_SIZE && 1 <= t.1 <= MAX_SIZE),
        policy == SizePolicy::Largest && sizes.len() > 0 ==> forall|k: int|
            0 <= k < sizes.len() ==> area(#[trigger] sizes[k]) <= area(target_of(sizes, policy, custom)->0),
        policy == SizePolicy::Smallest && sizes.len() > 0 ==> forall|k: int|
            0 <= k < sizes.len() ==> area(target_of(sizes, policy, custom)->0) <= area(#[trigger] sizes[k]),
        policy != SizePolicy::Custom ==> (target_of(sizes, policy, custom) is None <==> sizes.len() == 0),
{
    if sizes.len() > 0 {
        lemma_extremes(sizes);
    }
}

/// A size set by hand is kept side by side: the width comes from the width
/// set and the height from the height set, each raised to 1 when zero and
/// lowered to the limit when over it.
pub proof fn law_custom_size_sides(sizes: Seq<(u32, u32)>, custom: (u32, u32))
    ensures
        target_of(sizes, SizePolicy::Custom, custom) is Some,
        ({
            let t = target_of(sizes, SizePolicy::Custom, custom)->Some_0;
            &&& custom.0 == 0 ==> t.0 == 1
            &&& 1 <= custom.0 <= MAX_SIZE ==> t.0 == custom.0
            &&& custom.0 > MAX_SIZE ==> t.0 == MAX_SIZE
            &&& custom.1 == 0 ==> t.1 == 1
            &&& 1 <= custom.1 <= MAX_SIZE ==> t.1 == custom.1
            &&& custom.1 > MAX_SIZE ==> t.1 == MAX_SIZE
        }),
{
}

/// Of sizes with equal area the largest is the last of them and the smallest
/// the first: the size picked is a source size, no later source is as large
/// (for the largest) and no earlier one is as small (for the smallest).
pub proof fn law_size_ties(sizes: Seq<(u32, u32)>, custom: (u32, u32))
    requires
        sizes.len() > 0,
    ensures
        exists|j: int|
            0 <= j < sizes.len() && target_of(sizes, SizePolicy::Largest, custom) == Some(#[trigger] sizes[j])
                && forall|k: int| j < k < sizes.len() ==> area(#[trigger] sizes[k]) < area(sizes[j]),
        exists|j: int|
            0 <= j < sizes.len() && target_of(sizes, SizePolicy::Smallest, custom) == Some(#[trigger] sizes[j])
                && forall|k: int| 0 <= k < j ==> area(#[trigger] sizes[k]) > area(sizes[j]),
{
    lemma_ties(sizes);
    let jl = largest_at(sizes);
    let js = smallest_at(sizes);
    assert(target_of(sizes, SizePolicy::Largest, custom) == Some(sizes[jl]));
    assert(target_of(sizes, SizePolicy::Smallest, custom) == Some(sizes[js]));
}

proof fn lemma_ties(sizes: Seq<(u32, u32)>)
    requires
        sizes.len() > 0,
    ensures
        0 <= largest_at(sizes) < sizes.len(),
        0 <= smallest_at(sizes) < sizes.len(),
        forall|k: int|
            largest_at(sizes) < k < sizes.len() ==> area(#[trigger] sizes[k]) < area(sizes[largest_at(sizes)]),
        forall|k: int| 0 <= k < smallest_at(sizes) ==> area(#[trigger] sizes[k]) > area(sizes[smallest_at(sizes)]),
    decreases sizes.len(),
{
    lemma_extremes(sizes);
    if sizes.len() > 1 {
        let d = sizes.drop_last();
        lemma_ties(d);
        lemma_extremes(d);
        assert forall|k: int| 0 <= k < d.len() implies #[trigger] d[k] == sizes[k] by {}
        let bl = largest_at(d);
        let bs = smallest_at(d);
        assert(d[bl] == sizes[bl] && d[bs] == sizes[bs]);
        assert forall|k: int| 0 <= k < smallest_at(sizes) implies area(#[trigger] sizes[k]) > area(
            sizes[smallest_at(sizes)],
        ) by {
            if smallest_at(sizes) == bs {
                assert(area(d[k]) > area(d[bs]));
            } else {
                assert(area(d[bs]) <= area(d[k]));
            }
        }
        assert forall|k: int| largest_at(sizes) < k < sizes.len() implies area(#[trigger] sizes[k]) < area(
            sizes[largest_at(sizes)],
        ) by {
            if k < d.len() {
                assert(area(d[k]) < area(d[bl]));
            }
        }
    }
}

fn area_of(s: (u32, u32)) -> (r: u64)
    ensures
        r == area(s),
{
    let w = s.0 as u64;
    let h = s.1 as u64;
    assert(w * h <= u32::MAX * u32::MAX) by (nonlinear_arith)
        requires
            w <= u32::MAX,
            h <= u32::MAX,
    ;
    w * h
}

/// The size of the result from the sizes of the sources.
pub fn target_size(sizes: &[(u32, u32)], policy: SizePolicy, custom: (u32, u32)) -> (r: Option<
    (u32, u32),
>)
    ensures
        r == target_of(sizes@, policy, custom),
{
    match policy {
        SizePolicy::Custom => {
            let w = if custom.0 < 1 {
                1
            } else if custom.0 > MAX_SIZE {
                MAX_SIZE
            } else {
                custom.0
            };
            let h = if custom.1 < 1 {
                1
            } else if custom.1 > MAX_SIZE {
                MAX_SIZE
            } else {
                custom.1
            };
            Some((w, h))
        },
        _ => {
            if sizes.len() == 0 {
                return None;
            }
            let largest = policy == SizePolicy::Largest;
            let mut best: usize = 0;
            let mut i: usize = 1;
            while i < sizes.len()
                invariant
                    1 <= i <= sizes.len(),
                    best < i,
                    largest ==> best == largest_at(sizes@.take(i as int)),
                    !largest ==> best == smallest_at(sizes@.take(i as int)),
                decreases sizes.len() - i,
            {
                let ghost t = sizes@.take(i + 1);
                assert(t.drop_last() == sizes@.take(i as int));
                assert(t.last() == sizes@[i as int]);
                assert(t[best as int] == sizes@[best as int]);
                let a = area_of(sizes[i]);
                let b = area_of(sizes[best]);
                if largest {
                    if a >= b {
                        best = i;
                    }
                } else {
                    if a < b {
                        best = i;
                    }
                }
                i += 1;
            }
            assert(sizes@.take(sizes.len() as int) == sizes@);
            Some(sizes[best])
        },
    }
}

/// The source pixel under result pixel `(x, y)` when a source of size
/// `source` is scaled to `target`: the nearest one, without filtering.
pub fn sample_position(x: u32, y: u32, source: (u32, u32), target: (u32, u32)) -> (r: (u32, u32))
    requires
        source.0 >= 1,
        source.1 >= 1,
    ensures
        r.0 as int == if (x as int * source.0 as int) / (if target.0 == 0 { 1int } else { target.0 as int }) < source.0 - 1 {
            (x as int * source.0 as int) / (if target.0 == 0 { 1int } else { target.0 as int })
        } else {
            source.0 - 1
        },
        r.1 as int == if (y as int * source.1 as int) / (if target.1 == 0 { 1int } else { target.1 as int }) < source.1 - 1 {
            (y as int * source.1 as int) / (if target.1 == 0 { 1int } else { target.1 as int })
        } else {
            source.1 - 1
        },
        r.0 < source.0,
        r.1 < source.1,
{
    let sx = nearest(x, source.0, target.0);
    let sy = nearest(y, source.1, target.1);
    (sx, sy)
}

fn nearest(x: u32, s: u32, t: u32) -> (r: u32)
    requires
        s >= 1,
    ensures
        r as int == if (x as int * s as int) / (if t == 0 { 1int } else { t as int }) < s - 1 {
            (x as int * s as int) / (if t == 0 { 1int } else { t as int })
        } else {
            s - 1
        },
{
    let d: u64 = if t < 1 { 1 } else { t as u64 };
    let p = area_of((x, s));
    let q = p / d;
    let last = (s - 1) as u64;
    if q < last {
        q as u32
    } else {
        last as u32
    }
}

/// The message for an image too large to read, naming its size and the limit.
pub open spec fn too_large_note(russian: bool, table: Map<Seq<char>, Seq<char>>, width: u32, height: u32) -> Seq<char> {
    let side = decimal(MAX_SIZE as nat);
    fill_holes(
        translated(russian, table, "{}×{} is larger than the {} limit"@),
        seq![decimal(width as nat), decimal(height as nat), side + "×"@ + side],
    )
}

/// Whether an image of this size can be read: `None` when neither side is
/// over the limit, else the message that says why not.
pub fn size_problem(tr: &Translator, width: u32, height: u32) -> (r: Option<String>)
    ensures
        r is None <==> (width <= MAX_SIZE && height <= MAX_SIZE),
        r matches Some(m) ==> m@ == too_large_note(tr.russian, tr.ru@, width, height),
{
    if width <= MAX_SIZE && height <= MAX_SIZE {
        return None;
    }
    let side = decimal_chars(MAX_SIZE as u128);
    let mut limit = side.clone();
    limit.push('×');
    let mut k: usize = 0;
    let ghost start = limit@;
    while k < side.len()
        invariant
            k <= side.len(),
            limit@ == start + side@.take(k as int),
        decreases side.len() - k,
    {
        limit.push(side[k]);
        assert(side@.take(k + 1) =~= side@.take(k as int).push(side@[k as int]));
        k += 1;
    }
    assert(side@.take(side.len() as int) =~= side@);
    let values = vec![
        string_of(decimal_chars(width as u128).as_slice()),
        string_of(decimal_chars(height as u128).as_slice()),
        string_of(limit.as_slice()),
    ];
    let template = t(tr, "{}×{} is larger than the {} limit");
    let r = fill(template.as_str(), values.as_slice());
    proof {
        reveal_strlit("×");
        assert("×"@ =~= seq!['×']);
        assert(limit@ =~= decimal(MAX_SIZE as nat) + "×"@ + decimal(MAX_SIZE as nat));
        assert(values@[0]@ == decimal(width as nat));
        assert(values@[1]@ == decimal(height as nat));
        assert(values@.map_values(|v: String| v@) =~= seq![
            decimal(width as nat),
            decimal(height as nat),
            decimal(MAX_SIZE as nat) + "×"@ + decimal(MAX_SIZE as nat),
        ]);
    }
    Some(r)
}

} // verus!
