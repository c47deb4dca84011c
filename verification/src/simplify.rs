//! Which points of a line are kept when it is simplified.
//!
//! Distances between points and chords are measured by the caller; what they decide is
//! decided here.

use crate::float::F32;
use vstd::prelude::*;

verus! {

/// The first of the points farthest from a chord, where it is farther than `epsilon`.
pub open spec fn is_split(distances: Seq<F32>, epsilon: F32, at: int) -> bool {
    &&& 0 <= at < distances.len()
    &&& epsilon.below(distances[at])
    &&& forall|j: int| 0 <= j < distances.len() ==> !distances[at].below(#[trigger] distances[j])
    &&& forall|j: int|
        0 <= j < at && (#[trigger] distances[j]).is_number() ==> distances[j].below(distances[at])
}

/// Where a chord is split, if it is.
pub open spec fn split(distances: Seq<F32>, epsilon: F32) -> Option<int> {
    if exists|at: int| is_split(distances, epsilon, at) {
        Some(choose|at: int| is_split(distances, epsilon, at))
    } else {
        None
    }
}

proof fn lemma_one_split(distances: Seq<F32>, epsilon: F32, a: int, b: int)
    requires
        is_split(distances, epsilon, a),
        is_split(distances, epsilon, b),
    ensures
        a == b,
{
    if a < b {
        assert(distances[a].below(distances[b]));
    } else if b < a {
        assert(distances[b].below(distances[a]));
    }
}

/// Finds where a chord is split. Distances that are no numbers are passed over.
pub fn split_point(distances: &Vec<F32>, epsilon: F32) -> (at: Option<usize>)
    requires
        !epsilon.below(F32 { bits: 0 }),
    ensures
        at is Some ==> is_split(distances@, epsilon, at->0 as int),
        at is None ==> forall|j: int|
            0 <= j < distances@.len() ==> !epsilon.below(#[trigger] distances@[j]),
        split(distances@, epsilon) == match at {
            Some(at) => Some(at as int),
            None => None,
        },
{
    let mut greatest = F32 { bits: 0 };
    let mut at: Option<usize> = None;
    let mut i: usize = 0;
    while i < distances.len()
        invariant
            i <= distances@.len(),
            greatest.is_number(),
            greatest.rank() >= 0,
            forall|j: int| 0 <= j < i ==> !greatest.below(#[trigger] distances@[j]),
            match at {
                Some(k) => {
                    &&& k < i
                    &&& greatest == distances@[k as int]
                    &&& forall|j: int|
                        0 <= j < k && (#[trigger] distances@[j]).is_number()
                            ==> distances@[j].below(greatest)
                },
                None => greatest.bits == 0,
            },
        decreases distances.len() - i,
    {
        if greatest.is_below(distances[i]) {
            greatest = distances[i];
            at = Some(i);
        }
        i = i + 1;
    }
    if epsilon.is_below(greatest) {
        proof {
            match at {
                Some(k) => {
                    let s = choose|s: int| is_split(distances@, epsilon, s);
                    assert(is_split(distances@, epsilon, k as int));
                    lemma_one_split(distances@, epsilon, s, k as int);
                },
                None => {},
            }
        }
        at
    } else {
        assert forall|j: int| 0 <= j < distances@.len() implies !epsilon.below(
            #[trigger] distances@[j],
        ) by {}
        None
    }
}

/// Distances of the points between two points from their chord, as `distance` gives
/// them for a point and the ends of the chord.
pub open spec fn measured(
    distance: spec_fn(int, int, int) -> F32,
    first: int,
    last: int,
) -> Seq<F32> {
    Seq::new((last - first - 1) as nat, |k: int| distance(first + 1 + k, first, last))
}

/// The points that are kept from one point to another: the ends, and where a point
/// between them is too far from their chord, what is kept up to the farthest and from
/// it on.
pub open spec fn simplified(
    distance: spec_fn(int, int, int) -> F32,
    epsilon: F32,
    first: int,
    last: int,
) -> Seq<int>
    decreases last - first,
{
    if last - first <= 1 {
        seq![first, last]
    } else {
        let distances = measured(distance, first, last);
        if exists|at: int| is_split(distances, epsilon, at) {
            let middle = first + 1 + choose|at: int| is_split(distances, epsilon, at);
            if first < middle < last {
                simplified(distance, epsilon, first, middle).drop_last() + simplified(
                    distance,
                    epsilon,
                    middle,
                    last,
                )
            } else {
                seq![first, last]
            }
        } else {
            seq![first, last]
        }
    }
}

/// What is kept of the last `n` pending parts, without the first point of each.
pub open spec fn kept_of(
    distance: spec_fn(int, int, int) -> F32,
    epsilon: F32,
    pending: Seq<(usize, usize)>,
    n: int,
) -> Seq<int>
    decreases n,
{
    if n <= 0 {
        Seq::empty()
    } else {
        simplified(
            distance,
            epsilon,
            pending[n - 1].0 as int,
            pending[n - 1].1 as int,
        ).skip(1) + kept_of(distance, epsilon, pending, n - 1)
    }
}

proof fn lemma_simplified_ends(
    distance: spec_fn(int, int, int) -> F32,
    epsilon: F32,
    first: int,
    last: int,
)
    requires
        first < last,
    ensures
        simplified(distance, epsilon, first, last).len() >= 2,
        simplified(distance, epsilon, first, last)[0] == first,
        simplified(distance, epsilon, first, last).last() == last,
    decreases last - first,
{
    if last - first > 1 {
        let distances = measured(distance, first, last);
        if exists|at: int| is_split(distances, epsilon, at) {
            let middle = first + 1 + choose|at: int| is_split(distances, epsilon, at);
            if first < middle < last {
                lemma_simplified_ends(distance, epsilon, first, middle);
                lemma_simplified_ends(distance, epsilon, middle, last);
            }
        }
    }
}

proof fn lemma_kept_of_shared(
    distance: spec_fn(int, int, int) -> F32,
    epsilon: F32,
    a: Seq<(usize, usize)>,
    b: Seq<(usize, usize)>,
    n: int,
)
    requires
        n <= a.len(),
        n <= b.len(),
        forall|i: int| 0 <= i < n ==> #[trigger] a[i] == b[i],
    ensures
        kept_of(distance, epsilon, a, n) == kept_of(distance, epsilon, b, n),
    decreases n,
{
    if n > 0 {
        lemma_kept_of_shared(distance, epsilon, a, b, n - 1);
    }
}

/// Spans of the last `n` pending parts, each counted twice less one.
pub open spec fn work(pending: Seq<(usize, usize)>, n: int) -> int
    decreases n,
{
    if n <= 0 {
        0
    } else {
        2 * (pending[n - 1].1 - pending[n - 1].0) - 1 + work(pending, n - 1)
    }
}

proof fn lemma_work_shared(a: Seq<(usize, usize)>, b: Seq<(usize, usize)>, n: int)
    requires
        n <= a.len(),
        n <= b.len(),
        forall|i: int| 0 <= i < n ==> #[trigger] a[i] == b[i],
    ensures
        work(a, n) == work(b, n),
    decreases n,
{
    if n > 0 {
        lemma_work_shared(a, b, n - 1);
    }
}

/// A line on the way to fewer points.
#[derive(Debug)]
pub struct Simplifier {
    /// Parts that are still to be looked at, the next one last.
    pub pending: Vec<(usize, usize)>,
    /// Points that are kept, in order.
    pub kept: Vec<usize>,
}

impl Simplifier {
    /// The points kept so far run up from the first one, the parts follow them one by
    /// one, and the last part ends at the last point.
    pub open spec fn wf(&self, points: usize) -> bool {
        &&& points > 0
        &&& self.kept@.len() > 0
        &&& self.kept@[0] == 0
        &&& forall|i: int, j: int|
            0 <= i < j < self.kept@.len() ==> #[trigger] self.kept@[i] < #[trigger] self.kept@[j]
        &&& forall|i: int|
            0 <= i < self.pending@.len() ==> (#[trigger] self.pending@[i]).0 < self.pending@[i].1
        &&& forall|i: int, j: int|
            0 <= i && j == i + 1 && j < self.pending@.len() ==> #[trigger] self.pending@[i].0
                == #[trigger] self.pending@[j].1
        &&& if self.pending@.len() > 0 {
            &&& self.pending@[0].1 == points - 1
            &&& self.pending@.last().0 == self.kept@.last()
        } else {
            self.kept@.last() == points - 1
        }
    }

    /// What will be kept once all parts are looked at.
    pub open spec fn outcome(
        &self,
        distance: spec_fn(int, int, int) -> F32,
        epsilon: F32,
    ) -> Seq<int> {
        self.kept@.map_values(|p: usize| p as int) + kept_of(
            distance,
            epsilon,
            self.pending@,
            self.pending@.len() as int,
        )
    }

    /// Starts on a line of `points` points.
    pub fn new(points: usize) -> (simplifier: Self)
        requires
            points > 0,
        ensures
            simplifier.wf(points),
            points > 1 ==> forall|distance: spec_fn(int, int, int) -> F32, epsilon: F32|
                #[trigger] simplifier.outcome(distance, epsilon) == simplified(
                    distance,
                    epsilon,
                    0,
                    points - 1,
                ),
    {
        let mut pending: Vec<(usize, usize)> = Vec::new();
        let mut kept: Vec<usize> = Vec::new();
        kept.push(0);
        if points > 1 {
            pending.push((0, points - 1));
        }
        let simplifier = Simplifier { pending, kept };
        proof {
            if points > 1 {
                assert forall|distance: spec_fn(int, int, int) -> F32, epsilon: F32|
                    #[trigger] simplifier.outcome(distance, epsilon) == simplified(
                        distance,
                        epsilon,
                        0,
                        points - 1,
                    ) by {
                    let all = simplified(distance, epsilon, 0, points - 1);
                    lemma_simplified_ends(distance, epsilon, 0, points - 1);
                    let p = simplifier.pending@;
                    assert(kept_of(distance, epsilon, p, 0) == Seq::<int>::empty());
                    assert(kept_of(distance, epsilon, p, 1) == all.skip(1));
                    assert(simplifier.outcome(distance, epsilon) == all);
                }
            }
        }
        simplifier
    }

    /// The ends of the part whose points are to be measured next.
    pub fn current(&self) -> (part: Option<(usize, usize)>)
        ensures
            part == if self.pending@.len() > 0 {
                Some(self.pending@.last())
            } else {
                None
            },
    {
        if self.pending.len() > 0 {
            Some(self.pending[self.pending.len() - 1])
        } else {
            None
        }
    }

    /// Takes the distances of the points of the current part from its chord. The part is
    /// divided, or its end is kept.
    pub fn answer(&mut self, distances: &Vec<F32>, epsilon: F32, points: usize)
        requires
            old(self).wf(points),
            old(self).pending@.len() > 0,
            distances@.len() == old(self).pending@.last().1 - old(self).pending@.last().0 - 1,
            !epsilon.below(F32 { bits: 0 }),
        ensures
            final(self).wf(points),
            match split(distances@, epsilon) {
                Some(at) => {
                    let (first, last) = old(self).pending@.last();
                    let middle = (first + 1 + at) as usize;
                    &&& final(self).kept@ == old(self).kept@
                    &&& final(self).pending@ == old(self).pending@.drop_last().push(
                        (middle, last),
                    ).push((first, middle))
                },
                None => {
                    &&& final(self).kept@ == old(self).kept@.push(old(self).pending@.last().1)
                    &&& final(self).pending@ == old(self).pending@.drop_last()
                },
            },
            forall|distance: spec_fn(int, int, int) -> F32|
                measured(
                    distance,
                    old(self).pending@.last().0 as int,
                    old(self).pending@.last().1 as int,
                ) == distances@ ==> #[trigger] final(self).outcome(distance, epsilon) == old(
                    self,
                ).outcome(distance, epsilon),
            0 <= work(final(self).pending@, final(self).pending@.len() as int) < work(
                old(self).pending@,
                old(self).pending@.len() as int,
            ),
    {
        let ghost before = *self;
        let ghost n = self.pending@.len() as int;
        let top: usize = self.pending.len() - 1;
        let (first, last) = self.pending[top];
        let at = split_point(distances, epsilon);
        self.pending.pop();
        let ghost rest = before.pending@.drop_last();
        proof {
            lemma_work_shared(rest, before.pending@, n - 1);
            lemma_work_positive(rest, n - 1);
        }
        match at {
            None => {
                self.kept.push(last);
                proof {
                    assert(self.pending@ == rest);
                    if n > 1 {
                        assert(before.pending@[n - 2].0 == before.pending@[n - 1].1);
                    }
                    assert forall|distance: spec_fn(int, int, int) -> F32|
                        measured(distance, first as int, last as int) == distances@ implies
                        #[trigger] self.outcome(distance, epsilon) == before.outcome(
                        distance,
                        epsilon,
                    ) by {
                        lemma_kept_of_shared(distance, epsilon, rest, before.pending@, n - 1);
                        let part = simplified(distance, epsilon, first as int, last as int);
                        assert(part == seq![first as int, last as int]);
                        assert(part.skip(1) == seq![last as int]);
                        assert(self.kept@.map_values(|p: usize| p as int)
                            == before.kept@.map_values(|p: usize| p as int).push(last as int));
                        assert(self.outcome(distance, epsilon) == before.outcome(
                            distance,
                            epsilon,
                        ));
                    }
                }
            },
            Some(k) => {
                let middle: usize = first + 1 + k;
                self.pending.push((middle, last));
                self.pending.push((first, middle));
                proof {
                    let p = self.pending@;
                    assert(p == rest.push((middle, last)).push((first, middle)));
                    if n > 1 {
                        assert(before.pending@[n - 2].0 == before.pending@[n - 1].1);
                    }
                    assert(work(p, n + 1) == 2 * (middle - first) - 1 + work(p, n));
                    assert(work(p, n) == 2 * (last - middle) - 1 + work(p, n - 1));
                    lemma_work_shared(p, rest, n - 1);
                    assert forall|distance: spec_fn(int, int, int) -> F32|
                        measured(distance, first as int, last as int) == distances@ implies
                        #[trigger] self.outcome(distance, epsilon) == before.outcome(
                        distance,
                        epsilon,
                    ) by {
                        lemma_kept_of_shared(distance, epsilon, p, before.pending@, n - 1);
                        let s = choose|s: int| is_split(distances@, epsilon, s);
                        lemma_one_split(distances@, epsilon, s, k as int);
                        lemma_simplified_ends(distance, epsilon, first as int, middle as int);
                        lemma_simplified_ends(distance, epsilon, middle as int, last as int);
                        let all = simplified(distance, epsilon, first as int, last as int);
                        let left = simplified(distance, epsilon, first as int, middle as int);
                        let right = simplified(distance, epsilon, middle as int, last as int);
                        assert(all == left.drop_last() + right);
                        assert(all.skip(1) == left.skip(1) + right.skip(1));
                        assert(kept_of(distance, epsilon, p, n + 1) == left.skip(1) + kept_of(
                            distance,
                            epsilon,
                            p,
                            n,
                        ));
                        assert(kept_of(distance, epsilon, p, n) == right.skip(1) + kept_of(
                            distance,
                            epsilon,
                            p,
                            n - 1,
                        ));
                        assert(self.outcome(distance, epsilon) == before.outcome(
                            distance,
                            epsilon,
                        ));
                    }
                }
            },
        }
    }
}

proof fn lemma_work_positive(pending: Seq<(usize, usize)>, n: int)
    requires
        n <= pending.len(),
        forall|i: int| 0 <= i < n ==> (#[trigger] pending[i]).0 < pending[i].1,
    ensures
        work(pending, n) >= 0,
    decreases n,
{
    if n > 0 {
        lemma_work_positive(pending, n - 1);
    }
}

/// Once every part is looked at, the points kept are those of the whole line: they run
/// from its first point to its last.
pub proof fn law_the_ends_are_kept(simplifier: Simplifier, points: usize)
    requires
        simplifier.wf(points),
        simplifier.pending@.len() == 0,
    ensures
        forall|distance: spec_fn(int, int, int) -> F32, epsilon: F32| #[trigger]
            simplifier.outcome(distance, epsilon) == simplifier.kept@.map_values(
                |p: usize| p as int,
            ),
        simplifier.kept@[0] == 0,
        simplifier.kept@.last() == points - 1,
{
    assert forall|distance: spec_fn(int, int, int) -> F32, epsilon: F32| #[trigger]
        simplifier.outcome(distance, epsilon) == simplifier.kept@.map_values(
            |p: usize| p as int,
        ) by {
        assert(kept_of(distance, epsilon, simplifier.pending@, 0) == Seq::<int>::empty());
        assert(simplifier.outcome(distance, epsilon) == simplifier.kept@.map_values(
            |p: usize| p as int,
        ));
    }
}

/// Bits of the distance between 1 and the next number.
pub const EPSILON: u32 = 0x3400_0000;

/// Bits of a ten-thousandth.
pub const TEN_THOUSANDTH: u32 = 0x38d1_b717;

/// Bits of 1.
pub const ONE: u32 = 0x3f80_0000;

/// Whether two edges of an outline turn, by the size of their cross product.
pub fn turns(cross: F32) -> (turned: bool)
    ensures
        turned == (F32 { bits: TEN_THOUSANDTH }).below(cross),
{
    let least = F32 { bits: TEN_THOUSANDTH };
    least.is_below(cross)
}

/// What becomes of a vertex of an outline.
#[derive(Clone, Copy, Debug, PartialEq, Eq, Structural)]
pub enum Vertex {
    Dropped,
    Kept,
    /// It is moved along the bisector of its edges.
    Moved,
}

/// Measures of a vertex: the cross product of its edges, their lengths, how far their
/// angle is from 45 degrees, and the length of the sum of their directions.
#[derive(Clone, Copy, Debug, PartialEq, Eq, Structural)]
pub struct Corner {
    pub cross: F32,
    pub before: F32,
    pub behind: F32,
    pub off_angle: F32,
    pub bisector: F32,
}

/// `a <= b` as numbers compare.
pub open spec fn not_above(a: F32, b: F32) -> bool {
    a.is_number() && b.is_number() && !b.below(a)
}

impl Corner {
    /// Vertices that turn inwards are dropped. Of the others those whose edges meet at 45
    /// degrees are moved, as far as edges and bisector have a length.
    pub open spec fn fate(self) -> Vertex {
        let least = F32 { bits: EPSILON };
        if not_above(F32 { bits: 0 }, self.cross) {
            Vertex::Dropped
        } else if not_above(self.before, least) || not_above(self.behind, least) {
            Vertex::Kept
        } else if self.off_angle.below(F32 { bits: ONE }) && least.below(self.bisector) {
            Vertex::Moved
        } else {
            Vertex::Kept
        }
    }

    pub fn vertex(self) -> (vertex: Vertex)
        ensures
            vertex == self.fate(),
    {
        let zero = F32 { bits: 0 };
        let least = F32 { bits: EPSILON };
        if self.cross.number() && !self.cross.is_below(zero) {
            return Vertex::Dropped;
        }
        if (self.before.number() && !least.is_below(self.before)) || (self.behind.number()
            && !least.is_below(self.behind)) {
            return Vertex::Kept;
        }
        if self.off_angle.is_below(F32 { bits: ONE }) && least.is_below(self.bisector) {
            Vertex::Moved
        } else {
            Vertex::Kept
        }
    }
}

/// Among the first `n` distances, one that is farther than `epsilon` and than all the
/// others, if one of them is farther than `epsilon`.
proof fn lemma_farthest(distances: Seq<F32>, epsilon: F32, n: int) -> (at: int)
    requires
        0 < n <= distances.len(),
        exists|j: int| 0 <= j < n && epsilon.below(#[trigger] distances[j]),
    ensures
        0 <= at < n,
        epsilon.below(distances[at]),
        forall|j: int| 0 <= j < n ==> !distances[at].below(#[trigger] distances[j]),
        forall|j: int|
            0 <= j < at && (#[trigger] distances[j]).is_number() ==> distances[j].below(
                distances[at],
            ),
    decreases n,
{
    let last = n - 1;
    if exists|j: int| 0 <= j < last && epsilon.below(#[trigger] distances[j]) {
        let at = lemma_farthest(distances, epsilon, last);
        if distances[at].below(distances[last]) {
            assert forall|j: int| 0 <= j < last && (#[trigger] distances[j]).is_number() implies
                distances[j].below(distances[last]) by {
                assert(!distances[at].below(distances[j]));
            }
            last
        } else {
            at
        }
    } else {
        let j = choose|j: int| 0 <= j < n && epsilon.below(#[trigger] distances[j]);
        assert(j == last);
        assert forall|i: int| 0 <= i < last && (#[trigger] distances[i]).is_number() implies
            distances[i].below(distances[last]) by {
            assert(!epsilon.below(distances[i]));
        }
        last
    }
}

/// What is left of a line runs up from its first point to its last, and leaves out no
/// point that is farther than `epsilon` from the chord of the two kept points around it.
/// A line without such points is left with its ends.
pub proof fn law_points_left_out_are_near(
    distance: spec_fn(int, int, int) -> F32,
    epsilon: F32,
    first: int,
    last: int,
)
    requires
        first < last,
    ensures
        ({
            let kept = simplified(distance, epsilon, first, last);
            &&& kept.len() >= 2
            &&& kept[0] == first
            &&& kept.last() == last
            &&& forall|i: int, j: int|
                0 <= i < j < kept.len() ==> #[trigger] kept[i] < #[trigger] kept[j]
            &&& forall|i: int, p: int|
                0 <= i < kept.len() - 1 && kept[i] < p < kept[i + 1] ==> !epsilon.below(
                    #[trigger] distance(p, kept[i], kept[i + 1]),
                )
            &&& (forall|p: int|
                first < p < last ==> !epsilon.below(#[trigger] distance(p, first, last)))
                ==> kept.len() == 2
        }),
    decreases last - first,
{
    let kept = simplified(distance, epsilon, first, last);
    let distances = measured(distance, first, last);
    if last - first > 1 && exists|at: int| is_split(distances, epsilon, at) {
        let at = choose|at: int| is_split(distances, epsilon, at);
        let middle = first + 1 + at;
        assert(first < middle < last);
        assert(distances[at] == distance(middle, first, last));
        law_points_left_out_are_near(distance, epsilon, first, middle);
        law_points_left_out_are_near(distance, epsilon, middle, last);
        let a = simplified(distance, epsilon, first, middle);
        let b = simplified(distance, epsilon, middle, last);
        let m = a.len() - 1;
        assert(kept == a.drop_last() + b);
        assert forall|i: int| 0 <= i < kept.len() implies kept[i] == if i < m {
            a[i]
        } else {
            b[i - m]
        } by {}
        assert(kept[m] == middle && a[m] == middle);
        assert forall|i: int, j: int| 0 <= i < j < kept.len() implies #[trigger] kept[i]
            < #[trigger] kept[j] by {
            if i < m && j >= m {
                assert(a[i] < a[m]);
                if j > m {
                    assert(b[0] < b[j - m]);
                }
            } else if j < m {
                assert(a[i] < a[j]);
            } else {
                assert(b[i - m] < b[j - m]);
            }
        }
        assert forall|i: int, p: int|
            0 <= i < kept.len() - 1 && kept[i] < p < kept[i + 1] implies !epsilon.below(
            #[trigger] distance(p, kept[i], kept[i + 1]),
        ) by {
            if i < m {
                assert(kept[i] == a[i] && kept[i + 1] == a[i + 1]);
                assert(!epsilon.below(distance(p, a[i], a[i + 1])));
            } else {
                assert(kept[i] == b[i - m] && kept[i + 1] == b[i - m + 1]);
                assert(!epsilon.below(distance(p, b[i - m], b[i - m + 1])));
            }
        }
    } else {
        assert(kept == seq![first, last]);
        assert forall|i: int, p: int|
            0 <= i < kept.len() - 1 && kept[i] < p < kept[i + 1] implies !epsilon.below(
            #[trigger] distance(p, kept[i], kept[i + 1]),
        ) by {
            let k = p - first - 1;
            assert(distances[k] == distance(p, first, last));
            if epsilon.below(distances[k]) {
                let at = lemma_farthest(distances, epsilon, distances.len() as int);
                assert(is_split(distances, epsilon, at));
            }
        }
    }
}

/// A vertex is dropped exactly where its edges do not turn outwards, and it is moved only
/// where they do, both have a length, and they meet at nearly 45 degrees.
pub proof fn law_vertices_that_turn_outwards_stay(corner: Corner)
    requires
        corner.cross.is_number(),
        corner.before.is_number(),
        corner.behind.is_number(),
        corner.off_angle.is_number(),
        corner.bisector.is_number(),
    ensures
        corner.fate() == Vertex::Dropped <==> corner.cross.rank() >= 0,
        corner.fate() == Vertex::Moved <==> corner.cross.rank() < 0 && corner.before.rank()
            > 0x3400_0000 && corner.behind.rank() > 0x3400_0000 && corner.off_angle.rank()
            < 0x3f80_0000 && corner.bisector.rank() > 0x3400_0000,
{
}

} // verus!
