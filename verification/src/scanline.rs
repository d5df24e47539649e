//! Scanline crossings: where the edges of a polygon meet a horizontal row,
//! and which columns of the row lie between paired crossings.

use crate::rational::{lemma_div_negated, lemma_product_bound, Ratio};
use crate::vertex::{edge_end, Vertex};
use vstd::prelude::*;
use vstd::seq_lib::{
    to_multiset_build,
    to_multiset_contains,
    to_multiset_insert,
    to_multiset_len,
    to_multiset_remove,
};

verus! {

/// Whether the edge between `a` and `b` crosses scanline `y`: one end lies
/// on or above the row and the other strictly below it. A horizontal edge
/// crosses no scanline.
pub open spec fn crosses(a: Vertex, b: Vertex, y: int) -> bool {
    (a.y <= y && b.y > y) || (b.y <= y && a.y > y)
}

/// The abscissa at which the line through `a` and `b` meets scanline `y`:
/// `a.x + (y - a.y) * (b.x - a.x) / (b.y - a.y)`, not rounded.
pub open spec fn crossing_at(a: Vertex, b: Vertex, y: int) -> Ratio {
    let num = a.x * (b.y - a.y) + (y - a.y) * (b.x - a.x);
    let den = b.y - a.y;
    if den > 0 {
        Ratio { num, den }
    } else {
        Ratio { num: -num, den: -den }
    }
}

/// The crossings of scanline `y` with the first `k` edges, in edge order.
pub open spec fn crossings_upto(vertices: Seq<Vertex>, y: int, k: int) -> Seq<Ratio>
    decreases k,
{
    if k <= 0 {
        Seq::empty()
    } else {
        let before = crossings_upto(vertices, y, k - 1);
        let a = vertices[k - 1];
        let b = edge_end(vertices, k - 1);
        if crosses(a, b, y) {
            before.push(crossing_at(a, b, y))
        } else {
            before
        }
    }
}

/// The crossings of scanline `y` with all edges of the polygon, in edge order.
pub open spec fn crossings(vertices: Seq<Vertex>, y: int) -> Seq<Ratio> {
    crossings_upto(vertices, y, vertices.len() as int)
}

/// Every element is a quotient with a positive denominator.
pub open spec fn all_wf(xs: Seq<Ratio>) -> bool {
    forall|i: int| 0 <= i < xs.len() ==> (#[trigger] xs[i]).wf()
}

/// No element is greater than a later one.
pub open spec fn ascending(xs: Seq<Ratio>) -> bool {
    forall|i: int, j: int| 0 <= i < j < xs.len() ==> (#[trigger] xs[i]).le(#[trigger] xs[j])
}

/// `xs` holds the elements of `ys` in ascending order. Elements of equal
/// value may stand in any order.
pub open spec fn arranges(xs: Seq<Ratio>, ys: Seq<Ratio>) -> bool {
    ascending(xs) && xs.to_multiset() == ys.to_multiset()
}

/// Whether column `x` lies in span `k`: from the ceiling of element `2k` to
/// the floor of element `2k + 1`, both included. An element without a
/// partner bounds no span.
pub open spec fn in_span(xs: Seq<Ratio>, k: int, x: int) -> bool {
    0 <= k && 2 * k + 1 < xs.len() && xs[2 * k].ceil() <= x <= xs[2 * k + 1].floor()
}

/// Whether column `x` lies in one of the spans that `xs` bounds.
pub open spec fn spans_cover(xs: Seq<Ratio>, x: int) -> bool {
    exists|k: int| in_span(xs, k, x)
}

/// Whether column `x` of scanline `y` lies between paired crossings of the
/// polygon: in a span bounded by the crossings taken in ascending order.
pub open spec fn scanline_covers(vertices: Seq<Vertex>, x: int, y: int) -> bool {
    exists|xs: Seq<Ratio>| #[trigger] arranges(xs, crossings(vertices, y)) && spans_cover(xs, x)
}

/// The positions of row `y` from column `first` to column `last`, both
/// included.
pub open spec fn span_region(first: int, last: int, y: int) -> Set<(int, int)> {
    Set::new(|p: (int, int)| p.1 == y && first <= p.0 <= last)
}

/// The positions of row `y` in the first `k` spans that `xs` bounds.
pub open spec fn spans_region_upto(xs: Seq<Ratio>, y: int, k: int) -> Set<(int, int)> {
    Set::new(|p: (int, int)| p.1 == y && exists|j: int| j < k && in_span(xs, j, p.0))
}

/// The positions of row `y` in the spans that `xs` bounds.
pub open spec fn spans_region(xs: Seq<Ratio>, y: int) -> Set<(int, int)> {
    Set::new(|p: (int, int)| p.1 == y && spans_cover(xs, p.0))
}

/// The positions that filling the polygon paints: on each scanline, the
/// columns between paired crossings. Fewer than three vertices enclose
/// nothing.
pub open spec fn filled_region(vertices: Seq<Vertex>) -> Set<(int, int)> {
    if vertices.len() < 3 {
        Set::empty()
    } else {
        Set::new(|p: (int, int)| scanline_covers(vertices, p.0, p.1))
    }
}

/// The positions of the filled region on the rows from `top` up to, not
/// including, `below`.
pub open spec fn filled_rows(vertices: Seq<Vertex>, top: int, below: int) -> Set<(int, int)> {
    Set::new(|p: (int, int)| top <= p.1 < below && scanline_covers(vertices, p.0, p.1))
}

/// Every crossing of a scanline has a positive denominator.
pub proof fn lemma_crossings_wf(vertices: Seq<Vertex>, y: int, k: int)
    ensures
        all_wf(crossings_upto(vertices, y, k)),
    decreases k,
{
    if k > 0 {
        lemma_crossings_wf(vertices, y, k - 1);
    }
}

/// A scanline above the topmost vertex, or on or below the bottommost one,
/// crosses no edge.
pub proof fn lemma_no_crossings_outside(vertices: Seq<Vertex>, y: int, low: int, high: int, k: int)
    requires
        forall|i: int| 0 <= i < vertices.len() ==> low <= (#[trigger] vertices[i]).y <= high,
        y < low || y >= high,
        0 <= k <= vertices.len(),
    ensures
        crossings_upto(vertices, y, k).len() == 0,
    decreases k,
{
    if k > 0 {
        lemma_no_crossings_outside(vertices, y, low, high, k - 1);
        let b = edge_end(vertices, k - 1);
        assert(low <= vertices[k - 1].y <= high);
        assert(low <= b.y <= high);
    }
}

/// The edges from the first vertex to vertex `k` cross a scanline an even
/// number of times exactly when both vertices lie on the same side of it.
pub proof fn lemma_crossings_parity(vertices: Seq<Vertex>, y: int, k: int)
    requires
        1 <= k <= vertices.len(),
    ensures
        crossings_upto(vertices, y, k).len() % 2 == if (vertices[0].y <= y) == (edge_end(
            vertices,
            k - 1,
        ).y <= y) {
            0int
        } else {
            1int
        },
    decreases k,
{
    if k > 1 {
        lemma_crossings_parity(vertices, y, k - 1);
        assert(edge_end(vertices, k - 2) == vertices[k - 1]);
    } else {
        assert(crossings_upto(vertices, y, 0).len() == 0);
    }
}

/// A closed polygon crosses every scanline an even number of times: the
/// crossings pair off, and none is left without a partner.
pub proof fn lemma_crossings_even(vertices: Seq<Vertex>, y: int)
    ensures
        crossings(vertices, y).len() % 2 == 0,
{
    if vertices.len() > 0 {
        lemma_crossings_parity(vertices, y, vertices.len() as int);
    }
}

/// A scanline that crosses no edge covers no column.
pub proof fn lemma_no_crossings_no_cover(vertices: Seq<Vertex>, x: int, y: int)
    requires
        crossings(vertices, y).len() == 0,
    ensures
        !scanline_covers(vertices, x, y),
{
    if scanline_covers(vertices, x, y) {
        let xs = choose|xs: Seq<Ratio>| #[trigger]
            arranges(xs, crossings(vertices, y)) && spans_cover(xs, x);
        to_multiset_len(xs);
        to_multiset_len(crossings(vertices, y));
        let k = choose|k: int| in_span(xs, k, x);
        assert(false);
    }
}

/// Two ascending arrangements of the same elements hold the same values,
/// place by place.
pub proof fn lemma_arrangements_agree(xs: Seq<Ratio>, ys: Seq<Ratio>)
    requires
        ascending(xs),
        ascending(ys),
        all_wf(xs),
        all_wf(ys),
        xs.to_multiset() == ys.to_multiset(),
    ensures
        xs.len() == ys.len(),
        forall|j: int| 0 <= j < xs.len() ==> (#[trigger] xs[j]).same(ys[j]),
    decreases xs.len(),
{
    to_multiset_len(xs);
    to_multiset_len(ys);
    if xs.len() > 0 {
        // The least element of `ys` stands somewhere in `xs`, and the other way round.
        to_multiset_contains(xs, ys[0]);
        to_multiset_contains(ys, ys[0]);
        to_multiset_contains(xs, xs[0]);
        to_multiset_contains(ys, xs[0]);
        assert(ys.contains(ys[0]));
        assert(xs.contains(xs[0]));
        let i = choose|i: int| 0 <= i < xs.len() && xs[i] == ys[0];
        let m = choose|m: int| 0 <= m < ys.len() && ys[m] == xs[0];
        xs[0].lemma_le_reflexive();
        ys[0].lemma_le_reflexive();
        assert(xs[0].le(xs[i]));
        assert(ys[0].le(ys[m]));
        assert(xs[0].same(ys[0]));

        let xr = xs.remove(i);
        let yr = ys.remove(0);
        to_multiset_remove(xs, i);
        to_multiset_remove(ys, 0);
        assert(ascending(xr)) by {
            assert forall|p: int, q: int| 0 <= p < q < xr.len() implies (#[trigger] xr[p]).le(
                #[trigger] xr[q],
            ) by {
                let p0 = if p < i { p } else { p + 1 };
                let q0 = if q < i { q } else { q + 1 };
                assert(xs[p0].le(xs[q0]));
            }
        }
        assert(ascending(yr)) by {
            assert forall|p: int, q: int| 0 <= p < q < yr.len() implies (#[trigger] yr[p]).le(
                #[trigger] yr[q],
            ) by {
                assert(ys[p + 1].le(ys[q + 1]));
            }
        }
        assert(all_wf(xr)) by {
            assert forall|p: int| 0 <= p < xr.len() implies (#[trigger] xr[p]).wf() by {
                let p0 = if p < i { p } else { p + 1 };
                assert(xs[p0].wf());
            }
        }
        assert(all_wf(yr)) by {
            assert forall|p: int| 0 <= p < yr.len() implies (#[trigger] yr[p]).wf() by {
                assert(ys[p + 1].wf());
            }
        }
        lemma_arrangements_agree(xr, yr);
        assert forall|j: int| 0 <= j < xs.len() implies (#[trigger] xs[j]).same(ys[j]) by {
            if j > 0 {
                assert(yr[j - 1] == ys[j]);
                assert(xr[j - 1].same(yr[j - 1]));
                if j - 1 < i {
                    // xs[0] <= xs[j - 1] <= xs[j] <= xs[i] == ys[0] <= xs[0]
                    assert(xr[j - 1] == xs[j - 1]);
                    assert(xs[j - 1].le(xs[j]));
                    if j < i {
                        assert(xs[j].le(xs[i]));
                    } else {
                        xs[j].lemma_le_reflexive();
                    }
                    if j - 1 > 0 {
                        assert(xs[0].le(xs[j - 1]));
                    }
                    xs[j].lemma_le_transitive(ys[0], xs[0]);
                    xs[j].lemma_le_transitive(xs[0], xs[j - 1]);
                    // xs[j] and xs[j - 1] have the same value, and xs[j - 1] that of ys[j]
                    xs[j].lemma_le_transitive(xs[j - 1], ys[j]);
                    ys[j].lemma_le_transitive(xs[j - 1], xs[j]);
                } else {
                    assert(xr[j - 1] == xs[j]);
                }
            }
        }
    }
}

/// Sequences that hold the same values, place by place, bound the same spans.
pub proof fn lemma_same_values_same_spans(xs: Seq<Ratio>, ys: Seq<Ratio>, x: int)
    requires
        all_wf(xs),
        all_wf(ys),
        xs.len() == ys.len(),
        forall|j: int| 0 <= j < xs.len() ==> (#[trigger] xs[j]).same(ys[j]),
    ensures
        spans_cover(xs, x) == spans_cover(ys, x),
{
    assert forall|k: int| in_span(xs, k, x) == in_span(ys, k, x) by {
        if 0 <= k && 2 * k + 1 < xs.len() {
            xs[2 * k].lemma_same_rounding(ys[2 * k]);
            xs[2 * k + 1].lemma_same_rounding(ys[2 * k + 1]);
        }
    }
    if spans_cover(xs, x) {
        let k = choose|k: int| in_span(xs, k, x);
        assert(in_span(ys, k, x));
    }
    if spans_cover(ys, x) {
        let k = choose|k: int| in_span(ys, k, x);
        assert(in_span(xs, k, x));
    }
}

/// The columns that a scanline covers can be read off any one ascending
/// arrangement of its crossings: the order among crossings of equal value
/// makes no difference.
pub proof fn lemma_scanline_covers(vertices: Seq<Vertex>, y: int, xs: Seq<Ratio>, x: int)
    requires
        arranges(xs, crossings(vertices, y)),
    ensures
        scanline_covers(vertices, x, y) == spans_cover(xs, x),
{
    let cs = crossings(vertices, y);
    lemma_crossings_wf(vertices, y, vertices.len() as int);
    lemma_arrangement_wf(xs, cs);
    if scanline_covers(vertices, x, y) {
        let other = choose|other: Seq<Ratio>| #[trigger]
            arranges(other, crossings(vertices, y)) && spans_cover(other, x);
        lemma_arrangement_wf(other, cs);
        lemma_arrangements_agree(xs, other);
        lemma_same_values_same_spans(xs, other, x);
    }
}

/// No span is painted before the first; with each pair of crossings the
/// painted part of the row grows by the span between them.
pub proof fn lemma_spans_region_step(xs: Seq<Ratio>, y: int, k: int)
    requires
        0 <= k,
        2 * k + 1 < xs.len(),
    ensures
        spans_region_upto(xs, y, 0) == Set::<(int, int)>::empty(),
        spans_region_upto(xs, y, k + 1) == spans_region_upto(xs, y, k).union(
            span_region(xs[2 * k].ceil(), xs[2 * k + 1].floor(), y),
        ),
{
    let done = spans_region_upto(xs, y, k);
    let span = span_region(xs[2 * k].ceil(), xs[2 * k + 1].floor(), y);
    let next = spans_region_upto(xs, y, k + 1);
    assert forall|p: (int, int)| done.union(span).contains(p) == next.contains(p) by {
        if done.contains(p) {
            let j = choose|j: int| j < k && in_span(xs, j, p.0);
            assert(j < k + 1 && in_span(xs, j, p.0));
        }
        if span.contains(p) {
            assert(in_span(xs, k, p.0));
        }
        if next.contains(p) {
            let j = choose|j: int| j < k + 1 && in_span(xs, j, p.0);
            if j < k {
                assert(done.contains(p));
            }
        }
    }
    assert(done.union(span) =~= next);
    lemma_spans_region_whole(xs, y, 0);
}

/// Nothing is painted before the first span, and once every pair of
/// crossings has had its span the row is complete.
pub proof fn lemma_spans_region_whole(xs: Seq<Ratio>, y: int, k: int)
    requires
        0 <= k,
    ensures
        spans_region_upto(xs, y, 0) == Set::<(int, int)>::empty(),
        2 * k + 1 >= xs.len() ==> spans_region_upto(xs, y, k) == spans_region(xs, y),
{
    let none = spans_region_upto(xs, y, 0);
    assert forall|p: (int, int)| !none.contains(p) by {
        if none.contains(p) {
            let j = choose|j: int| j < 0 && in_span(xs, j, p.0);
        }
    }
    assert(none =~= Set::<(int, int)>::empty());
    if 2 * k + 1 >= xs.len() {
        let done = spans_region_upto(xs, y, k);
        let all = spans_region(xs, y);
        assert forall|p: (int, int)| done.contains(p) == all.contains(p) by {
            if done.contains(p) {
                let j = choose|j: int| j < k && in_span(xs, j, p.0);
                assert(in_span(xs, j, p.0));
            }
            if all.contains(p) {
                let j = choose|j: int| in_span(xs, j, p.0);
                assert(j < k);
            }
        }
        assert(done =~= all);
    }
}

/// With each scanline the filled rows grow by the spans of that scanline,
/// read off any ascending arrangement of its crossings.
pub proof fn lemma_filled_rows_step(vertices: Seq<Vertex>, top: int, y: int, xs: Seq<Ratio>)
    requires
        top <= y,
        arranges(xs, crossings(vertices, y)),
    ensures
        filled_rows(vertices, top, top) == Set::<(int, int)>::empty(),
        filled_rows(vertices, top, y + 1) == filled_rows(vertices, top, y).union(
            spans_region(xs, y),
        ),
{
    let done = filled_rows(vertices, top, y);
    let row = spans_region(xs, y);
    let next = filled_rows(vertices, top, y + 1);
    assert forall|p: (int, int)| done.union(row).contains(p) == next.contains(p) by {
        lemma_scanline_covers(vertices, y, xs, p.0);
    }
    assert(done.union(row) =~= next);
    assert(filled_rows(vertices, top, top) =~= Set::<(int, int)>::empty());
}

/// The filled rows hold all of the filled region that lies on them, and
/// the rows above the topmost vertex and from the bottommost one down hold
/// none of it.
pub proof fn lemma_filled_rows_complete(
    vertices: Seq<Vertex>,
    top: int,
    below: int,
    low: int,
    high: int,
    x: int,
    y: int,
)
    requires
        vertices.len() >= 3,
        forall|i: int| 0 <= i < vertices.len() ==> low <= (#[trigger] vertices[i]).y <= high,
        top <= y < below || y < low || y >= high,
    ensures
        filled_rows(vertices, top, below).contains((x, y)) == filled_region(vertices).contains(
            (x, y),
        ),
{
    if !(top <= y < below) {
        lemma_no_crossings_outside(vertices, y, low, high, vertices.len() as int);
        lemma_no_crossings_no_cover(vertices, x, y);
    }
}

/// An arrangement of quotients with positive denominators holds only such.
pub proof fn lemma_arrangement_wf(xs: Seq<Ratio>, ys: Seq<Ratio>)
    requires
        xs.to_multiset() == ys.to_multiset(),
        all_wf(ys),
    ensures
        all_wf(xs),
{
    assert forall|i: int| 0 <= i < xs.len() implies (#[trigger] xs[i]).wf() by {
        to_multiset_contains(xs, xs[i]);
        to_multiset_contains(ys, xs[i]);
        assert(xs.contains(xs[i]));
        let j = choose|j: int| 0 <= j < ys.len() && ys[j] == xs[i];
        assert(ys[j].wf());
    }
}

/// The greatest denominator of a crossing: the greatest difference of two
/// vertex ordinates.
pub const MAX_DEN: i64 = 0xFFFF_FFFF;

/// A bound on the magnitude of a crossing's numerator: more than an
/// abscissa times the greatest denominator can reach.
pub const MAX_NUM: i128 = 0x4_0000_0000_0000_0000;

/// The exact abscissa at which a polygon edge crosses a scanline.
#[derive(Clone, Copy, Debug)]
pub struct Crossing {
    num: i128,
    den: i64,
}

/// The quotients that a sequence of crossings stands for.
pub open spec fn ratios(crossings: Seq<Crossing>) -> Seq<Ratio> {
    crossings.map_values(|c: Crossing| c@)
}

impl Crossing {
    /// The denominator is positive, and both parts are small enough for two
    /// crossings to be set against each other without overflow.
    #[verifier::type_invariant]
    spec fn bounded(&self) -> bool {
        0 < self.den <= MAX_DEN && -MAX_NUM <= self.num <= MAX_NUM
    }

    /// The quotient that this crossing stands for.
    pub closed spec fn view(&self) -> Ratio {
        Ratio { num: self.num as int, den: self.den as int }
    }

    /// Where the edge between `a` and `b` crosses scanline `y`, if it does.
    pub fn of_edge(a: Vertex, b: Vertex, y: i32) -> (found: Option<Crossing>)
        ensures
            found is Some <==> crosses(a, b, y as int),
            found matches Some(c) ==> c@ == crossing_at(a, b, y as int) && c@.wf(),
    {
        if (a.y <= y && b.y > y) || (b.y <= y && a.y > y) {
            let ax: i128 = a.x as i128;
            let rise: i128 = b.y as i128 - a.y as i128;
            let down: i128 = y as i128 - a.y as i128;
            let run: i128 = b.x as i128 - a.x as i128;
            proof {
                lemma_product_bound(ax as int, rise as int, 0x8000_0000, 0xFFFF_FFFF);
                lemma_product_bound(down as int, run as int, 0xFFFF_FFFF, 0xFFFF_FFFF);
            }
            let num: i128 = ax * rise + down * run;
            if rise > 0 {
                Some(Crossing { num, den: rise as i64 })
            } else {
                Some(Crossing { num: -num, den: (-rise) as i64 })
            }
        } else {
            None
        }
    }

    /// Whether this crossing lies at or left of `other`.
    pub fn le(&self, other: &Crossing) -> (at_most: bool)
        ensures
            at_most == self@.le(other@),
    {
        proof {
            use_type_invariant(self);
            use_type_invariant(other);
            lemma_product_bound(
                self.num as int,
                other.den as int,
                0x4_0000_0000_0000_0000,
                0xFFFF_FFFF,
            );
            lemma_product_bound(
                other.num as int,
                self.den as int,
                0x4_0000_0000_0000_0000,
                0xFFFF_FFFF,
            );
        }
        self.num * (other.den as i128) <= other.num * (self.den as i128)
    }

    /// The last column at or left of the crossing.
    pub fn floor(&self) -> (column: i128)
        ensures
            column == self@.floor(),
    {
        proof {
            use_type_invariant(self);
        }
        let d: i128 = self.den as i128;
        if self.num >= 0 {
            self.num / d
        } else {
            proof {
                lemma_div_negated(-self.num as int, d as int);
            }
            -((-self.num + d - 1) / d)
        }
    }

    /// The first column at or right of the crossing.
    pub fn ceil(&self) -> (column: i128)
        ensures
            column == self@.ceil(),
    {
        proof {
            use_type_invariant(self);
        }
        let d: i128 = self.den as i128;
        if self.num <= 0 {
            -((-self.num) / d)
        } else {
            proof {
                lemma_div_negated(self.num as int, d as int);
            }
            (self.num + d - 1) / d
        }
    }
}

/// The least and the greatest ordinate among the vertices, if there is any
/// vertex.
pub fn vertical_extent(vertices: &[Vertex]) -> (extent: Option<(i32, i32)>)
    ensures
        extent is None <==> vertices@.len() == 0,
        extent matches Some((low, high)) ==> {
            &&& forall|i: int| 0 <= i < vertices@.len() ==> low <= (#[trigger] vertices@[i]).y <= high
            &&& exists|i: int| 0 <= i < vertices@.len() && vertices@[i].y == low
            &&& exists|i: int| 0 <= i < vertices@.len() && vertices@[i].y == high
        },
{
    if vertices.len() == 0 {
        return None;
    }
    let mut low: i32 = vertices[0].y;
    let mut high: i32 = vertices[0].y;
    let mut i: usize = 1;
    while i < vertices.len()
        invariant
            1 <= i <= vertices@.len(),
            forall|j: int| 0 <= j < i ==> low <= (#[trigger] vertices@[j]).y <= high,
            exists|j: int| 0 <= j < i && vertices@[j].y == low,
            exists|j: int| 0 <= j < i && vertices@[j].y == high,
        decreases vertices@.len() - i,
    {
        let y = vertices[i].y;
        if y < low {
            low = y;
        }
        if y > high {
            high = y;
        }
        i += 1;
    }
    Some((low, high))
}

/// Collects the crossings of scanline `y` with the edges of the polygon, in
/// edge order. Edge `i` runs from vertex `i` to the vertex after it, the
/// last edge back to vertex 0.
pub fn scanline_crossings(vertices: &[Vertex], y: i32) -> (found: Vec<Crossing>)
    ensures
        ratios(found@) == crossings(vertices@, y as int),
{
    let n = vertices.len();
    let mut found: Vec<Crossing> = Vec::new();
    let mut i: usize = 0;
    while i < n
        invariant
            i <= n,
            n == vertices@.len(),
            ratios(found@) == crossings_upto(vertices@, y as int, i as int),
        decreases n - i,
    {
        let j: usize = if i == n - 1 { 0 } else { i + 1 };
        let a = vertices[i];
        let b = vertices[j];
        assert(b == edge_end(vertices@, i as int));
        let ghost before = found@;
        match Crossing::of_edge(a, b, y) {
            Some(c) => {
                found.push(c);
                assert(ratios(found@) =~= ratios(before).push(c@));
            },
            None => {},
        }
        i += 1;
    }
    found
}

/// Puts crossings in ascending order, left to right.
pub fn sort_crossings(xs: &mut Vec<Crossing>)
    ensures
        arranges(ratios(final(xs)@), ratios(old(xs)@)),
{
    let n = xs.len();
    let mut sorted: Vec<Crossing> = Vec::new();
    let mut i: usize = 0;
    assert(xs@.take(0) =~= Seq::<Crossing>::empty());
    assert(ratios(sorted@) =~= ratios(xs@.take(0)));
    while i < n
        invariant
            i <= n,
            n == xs@.len(),
            sorted@.len() == i,
            ascending(ratios(sorted@)),
            all_wf(ratios(sorted@)),
            ratios(sorted@).to_multiset() == ratios(xs@.take(i as int)).to_multiset(),
        decreases n - i,
    {
        let next = xs[i];
        proof {
            use_type_invariant(&next);
        }
        let mut p: usize = sorted.len();
        while p > 0 && !sorted[p - 1].le(&next)
            invariant
                p <= sorted@.len(),
                forall|q: int| p <= q < sorted@.len() ==> next@.le(#[trigger] ratios(sorted@)[q]),
            decreases p,
        {
            proof {
                next@.lemma_le_total(ratios(sorted@)[p - 1]);
            }
            p -= 1;
        }
        let ghost before = ratios(sorted@);
        sorted.insert(p, next);
        proof {
            let after = ratios(sorted@);
            assert(after =~= before.insert(p as int, next@));
            assert forall|a: int, b: int| 0 <= a < b < after.len() implies (#[trigger] after[a]).le(
                #[trigger] after[b],
            ) by {
                if b == p {
                    // an element left of the new one is at most its left neighbour
                    assert(before[p - 1].le(next@));
                    if a < p - 1 {
                        assert(before[a].le(before[p - 1]));
                        before[a].lemma_le_transitive(before[p - 1], next@);
                    }
                } else if a == p {
                    assert(next@.le(before[b - 1]));
                } else {
                    let a0 = if a < p { a } else { a - 1 };
                    let b0 = if b < p { b } else { b - 1 };
                    assert(before[a0].le(before[b0]));
                }
            }
            assert forall|a: int| 0 <= a < after.len() implies (#[trigger] after[a]).wf() by {
                if a != p {
                    let a0 = if a < p { a } else { a - 1 };
                    assert(before[a0].wf());
                }
            }
            to_multiset_insert(before, p as int, next@);
            let taken = ratios(xs@.take(i as int));
            assert(ratios(xs@.take(i + 1)) =~= taken.push(next@));
            to_multiset_build(taken, next@);
        }
        i += 1;
    }
    assert(xs@.take(n as int) =~= xs@);
    *xs = sorted;
}

} // verus!
