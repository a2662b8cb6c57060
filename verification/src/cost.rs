//! What the cheapest vertical seam of an energy grid is, and why the seam that
//! the cumulative costs lead to is one.

use vstd::prelude::*;
use crate::array::Grid;

verus! {

/// A vertical seam of `g`: one column for each row, from the top row down, where
/// the columns of neighbouring rows differ by at most one.
pub open spec fn is_seam(g: Grid<u32>, seam: Seq<usize>) -> bool {
    &&& seam.len() == g.height()
    &&& forall|y: int| 0 <= y < seam.len() ==> seam[y] < g.width
    &&& forall|y: int|
        #![trigger seam[y]]
        0 <= y < seam.len() - 1 ==> seam[y] - 1 <= seam[y + 1] <= seam[y] + 1
}

/// Sum of the energies that `seam` crosses in row `y` and the rows below it.
pub open spec fn energy_from(g: Grid<u32>, seam: Seq<usize>, y: int) -> int
    decreases seam.len() - y,
{
    if 0 <= y < seam.len() {
        g.at(seam[y] as int, y) + energy_from(g, seam, y + 1)
    } else {
        0
    }
}

/// Sum of the energies of all cells that `seam` crosses.
pub open spec fn seam_energy(g: Grid<u32>, seam: Seq<usize>) -> int {
    energy_from(g, seam, 0)
}

/// The column to continue in from column `x`, and what the rest of the way costs
/// from there, given the costs from the three cells below: straight down unless
/// the left neighbour is strictly cheaper, and the right neighbour only if it is
/// strictly cheaper than both.
pub open spec fn preferred_step(width: nat, x: int, left: int, down: int, right: int) -> (
    int,
    int,
) {
    let (best, min) = if x > 0 && left < down {
        (x - 1, left)
    } else {
        (x, down)
    };
    if x < width - 1 && right < min {
        (x + 1, right)
    } else {
        (best, min)
    }
}

/// The least energy that a connected path from the cell in column `x` of row `y`
/// down to the bottom row can sum up to, the cell itself included.
pub open spec fn cheapest_from(g: Grid<u32>, x: int, y: int) -> int
    decreases g.height() - y,
{
    if y + 1 < g.height() {
        g.at(x, y) + preferred_step(
            g.width,
            x,
            cheapest_from(g, x - 1, y + 1),
            cheapest_from(g, x, y + 1),
            cheapest_from(g, x + 1, y + 1),
        ).1
    } else {
        g.at(x, y) as int
    }
}

/// The column in row `y + 1` that the seam through column `x` of row `y` goes on to.
pub open spec fn next_column(g: Grid<u32>, x: int, y: int) -> int {
    preferred_step(
        g.width,
        x,
        cheapest_from(g, x - 1, y + 1),
        cheapest_from(g, x, y + 1),
        cheapest_from(g, x + 1, y + 1),
    ).0
}

/// `x` is the leftmost of the columns from which the way down from the top row is cheapest.
pub open spec fn is_start_column(g: Grid<u32>, x: int) -> bool {
    &&& 0 <= x < g.width
    &&& forall|other: int|
        0 <= other < x ==> cheapest_from(g, other, 0) > cheapest_from(g, x, 0)
    &&& forall|other: int|
        x < other < g.width ==> cheapest_from(g, other, 0) >= cheapest_from(g, x, 0)
}

/// `seam` starts in the start column and goes on, row by row, to the preferred
/// one of the cells below.
pub open spec fn is_chosen_seam(g: Grid<u32>, seam: Seq<usize>) -> bool {
    &&& seam.len() == g.height()
    &&& seam.len() > 0 ==> is_start_column(g, seam[0] as int)
    &&& forall|y: int|
        #![trigger seam[y]]
        0 <= y < seam.len() - 1 ==> seam[y + 1] == next_column(g, seam[y] as int, y)
}

/// The way down from a cell costs at least nothing and at most the largest
/// energy for each row that is left.
pub proof fn lemma_cheapest_bounds(g: Grid<u32>, x: int, y: int)
    requires
        0 <= y < g.height(),
    ensures
        0 <= cheapest_from(g, x, y) <= (g.height() - y) * u32::MAX,
    decreases g.height() - y,
{
    let rest = g.height() - y;
    if y + 1 < g.height() {
        lemma_cheapest_bounds(g, x - 1, y + 1);
        lemma_cheapest_bounds(g, x, y + 1);
        lemma_cheapest_bounds(g, x + 1, y + 1);
        assert((rest - 1) * u32::MAX + u32::MAX == rest * u32::MAX) by (nonlinear_arith);
    } else {
        assert(rest * u32::MAX == u32::MAX) by (nonlinear_arith)
            requires
                rest == 1,
        ;
    }
}

/// The preferred step stays in the grid, moves by at most one column, and is
/// as cheap as any of the cells below that a seam can go on to.
pub proof fn lemma_next_column(g: Grid<u32>, x: int, y: int)
    requires
        0 <= x < g.width,
        0 <= y < g.height() - 1,
    ensures
        0 <= next_column(g, x, y) < g.width,
        x - 1 <= next_column(g, x, y) <= x + 1,
        cheapest_from(g, x, y) == g.at(x, y) + cheapest_from(g, next_column(g, x, y), y + 1),
        forall|below: int|
            0 <= below < g.width && x - 1 <= below <= x + 1 ==> cheapest_from(
                g,
                next_column(g, x, y),
                y + 1,
            ) <= #[trigger] cheapest_from(g, below, y + 1),
{
}

/// Ties go to the step straight down, then to the step to the left: a seam
/// goes left only where that is strictly cheaper than going straight on, and
/// right only where that is strictly cheaper than both.
pub proof fn lemma_ties_prefer_straight_then_left(g: Grid<u32>, x: int, y: int)
    requires
        0 <= x < g.width,
        0 <= y < g.height() - 1,
    ensures
        ({
            let left = cheapest_from(g, x - 1, y + 1);
            let down = cheapest_from(g, x, y + 1);
            let right = cheapest_from(g, x + 1, y + 1);
            let next = next_column(g, x, y);
            &&& next == x <==> (x == 0 || down <= left) && (x == g.width - 1 || down <= right)
            &&& next == x - 1 <==> x > 0 && left < down && (x == g.width - 1 || left <= right)
            &&& next == x + 1 <==> x < g.width - 1 && right < down && (x == 0 || right < left)
        }),
{
}

/// No seam is cheaper from row `y` on than the cheapest way down from its cell in that row.
pub proof fn lemma_seam_costs_at_least(g: Grid<u32>, seam: Seq<usize>, y: int)
    requires
        is_seam(g, seam),
        0 <= y < g.height(),
    ensures
        cheapest_from(g, seam[y] as int, y) <= energy_from(g, seam, y),
    decreases g.height() - y,
{
    if y + 1 < g.height() {
        lemma_seam_costs_at_least(g, seam, y + 1);
        lemma_next_column(g, seam[y] as int, y);
        assert(cheapest_from(g, next_column(g, seam[y] as int, y), y + 1) <= cheapest_from(
            g,
            seam[y + 1] as int,
            y + 1,
        ));
    } else {
        assert(energy_from(g, seam, y + 1) == 0);
    }
}

/// The chosen seam is a seam, and from each row on it costs exactly the
/// cheapest way down from its cell in that row.
pub proof fn lemma_chosen_seam_cost(g: Grid<u32>, seam: Seq<usize>, y: int)
    requires
        is_chosen_seam(g, seam),
        0 <= y < g.height(),
    ensures
        seam[y] < g.width,
        y + 1 < g.height() ==> seam[y] - 1 <= seam[y + 1] <= seam[y] + 1,
        energy_from(g, seam, y) == cheapest_from(g, seam[y] as int, y),
    decreases g.height() - y,
{
    lemma_chosen_seam_columns(g, seam, y);
    if y + 1 < g.height() {
        lemma_chosen_seam_cost(g, seam, y + 1);
        lemma_next_column(g, seam[y] as int, y);
    } else {
        assert(energy_from(g, seam, y + 1) == 0);
    }
}

/// The chosen seam stays inside the grid.
proof fn lemma_chosen_seam_columns(g: Grid<u32>, seam: Seq<usize>, y: int)
    requires
        is_chosen_seam(g, seam),
        0 <= y < g.height(),
    ensures
        seam[y] < g.width,
    decreases y,
{
    if y > 0 {
        lemma_chosen_seam_columns(g, seam, y - 1);
        lemma_next_column(g, seam[y - 1] as int, y - 1);
    }
}

/// The chosen seam is a seam of the grid, and no seam of the grid has less energy.
pub proof fn lemma_chosen_seam_is_cheapest(g: Grid<u32>, seam: Seq<usize>)
    requires
        is_chosen_seam(g, seam),
    ensures
        is_seam(g, seam),
        forall|other: Seq<usize>| #[trigger]
            is_seam(g, other) ==> seam_energy(g, seam) <= seam_energy(g, other),
{
    assert forall|y: int| 0 <= y < seam.len() implies seam[y] < g.width by {
        lemma_chosen_seam_cost(g, seam, y);
    }
    assert forall|y: int| #![trigger seam[y]] 0 <= y < seam.len() - 1 implies seam[y] - 1 <= seam[y
        + 1] <= seam[y] + 1 by {
        lemma_chosen_seam_cost(g, seam, y);
    }
    assert forall|other: Seq<usize>| #[trigger] is_seam(g, other) implies seam_energy(g, seam)
        <= seam_energy(g, other) by {
        if g.height() > 0 {
            lemma_chosen_seam_cost(g, seam, 0);
            lemma_seam_costs_at_least(g, other, 0);
        }
    }
}

/// Only one seam is the chosen seam of a grid.
pub proof fn lemma_chosen_seam_unique(g: Grid<u32>, a: Seq<usize>, b: Seq<usize>)
    requires
        is_chosen_seam(g, a),
        is_chosen_seam(g, b),
    ensures
        a == b,
{
    assert forall|y: int| 0 <= y < a.len() implies a[y] == b[y] by {
        lemma_chosen_seams_agree(g, a, b, y);
    }
    assert(a =~= b);
}

/// Two chosen seams of a grid are in the same column in every row.
proof fn lemma_chosen_seams_agree(g: Grid<u32>, a: Seq<usize>, b: Seq<usize>, y: int)
    requires
        is_chosen_seam(g, a),
        is_chosen_seam(g, b),
        0 <= y < g.height(),
    ensures
        a[y] == b[y],
    decreases y,
{
    if y > 0 {
        lemma_chosen_seams_agree(g, a, b, y - 1);
    } else {
        let (p, q) = (a[0] as int, b[0] as int);
        if p < q {
            assert(cheapest_from(g, p, 0) > cheapest_from(g, q, 0));
        } else if q < p {
            assert(cheapest_from(g, q, 0) > cheapest_from(g, p, 0));
        }
    }
}

} // verus!
