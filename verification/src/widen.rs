//! What a line of pixels looks like once seams have been inserted in it.

use vstd::prelude::*;
use vstd::relations::{sorted_by, total_ordering};
use vstd::seq_lib::lemma_sorted_unique;
use crate::pixels::{black, Color};

verus! {

/// The average of two channel values, rounded down.
pub open spec fn mean(a: u8, b: u8) -> u8 {
    ((a + b) / 2) as u8
}

/// The channel-wise average of two pixels.
pub open spec fn blend(a: Color, b: Color) -> Color {
    (mean(a.0, b.0), mean(a.1, b.1), mean(a.2, b.2))
}

/// The position before `pos` in a line; the first position stands for its own
/// predecessor.
pub open spec fn before(pos: int) -> int {
    if pos > 0 {
        pos - 1
    } else {
        0
    }
}

/// The position after `pos` in a line of `len` cells; after the last one comes
/// the first.
pub open spec fn after(pos: int, len: int) -> int {
    if pos + 1 < len {
        pos + 1
    } else {
        0
    }
}

/// What the scan of a line has laid down when it has passed the first `upto`
/// cells.
///
/// `marks` are the positions to insert at, in ascending order. The scan takes
/// them one after the other: a cell at the next mark is replaced by two blends,
/// one with its predecessor and one with its successor, and the mark is used
/// up; any other cell is laid down as it is.
pub open spec fn widened_prefix(line: Seq<Color>, marks: Seq<usize>, upto: nat) -> Seq<Color>
    decreases upto,
{
    if upto == 0 {
        Seq::empty()
    } else {
        let pos = upto - 1;
        let laid = widened_prefix(line, marks, pos as nat);
        let used = laid.len() - pos;
        if used < marks.len() && marks[used] == pos {
            laid.push(blend(line[before(pos)], line[pos])).push(
                blend(line[pos], line[after(pos, line.len() as int)]),
            )
        } else {
            laid.push(line[pos])
        }
    }
}

/// The line with one more cell for each mark: what the scan of the whole line
/// lays down, and black where it laid down nothing.
pub open spec fn widened(line: Seq<Color>, marks: Seq<usize>) -> Seq<Color> {
    let laid = widened_prefix(line, marks, line.len());
    Seq::new(
        line.len() + marks.len(),
        |i: int|
            if i < laid.len() {
                laid[i]
            } else {
                black()
            },
    )
}

/// The order in which marks are taken.
pub open spec fn ascending() -> spec_fn(usize, usize) -> bool {
    |a: usize, b: usize| a <= b
}

/// The marks in ascending order.
pub open spec fn in_ascending_order(marks: Seq<usize>) -> Seq<usize> {
    marks.sort_by(ascending())
}

/// Each mark lies to the right of the marks before it.
pub open spec fn strictly_ascending(marks: Seq<usize>) -> bool {
    forall|i: int, j: int| 0 <= i < j < marks.len() ==> marks[i] < marks[j]
}

/// Number of marks to the left of position `pos`.
pub open spec fn marks_before(marks: Seq<usize>, pos: int) -> nat
    decreases marks.len(),
{
    if marks.len() == 0 {
        0
    } else {
        marks_before(marks.drop_last(), pos) + if marks.last() < pos {
            1nat
        } else {
            0nat
        }
    }
}

/// In ascending marks, the marks to the left of a position are the first ones.
proof fn lemma_marks_before(marks: Seq<usize>, pos: int)
    requires
        sorted_by(marks, ascending()),
    ensures
        marks_before(marks, pos) <= marks.len(),
        forall|i: int|
            0 <= i < marks.len() ==> (#[trigger] marks[i] < pos <==> i < marks_before(marks, pos)),
    decreases marks.len(),
{
    if marks.len() > 0 {
        let front = marks.drop_last();
        let last = marks.len() - 1;
        assert forall|i: int, j: int| 0 <= i < j < front.len() implies #[trigger] ascending()(
            front[i],
            front[j],
        ) by {
            assert(front[i] == marks[i] && front[j] == marks[j]);
            assert(ascending()(marks[i], marks[j]));
        }
        lemma_marks_before(front, pos);
        let count = marks_before(marks, pos);
        let count_front = marks_before(front, pos);
        assert(count == count_front + if marks[last] < pos { 1nat } else { 0nat });
        assert forall|i: int| 0 <= i < marks.len() implies (#[trigger] marks[i] < pos <==> i
            < count) by {
            if i < last {
                assert(front[i] == marks[i]);
                assert(front[i] < pos <==> i < count_front);
                assert(ascending()(marks[i], marks[last]));
                assert(marks[i] <= marks[last]);
            } else if last > 0 {
                assert(front[last - 1] == marks[last - 1]);
                assert(front[last - 1] < pos <==> last - 1 < count_front);
                assert(ascending()(marks[last - 1], marks[last]));
                assert(marks[last - 1] <= marks[last]);
            } else {
                assert(count_front == 0);
            }
        }
    }
}

/// One step of the scan: what it has laid down when it has passed the cell at
/// `pos`, in terms of what it had laid down before.
proof fn lemma_scan_step(line: Seq<Color>, marks: Seq<usize>, pos: nat)
    ensures
        ({
            let laid = widened_prefix(line, marks, pos);
            let used = laid.len() - pos;
            widened_prefix(line, marks, pos + 1) == if used < marks.len() && marks[used] == pos {
                laid.push(blend(line[before(pos as int)], line[pos as int])).push(
                    blend(line[pos as int], line[after(pos as int, line.len() as int)]),
                )
            } else {
                laid.push(line[pos as int])
            }
        }),
{
    assert((pos + 1) as nat - 1 == pos);
}

/// Where each mark lies to the right of the one before, the scan has used, at
/// every position, the marks to the left of it.
proof fn lemma_scan_uses_marks_before(line: Seq<Color>, marks: Seq<usize>, upto: nat)
    requires
        strictly_ascending(marks),
    ensures
        widened_prefix(line, marks, upto).len() == upto + marks_before(marks, upto as int),
    decreases upto,
{
    assert(sorted_by(marks, ascending())) by {
        assert forall|i: int, j: int| 0 <= i < j < marks.len() implies #[trigger] ascending()(
            marks[i],
            marks[j],
        ) by {
            assert(marks[i] < marks[j]);
        }
    }
    if upto > 0 {
        let pos = (upto - 1) as nat;
        lemma_scan_uses_marks_before(line, marks, pos);
        lemma_scan_step(line, marks, pos);
        lemma_marks_before(marks, pos as int);
        lemma_marks_before(marks, upto as int);
        let laid = widened_prefix(line, marks, pos);
        let used = marks_before(marks, pos as int) as int;
        let then = marks_before(marks, upto as int) as int;
        assert(laid.len() - pos == used);
        if used < marks.len() && marks[used] == pos {
            assert(widened_prefix(line, marks, upto).len() == laid.len() + 2);
            assert(marks[used] < upto);
            assert(used < then);
            if then > used + 1 {
                assert(marks[used + 1] < upto);
                assert(marks[used] < marks[used + 1]);
            }
            assert(then == used + 1);
        } else {
            assert(widened_prefix(line, marks, upto).len() == laid.len() + 1);
            if then < used {
                assert(marks[then] < pos);
                assert(marks[then] < upto);
            }
            if then > used {
                assert(marks[used] < upto);
                assert(!(marks[used] < pos));
                assert(marks[used] == pos);
            }
            assert(then == used);
        }
    } else {
        lemma_marks_before(marks, 0);
        if marks_before(marks, 0) > 0 {
            assert(marks[0] < 0);
        }
        assert(marks_before(marks, 0) == 0);
    }
}

/// What the scan has laid down stays as it is while the scan goes on.
proof fn lemma_scan_keeps_what_is_laid(line: Seq<Color>, marks: Seq<usize>, upto: nat, later: nat)
    requires
        upto <= later,
    ensures
        widened_prefix(line, marks, upto).len() <= widened_prefix(line, marks, later).len(),
        forall|i: int|
            0 <= i < widened_prefix(line, marks, upto).len() ==> widened_prefix(
                line,
                marks,
                later,
            )[i] == widened_prefix(line, marks, upto)[i],
    decreases later,
{
    if upto < later {
        let earlier = (later - 1) as nat;
        lemma_scan_keeps_what_is_laid(line, marks, upto, earlier);
        lemma_scan_step(line, marks, earlier);
        let first = widened_prefix(line, marks, upto);
        let laid = widened_prefix(line, marks, earlier);
        let next = widened_prefix(line, marks, later);
        assert(laid.len() <= next.len());
        assert forall|i: int| 0 <= i < first.len() implies next[i] == first[i] by {
            assert(next[i] == laid[i]);
            assert(laid[i] == first[i]);
        }
    }
}

/// Where the marks are positions of the line in strictly ascending order, the
/// scan of the whole line uses every one of them.
proof fn lemma_scan_uses_all_marks(line: Seq<Color>, marks: Seq<usize>)
    requires
        strictly_ascending(marks),
        forall|j: int| 0 <= j < marks.len() ==> marks[j] < line.len(),
    ensures
        widened_prefix(line, marks, line.len()).len() == line.len() + marks.len(),
        widened(line, marks) == widened_prefix(line, marks, line.len()),
{
    let len = line.len();
    let whole = widened_prefix(line, marks, len);
    lemma_scan_uses_marks_before(line, marks, len);
    assert(sorted_by(marks, ascending()));
    lemma_marks_before(marks, len as int);
    let used = marks_before(marks, len as int) as int;
    assert(used == marks.len()) by {
        if used < marks.len() {
            assert(marks[used] < len);
        }
    }
    assert(whole.len() == len + marks.len());
    assert(widened(line, marks).len() == whole.len());
    assert(widened(line, marks) =~= whole);
}

/// Where the marks are in strictly ascending order, `rank` marks lie to the
/// left of the mark of that rank.
proof fn lemma_rank_of_mark(marks: Seq<usize>, rank: int)
    requires
        strictly_ascending(marks),
        0 <= rank < marks.len(),
    ensures
        marks_before(marks, marks[rank] as int) == rank,
{
    let pos = marks[rank] as int;
    assert(sorted_by(marks, ascending()));
    lemma_marks_before(marks, pos);
    let count = marks_before(marks, pos) as int;
    assert(!(marks[rank] < pos));
    assert(!(rank < count));
    if rank > 0 {
        assert(marks[rank - 1] < marks[rank]);
        assert(marks[rank - 1] < pos);
        assert(rank - 1 < count);
    }
}

/// The mark of rank `rank` gives its two blends, `rank` cells further on than
/// the mark itself.
proof fn lemma_mark_gives_blends(line: Seq<Color>, marks: Seq<usize>, rank: int)
    requires
        strictly_ascending(marks),
        forall|j: int| 0 <= j < marks.len() ==> marks[j] < line.len(),
        0 <= rank < marks.len(),
    ensures
        marks[rank] + rank + 1 < line.len() + marks.len(),
        widened(line, marks)[marks[rank] + rank] == blend(
            line[before(marks[rank] as int)],
            line[marks[rank] as int],
        ),
        widened(line, marks)[marks[rank] + rank + 1] == blend(
            line[marks[rank] as int],
            line[after(marks[rank] as int, line.len() as int)],
        ),
{
    let len = line.len();
    let pos = marks[rank] as nat;
    assert(pos < len);
    lemma_scan_uses_all_marks(line, marks);
    lemma_rank_of_mark(marks, rank);
    lemma_scan_uses_marks_before(line, marks, pos);
    lemma_scan_step(line, marks, pos);
    lemma_scan_keeps_what_is_laid(line, marks, pos + 1, len);
    let laid = widened_prefix(line, marks, pos);
    let next = widened_prefix(line, marks, pos + 1);
    let whole = widened_prefix(line, marks, len);
    let first = blend(line[before(pos as int)], line[pos as int]);
    let second = blend(line[pos as int], line[after(pos as int, len as int)]);
    assert(laid.len() == pos + rank);
    assert(laid.len() - pos == rank);
    assert(next == laid.push(first).push(second));
    assert(next.len() == pos + rank + 2);
    assert(next[pos + rank] == first);
    assert(next[pos + rank + 1] == second);
    assert(whole[pos + rank] == next[pos + rank]);
    assert(whole[pos + rank + 1] == next[pos + rank + 1]);
    assert(next.len() <= whole.len());
}

/// A cell that is no mark stands in the widened line as it was, behind the
/// cells that the marks to its left have added.
proof fn lemma_unmarked_cell_is_kept(line: Seq<Color>, marks: Seq<usize>, pos: int)
    requires
        strictly_ascending(marks),
        forall|j: int| 0 <= j < marks.len() ==> marks[j] < line.len(),
        0 <= pos < line.len(),
        !marks.contains(pos as usize),
    ensures
        pos + marks_before(marks, pos) < line.len() + marks.len(),
        widened(line, marks)[pos + marks_before(marks, pos)] == line[pos],
{
    let len = line.len();
    let at = pos as nat;
    lemma_scan_uses_all_marks(line, marks);
    lemma_scan_uses_marks_before(line, marks, at);
    lemma_scan_step(line, marks, at);
    lemma_scan_keeps_what_is_laid(line, marks, at + 1, len);
    let laid = widened_prefix(line, marks, at);
    let next = widened_prefix(line, marks, at + 1);
    let whole = widened_prefix(line, marks, len);
    let used = marks_before(marks, pos) as int;
    assert(laid.len() == pos + used);
    assert(laid.len() - at == used);
    if used < marks.len() && marks[used] == pos {
        assert(marks[used] == pos as usize);
        assert(marks.contains(marks[used]));
    }
    assert(next == laid.push(line[pos]));
    assert(next[pos + used] == line[pos]);
    assert(whole[pos + used] == next[pos + used]);
    assert(next.len() <= whole.len());
}

/// Where the marks are positions of the line in strictly ascending order, the
/// widened line has no black cell that the scan left: every mark has given its
/// two blends, and every other cell of the line stands, as it was, behind the
/// cells that the marks to its left have added.
pub proof fn lemma_widened_at_ascending_marks(line: Seq<Color>, marks: Seq<usize>)
    requires
        strictly_ascending(marks),
        forall|j: int| 0 <= j < marks.len() ==> marks[j] < line.len(),
    ensures
        widened(line, marks).len() == line.len() + marks.len(),
        widened(line, marks) == widened_prefix(line, marks, line.len()),
        forall|j: int|
            #![trigger marks[j]]
            0 <= j < marks.len() ==> {
                &&& widened(line, marks)[marks[j] + j] == blend(
                    line[before(marks[j] as int)],
                    line[marks[j] as int],
                )
                &&& widened(line, marks)[marks[j] + j + 1] == blend(
                    line[marks[j] as int],
                    line[after(marks[j] as int, line.len() as int)],
                )
            },
        forall|pos: int|
            0 <= pos < line.len() && !marks.contains(pos as usize) ==> widened(line, marks)[pos
                + marks_before(marks, pos)] == #[trigger] line[pos],
{
    lemma_scan_uses_all_marks(line, marks);
    assert forall|j: int| #![trigger marks[j]] 0 <= j < marks.len() implies {
        &&& widened(line, marks)[marks[j] + j] == blend(
            line[before(marks[j] as int)],
            line[marks[j] as int],
        )
        &&& widened(line, marks)[marks[j] + j + 1] == blend(
            line[marks[j] as int],
            line[after(marks[j] as int, line.len() as int)],
        )
    } by {
        lemma_mark_gives_blends(line, marks, j);
    }
    assert forall|pos: int| 0 <= pos < line.len() && !marks.contains(pos as usize) implies widened(
        line,
        marks,
    )[pos + marks_before(marks, pos)] == #[trigger] line[pos] by {
        lemma_unmarked_cell_is_kept(line, marks, pos);
    }
}

/// Marks that are all different come, in ascending order, each to the right of
/// the one before; and ordering them keeps them inside the line.
pub proof fn lemma_distinct_marks_ascend_strictly(marks: Seq<usize>, len: nat)
    requires
        marks.no_duplicates(),
        forall|j: int| 0 <= j < marks.len() ==> marks[j] < len,
    ensures
        strictly_ascending(in_ascending_order(marks)),
        forall|j: int|
            0 <= j < in_ascending_order(marks).len() ==> #[trigger] in_ascending_order(marks)[j]
                < len,
        forall|mark: usize| marks.contains(mark) <==> in_ascending_order(marks).contains(mark),
{
    let sorted = in_ascending_order(marks);
    marks.lemma_sort_by_ensures(ascending());
    marks.to_multiset_ensures();
    sorted.to_multiset_ensures();
    marks.lemma_multiset_has_no_duplicates();
    sorted.lemma_multiset_has_no_duplicates_conv();
    assert forall|i: int, j: int| 0 <= i < j < sorted.len() implies sorted[i] < sorted[j] by {
        assert(ascending()(sorted[i], sorted[j]));
    }
    assert forall|mark: usize| marks.contains(mark) <==> sorted.contains(mark) by {
        assert(marks.to_multiset().count(mark) == sorted.to_multiset().count(mark));
    }
    assert forall|j: int| 0 <= j < sorted.len() implies #[trigger] sorted[j] < len by {
        assert(sorted.contains(sorted[j]));
        assert(marks.contains(sorted[j]));
    }
}

/// Putting marks in order neither adds nor drops one.
pub proof fn lemma_ascending_order_len(marks: Seq<usize>)
    ensures
        in_ascending_order(marks).len() == marks.len(),
{
    marks.lemma_sort_by_ensures(ascending());
    marks.to_multiset_ensures();
    in_ascending_order(marks).to_multiset_ensures();
}

/// A sequence in ascending order with the same values as `marks`, each as often
/// as there, is `marks` in ascending order.
pub proof fn lemma_ascending_order_is_unique(marks: Seq<usize>, sorted: Seq<usize>)
    requires
        sorted_by(sorted, ascending()),
        sorted.to_multiset() == marks.to_multiset(),
    ensures
        sorted == in_ascending_order(marks),
        sorted.len() == marks.len(),
{
    marks.lemma_sort_by_ensures(ascending());
    lemma_sorted_unique(sorted, in_ascending_order(marks), ascending());
    marks.to_multiset_ensures();
    sorted.to_multiset_ensures();
}

/// `slice::sort_unstable`: puts the values in ascending order; each value is
/// there as often as before.
#[verifier::external_body]
fn sort_unstable(values: &mut Vec<usize>)
    ensures
        sorted_by(final(values)@, ascending()),
        final(values)@.to_multiset() == old(values)@.to_multiset(),
{
    values.sort_unstable()
}

/// A copy of `marks` in ascending order.
pub(crate) fn sorted_copy(marks: &Vec<usize>) -> (sorted: Vec<usize>)
    ensures
        sorted@ == in_ascending_order(marks@),
        sorted@.len() == marks@.len(),
{
    let mut sorted = marks.clone();
    sort_unstable(&mut sorted);
    proof {
        lemma_ascending_order_is_unique(marks@, sorted@);
    }
    sorted
}

} // verus!
