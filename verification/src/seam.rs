//! Finding the cheapest vertical seam of an energy grid, and widening an image
//! along a batch of seams.

use vstd::prelude::*;
use crate::array::{lemma_with_cell, Array2d, Grid};
use crate::cost::{
    cheapest_from, is_chosen_seam, is_seam, is_start_column, lemma_cheapest_bounds,
    lemma_chosen_seam_is_cheapest, next_column, seam_energy,
};
use crate::pixels::{
    black, dimensions, fits, get_pixel, image_column, image_height, image_row, image_width,
    new_image, pixel_at, put_pixel, size_fits, Color, PixelBuffer,
};
use crate::widen::{
    after, before, blend, in_ascending_order, lemma_ascending_order_len,
    lemma_distinct_marks_ascend_strictly, lemma_widened_at_ascending_marks, mean, sorted_copy,
    widened, widened_prefix,
};

verus! {

/// `cost` holds, for every cell of `g` in a row below `above`, what the cheapest
/// way down from it costs.
spec fn costs_filled_below(g: Grid<u32>, cost: Grid<u128>, above: int) -> bool {
    &&& cost.wf()
    &&& cost.width == g.width
    &&& cost.height() == g.height()
    &&& forall|x: int, y: int|
        0 <= x < g.width && above < y < g.height() ==> #[trigger] cost.at(x, y) == cheapest_from(
            g,
            x,
            y,
        )
}

/// `path` holds, for every cell of `g` in the rows from `from` down to the last
/// but one, the column that the seam through it goes on to.
spec fn steps_filled_from(g: Grid<u32>, path: Grid<usize>, from: int) -> bool {
    &&& path.wf()
    &&& path.width == g.width
    &&& path.height() == g.height() - 1
    &&& forall|x: int, y: int|
        0 <= x < g.width && from <= y < g.height() - 1 ==> #[trigger] path.at(x, y) == next_column(
            g,
            x,
            y,
        )
}

/// Fills in, from the bottom row up, what the cheapest way down from each cell
/// costs and, for all rows but the last, in which column it goes on.
fn cumulative_costs(energy: &Array2d<u32>) -> (tables: (Array2d<u128>, Array2d<usize>))
    requires
        energy@.wf(),
        energy@.height() > 0,
    ensures
        costs_filled_below(energy@, tables.0@, -1),
        steps_filled_from(energy@, tables.1@, 0),
{
    let (width, height, size) = (energy.width(), energy.height(), energy.size());
    proof {
        assert(size - width == (height - 1) * width + 0) by (nonlinear_arith)
            requires
                size == width * height,
        ;
        vstd::arithmetic::div_mod::lemma_fundamental_div_mod_converse(
            size - width,
            width as int,
            height - 1,
            0,
        );
    }
    let steps = size - width;
    let mut cost = Array2d::new(width, vec![0u128; size]).unwrap();
    let mut path = Array2d::new(width, vec![0usize; steps]).unwrap();
    let mut x: usize = 0;
    while x < width
        invariant
            x <= width,
            energy@.wf(),
            energy@.width == width,
            energy@.height() == height,
            height > 0,
            cost@.wf(),
            cost@.width == width,
            cost@.height() == height,
            forall|i: int|
                0 <= i < x ==> #[trigger] cost@.at(i, height - 1) == energy@.at(i, height - 1),
        decreases width - x,
    {
        proof {
            lemma_with_cell(cost@, x as int, height - 1, energy@.at(x as int, height - 1) as u128);
        }
        *cost.index_mut((x, height - 1)) = energy[(x, height - 1)] as u128;
        x += 1;
    }
    let mut y: usize = height - 1;
    while y > 0
        invariant
            y < height,
            energy@.wf(),
            energy@.width == width,
            energy@.height() == height,
            costs_filled_below(energy@, cost@, y - 1),
            steps_filled_from(energy@, path@, y as int),
        decreases y,
    {
        y -= 1;
        let mut x: usize = 0;
        while x < width
            invariant
                x <= width,
                y + 1 < height,
                energy@.wf(),
                energy@.width == width,
                energy@.height() == height,
                costs_filled_below(energy@, cost@, y as int),
                steps_filled_from(energy@, path@, y + 1),
                forall|i: int|
                    0 <= i < x ==> #[trigger] cost@.at(i, y as int) == cheapest_from(
                        energy@,
                        i,
                        y as int,
                    ),
                forall|i: int|
                    0 <= i < x ==> #[trigger] path@.at(i, y as int) == next_column(
                        energy@,
                        i,
                        y as int,
                    ),
            decreases width - x,
        {
            let (mut best_index, mut min_cost) = (x, cost[(x, y + 1)]);
            if x > 0 && cost[(x - 1, y + 1)] < min_cost {
                best_index = x - 1;
                min_cost = cost[(x - 1, y + 1)];
            }
            if x < width - 1 && cost[(x + 1, y + 1)] < min_cost {
                best_index = x + 1;
                min_cost = cost[(x + 1, y + 1)];
            }
            proof {
                lemma_cheapest_bounds(energy@, best_index as int, y + 1);
                assert((height - y - 1) * u32::MAX + u32::MAX <= u128::MAX) by (nonlinear_arith)
                    requires
                        0 <= height - y - 1 <= usize::MAX,
                ;
                let total = (energy@.at(x as int, y as int) + min_cost) as u128;
                lemma_with_cell(path@, x as int, y as int, best_index);
                lemma_with_cell(cost@, x as int, y as int, total);
            }
            *path.index_mut((x, y)) = best_index;
            *cost.index_mut((x, y)) = energy[(x, y)] as u128 + min_cost;
            x += 1;
        }
    }
    (cost, path)
}

/// The leftmost column of the top row from which the way down is cheapest.
fn start_column(energy: &Array2d<u32>, cost: &Array2d<u128>) -> (start: usize)
    requires
        energy@.height() > 0,
        costs_filled_below(energy@, cost@, -1),
    ensures
        is_start_column(energy@, start as int),
{
    let width = cost.width();
    let mut start: usize = 0;
    let mut x: usize = 1;
    while x < width
        invariant
            0 <= start < x <= width,
            width == energy@.width,
            energy@.height() > 0,
            costs_filled_below(energy@, cost@, -1),
            forall|i: int|
                0 <= i < start ==> cheapest_from(energy@, i, 0) > cheapest_from(
                    energy@,
                    start as int,
                    0,
                ),
            forall|i: int|
                start < i < x ==> cheapest_from(energy@, i, 0) >= cheapest_from(
                    energy@,
                    start as int,
                    0,
                ),
        decreases width - x,
    {
        if cost[(x, 0)] < cost[(start, 0)] {
            start = x;
        }
        x += 1;
    }
    start
}

/// The vertical seam of least total energy: one column for each row, top to
/// bottom, neighbouring rows at most one column apart.
///
/// Among seams of equal energy it is the one that starts leftmost and at each
/// row prefers going straight down to going left, and going left to going right.
/// A grid without rows has the empty seam.
pub fn find_vertical_seam(energy: &Array2d<u32>) -> (seam: Vec<usize>)
    ensures
        is_chosen_seam(energy@, seam@),
        is_seam(energy@, seam@),
        forall|other: Seq<usize>| #[trigger]
            is_seam(energy@, other) ==> seam_energy(energy@, seam@) <= seam_energy(energy@, other),
{
    let height = energy.height();
    let mut seam = Vec::with_capacity(height);
    if height > 0 {
        let (cost, path) = cumulative_costs(energy);
        seam.push(start_column(energy, &cost));
        let mut y: usize = 0;
        while y < height - 1
            invariant
                y < height,
                height == energy@.height(),
                energy@.wf(),
                steps_filled_from(energy@, path@, 0),
                seam@.len() == y + 1,
                is_start_column(energy@, seam@[0] as int),
                forall|i: int| 0 <= i <= y ==> seam@[i] < energy@.width,
                forall|i: int|
                    #![trigger seam@[i]]
                    0 <= i < y ==> seam@[i + 1] == next_column(energy@, seam@[i] as int, i),
            decreases height - y,
        {
            proof {
                crate::cost::lemma_next_column(energy@, seam@[y as int] as int, y as int);
            }
            seam.push(path[(seam[y], y)]);
            y += 1;
        }
    }
    proof {
        lemma_chosen_seam_is_cheapest(energy@, seam@);
    }
    seam
}

/// `num_traits::ToPrimitive::to_u8` on a `u8`: the value itself, which always fits.
#[verifier::external_body]
fn channel_to_u8(channel: u8) -> (value: Option<u8>)
    ensures
        value == Some(channel),
{
    num_traits::ToPrimitive::to_u8(&channel)
}

/// The average of two channel values, rounded down, computed without leaving
/// the range of a channel.
pub fn avg_channel(channel_1: u8, channel_2: u8) -> (avg: u8)
    ensures
        avg == mean(channel_1, channel_2),
        avg == (channel_1 + channel_2) / 2,
        avg == channel_1 / 2 + channel_2 / 2 + (channel_1 % 2 + channel_2 % 2) / 2,
{
    let channel_1 = channel_to_u8(channel_1).unwrap_or(u8::MAX);
    let channel_2 = channel_to_u8(channel_2).unwrap_or(u8::MAX);
    (channel_1 / 2) + (channel_2 / 2) + ((channel_1 % 2 + channel_2 % 2) / 2)
}

/// The channel-wise average of two pixels.
pub fn avg_pixel(pixel_1: Color, pixel_2: Color) -> (avg: Color)
    ensures
        avg == blend(pixel_1, pixel_2),
{
    (
        avg_channel(pixel_1.0, pixel_2.0),
        avg_channel(pixel_1.1, pixel_2.1),
        avg_channel(pixel_1.2, pixel_2.2),
    )
}

/// The way the seams of a batch run through the image.
#[derive(Clone, Copy, Debug)]
pub enum Direction {
    /// From top to bottom: each row gets new columns.
    Vertical,
    /// From left to right: each column gets new rows.
    Horizontal,
}

/// Number of the lines that seams of this direction cross: rows for vertical
/// seams, columns for horizontal ones.
pub open spec fn line_count(img: PixelBuffer, direction: Direction) -> nat {
    match direction {
        Direction::Vertical => image_height(img),
        Direction::Horizontal => image_width(img),
    }
}

/// Number of cells in each such line.
pub open spec fn line_len(img: PixelBuffer, direction: Direction) -> nat {
    match direction {
        Direction::Vertical => image_width(img),
        Direction::Horizontal => image_height(img),
    }
}

/// The cell at position `pos` of line `line`.
pub open spec fn cell(img: PixelBuffer, direction: Direction, line: int, pos: int) -> Color {
    match direction {
        Direction::Vertical => pixel_at(img, pos, line),
        Direction::Horizontal => pixel_at(img, line, pos),
    }
}

/// Line `line` of an image: a row, left to right, or a column, top to bottom.
pub open spec fn line_of(img: PixelBuffer, direction: Direction, line: int) -> Seq<Color> {
    match direction {
        Direction::Vertical => image_row(img, line),
        Direction::Horizontal => image_column(img, line),
    }
}

/// The batch `seams` can be inserted in `img`: it names the marks of at least
/// one line and of no more lines than the image has, all lines get equally many
/// marks, and the widened image is one that can be made.
pub open spec fn can_insert(
    img: PixelBuffer,
    seams: Seq<Vec<usize>>,
    direction: Direction,
) -> bool {
    &&& seams.len() > 0
    &&& forall|line: int|
        0 <= line < seams.len() ==> (#[trigger] seams[line])@.len() == seams[0]@.len()
    &&& line_len(img, direction) + seams[0]@.len() <= u32::MAX
    &&& match direction {
        Direction::Vertical => size_fits(image_width(img) + seams[0]@.len(), image_height(img)),
        Direction::Horizontal => size_fits(image_width(img), image_height(img) + seams[0]@.len()),
    }
    &&& line_len(img, direction) > 0 ==> seams.len() <= line_count(img, direction)
}

/// Line `line` of the image that inserting `seams` gives: the line of `img`
/// widened at its marks, or a black line where the batch has no marks for it.
pub open spec fn widened_line(
    img: PixelBuffer,
    seams: Seq<Vec<usize>>,
    direction: Direction,
    line: int,
) -> Seq<Color> {
    if line < seams.len() {
        widened(line_of(img, direction, line), in_ascending_order(seams[line]@))
    } else {
        Seq::new(line_len(img, direction) + seams[0]@.len(), |pos: int| black())
    }
}

/// The lines of `out` above `upto` are the widened lines of `img`.
spec fn lines_widened(
    img: PixelBuffer,
    out: PixelBuffer,
    seams: Seq<Vec<usize>>,
    direction: Direction,
    upto: int,
) -> bool {
    forall|line: int, pos: int|
        0 <= line < upto && 0 <= pos < line_len(out, direction) ==> #[trigger] cell(
            out,
            direction,
            line,
            pos,
        ) == widened_line(img, seams, direction, line)[pos]
}

/// The lines of `out` from `from` on are black.
spec fn lines_black(out: PixelBuffer, direction: Direction, from: int) -> bool {
    forall|line: int, pos: int|
        from <= line < line_count(out, direction) && 0 <= pos < line_len(out, direction)
            ==> #[trigger] cell(out, direction, line, pos) == black()
}

/// Reads the cell at position `pos` of line `line`.
fn read(img: &PixelBuffer, direction: Direction, line: u32, pos: u32) -> (color: Color)
    requires
        line < line_count(*img, direction),
        pos < line_len(*img, direction),
    ensures
        color == cell(*img, direction, line as int, pos as int),
{
    match direction {
        Direction::Vertical => get_pixel(img, pos, line),
        Direction::Horizontal => get_pixel(img, line, pos),
    }
}

/// Writes the cell at position `pos` of line `line`.
fn write(img: &mut PixelBuffer, direction: Direction, line: u32, pos: u32, color: Color)
    requires
        line < line_count(*old(img), direction),
        pos < line_len(*old(img), direction),
    ensures
        image_width(*final(img)) == image_width(*old(img)),
        image_height(*final(img)) == image_height(*old(img)),
        cell(*final(img), direction, line as int, pos as int) == color,
        forall|l: int, p: int|
            l != line || p != pos ==> #[trigger] cell(*final(img), direction, l, p) == cell(
                *old(img),
                direction,
                l,
                p,
            ),
{
    match direction {
        Direction::Vertical => put_pixel(img, pos, line, color),
        Direction::Horizontal => put_pixel(img, line, pos, color),
    }
}

/// Lays down line `line` of the widened image.
fn widen_line(
    img: &PixelBuffer,
    out: &mut PixelBuffer,
    direction: Direction,
    line: u32,
    marks: &Vec<usize>,
)
    requires
        line < line_count(*img, direction),
        line_count(*old(out), direction) == line_count(*img, direction),
        line_len(*old(out), direction) == line_len(*img, direction) + marks@.len(),
        line_len(*old(out), direction) <= u32::MAX,
        lines_black(*old(out), direction, line as int),
    ensures
        image_width(*final(out)) == image_width(*old(out)),
        image_height(*final(out)) == image_height(*old(out)),
        lines_black(*final(out), direction, line + 1),
        forall|l: int, p: int|
            l != line ==> #[trigger] cell(*final(out), direction, l, p) == cell(
                *old(out),
                direction,
                l,
                p,
            ),
        forall|p: int|
            0 <= p < line_len(*final(out), direction) ==> #[trigger] cell(
                *final(out),
                direction,
                line as int,
                p,
            ) == widened(line_of(*img, direction, line as int), marks@)[p],
{
    let (width, height) = dimensions(img);
    let len = match direction {
        Direction::Vertical => width,
        Direction::Horizontal => height,
    };
    let to_insert = marks.len() as u32;
    let ghost source = line_of(*img, direction, line as int);
    let mut already_inserted: u32 = 0;
    let mut pos: u32 = 0;
    while pos < len
        invariant
            pos <= len,
            already_inserted <= to_insert,
            to_insert == marks@.len(),
            len == line_len(*img, direction),
            line < line_count(*img, direction),
            source == line_of(*img, direction, line as int),
            image_width(*out) == image_width(*old(out)),
            image_height(*out) == image_height(*old(out)),
            line_count(*out, direction) == line_count(*img, direction),
            line_len(*out, direction) == len + to_insert,
            len + to_insert <= u32::MAX,
            widened_prefix(source, marks@, pos as nat).len() == pos + already_inserted,
            forall|p: int|
                0 <= p < pos + already_inserted ==> #[trigger] cell(*out, direction, line as int, p)
                    == widened_prefix(source, marks@, pos as nat)[p],
            forall|p: int|
                pos + already_inserted <= p < len + to_insert ==> #[trigger] cell(
                    *out,
                    direction,
                    line as int,
                    p,
                ) == black(),
            lines_black(*out, direction, line + 1),
            forall|l: int, p: int|
                l != line ==> #[trigger] cell(*out, direction, l, p) == cell(
                    *old(out),
                    direction,
                    l,
                    p,
                ),
        decreases len - pos,
    {
        let ghost laid = widened_prefix(source, marks@, pos as nat);
        let ghost used = already_inserted as int;
        proof {
            let (at, prev, next) = (pos as int, before(pos as int), after(pos as int, len as int));
            assert(source.len() == len);
            assert(laid.len() - pos == used);
            assert(source[at] == cell(*img, direction, line as int, at));
            assert(source[prev] == cell(*img, direction, line as int, prev));
            assert(source[next] == cell(*img, direction, line as int, next));
        }
        if already_inserted < to_insert && pos as usize == marks[already_inserted as usize] {
            let prev = pos.saturating_sub(1);
            let next = (pos + 1) % len;
            proof {
                if pos + 1 < len {
                    vstd::arithmetic::div_mod::lemma_small_mod((pos + 1) as nat, len as nat);
                } else {
                    vstd::arithmetic::div_mod::lemma_mod_self_0(len as int);
                }
                assert(prev == before(pos as int));
                assert(next == after(pos as int, len as int));
            }
            write(
                out,
                direction,
                line,
                pos + already_inserted,
                avg_pixel(read(img, direction, line, prev), read(img, direction, line, pos)),
            );
            already_inserted += 1;
            write(
                out,
                direction,
                line,
                pos + already_inserted,
                avg_pixel(read(img, direction, line, pos), read(img, direction, line, next)),
            );
        } else {
            write(out, direction, line, pos + already_inserted, read(img, direction, line, pos));
        }
        pos += 1;
        proof {
            let now = widened_prefix(source, marks@, pos as nat);
            assert(now.len() == pos + already_inserted);
            assert forall|p: int| 0 <= p < pos + already_inserted implies #[trigger] cell(
                *out,
                direction,
                line as int,
                p,
            ) == now[p] by {
                if p < laid.len() {
                    assert(now[p] == laid[p]);
                } else if used < marks@.len() && marks@[used] == pos - 1 {
                    assert(now == laid.push(blend(source[before(pos - 1)], source[pos - 1])).push(
                        blend(source[pos - 1], source[after(pos - 1, len as int)]),
                    ));
                } else {
                    assert(now == laid.push(source[pos - 1]));
                }
            }
        }
    }
}

/// `out` is `img` with the batch `seams` inserted: as many lines, each longer by
/// the number of marks per line, and each the widened line of `img`.
pub open spec fn is_widened(
    img: PixelBuffer,
    seams: Seq<Vec<usize>>,
    direction: Direction,
    out: PixelBuffer,
) -> bool {
    &&& line_count(out, direction) == line_count(img, direction)
    &&& line_len(out, direction) == line_len(img, direction) + seams[0]@.len()
    &&& forall|line: int|
        0 <= line < line_count(img, direction) ==> #[trigger] line_of(out, direction, line)
            == widened_line(img, seams, direction, line)
}

/// Widens every line of `img` at the marks that `seams` has for it.
fn insert_seams(img: &PixelBuffer, seams: &[Vec<usize>], direction: Direction) -> (out: PixelBuffer)
    requires
        can_insert(*img, seams@, direction),
    ensures
        is_widened(*img, seams@, direction, out),
{
    let (width, height) = dimensions(img);
    let to_insert = seams[0].len() as u32;
    let (len, mut out) = match direction {
        Direction::Vertical => (width, new_image(width + to_insert, height)),
        Direction::Horizontal => (height, new_image(width, height + to_insert)),
    };
    if len > 0 {
        let mut line: usize = 0;
        while line < seams.len()
            invariant
                line <= seams@.len(),
                can_insert(*img, seams@, direction),
                len == line_len(*img, direction),
                len > 0,
                line_count(*img, direction) <= u32::MAX,
                to_insert == seams@[0]@.len(),
                line_count(out, direction) == line_count(*img, direction),
                line_len(out, direction) == len + to_insert,
                lines_widened(*img, out, seams@, direction, line as int),
                lines_black(out, direction, line as int),
            decreases seams@.len() - line,
        {
            let marks = sorted_copy(&seams[line]);
            widen_line(img, &mut out, direction, line as u32, &marks);
            line += 1;
        }
    }
    proof {
        assert forall|line: int| 0 <= line < line_count(*img, direction) implies #[trigger] line_of(
            out,
            direction,
            line,
        ) == widened_line(*img, seams@, direction, line) by {
            let expected = widened_line(*img, seams@, direction, line);
            let found = line_of(out, direction, line);
            if line < seams@.len() {
                lemma_ascending_order_len(seams@[line]@);
            }
            assert(found.len() == expected.len());
            assert forall|pos: int| 0 <= pos < found.len() implies found[pos] == expected[pos] by {
                assert(found[pos] == cell(out, direction, line, pos));
            }
            assert(found =~= expected);
        }
    }
    out
}

/// Widens an image by inserting a batch of vertical seams: `seams[y]` holds the
/// columns of row `y` at which to insert.
///
/// Each row is scanned from left to right with its columns in ascending order.
/// The pixel at the next of them is replaced by two: its average with the pixel
/// to its left (with itself in the first column) and its average with the pixel
/// to its right (with the first pixel of the row in the last column). A row
/// for which the batch has no columns stays black.
pub fn insert_vertical_seams(img: &PixelBuffer, seams: &[Vec<usize>]) -> (wider: PixelBuffer)
    requires
        can_insert(*img, seams@, Direction::Vertical),
    ensures
        is_widened(*img, seams@, Direction::Vertical, wider),
        image_width(wider) == image_width(*img) + seams@[0]@.len(),
        image_height(wider) == image_height(*img),
        forall|y: int|
            0 <= y < image_height(*img) ==> #[trigger] image_row(wider, y) == widened_line(
                *img,
                seams@,
                Direction::Vertical,
                y,
            ),
{
    let wider = insert_seams(img, seams, Direction::Vertical);
    proof {
        assert forall|y: int| 0 <= y < image_height(*img) implies #[trigger] image_row(wider, y)
            == widened_line(*img, seams@, Direction::Vertical, y) by {
            assert(line_of(wider, Direction::Vertical, y) == image_row(wider, y));
        }
    }
    wider
}

/// Heightens an image by inserting a batch of horizontal seams: `seams[x]`
/// holds the rows of column `x` at which to insert.
///
/// Each column is scanned from top to bottom with its rows in ascending order.
/// The pixel at the next of them is replaced by two: its average with the pixel
/// above it (with itself in the first row) and its average with the pixel below
/// it (with the first pixel of the column in the last row). A column for which
/// the batch has no rows stays black.
pub fn insert_horizontal_seams(img: &PixelBuffer, seams: &[Vec<usize>]) -> (taller: PixelBuffer)
    requires
        can_insert(*img, seams@, Direction::Horizontal),
    ensures
        is_widened(*img, seams@, Direction::Horizontal, taller),
        image_width(taller) == image_width(*img),
        image_height(taller) == image_height(*img) + seams@[0]@.len(),
        forall|x: int|
            0 <= x < image_width(*img) ==> #[trigger] image_column(taller, x) == widened_line(
                *img,
                seams@,
                Direction::Horizontal,
                x,
            ),
{
    let taller = insert_seams(img, seams, Direction::Horizontal);
    proof {
        assert forall|x: int| 0 <= x < image_width(*img) implies #[trigger] image_column(taller, x)
            == widened_line(*img, seams@, Direction::Horizontal, x) by {
            assert(line_of(taller, Direction::Horizontal, x) == image_column(taller, x));
        }
    }
    taller
}

/// Where the marks of a line are positions of that line and all different, the
/// widened line holds, for the mark that is `rank`-th in ascending order, the
/// average of the marked pixel with the one before it and, next to it, the
/// average of the marked pixel with the one after it, `rank` cells further on
/// than the mark itself.
pub proof fn lemma_inserted_pixels_are_averages(
    img: PixelBuffer,
    seams: Seq<Vec<usize>>,
    direction: Direction,
    out: PixelBuffer,
    line: int,
    rank: int,
)
    requires
        is_widened(img, seams, direction, out),
        0 <= line < seams.len(),
        line < line_count(img, direction),
        seams[line]@.no_duplicates(),
        forall|j: int| 0 <= j < seams[line]@.len() ==> seams[line]@[j] < line_len(img, direction),
        0 <= rank < seams[line]@.len(),
    ensures
        ({
            let marks = in_ascending_order(seams[line]@);
            let mark = marks[rank] as int;
            let len = line_len(img, direction) as int;
            &&& 0 <= mark < len
            &&& mark + rank + 1 < line_len(img, direction) + seams[line]@.len()
            &&& cell(out, direction, line, mark + rank) == blend(
                cell(img, direction, line, before(mark)),
                cell(img, direction, line, mark),
            )
            &&& cell(out, direction, line, mark + rank + 1) == blend(
                cell(img, direction, line, mark),
                cell(img, direction, line, after(mark, len)),
            )
        }),
{
    let source = line_of(img, direction, line);
    let marks = in_ascending_order(seams[line]@);
    lemma_ascending_order_len(seams[line]@);
    lemma_distinct_marks_ascend_strictly(seams[line]@, source.len());
    lemma_widened_at_ascending_marks(source, marks);
    let mark = marks[rank] as int;
    let (prev, next) = (before(mark), after(mark, source.len() as int));
    let found = line_of(out, direction, line);
    assert(found == widened(source, marks));
    assert(found[mark + rank] == cell(out, direction, line, mark + rank));
    assert(found[mark + rank + 1] == cell(out, direction, line, mark + rank + 1));
    assert(source[mark] == cell(img, direction, line, mark));
    assert(source[prev] == cell(img, direction, line, prev));
    assert(source[next] == cell(img, direction, line, next));
}

/// Inserts the batch `seams` where it can be inserted, as
/// [`insert_vertical_seams`] and [`insert_horizontal_seams`] do, and gives
/// nothing where it cannot.
pub fn try_insert_seams(img: &PixelBuffer, seams: &[Vec<usize>], direction: Direction) -> (out:
    Option<PixelBuffer>)
    ensures
        out is Some <==> can_insert(*img, seams@, direction),
        out matches Some(wider) ==> is_widened(*img, seams@, direction, wider),
{
    if seams.len() == 0 {
        return None;
    }
    let to_insert = seams[0].len();
    let mut line: usize = 1;
    while line < seams.len()
        invariant
            1 <= line <= seams@.len(),
            to_insert == seams@[0]@.len(),
            forall|i: int| 0 <= i < line ==> (#[trigger] seams@[i])@.len() == to_insert,
        decreases seams@.len() - line,
    {
        if seams[line].len() != to_insert {
            return None;
        }
        line += 1;
    }
    let (width, height) = dimensions(img);
    let (lines, len) = match direction {
        Direction::Vertical => (height, width),
        Direction::Horizontal => (width, height),
    };
    if to_insert > (u32::MAX - len) as usize {
        return None;
    }
    let longer = len + to_insert as u32;
    let makeable = match direction {
        Direction::Vertical => fits(longer, height),
        Direction::Horizontal => fits(width, longer),
    };
    if !makeable || (len > 0 && seams.len() > lines as usize) {
        return None;
    }
    match direction {
        Direction::Vertical => Some(insert_vertical_seams(img, seams)),
        Direction::Horizontal => Some(insert_horizontal_seams(img, seams)),
    }
}

} // verus!
