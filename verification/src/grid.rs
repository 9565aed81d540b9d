//! A rectangular, row-major container.

use vstd::prelude::*;

verus! {

/// A grid of cells stored row by row.
///
/// `h` is the number of rows and `w` the length of the first row (zero when
/// there is none).  A grid is well formed ([`Grid::wf`]) when every row has
/// exactly `w` cells.
#[derive(Debug, Clone, PartialEq, Eq, Hash)]
pub struct Grid<T> {
    grid: Vec<Vec<T>>,
    pub w: usize,
    pub h: usize,
}

/// The length of the first row of `rows`, or zero when there is no row.
pub open spec fn first_row_len<T>(rows: Seq<Seq<T>>) -> nat {
    if rows.len() > 0 {
        rows[0].len()
    } else {
        0
    }
}

/// Every row of `rows` has the same length as the first one.
pub open spec fn rectangular<T>(rows: Seq<Seq<T>>) -> bool {
    forall|y: int| 0 <= y < rows.len() ==> (#[trigger] rows[y]).len() == first_row_len(rows)
}

/// The rows of a nested vector, each taken as a sequence.
pub open spec fn rows_of<T>(rows: Seq<Vec<T>>) -> Seq<Seq<T>> {
    Seq::new(rows.len(), |y: int| rows[y]@)
}

/// Position `a` comes before position `b` when the cells are read row by
/// row, each row from its first column on.  A position is a pair of a
/// column and a row.
pub open spec fn row_major_before(a: (usize, usize), b: (usize, usize)) -> bool {
    a.1 < b.1 || (a.1 == b.1 && a.0 < b.0)
}

/// The cell at column `x` of row `y` of `rows`, if there is one.
pub open spec fn cell_of<T>(rows: Seq<Seq<T>>, x: int, y: int) -> Option<T> {
    if 0 <= y < rows.len() && 0 <= x < rows[y].len() {
        Some(rows[y][x])
    } else {
        None
    }
}

/// The characters of all `lines`, each line ended by a line feed.
pub open spec fn text_of(lines: Seq<Seq<char>>) -> Seq<char>
    decreases lines.len(),
{
    if lines.len() == 0 {
        Seq::empty()
    } else {
        text_of(lines.drop_last()) + lines.last().push('\n')
    }
}

/// The glyph that `glyph` gives for each cell of `rows`.
pub open spec fn glyphs_of<T>(glyph: spec_fn(T) -> char, rows: Seq<Seq<T>>) -> Seq<Seq<char>> {
    Seq::new(rows.len(), |y: int| Seq::new(rows[y].len(), |x: int| glyph(rows[y][x])))
}

/// `String::push`: appends `c` to the end of `text`.
#[verifier::external_body]
fn push_char(text: &mut String, c: char)
    ensures
        final(text)@ == old(text)@.push(c),
{
    text.push(c)
}

impl<T> View for Grid<T> {
    type V = Seq<Seq<T>>;

    /// The rows of the grid, top row first.
    closed spec fn view(&self) -> Seq<Seq<T>> {
        rows_of(self.grid@)
    }
}

impl<T> Grid<T> {
    /// The cell at column `x` of row `y`, if there is one.
    pub open spec fn cell(&self, x: int, y: int) -> Option<T> {
        cell_of(self@, x, y)
    }

    /// The cell that `(x, y)` wraps around to, if the grid has any: the
    /// one at column `x` modulo the width of row `y` modulo the height.
    pub open spec fn wrapped(&self, x: int, y: int) -> Option<T> {
        if self.width() == 0 || self.height() == 0 {
            None
        } else {
            self.cell(x % (self.width() as int), y % (self.height() as int))
        }
    }

    /// The value of the field `w`.
    pub closed spec fn width(&self) -> nat {
        self.w as nat
    }

    /// The value of the field `h`.
    pub closed spec fn height(&self) -> nat {
        self.h as nat
    }

    /// Width and height agree with the rows, and every row has `w` cells.
    pub open spec fn wf(&self) -> bool {
        &&& self.height() == self@.len()
        &&& self.width() == first_row_len(self@)
        &&& rectangular(self@)
    }

    /// No grid has more rows, and no row more cells, than `usize` can count.
    pub proof fn lemma_fits(&self)
        ensures
            self@.len() <= usize::MAX,
            forall|y: int| 0 <= y < self@.len() ==> (#[trigger] self@[y]).len() <= usize::MAX,
            forall|x: int, y: int|
                !(0 <= x <= usize::MAX && 0 <= y <= usize::MAX) ==> self.cell(x, y) is None,
    {
        assert(self.grid@.len() == self.grid.len());
        assert forall|y: int| 0 <= y < self@.len() implies (#[trigger] self@[y]).len()
            <= usize::MAX by {
            assert(self.grid@[y]@.len() == self.grid@[y].len());
        }
    }

    /// Builds a grid from its rows.  The height is the number of rows and
    /// the width the length of the first row.
    pub fn new(grid: Vec<Vec<T>>) -> (g: Self)
        ensures
            g@ == rows_of(grid@),
            g.height() == grid@.len(),
            g.width() == first_row_len(rows_of(grid@)),
            g.wf() <==> rectangular(rows_of(grid@)),
    {
        let h = grid.len();
        let w = if h > 0 {
            grid[0].len()
        } else {
            0
        };
        Self { grid, w, h }
    }

    /// The cell at column `x` of row `y`, or `None` outside the grid.
    pub fn get(&self, x: usize, y: usize) -> (r: Option<&T>)
        ensures
            r == match self.cell(x as int, y as int) {
                Some(t) => Some(&t),
                None => None,
            },
    {
        if y < self.grid.len() {
            let row = &self.grid[y];
            if x < row.len() {
                Some(&row[x])
            } else {
                None
            }
        } else {
            None
        }
    }

    /// As [`Grid::get`], with signed coordinates: a negative coordinate is
    /// outside the grid.
    pub fn get_i(&self, x: i64, y: i64) -> (r: Option<&T>)
        ensures
            r == match self.cell(x as int, y as int) {
                Some(t) => Some(&t),
                None => None,
            },
    {
        if x < 0 || y < 0 || x as u64 > usize::MAX as u64 || y as u64 > usize::MAX as u64 {
            proof {
                self.lemma_fits();
            }
            None
        } else {
            self.get(x as usize, y as usize)
        }
    }

    /// As [`Grid::get`], with the coordinates wrapped around the grid:
    /// `x` is taken modulo the width and `y` modulo the height, with a
    /// remainder that is never negative.  A grid of width or height zero
    /// has no cell to wrap to.
    pub fn get_cycle(&self, x: i64, y: i64) -> (r: Option<&T>)
        ensures
            r == match self.wrapped(x as int, y as int) {
                Some(t) => Some(&t),
                None => None,
            },
            self.wf() && self.width() > 0 && self.height() > 0 ==> r is Some,
    {
        if self.w == 0 || self.h == 0 {
            return None;
        }
        let xm = (x as i128).checked_rem_euclid(self.w as i128).unwrap();
        let ym = (y as i128).checked_rem_euclid(self.h as i128).unwrap();
        self.get(xm as usize, ym as usize)
    }

    /// The cell at column `x` of row `y`, to be changed in place, or `None`
    /// outside the grid.  Width and height stay as they are.
    pub fn get_mut(&mut self, x: usize, y: usize) -> (r: Option<&mut T>)
        ensures
            match r {
                Some(t) => {
                    &&& old(self).cell(x as int, y as int) == Some(*t)
                    &&& final(self)@ == old(self)@.update(
                        y as int,
                        old(self)@[y as int].update(x as int, *final(t)),
                    )
                },
                None => old(self).cell(x as int, y as int) is None && final(self)@ == old(self)@,
            },
            final(self).width() == old(self).width(),
            final(self).height() == old(self).height(),
    {
        if y < self.grid.len() {
            if x < self.grid[y].len() {
                proof {
                    let before = self.grid@;
                    assert forall|row: Vec<T>| #[trigger]
                        rows_of(before.update(y as int, row)) == rows_of(before).update(
                            y as int,
                            row@,
                        ) by {
                        assert(rows_of(before.update(y as int, row)) =~= rows_of(before).update(
                            y as int,
                            row@,
                        ));
                    }
                }
                return Some(&mut self.grid[y][x]);
            }
        }
        None
    }

    /// The positions of the cells on which `predicate` answers `true`, in
    /// row-major order.
    pub fn positions<FN: Fn(&T) -> bool>(&self, predicate: FN) -> (pos: Vec<(usize, usize)>)
        requires
            forall|x: int, y: int|
                (#[trigger] self.cell(x, y)) matches Some(t) ==> predicate.requires((&t,)),
        ensures
            forall|k: int|
                0 <= k < pos@.len() ==> (self.cell((#[trigger] pos@[k]).0 as int, pos@[k].1 as int)
                    matches Some(t) && predicate.ensures((&t,), true)),
            forall|i: int, j: int|
                0 <= i < j < pos@.len() ==> row_major_before(
                    #[trigger] pos@[i],
                    #[trigger] pos@[j],
                ),
            forall|x: int, y: int|
                (#[trigger] self.cell(x, y)) matches Some(t) ==> (pos@.contains(
                    (x as usize, y as usize),
                ) || predicate.ensures((&t,), false)),
    {
        let mut pos: Vec<(usize, usize)> = Vec::new();
        let mut y: usize = 0;
        while y < self.grid.len()
            invariant
                y <= self.grid@.len(),
                forall|x: int, y: int|
                    (#[trigger] self.cell(x, y)) matches Some(t) ==> predicate.requires((&t,)),
                forall|k: int|
                    0 <= k < pos@.len() ==> (#[trigger] pos@[k]).1 < y && (self.cell(
                        pos@[k].0 as int,
                        pos@[k].1 as int,
                    ) matches Some(t) && predicate.ensures((&t,), true)),
                forall|i: int, j: int|
                    0 <= i < j < pos@.len() ==> row_major_before(
                        #[trigger] pos@[i],
                        #[trigger] pos@[j],
                    ),
                forall|x: int, y2: int|
                    y2 < y ==> ((#[trigger] self.cell(x, y2)) matches Some(t) ==> (pos@.contains(
                        (x as usize, y2 as usize),
                    ) || predicate.ensures((&t,), false))),
            decreases self.grid@.len() - y,
        {
            let row = &self.grid[y];
            let mut x: usize = 0;
            while x < row.len()
                invariant
                    y < self.grid@.len(),
                    row == self.grid@[y as int],
                    x <= row@.len(),
                    forall|x: int, y: int|
                        (#[trigger] self.cell(x, y)) matches Some(t) ==> predicate.requires((&t,)),
                    forall|k: int|
                        0 <= k < pos@.len() ==> row_major_before(#[trigger] pos@[k], (x, y)) && (
                        self.cell(pos@[k].0 as int, pos@[k].1 as int) matches Some(t)
                            && predicate.ensures((&t,), true)),
                    forall|i: int, j: int|
                        0 <= i < j < pos@.len() ==> row_major_before(
                            #[trigger] pos@[i],
                            #[trigger] pos@[j],
                        ),
                    forall|x2: int, y2: int|
                        (y2 < y || (y2 == y && x2 < x)) ==> ((#[trigger] self.cell(x2, y2))
                            matches Some(t) ==> (pos@.contains((x2 as usize, y2 as usize))
                            || predicate.ensures((&t,), false))),
                decreases row@.len() - x,
            {
                let ghost before = pos@;
                assert(self.cell(x as int, y as int) == Some(row@[x as int]));
                let hit = predicate(&row[x]);
                if hit {
                    pos.push((x, y));
                    assert(pos@[before.len() as int] == (x, y));
                }
                proof {
                    assert forall|x2: int, y2: int|
                        (y2 < y || (y2 == y && x2 < x + 1)) implies ((#[trigger] self.cell(x2, y2))
                        matches Some(t) ==> (pos@.contains((x2 as usize, y2 as usize))
                        || predicate.ensures((&t,), false))) by {
                        if let Some(t) = self.cell(x2, y2) {
                            if y2 == y && x2 == x {
                            } else if before.contains((x2 as usize, y2 as usize)) {
                                let at = (x2 as usize, y2 as usize);
                                let k = choose|k: int| 0 <= k < before.len() && before[k] == at;
                                assert(pos@[k] == (x2 as usize, y2 as usize));
                            }
                        }
                    }
                }
                x += 1;
            }
            y += 1;
        }
        pos
    }

    /// The grid of the same shape whose cells are those of this one, each
    /// handed to `func`.
    pub fn map<X, FN: Fn(T) -> X>(self, func: FN) -> (g: Grid<X>)
        requires
            forall|x: int, y: int|
                (#[trigger] self.cell(x, y)) matches Some(t) ==> func.requires((t,)),
        ensures
            g@.len() == self@.len(),
            forall|y: int| 0 <= y < self@.len() ==> (#[trigger] g@[y]).len() == self@[y].len(),
            forall|x: int, y: int|
                (#[trigger] self.cell(x, y)) matches Some(t) ==> func.ensures((t,), g@[y][x]),
            g.height() == g@.len(),
            g.width() == first_row_len(g@),
            self.wf() ==> g.wf(),
    {
        let ghost rows = self@;
        proof {
            assert forall|x: int, y: int| (#[trigger] cell_of(rows, x, y)) is Some implies
                func.requires((cell_of(rows, x, y)->Some_0,)) by {
                assert(self.cell(x, y) == cell_of(rows, x, y));
            }
        }
        let mut out: Vec<Vec<X>> = Vec::new();
        for row in it: self.grid
            invariant
                rows == rows_of(it.seq()),
                forall|x: int, y: int|
                    (#[trigger] cell_of(rows, x, y)) matches Some(t) ==> func.requires((t,)),
                out@.len() == it.index(),
                forall|y: int| 0 <= y < out@.len() ==> (#[trigger] out@[y])@.len() == rows[y].len(),
                forall|x: int, y: int|
                    0 <= y < out@.len() ==> ((#[trigger] cell_of(rows, x, y)) matches Some(t)
                        ==> func.ensures((t,), out@[y]@[x])),
        {
            let ghost y = out@.len() as int;
            assert(row@ == rows[y]);
            let mut cells: Vec<X> = Vec::new();
            for cell in jt: row
                invariant
                    0 <= y < rows.len(),
                    jt.seq() == rows[y],
                    forall|x: int, y: int|
                        (#[trigger] cell_of(rows, x, y)) matches Some(t) ==> func.requires((t,)),
                    cells@.len() == jt.index(),
                    forall|x: int|
                        0 <= x < cells@.len() ==> func.ensures((rows[y][x],), #[trigger] cells@[x]),
            {
                assert(cell_of(rows, cells@.len() as int, y) == Some(cell));
                cells.push(func(cell));
            }
            out.push(cells);
        }
        let g = Grid::new(out);
        proof {
            assert(g@.len() == rows.len());
            assert forall|x: int, y: int| (#[trigger] self.cell(x, y)) is Some implies func.ensures(
                (self.cell(x, y)->Some_0,),
                g@[y][x],
            ) by {
                assert(cell_of(rows, x, y) == Some(rows[y][x]));
            }
            if self.wf() {
                assert(rectangular(g@));
            }
        }
        g
    }

    /// Builds a grid from rows of cells that may each have failed.
    ///
    /// With every cell `Ok`, the grid holds the cells' values, as
    /// [`Grid::new`] would build it.  Otherwise nothing is built, and the
    /// error is that of the first failed cell in row-major order, with its
    /// column and row.
    pub fn try_from_iter<E>(iter: Vec<Vec<Result<T, E>>>) -> (r: Result<Self, (usize, usize, E)>)
        ensures
            match r {
                Ok(g) => {
                    &&& g@.len() == iter@.len()
                    &&& forall|y: int|
                        0 <= y < iter@.len() ==> (#[trigger] g@[y]).len() == iter@[y]@.len()
                    &&& forall|x: int, y: int|
                        0 <= y < iter@.len() && 0 <= x < iter@[y]@.len() ==> (
                        #[trigger] iter@[y]@[x]) == Ok::<T, E>(g@[y][x])
                    &&& g.height() == g@.len()
                    &&& g.width() == first_row_len(g@)
                    &&& rectangular(rows_of(iter@)) ==> g.wf()
                },
                Err((x, y, e)) => {
                    &&& cell_of(rows_of(iter@), x as int, y as int) == Some(Err::<T, E>(e))
                    &&& forall|x2: int, y2: int|
                        (y2 < y || (y2 == y && x2 < x)) ==> !((#[trigger] cell_of(
                            rows_of(iter@),
                            x2,
                            y2,
                        )) matches Some(Err(_)))
                },
            },
    {
        let ghost rows = rows_of(iter@);
        let mut out: Vec<Vec<T>> = Vec::new();
        for row in it: iter
            invariant
                rows == rows_of(it.seq()),
                rows == rows_of(iter@),
                out@.len() == it.index(),
                forall|y: int| 0 <= y < out@.len() ==> (#[trigger] out@[y])@.len() == rows[y].len(),
                forall|x: int, y: int|
                    0 <= y < out@.len() && 0 <= x < rows[y].len() ==> (#[trigger] rows[y][x])
                        == Ok::<T, E>(out@[y]@[x]),
        {
            let ghost y = out@.len() as int;
            let y_now = out.len();
            assert(row@ == rows[y]);
            let mut cells: Vec<T> = Vec::new();
            for item in jt: row
                invariant
                    0 <= y < rows.len(),
                    y == y_now,
                    y == out@.len(),
                    jt.seq() == rows[y],
                    rows == rows_of(iter@),
                    cells@.len() == jt.index(),
                    forall|x: int|
                        0 <= x < cells@.len() ==> (#[trigger] rows[y][x]) == Ok::<T, E>(cells@[x]),
                    forall|x: int, y2: int|
                        0 <= y2 < out@.len() && 0 <= x < rows[y2].len() ==> (#[trigger] rows[y2][x])
                            == Ok::<T, E>(out@[y2]@[x]),
            {
                let x_now = cells.len();
                match item {
                    Ok(t) => {
                        cells.push(t);
                    },
                    Err(e) => {
                        assert(cell_of(rows, x_now as int, y) == Some(Err::<T, E>(e)));
                        assert forall|x2: int, y2: int|
                            (y2 < y_now || (y2 == y_now && x2 < x_now)) implies !((
                        #[trigger] cell_of(rows, x2, y2)) matches Some(Err(_))) by {
                            if 0 <= y2 < rows.len() && 0 <= x2 < rows[y2].len() {
                                assert(rows[y2][x2] is Ok);
                            }
                        }
                        return Err((x_now, y_now, e));
                    },
                }
            }
            out.push(cells);
        }
        let g = Grid::new(out);
        proof {
            assert(g@.len() == rows.len());
            assert forall|x: int, y: int|
                0 <= y < iter@.len() && 0 <= x < iter@[y]@.len() implies (#[trigger] iter@[y]@[x])
                == Ok::<T, E>(g@[y][x]) by {
                assert(rows[y][x] == Ok::<T, E>(g@[y][x]));
            }
            if rectangular(rows) {
                assert forall|y: int| 0 <= y < g@.len() implies (#[trigger] g@[y]).len()
                    == first_row_len(g@) by {
                    assert(rows[y].len() == first_row_len(rows));
                    assert(g@[0].len() == rows[0].len());
                }
            }
        }
        Ok(g)
    }

    /// The grid as text: one line for each row, with the glyph that
    /// `glyph` gives for each cell, and a line feed after each row.
    pub fn render<FN: Fn(&T) -> char>(&self, glyph: FN) -> (text: String)
        requires
            forall|x: int, y: int|
                (#[trigger] self.cell(x, y)) matches Some(t) ==> glyph.requires((&t,)),
        ensures
            exists|lines: Seq<Seq<char>>|
                {
                    &&& lines.len() == self@.len()
                    &&& forall|y: int|
                        0 <= y < lines.len() ==> (#[trigger] lines[y]).len() == self@[y].len()
                    &&& forall|x: int, y: int|
                        0 <= y < lines.len() && 0 <= x < lines[y].len() ==> glyph.ensures(
                            (&self@[y][x],),
                            #[trigger] lines[y][x],
                        )
                    &&& text@ == text_of(lines)
                },
            forall|of: spec_fn(T) -> char|
                (forall|t: T, c: char| #[trigger] glyph.ensures((&t,), c) ==> c == of(t)) ==> text@
                    == text_of(#[trigger] glyphs_of(of, self@)),
    {
        let mut text = String::new();
        let ghost mut lines: Seq<Seq<char>> = Seq::empty();
        let mut y: usize = 0;
        while y < self.grid.len()
            invariant
                y <= self.grid@.len(),
                forall|x: int, y: int|
                    (#[trigger] self.cell(x, y)) matches Some(t) ==> glyph.requires((&t,)),
                lines.len() == y,
                forall|y2: int| 0 <= y2 < y ==> (#[trigger] lines[y2]).len() == self@[y2].len(),
                forall|x: int, y2: int|
                    0 <= y2 < y && 0 <= x < lines[y2].len() ==> glyph.ensures(
                        (&self@[y2][x],),
                        #[trigger] lines[y2][x],
                    ),
                text@ == text_of(lines),
            decreases self.grid@.len() - y,
        {
            let row = &self.grid[y];
            let ghost mut line: Seq<char> = Seq::empty();
            let ghost before = text@;
            let mut x: usize = 0;
            while x < row.len()
                invariant
                    y < self.grid@.len(),
                    row == self.grid@[y as int],
                    x <= row@.len(),
                    forall|x: int, y: int|
                        (#[trigger] self.cell(x, y)) matches Some(t) ==> glyph.requires((&t,)),
                    line.len() == x,
                    forall|x2: int|
                        0 <= x2 < x ==> glyph.ensures((&self@[y as int][x2],), #[trigger] line[x2]),
                    text@ == before + line,
                decreases row@.len() - x,
            {
                assert(self.cell(x as int, y as int) == Some(row@[x as int]));
                let c = glyph(&row[x]);
                push_char(&mut text, c);
                proof {
                    line = line.push(c);
                    assert(text@ =~= before + line);
                }
                x += 1;
            }
            push_char(&mut text, '\n');
            proof {
                let next = lines.push(line);
                assert(next.drop_last() =~= lines);
                assert(text@ =~= text_of(lines) + line.push('\n'));
                lines = next;
            }
            y += 1;
        }
        proof {
            assert forall|of: spec_fn(T) -> char|
                (forall|t: T, c: char| #[trigger] glyph.ensures((&t,), c) ==> c == of(t))
                implies text@ == text_of(#[trigger] glyphs_of(of, self@)) by {
                let expected = glyphs_of(of, self@);
                assert forall|y2: int| 0 <= y2 < lines.len() implies lines[y2] == expected[y2] by {
                    assert(lines[y2] =~= expected[y2]);
                }
                assert(lines =~= expected);
            }
        }
        text
    }

    /// The cells of the grid in row-major order, each with its column and
    /// row.
    pub open spec fn cells(&self) -> Seq<((usize, usize), T)> {
        cells_from(self@, 0, 0)
    }

    /// A well-formed grid of width `w` and height `h` has `w * h` cells in
    /// row-major order: the one at index `y * w + x` is the cell that
    /// [`Grid::get`] finds at column `x` of row `y`.
    pub proof fn lemma_cells(&self, x: int, y: int)
        requires
            self.wf(),
            0 <= x < self.width(),
            0 <= y < self.height(),
        ensures
            self.cells().len() == self.width() * self.height(),
            0 <= y * self.width() + x < self.cells().len(),
            self.cells()[y * self.width() + x] == ((x as usize, y as usize), self@[y][x]),
            self.cell(x, y) == Some(self@[y][x]),
    {
        let w = self.width() as int;
        self.lemma_fits();
        assert(self@[y].len() == w);
        lemma_cells_from(self@, w, 0, x, y);
        assert((y - 0) * w + x == y * w + x);
        assert((self@.len() - 0) * w == w * self.height()) by (nonlinear_arith)
            requires
                self@.len() == self.height(),
        ;
    }

    /// A grid without cells has none to iterate over: this is so where
    /// the width or the height of a well-formed grid is zero.
    pub proof fn lemma_no_cells(&self)
        requires
            self.wf(),
            self.width() == 0 || self.height() == 0,
        ensures
            self.cells().len() == 0,
    {
        lemma_cells_len(self@, self.width() as int, 0);
        assert((self@.len() - 0) * self.width() == 0) by (nonlinear_arith)
            requires
                self.width() == 0 || self@.len() == 0,
        ;
    }

    /// An iterator over the cells of the grid in row-major order.
    pub fn iter(&self) -> (it: GridIter<'_, T>)
        ensures
            it.remaining() == self.cells(),
            it.grid() == *self,
    {
        GridIter { grid: self, x: 0, y: 0 }
    }
}

/// The cells of `row`, which is row `y`, from column `from` on, each
/// with its column and row.
pub open spec fn row_cells<T>(row: Seq<T>, y: int, from: int) -> Seq<((usize, usize), T)> {
    Seq::new(
        (row.len() - from) as nat,
        |i: int| (((from + i) as usize, y as usize), row[from + i]),
    )
}

/// The cells of `rows` in row-major order, from column `x` of row `y` on.
pub open spec fn cells_from<T>(rows: Seq<Seq<T>>, x: int, y: int) -> Seq<((usize, usize), T)>
    decreases rows.len() - y,
{
    if y < 0 || y >= rows.len() {
        Seq::empty()
    } else {
        row_cells(rows[y], y, x) + cells_from(rows, 0, y + 1)
    }
}

/// Rows of `w` cells each have `w` cells for each row.
proof fn lemma_cells_len<T>(rows: Seq<Seq<T>>, w: int, from: int)
    requires
        0 <= from <= rows.len(),
        forall|y: int| 0 <= y < rows.len() ==> (#[trigger] rows[y]).len() == w,
    ensures
        cells_from(rows, 0, from).len() == (rows.len() - from) * w,
    decreases rows.len() - from,
{
    if from < rows.len() {
        lemma_cells_len(rows, w, from + 1);
        assert(row_cells(rows[from], from, 0).len() == w);
        assert((rows.len() - from) * w == w + (rows.len() - (from + 1)) * w) by (nonlinear_arith);
    } else {
        assert((rows.len() - from) * w == 0) by (nonlinear_arith)
            requires
                rows.len() == from,
        ;
    }
}

/// Among the cells of rows of `w` cells each, from row `from` on, the
/// cell at column `x` of row `y` has the index `(y - from) * w + x`.
proof fn lemma_cells_from<T>(rows: Seq<Seq<T>>, w: int, from: int, x: int, y: int)
    requires
        0 <= from <= y < rows.len() <= usize::MAX,
        0 <= x < w <= usize::MAX,
        forall|y: int| 0 <= y < rows.len() ==> (#[trigger] rows[y]).len() == w,
    ensures
        cells_from(rows, 0, from).len() == (rows.len() - from) * w,
        0 <= (y - from) * w + x < cells_from(rows, 0, from).len(),
        cells_from(rows, 0, from)[(y - from) * w + x] == ((x as usize, y as usize), rows[y][x]),
    decreases rows.len() - from,
{
    lemma_cells_len(rows, w, from);
    lemma_cells_len(rows, w, from + 1);
    assert(0 <= (y - from) * w + x < (rows.len() - from) * w && (y - from) * w == w + (y - (from
        + 1)) * w) by (nonlinear_arith)
        requires
            0 <= from <= y < rows.len(),
            0 <= x < w,
    ;
    let cells = row_cells(rows[from], from, 0);
    let rest = cells_from(rows, 0, from + 1);
    assert(cells.len() == w);
    if from < y {
        lemma_cells_from(rows, w, from + 1, x, y);
        assert((cells + rest)[(y - from) * w + x] == rest[(y - (from + 1)) * w + x]);
    } else {
        assert((y - from) * w == 0) by (nonlinear_arith)
            requires
                y == from,
        ;
        assert((cells + rest)[x] == cells[x]);
    }
}

/// An iterator over the cells of a grid.  See [`Grid::iter`].
pub struct GridIter<'a, T> {
    grid: &'a Grid<T>,
    x: usize,
    y: usize,
}

impl<'a, T> GridIter<'a, T> {
    #[verifier::type_invariant]
    closed spec fn inv(&self) -> bool {
        &&& self.y <= self.grid@.len()
        &&& self.y < self.grid@.len() ==> self.x <= self.grid@[self.y as int].len()
    }

    /// The grid that is iterated over.
    pub closed spec fn grid(&self) -> Grid<T> {
        *self.grid
    }

    /// The cells that are still to come, with their positions.
    pub closed spec fn remaining(&self) -> Seq<((usize, usize), T)> {
        cells_from(self.grid@, self.x as int, self.y as int)
    }

    /// The next cell with its column and row, or `None` when every cell has
    /// been handed out.
    pub fn next(&mut self) -> (r: Option<((usize, usize), &'a T)>)
        ensures
            final(self).grid() == old(self).grid(),
            match r {
                Some((pos, t)) => {
                    &&& old(self).remaining().len() > 0
                    &&& old(self).remaining()[0] == (pos, *t)
                    &&& final(self).remaining() == old(self).remaining().skip(1)
                },
                None => old(self).remaining().len() == 0 && final(self).remaining().len() == 0,
            },
    {
        proof {
            use_type_invariant(&*self);
        }
        let grid: &'a Grid<T> = self.grid;
        let ghost start = self.remaining();
        loop
            invariant
                self.grid == grid,
                *grid == old(self).grid(),
                start == old(self).remaining(),
                self.inv(),
                self.remaining() == start,
            decreases grid@.len() - self.y,
        {
            if self.y >= grid.grid.len() {
                return None;
            }
            let row: &'a Vec<T> = &grid.grid[self.y];
            let x = self.x;
            let y = self.y;
            let ghost cells = row_cells(row@, y as int, x as int);
            let ghost rest = cells_from(grid@, 0, y + 1);
            assert(start == cells + rest);
            if x < row.len() {
                self.x = x + 1;
                proof {
                    assert(cells[0] == ((x, y), row@[x as int]));
                    assert(row_cells(row@, y as int, x + 1) =~= cells.skip(1));
                    assert((cells + rest).skip(1) =~= cells.skip(1) + rest);
                }
                return Some(((x, y), &row[x]));
            }
            assert(cells =~= Seq::empty());
            assert(Seq::<((usize, usize), T)>::empty() + rest =~= rest);
            self.x = 0;
            self.y = y + 1;
        }
    }
}

} // verus!
