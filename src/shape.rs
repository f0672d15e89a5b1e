//! Rectangular grids of symbols, their geometric transforms, and the set of
//! distinct orientations of a piece.
use vstd::prelude::*;

verus! {

/// The symbol of an empty cell.
pub const EMPTY: char = '.';

/// The symbol of a board cell that is permanently blocked.
pub const BLOCKED: char = '#';

/// A grid is rectangular, with at least one row and one column.
pub open spec fn is_grid(g: Seq<Seq<char>>) -> bool {
    &&& g.len() >= 1
    &&& g[0].len() >= 1
    &&& forall|i: int| 0 <= i < g.len() ==> #[trigger] g[i].len() == g[0].len()
}

pub open spec fn grid_height(g: Seq<Seq<char>>) -> int {
    g.len() as int
}

pub open spec fn grid_width(g: Seq<Seq<char>>) -> int {
    g[0].len() as int
}

/// Mirror along the vertical axis: every row reversed.
pub open spec fn reflect_grid(g: Seq<Seq<char>>) -> Seq<Seq<char>> {
    g.map_values(|row: Seq<char>| row.reverse())
}

/// Rows become columns: `t[c][r] == g[r][c]`.
pub open spec fn transpose_grid(g: Seq<Seq<char>>) -> Seq<Seq<char>> {
    Seq::new(grid_width(g) as nat, |c: int| Seq::new(grid_height(g) as nat, |r: int| g[r][c]))
}

/// A quarter turn: the transpose of the reflection.
pub open spec fn rotate_grid(g: Seq<Seq<char>>) -> Seq<Seq<char>> {
    transpose_grid(reflect_grid(g))
}

/// The filled cells of row `i` among its first `n` columns, left to right.
pub open spec fn row_cells(g: Seq<Seq<char>>, i: int, n: int) -> Seq<(int, int)>
    decreases n,
{
    if n <= 0 {
        Seq::empty()
    } else if g[i][n - 1] != EMPTY {
        row_cells(g, i, n - 1).push((i, n - 1))
    } else {
        row_cells(g, i, n - 1)
    }
}

/// The filled cells of the first `m` rows, in row-major order.
pub open spec fn rows_cells(g: Seq<Seq<char>>, m: int) -> Seq<(int, int)>
    decreases m,
{
    if m <= 0 {
        Seq::empty()
    } else {
        rows_cells(g, m - 1) + row_cells(g, m - 1, grid_width(g))
    }
}

/// Every filled (non-empty) cell of the grid, in row-major order.
pub open spec fn filled_cells(g: Seq<Seq<char>>) -> Seq<(int, int)> {
    rows_cells(g, grid_height(g))
}

/// The cells moved down by `r` rows and right by `c` columns.
pub open spec fn shift(cells: Seq<(int, int)>, r: int, c: int) -> Seq<(int, int)> {
    cells.map_values(|q: (int, int)| (q.0 + r, q.1 + c))
}

/// `p` lies inside `b` when its top-left corner is at `(r, c)`, and each of its
/// filled cells falls on an empty cell of `b`.
pub open spec fn fits(p: Seq<Seq<char>>, b: Seq<Seq<char>>, r: int, c: int) -> bool {
    &&& r + grid_height(p) <= grid_height(b)
    &&& c + grid_width(p) <= grid_width(b)
    &&& forall|i: int, j: int|
        0 <= i < grid_height(p) && 0 <= j < grid_width(p) && #[trigger] p[i][j] != EMPTY
            ==> b[r + i][c + j] == EMPTY
}

/// The cells of a placement, as mathematical pairs.
pub open spec fn cells_view(v: Seq<(usize, usize)>) -> Seq<(int, int)> {
    v.map_values(|q: (usize, usize)| (q.0 as int, q.1 as int))
}

/// `k` quarter turns of `g`.
pub open spec fn rotate_n(g: Seq<Seq<char>>, k: nat) -> Seq<Seq<char>>
    decreases k,
{
    if k == 0 {
        g
    } else {
        rotate_grid(rotate_n(g, (k - 1) as nat))
    }
}

/// The eight candidate orientations of `g`: its four quarter turns, then
/// those of its mirror image.
pub open spec fn candidates(g: Seq<Seq<char>>) -> Seq<Seq<Seq<char>>> {
    Seq::new(
        8,
        |n: int|
            if n < 4 {
                rotate_n(g, n as nat)
            } else {
                rotate_n(reflect_grid(g), (n - 4) as nat)
            },
    )
}

/// The distinct orientations of `g`.
pub open spec fn orientations(g: Seq<Seq<char>>) -> Set<Seq<Seq<char>>> {
    candidates(g).to_set()
}

/// The grids of a list of pieces.
pub open spec fn grids(v: Seq<Piece>) -> Seq<Seq<Seq<char>>> {
    v.map_values(|p: Piece| p.grid())
}

/// `g` with the cell at `(r, c)` set to `x`.
pub open spec fn put(g: Seq<Seq<char>>, r: int, c: int, x: char) -> Seq<Seq<char>> {
    g.update(r, g[r].update(c, x))
}

/// The rows are equally long, there is one at least, and the first one holds
/// a symbol that is not empty: what a piece is built from.
pub open spec fn rows_ok(s: Seq<&str>) -> bool {
    &&& s.len() >= 1
    &&& s[0]@.len() >= 1
    &&& forall|i: int| 0 <= i < s.len() ==> #[trigger] s[i]@.len() == s[0]@.len()
    &&& exists|j: int| 0 <= j < s[0]@.len() && s[0]@[j] != EMPTY
}

/// The symbols of the given rows.
pub open spec fn rows_view(s: Seq<&str>) -> Seq<Seq<char>> {
    s.map_values(|line: &str| line@)
}

/// The cells of an `h` by `w` rectangle.
pub open spec fn cell_box(h: int, w: int) -> Set<(int, int)> {
    Set::new(|q: (int, int)| 0 <= q.0 < h && 0 <= q.1 < w)
}

/// The set of the grid's cells that are not empty.
pub open spec fn filled_set(g: Seq<Seq<char>>) -> Set<(int, int)> {
    Set::new(
        |q: (int, int)|
            0 <= q.0 < grid_height(g) && 0 <= q.1 < grid_width(g) && g[q.0][q.1] != EMPTY,
    )
}

/// A piece, or the board: a grid of symbols and the symbol that identifies it.
pub struct Piece {
    pub id: char,
    pub data: Vec<Vec<char>>,
}

impl Piece {
    /// The symbols of the grid, row by row.
    pub open spec fn grid(&self) -> Seq<Seq<char>> {
        self.data@.map_values(|row: Vec<char>| row@)
    }

    pub open spec fn wf(&self) -> bool {
        is_grid(self.grid())
    }

    pub fn width(&self) -> (r: usize)
        requires
            self.wf(),
        ensures
            r == grid_width(self.grid()),
    {
        self.data[0].len()
    }

    pub fn height(&self) -> (r: usize)
        requires
            self.wf(),
        ensures
            r == grid_height(self.grid()),
    {
        self.data.len()
    }

    /// Builds a piece from its rows; its id is the first symbol of the first
    /// row that is not empty.
    pub fn from(s: &[&str]) -> (r: Piece)
        requires
            rows_ok(s@),
        ensures
            r.wf(),
            r.grid() == rows_view(s@),
            r.id != EMPTY,
            exists|j: int|
                0 <= j < s@[0]@.len() && s@[0]@[j] == r.id && forall|k: int|
                    0 <= k < j ==> s@[0]@[k] == EMPTY,
    {
        let first = s[0];
        let n = first.unicode_len();
        let mut j: usize = 0;
        while first.get_char(j) == EMPTY
            invariant
                n == first@.len(),
                0 <= j < n,
                forall|k: int| 0 <= k < j ==> first@[k] == EMPTY,
                exists|j: int| 0 <= j < first@.len() && first@[j] != EMPTY,
            decreases n - j,
        {
            j = j + 1;
            assert(j < n);
        }
        let id = first.get_char(j);
        let mut data: Vec<Vec<char>> = Vec::new();
        let mut i: usize = 0;
        while i < s.len()
            invariant
                0 <= i <= s@.len(),
                data@.len() == i,
                forall|k: int| 0 <= k < i ==> #[trigger] data@[k]@ == s@[k]@,
            decreases s@.len() - i,
        {
            let line = s[i];
            let len = line.unicode_len();
            let mut row: Vec<char> = Vec::new();
            let mut k: usize = 0;
            while k < len
                invariant
                    len == line@.len(),
                    0 <= k <= len,
                    row@ == line@.subrange(0, k as int),
                decreases len - k,
            {
                row.push(line.get_char(k));
                k = k + 1;
                assert(row@ =~= line@.subrange(0, k as int));
            }
            assert(row@ =~= line@);
            data.push(row);
            i = i + 1;
        }
        let r = Piece { id, data };
        assert(r.grid() =~= rows_view(s@));
        r
    }
    /// The mirror image: each row reversed.
    pub fn rev(&self) -> (r: Piece)
        requires
            self.wf(),
        ensures
            r.wf(),
            r.id == self.id,
            r.grid() == reflect_grid(self.grid()),
    {
        let h = self.height();
        let w = self.width();
        let mut data: Vec<Vec<char>> = Vec::new();
        let mut i: usize = 0;
        while i < h
            invariant
                self.wf(),
                h == grid_height(self.grid()),
                w == grid_width(self.grid()),
                0 <= i <= h,
                data@.len() == i,
                forall|k: int| 0 <= k < i ==> #[trigger] data@[k]@ == self.grid()[k].reverse(),
            decreases h - i,
        {
            let src = &self.data[i];
            assert(src@.len() == w) by { assert(self.grid()[i as int] == src@); }
            let mut row: Vec<char> = Vec::new();
            let mut k: usize = 0;
            while k < w
                invariant
                    src@.len() == w,
                    0 <= k <= w,
                    row@.len() == k,
                    forall|m: int| 0 <= m < k ==> #[trigger] row@[m] == src@[w - 1 - m],
                decreases w - k,
            {
                row.push(src[w - 1 - k]);
                k = k + 1;
            }
            assert(row@ =~= src@.reverse());
            data.push(row);
            i = i + 1;
        }
        let r = Piece { id: self.id, data };
        assert(r.grid() =~= reflect_grid(self.grid()));
        r
    }

    /// The transpose: the columns of the receiver become the rows.
    pub fn transpose(&self) -> (r: Piece)
        requires
            self.wf(),
        ensures
            r.wf(),
            r.id == self.id,
            r.grid() == transpose_grid(self.grid()),
    {
        let h = self.height();
        let w = self.width();
        let mut data: Vec<Vec<char>> = Vec::new();
        let mut c: usize = 0;
        while c < w
            invariant
                self.wf(),
                h == grid_height(self.grid()),
                w == grid_width(self.grid()),
                0 <= c <= w,
                data@.len() == c,
                forall|k: int|
                    0 <= k < c ==> #[trigger] data@[k]@ == transpose_grid(self.grid())[k],
            decreases w - c,
        {
            let mut row: Vec<char> = Vec::new();
            let mut r: usize = 0;
            while r < h
                invariant
                    self.wf(),
                    h == grid_height(self.grid()),
                    w == grid_width(self.grid()),
                    c < w,
                    0 <= r <= h,
                    row@.len() == r,
                    forall|m: int| 0 <= m < r ==> #[trigger] row@[m] == self.grid()[m][c as int],
                decreases h - r,
            {
                assert(self.data@[r as int]@.len() == w) by {
                    assert(self.grid()[r as int] == self.data@[r as int]@);
                }
                row.push(self.data[r][c]);
                r = r + 1;
            }
            assert(row@ =~= transpose_grid(self.grid())[c as int]);
            data.push(row);
            c = c + 1;
        }
        let r = Piece { id: self.id, data };
        assert(r.grid() =~= transpose_grid(self.grid()));
        r
    }

    /// The board cells that this piece would fill with its top-left corner at
    /// `(r, c)` on `b`; empty when it does not fit there.
    pub fn fit(&self, b: &Piece, r: usize, c: usize) -> (res: Vec<(usize, usize)>)
        requires
            self.wf(),
            b.wf(),
        ensures
            fits(self.grid(), b.grid(), r as int, c as int) ==> cells_view(res@) == shift(
                filled_cells(self.grid()),
                r as int,
                c as int,
            ),
            !fits(self.grid(), b.grid(), r as int, c as int) ==> res@.len() == 0,
            res@.len() == 0 || res@.len() == filled_cells(self.grid()).len(),
    {
        let ghost pg = self.grid();
        let ghost bg = b.grid();
        let h = self.height();
        let w = self.width();
        let bh = b.height();
        let bw = b.width();
        let mut res: Vec<(usize, usize)> = Vec::new();
        if h > bh || w > bw || r > bh - h || c > bw - w {
            return res;
        }
        let mut pr: usize = 0;
        while pr < h
            invariant
                self.wf(),
                b.wf(),
                pg == self.grid(),
                bg == b.grid(),
                h == grid_height(pg),
                w == grid_width(pg),
                bh == grid_height(bg),
                bw == grid_width(bg),
                r + h <= bh,
                c + w <= bw,
                0 <= pr <= h,
                cells_view(res@) == shift(rows_cells(pg, pr as int), r as int, c as int),
                forall|i: int, j: int|
                    0 <= i < pr && 0 <= j < w && #[trigger] pg[i][j] != EMPTY ==> bg[r + i][c
                        + j] == EMPTY,
            decreases h - pr,
        {
            let prow = &self.data[pr];
            let brow = &b.data[r + pr];
            assert(prow@ == pg[pr as int]);
            assert(brow@ == bg[r + pr]);
            assert(prow@.len() == w);
            assert(brow@.len() == bw);
            let mut pc: usize = 0;
            while pc < w
                invariant
                    pg == self.grid(),
                    bg == b.grid(),
                    h == grid_height(pg),
                    w == grid_width(pg),
                    bh == grid_height(bg),
                    bw == grid_width(bg),
                    prow@ == pg[pr as int],
                    brow@ == bg[r + pr],
                    prow@.len() == w,
                    brow@.len() == bw,
                    r + h <= bh,
                    c + w <= bw,
                    pr < h,
                    0 <= pc <= w,
                    cells_view(res@) == shift(rows_cells(pg, pr as int), r as int, c as int)
                        + shift(row_cells(pg, pr as int, pc as int), r as int, c as int),
                    forall|j: int|
                        0 <= j < pc && #[trigger] pg[pr as int][j] != EMPTY ==> bg[r + pr][c
                            + j] == EMPTY,
                decreases w - pc,
            {
                let ghost old_res = res@;
                if prow[pc] != EMPTY {
                    if brow[c + pc] != EMPTY {
                        assert(pg[pr as int][pc as int] != EMPTY);
                        assert(bg[r + pr][c + pc] != EMPTY);
                        return Vec::new();
                    }
                    res.push((r + pr, c + pc));
                    assert(cells_view(res@) =~= cells_view(old_res).push((r + pr, c + pc)));
                }
                proof {
                    let rc = row_cells(pg, pr as int, pc as int);
                    if pg[pr as int][pc as int] != EMPTY {
                        assert(row_cells(pg, pr as int, pc + 1) == rc.push((pr as int, pc as int)));
                        assert(shift(rc.push((pr as int, pc as int)), r as int, c as int)
                            =~= shift(rc, r as int, c as int).push((r + pr, c + pc)));
                    } else {
                        assert(row_cells(pg, pr as int, pc + 1) == rc);
                    }
                }
                pc = pc + 1;
                assert(cells_view(res@) =~= shift(rows_cells(pg, pr as int), r as int, c as int)
                    + shift(row_cells(pg, pr as int, pc as int), r as int, c as int));
            }
            assert(shift(rows_cells(pg, pr + 1), r as int, c as int) =~= shift(
                rows_cells(pg, pr as int),
                r as int,
                c as int,
            ) + shift(row_cells(pg, pr as int, w as int), r as int, c as int));
            pr = pr + 1;
        }
        res
    }

    /// Whether the two grids hold the same symbols; ids are not compared.
    pub fn same_grid(&self, other: &Piece) -> (r: bool)
        requires
            self.wf(),
            other.wf(),
        ensures
            r == (self.grid() == other.grid()),
    {
        let h = self.height();
        if h != other.height() || self.width() != other.width() {
            assert(self.grid().len() != other.grid().len() || self.grid()[0] != other.grid()[0]);
            return false;
        }
        let w = self.width();
        let mut i: usize = 0;
        while i < h
            invariant
                self.wf(),
                other.wf(),
                h == grid_height(self.grid()),
                h == grid_height(other.grid()),
                w == grid_width(self.grid()),
                w == grid_width(other.grid()),
                0 <= i <= h,
                forall|k: int| 0 <= k < i ==> #[trigger] self.grid()[k] == other.grid()[k],
            decreases h - i,
        {
            let a = &self.data[i];
            let b = &other.data[i];
            assert(a@ == self.grid()[i as int]);
            assert(b@ == other.grid()[i as int]);
            let mut j: usize = 0;
            while j < w
                invariant
                    a@ == self.grid()[i as int],
                    b@ == other.grid()[i as int],
                    a@.len() == w,
                    b@.len() == w,
                    0 <= j <= w,
                    forall|k: int| 0 <= k < j ==> #[trigger] a@[k] == b@[k],
                decreases w - j,
            {
                if a[j] != b[j] {
                    assert(self.grid()[i as int][j as int] != other.grid()[i as int][j as int]);
                    return false;
                }
                j = j + 1;
            }
            assert(a@ =~= b@);
            i = i + 1;
        }
        assert(self.grid() =~= other.grid());
        true
    }

    /// The distinct orientations of this piece under quarter turns and
    /// reflection, each given once, all with this piece's id.
    pub fn generate_positions(&self) -> (res: Vec<Piece>)
        requires
            self.wf(),
        ensures
            1 <= res@.len() <= 8,
            forall|k: int|
                0 <= k < res@.len() ==> (#[trigger] res@[k]).wf() && res@[k].id == self.id,
            grids(res@).no_duplicates(),
            grids(res@).to_set() == orientations(self.grid()),
            forall|k: int|
                0 <= k < res@.len() ==> filled_set((#[trigger] res@[k]).grid()).len() == filled_set(
                    self.grid(),
                ).len(),
    {
        let ghost g = self.grid();
        let ghost visit = visit_order(g);
        let mut res: Vec<Piece> = Vec::new();
        let rev = self.rev();
        let mut q = self.rotate();
        proof {
            lemma_rotate_n_grid(g, 1);
            assert(rotate_n(g, 0) == g);
            assert(q.grid() == visit[0]);
        }
        let mut n: usize = 0;
        while n < 8
            invariant
                self.wf(),
                rev.wf(),
                rev.grid() == reflect_grid(g),
                g == self.grid(),
                visit == visit_order(g),
                q.wf(),
                q.id == self.id,
                rev.id == self.id,
                0 <= n <= 8,
                n != 4 && n < 8 ==> q.grid() == visit[n as int],
                res@.len() <= n,
                n > 0 ==> res@.len() >= 1,
                forall|k: int|
                0 <= k < res@.len() ==> (#[trigger] res@[k]).wf() && res@[k].id == self.id,
                grids(res@).no_duplicates(),
                grids(res@).to_set() == visit.take(n as int).to_set(),
            decreases 8 - n,
        {
            if n == 4 {
                q = rev.rotate();
                assert(rotate_n(reflect_grid(g), 0) == reflect_grid(g));
                assert(q.grid() == visit[4]);
            }
            proof {
                lemma_rotate_n_grid(g, (n + 2) as nat);
                lemma_rotate_n_grid(reflect_grid(g), (n - 2) as nat);
            }
            assert(q.grid() == visit[n as int]);
            let next = q.rotate();
            let mut found = false;
            let mut k: usize = 0;
            while k < res.len()
                invariant
                    0 <= k <= res@.len(),
                    q.wf(),
                    q.grid() == visit[n as int],
                    n < 8,
                    visit.len() == 8,
                    forall|m: int| 0 <= m < res@.len() ==> (#[trigger] res@[m]).wf(),
                    found == exists|m: int| 0 <= m < k && grids(res@)[m] == q.grid(),
                decreases res@.len() - k,
            {
                assert(grids(res@)[k as int] == res@[k as int].grid());
                if res[k].same_grid(&q) {
                    found = true;
                }
                k = k + 1;
            }
            let ghost before = res@;
            assert(visit.take(n + 1) =~= visit.take(n as int).push(visit[n as int]));
            if !found {
                res.push(q);
                assert(grids(res@) =~= grids(before).push(visit[n as int]));
                proof { grids(before).lemma_push_to_set_commute(visit[n as int]); }
            } else {
                assert(grids(before).contains(visit[n as int]));
                assert(grids(res@).to_set() =~= grids(before).to_set().insert(visit[n as int]));
            }
            proof {
                visit.take(n as int).lemma_push_to_set_commute(visit[n as int]);
                if n != 3 && n < 7 {
                    assert(next.grid() == visit[n + 1]);
                }
            }
            q = next;
            n = n + 1;
        }
        proof {
            lemma_visit_order(g, visit);
            lemma_orientations_keep_size(g);
            assert forall|k: int| 0 <= k < res@.len() implies filled_set(
                (#[trigger] res@[k]).grid(),
            ).len() == filled_set(g).len() by {
                assert(grids(res@)[k] == res@[k].grid());
                assert(grids(res@).to_set().contains(res@[k].grid()));
            }
        }
        res
    }

    /// Sets one cell to `x`.
    pub fn set_cell(&mut self, r: usize, c: usize, x: char)
        requires
            old(self).wf(),
            r < grid_height(old(self).grid()),
            c < grid_width(old(self).grid()),
        ensures
            final(self).wf(),
            final(self).id == old(self).id,
            final(self).grid() == put(old(self).grid(), r as int, c as int, x),
    {
        let ghost g = self.grid();
        assert(self.data@[r as int]@ == g[r as int]);
        self.data[r][c] = x;
        assert(self.grid() =~= put(g, r as int, c as int, x));
        assert(self.grid()[0].len() == g[0].len());
        assert forall|i: int| 0 <= i < self.grid().len() implies #[trigger] self.grid()[i].len()
            == self.grid()[0].len() by {
            assert(g[i].len() == g[0].len());
        }
    }

    /// A copy with the same id and the same symbols.
    pub fn copy(&self) -> (r: Piece)
        requires
            self.wf(),
        ensures
            r.wf(),
            r.id == self.id,
            r.grid() == self.grid(),
    {
        let h = self.height();
        let mut data: Vec<Vec<char>> = Vec::new();
        let mut i: usize = 0;
        while i < h
            invariant
                self.wf(),
                h == grid_height(self.grid()),
                0 <= i <= h,
                data@.len() == i,
                forall|k: int| 0 <= k < i ==> #[trigger] data@[k]@ == self.grid()[k],
            decreases h - i,
        {
            let src = &self.data[i];
            assert(src@ == self.grid()[i as int]);
            let mut row: Vec<char> = Vec::new();
            let mut k: usize = 0;
            while k < src.len()
                invariant
                    0 <= k <= src@.len(),
                    row@ == src@.subrange(0, k as int),
                decreases src@.len() - k,
            {
                row.push(src[k]);
                k = k + 1;
                assert(row@ =~= src@.subrange(0, k as int));
            }
            assert(row@ =~= src@);
            data.push(row);
            i = i + 1;
        }
        let r = Piece { id: self.id, data };
        assert(r.grid() =~= self.grid());
        r
    }

    /// A quarter turn: the transpose of the mirror image.
    pub fn rotate(&self) -> (r: Piece)
        requires
            self.wf(),
        ensures
            r.wf(),
            r.id == self.id,
            r.grid() == rotate_grid(self.grid()),
    {
        self.rev().transpose()
    }
}

/// Each cell of a quarter turn, in terms of the grid it turns.
pub proof fn lemma_rotate_cells(g: Seq<Seq<char>>)
    requires
        is_grid(g),
    ensures
        is_grid(rotate_grid(g)),
        grid_height(rotate_grid(g)) == grid_width(g),
        grid_width(rotate_grid(g)) == grid_height(g),
        forall|i: int, j: int|
            0 <= i < grid_width(g) && 0 <= j < grid_height(g) ==> #[trigger] rotate_grid(g)[i][j]
                == g[j][grid_width(g) - 1 - i],
{
    assert(reflect_grid(g)[0].len() == g[0].len());
    assert forall|i: int, j: int|
        0 <= i < grid_width(g) && 0 <= j < grid_height(g) implies #[trigger] rotate_grid(g)[i][j]
            == g[j][grid_width(g) - 1 - i] by {
        assert(reflect_grid(g)[j] == g[j].reverse());
        assert(g[j].len() == g[0].len());
    }
}

/// Four quarter turns give back the same grid.
pub proof fn lemma_rotate_four_times(g: Seq<Seq<char>>)
    requires
        is_grid(g),
    ensures
        rotate_grid(rotate_grid(rotate_grid(rotate_grid(g)))) == g,
{
    let g1 = rotate_grid(g);
    let g2 = rotate_grid(g1);
    let g3 = rotate_grid(g2);
    let g4 = rotate_grid(g3);
    lemma_rotate_cells(g);
    lemma_rotate_cells(g1);
    lemma_rotate_cells(g2);
    lemma_rotate_cells(g3);
    assert forall|i: int| 0 <= i < g.len() implies #[trigger] g4[i] =~= g[i] by {
        assert(g[i].len() == g[0].len());
        assert forall|j: int| 0 <= j < g[i].len() implies g4[i][j] == g[i][j] by {
            assert(g4[i][j] == g3[j][grid_width(g3) - 1 - i]);
        }
    }
    assert(g4 =~= g);
}

/// Reflecting twice gives back the same grid.
pub proof fn lemma_reflect_twice(g: Seq<Seq<char>>)
    ensures
        reflect_grid(reflect_grid(g)) == g,
{
    assert forall|i: int| 0 <= i < g.len() implies #[trigger] reflect_grid(reflect_grid(g))[i]
        =~= g[i] by {
        assert(reflect_grid(g)[i] == g[i].reverse());
    }
    assert(reflect_grid(reflect_grid(g)) =~= g);
}


/// Any number of quarter turns of a grid is a grid.
pub proof fn lemma_rotate_n_grid(g: Seq<Seq<char>>, k: nat)
    requires
        is_grid(g),
    ensures
        is_grid(rotate_n(g, k)),
    decreases k,
{
    if k > 0 {
        lemma_rotate_n_grid(g, (k - 1) as nat);
        lemma_rotate_cells(rotate_n(g, (k - 1) as nat));
    }
}

/// The order in which orientations are produced: each base grid turned once
/// before it is kept.
spec fn visit_order(g: Seq<Seq<char>>) -> Seq<Seq<Seq<char>>> {
    Seq::new(
        8,
        |n: int|
            if n < 4 {
                rotate_n(g, (n + 1) as nat)
            } else {
                rotate_n(reflect_grid(g), (n - 3) as nat)
            },
    )
}

proof fn lemma_visit_order(g: Seq<Seq<char>>, visit: Seq<Seq<Seq<char>>>)
    requires
        is_grid(g),
        visit == visit_order(g),
    ensures
        visit.take(8).to_set() == orientations(g),
{
    let rg = reflect_grid(g);
    assert(is_grid(rg)) by {
        assert forall|i: int| 0 <= i < rg.len() implies #[trigger] rg[i].len() == rg[0].len() by {
            assert(g[i].len() == g[0].len());
        }
    }
    lemma_rotate_four_times(g);
    lemma_rotate_four_times(rg);
    assert(rotate_n(g, 4) == g) by {
        reveal_with_fuel(rotate_n, 5);
    }
    assert(rotate_n(rg, 4) == rg) by {
        reveal_with_fuel(rotate_n, 5);
    }
    let c = candidates(g);
    assert(visit.take(8) =~= visit);
    assert forall|x| visit.to_set().contains(x) implies c.to_set().contains(x) by {
        let n = choose|n: int| 0 <= n < 8 && visit[n] == x;
        if n == 3 {
            assert(c[0] == x);
        } else if n == 7 {
            assert(c[4] == x);
        } else {
            assert(c[n + 1] == x);
        }
    }
    assert forall|x| c.to_set().contains(x) implies visit.to_set().contains(x) by {
        let n = choose|n: int| 0 <= n < 8 && c[n] == x;
        if n == 0 {
            assert(visit[3] == x);
        } else if n == 4 {
            assert(visit[7] == x);
        } else {
            assert(visit[n - 1] == x);
        }
    }
    assert(visit.to_set() =~= c.to_set());
}

/// Each orientation is a grid, and a quarter turn of an orientation is again
/// one of the orientations; there are between one and eight of them.
pub proof fn lemma_orientations_closed(g: Seq<Seq<char>>)
    requires
        is_grid(g),
    ensures
        1 <= orientations(g).len() <= 8,
        forall|x| #[trigger] orientations(g).contains(x) ==> is_grid(x) && orientations(g).contains(
            rotate_grid(x),
        ),
{
    let rg = reflect_grid(g);
    assert(is_grid(rg)) by {
        assert forall|i: int| 0 <= i < rg.len() implies #[trigger] rg[i].len() == rg[0].len() by {
            assert(g[i].len() == g[0].len());
        }
    }
    lemma_rotate_four_times(g);
    lemma_rotate_four_times(rg);
    assert(rotate_n(g, 4) == g) by {
        reveal_with_fuel(rotate_n, 5);
    }
    assert(rotate_n(rg, 4) == rg) by {
        reveal_with_fuel(rotate_n, 5);
    }
    let c = candidates(g);
    assert forall|x| #[trigger] orientations(g).contains(x) implies is_grid(x)
        && orientations(g).contains(rotate_grid(x)) by {
        let n = choose|n: int| 0 <= n < 8 && c[n] == x;
        if n < 4 {
            lemma_rotate_n_grid(g, n as nat);
        } else {
            lemma_rotate_n_grid(rg, (n - 4) as nat);
        }
        if n == 3 {
            assert(c[0] == rotate_grid(x));
        } else if n == 7 {
            assert(c[4] == rotate_grid(x));
        } else {
            assert(c[n + 1] == rotate_grid(x));
        }
    }
    c.lemma_cardinality_of_set();
    assert(orientations(g).contains(c[0]));
    broadcast use vstd::seq_lib::seq_to_set_is_finite;
    vstd::set_lib::lemma_set_empty_equivalency_len(orientations(g));
}


proof fn lemma_row_cells_in_bounds(g: Seq<Seq<char>>, i: int, n: int)
    requires
        0 <= i < g.len(),
        n <= g[i].len(),
    ensures
        forall|k: int|
            0 <= k < row_cells(g, i, n).len() ==> {
                let q = #[trigger] row_cells(g, i, n)[k];
                q.0 == i && 0 <= q.1 < n && g[q.0][q.1] != EMPTY
            },
    decreases n,
{
    if n > 0 {
        lemma_row_cells_in_bounds(g, i, n - 1);
        let a = row_cells(g, i, n - 1);
        assert forall|k: int| 0 <= k < row_cells(g, i, n).len() implies {
            let q = #[trigger] row_cells(g, i, n)[k];
            q.0 == i && 0 <= q.1 < n && g[q.0][q.1] != EMPTY
        } by {
            if k < a.len() {
                assert(row_cells(g, i, n)[k] == a[k]);
            }
        }
    }
}

proof fn lemma_rows_cells_in_bounds(g: Seq<Seq<char>>, m: int)
    requires
        is_grid(g),
        m <= g.len(),
    ensures
        forall|k: int|
            0 <= k < rows_cells(g, m).len() ==> {
                let q = #[trigger] rows_cells(g, m)[k];
                0 <= q.0 < m && 0 <= q.1 < grid_width(g) && g[q.0][q.1] != EMPTY
            },
    decreases m,
{
    if m > 0 {
        lemma_rows_cells_in_bounds(g, m - 1);
        assert(g[m - 1].len() == g[0].len());
        lemma_row_cells_in_bounds(g, m - 1, grid_width(g));
        let a = rows_cells(g, m - 1);
        let b = row_cells(g, m - 1, grid_width(g));
        assert forall|k: int| 0 <= k < rows_cells(g, m).len() implies {
            let q = #[trigger] rows_cells(g, m)[k];
            0 <= q.0 < m && 0 <= q.1 < grid_width(g) && g[q.0][q.1] != EMPTY
        } by {
            if k >= a.len() {
                assert(rows_cells(g, m)[k] == b[k - a.len()]);
            } else {
                assert(rows_cells(g, m)[k] == a[k]);
            }
        }
    }
}

/// Each filled cell lies in the grid and holds a symbol that is not empty.
pub proof fn lemma_filled_cells_in_bounds(g: Seq<Seq<char>>)
    requires
        is_grid(g),
    ensures
        forall|k: int|
            0 <= k < filled_cells(g).len() ==> {
                let q = #[trigger] filled_cells(g)[k];
                0 <= q.0 < grid_height(g) && 0 <= q.1 < grid_width(g) && g[q.0][q.1] != EMPTY
            },
{
    lemma_rows_cells_in_bounds(g, grid_height(g));
}


/// A rectangle of cells is finite.
pub proof fn lemma_cell_box_finite(h: int, w: int)
    requires
        w >= 0,
    ensures
        cell_box(h, w).finite(),
    decreases h,
{
    if h <= 0 {
        assert(cell_box(h, w) =~= Set::empty());
    } else {
        lemma_cell_box_finite(h - 1, w);
        let row = vstd::set_lib::set_int_range(0, w).map(|j: int| (h - 1, j));
        vstd::set_lib::lemma_int_range(0, w);
        vstd::set_lib::set_int_range(0, w).lemma_map_finite(|j: int| (h - 1, j));
        assert forall|q: (int, int)| #[trigger] cell_box(h, w).contains(q) implies cell_box(
            h - 1,
            w,
        ).contains(q) || row.contains(q) by {
            if q.0 == h - 1 {
                assert(vstd::set_lib::set_int_range(0, w).contains(q.1));
            }
        }
        assert(cell_box(h, w) =~= cell_box(h - 1, w) + row);
    }
}

/// The filled cells of a grid form a finite set.
pub proof fn lemma_filled_set_finite(g: Seq<Seq<char>>)
    ensures
        filled_set(g).finite(),
{
    lemma_cell_box_finite(grid_height(g), grid_width(g));
    assert(filled_set(g).subset_of(cell_box(grid_height(g), grid_width(g))));
    vstd::set_lib::lemma_set_subset_finite(cell_box(grid_height(g), grid_width(g)), filled_set(g));
}

/// A quarter turn, and a reflection, keep the number of filled cells.
pub proof fn lemma_turns_keep_size(g: Seq<Seq<char>>)
    requires
        is_grid(g),
    ensures
        filled_set(rotate_grid(g)).len() == filled_set(g).len(),
        filled_set(reflect_grid(g)).len() == filled_set(g).len(),
        is_grid(reflect_grid(g)),
{
    let w = grid_width(g);
    let h = grid_height(g);
    lemma_filled_set_finite(g);
    lemma_rotate_cells(g);
    let rg = rotate_grid(g);
    let f = |q: (int, int)| (w - 1 - q.1, q.0);
    assert forall|q: (int, int)| #[trigger] filled_set(rg).contains(q) implies filled_set(g).map(
        f,
    ).contains(q) by {
        let a = (q.1, w - 1 - q.0);
        assert(rg[q.0][q.1] == g[q.1][w - 1 - q.0]);
        assert(filled_set(g).contains(a));
        assert(f(a) == q);
    }
    assert forall|q: (int, int)| #[trigger] filled_set(g).map(f).contains(q) implies filled_set(
        rg,
    ).contains(q) by {
        let a = choose|a: (int, int)| filled_set(g).contains(a) && f(a) == q;
        assert(rg[q.0][q.1] == g[q.1][w - 1 - q.0]);
    }
    assert(filled_set(g).map(f) =~= filled_set(rg));
    assert(vstd::relations::injective_on(f, filled_set(g)));
    vstd::set_lib::lemma_map_size(filled_set(g), filled_set(rg), f);
    let mg = reflect_grid(g);
    let m = |q: (int, int)| (q.0, w - 1 - q.1);
    assert(mg[0].len() == w);
    assert forall|i: int| 0 <= i < mg.len() implies #[trigger] mg[i].len() == mg[0].len() by {
        assert(g[i].len() == w);
    }
    assert forall|q: (int, int)| #[trigger] filled_set(mg).contains(q) implies filled_set(g).map(
        m,
    ).contains(q) by {
        let a = (q.0, w - 1 - q.1);
        assert(g[q.0].len() == w);
        assert(mg[q.0][q.1] == g[q.0][w - 1 - q.1]);
        assert(filled_set(g).contains(a));
        assert(m(a) == q);
    }
    assert forall|q: (int, int)| #[trigger] filled_set(g).map(m).contains(q) implies filled_set(
        mg,
    ).contains(q) by {
        let a = choose|a: (int, int)| filled_set(g).contains(a) && m(a) == q;
        assert(g[q.0].len() == w);
        assert(mg[q.0][q.1] == g[q.0][w - 1 - q.1]);
    }
    assert(filled_set(g).map(m) =~= filled_set(mg));
    assert(vstd::relations::injective_on(m, filled_set(g)));
    vstd::set_lib::lemma_map_size(filled_set(g), filled_set(mg), m);
}

proof fn lemma_rotate_n_keeps_size(g: Seq<Seq<char>>, k: nat)
    requires
        is_grid(g),
    ensures
        filled_set(rotate_n(g, k)).len() == filled_set(g).len(),
    decreases k,
{
    if k > 0 {
        lemma_rotate_n_keeps_size(g, (k - 1) as nat);
        lemma_rotate_n_grid(g, (k - 1) as nat);
        lemma_turns_keep_size(rotate_n(g, (k - 1) as nat));
    }
}

/// Every orientation of a grid has as many filled cells as the grid.
pub proof fn lemma_orientations_keep_size(g: Seq<Seq<char>>)
    requires
        is_grid(g),
    ensures
        forall|x| #[trigger] orientations(g).contains(x) ==> filled_set(x).len() == filled_set(
            g,
        ).len(),
{
    lemma_turns_keep_size(g);
    assert forall|x| #[trigger] orientations(g).contains(x) implies filled_set(x).len()
        == filled_set(g).len() by {
        let n = choose|n: int| 0 <= n < 8 && candidates(g)[n] == x;
        if n < 4 {
            lemma_rotate_n_keeps_size(g, n as nat);
        } else {
            lemma_rotate_n_keeps_size(reflect_grid(g), (n - 4) as nat);
        }
    }
}

proof fn lemma_row_cells_complete(g: Seq<Seq<char>>, i: int, n: int, j: int)
    requires
        0 <= i < g.len(),
        0 <= j < n <= g[i].len(),
        g[i][j] != EMPTY,
    ensures
        row_cells(g, i, n).contains((i, j)),
    decreases n,
{
    if j < n - 1 {
        lemma_row_cells_complete(g, i, n - 1, j);
        let a = row_cells(g, i, n - 1);
        let k = choose|k: int| 0 <= k < a.len() && #[trigger] a[k] == (i, j);
        assert(row_cells(g, i, n)[k] == (i, j));
    } else {
        let a = row_cells(g, i, n - 1);
        assert(row_cells(g, i, n)[a.len() as int] == (i, j));
    }
}

proof fn lemma_rows_cells_complete(g: Seq<Seq<char>>, m: int, i: int, j: int)
    requires
        is_grid(g),
        0 <= i < m <= g.len(),
        0 <= j < grid_width(g),
        g[i][j] != EMPTY,
    ensures
        rows_cells(g, m).contains((i, j)),
    decreases m,
{
    let a = rows_cells(g, m - 1);
    let b = row_cells(g, m - 1, grid_width(g));
    if i < m - 1 {
        lemma_rows_cells_complete(g, m - 1, i, j);
        let k = choose|k: int| 0 <= k < a.len() && #[trigger] a[k] == (i, j);
        assert(rows_cells(g, m)[k] == (i, j));
    } else {
        assert(g[i].len() == grid_width(g));
        lemma_row_cells_complete(g, i, grid_width(g), j);
        let k = choose|k: int| 0 <= k < b.len() && #[trigger] b[k] == (i, j);
        assert(rows_cells(g, m)[a.len() + k] == (i, j));
    }
}

/// The listed filled cells are exactly the set of filled cells.
pub proof fn lemma_filled_cells_set(g: Seq<Seq<char>>)
    requires
        is_grid(g),
    ensures
        filled_cells(g).to_set() == filled_set(g),
{
    lemma_filled_cells_in_bounds(g);
    assert forall|q: (int, int)| #[trigger] filled_set(g).contains(q) implies filled_cells(
        g,
    ).to_set().contains(q) by {
        lemma_rows_cells_complete(g, grid_height(g), q.0, q.1);
    }
    assert forall|q: (int, int)| #[trigger] filled_cells(g).to_set().contains(q) implies filled_set(
        g,
    ).contains(q) by {
        let k = choose|k: int| 0 <= k < filled_cells(g).len() && #[trigger] filled_cells(g)[k] == q;
    }
    assert(filled_cells(g).to_set() =~= filled_set(g));
}

} // verus!
