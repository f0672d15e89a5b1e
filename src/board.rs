//! The board of the puzzle, its roster of pieces, and the backtracking search
//! that tiles it.
use vstd::prelude::*;

use crate::shape::{
    BLOCKED, EMPTY, Piece, cell_box, cells_view, filled_cells, filled_set, fits, grid_height,
    grid_width, grids, is_grid, lemma_cell_box_finite, lemma_filled_cells_in_bounds,
    lemma_filled_cells_set, lemma_filled_set_finite, orientations, put, rows_ok, rows_view, shift,
};

verus! {

/// The symbol that marks the chosen month.
pub const MONTH: char = 'M';

/// The symbol that marks the chosen day.
pub const DAY: char = 'D';

/// The number of pieces in the roster.
pub const PIECE_COUNT: usize = 8;

/// The rows of piece `k` of the roster.
pub open spec fn piece_grid(k: int) -> Seq<Seq<char>> {
    if k == 0 {
        seq!["F.."@, "F.."@, "FFF"@]
    } else if k == 1 {
        seq!["TTTT"@, ".T.."@]
    } else if k == 2 {
        seq!["SS.."@, ".SSS"@]
    } else if k == 3 {
        seq!["QQQ"@, "QQQ"@]
    } else if k == 4 {
        seq!["Z.."@, "ZZZ"@, "..Z"@]
    } else if k == 5 {
        seq!["L..."@, "LLLL"@]
    } else if k == 6 {
        seq!["U.U"@, "UUU"@]
    } else {
        seq!["BB."@, "BBB"@]
    }
}

/// The symbol of piece `k` of the roster: the first symbol of its first row
/// that is not empty.
pub open spec fn piece_symbol(k: int) -> char {
    if k == 0 {
        'F'
    } else if k == 1 {
        'T'
    } else if k == 2 {
        'S'
    } else if k == 3 {
        'Q'
    } else if k == 4 {
        'Z'
    } else if k == 5 {
        'L'
    } else if k == 6 {
        'U'
    } else {
        'B'
    }
}

/// The board before the month and the day are marked.
pub open spec fn board_grid() -> Seq<Seq<char>> {
    seq!["......#"@, "......#"@, "......."@, "......."@, "......."@, "......."@, "...####"@]
}

/// `g` with each of `cells` set to `x`, the first cell first.
pub open spec fn paint(g: Seq<Seq<char>>, cells: Seq<(int, int)>, x: char) -> Seq<Seq<char>>
    decreases cells.len(),
{
    if cells.len() == 0 {
        g
    } else {
        let q = cells.last();
        put(paint(g, cells.drop_last(), x), q.0, q.1, x)
    }
}

/// Each cell lies inside `g`.
pub open spec fn in_bounds(g: Seq<Seq<char>>, cells: Seq<(int, int)>) -> bool {
    forall|k: int|
        0 <= k < cells.len() ==> 0 <= (#[trigger] cells[k]).0 < grid_height(g) && 0 <= cells[k].1
            < grid_width(g)
}

/// `s` has the shape of `g` and keeps every cell of `g` that is not empty.
pub open spec fn extends(s: Seq<Seq<char>>, g: Seq<Seq<char>>) -> bool {
    &&& is_grid(s)
    &&& grid_height(s) == grid_height(g)
    &&& grid_width(s) == grid_width(g)
    &&& forall|i: int, j: int|
        0 <= i < grid_height(g) && 0 <= j < grid_width(g) && #[trigger] g[i][j] != EMPTY ==> s[i][j]
            == g[i][j]
}

/// The number of filled cells of piece `i`, in its first orientation.
pub open spec fn piece_size(pieces: Seq<Vec<Piece>>, i: int) -> nat {
    filled_set(pieces[i]@[0].grid()).len()
}

/// The number of filled cells of the pieces from `k` on.
pub open spec fn suffix_size(pieces: Seq<Vec<Piece>>, k: int) -> nat
    decreases pieces.len() - k,
{
    if k < 0 || k >= pieces.len() {
        0
    } else {
        piece_size(pieces, k) + suffix_size(pieces, k + 1)
    }
}

/// The number of filled cells of the pieces before `k`.
pub open spec fn prefix_size(pieces: Seq<Vec<Piece>>, k: int) -> nat
    decreases k,
{
    if k <= 0 || k > pieces.len() {
        0
    } else {
        prefix_size(pieces, k - 1) + piece_size(pieces, k - 1)
    }
}

/// Each piece has an orientation; every orientation is a grid whose id is
/// neither empty nor blocked, with as many filled cells as the other
/// orientations of its piece.
pub open spec fn roster_wf(pieces: Seq<Vec<Piece>>) -> bool {
    &&& forall|i: int| 0 <= i < pieces.len() ==> (#[trigger] pieces[i])@.len() >= 1
    &&& forall|i: int, j: int|
        0 <= i < pieces.len() && 0 <= j < pieces[i]@.len() ==> {
            let p = #[trigger] pieces[i]@[j];
            &&& p.wf()
            &&& p.id != EMPTY
            &&& p.id != BLOCKED
            &&& filled_set(p.grid()).len() == piece_size(pieces, i)
        }
}

/// The cells that hold a piece or a mark: neither empty nor blocked.
pub open spec fn occupied(g: Seq<Seq<char>>) -> Set<(int, int)> {
    Set::new(
        |q: (int, int)|
            0 <= q.0 < grid_height(g) && 0 <= q.1 < grid_width(g) && g[q.0][q.1] != EMPTY
                && g[q.0][q.1] != BLOCKED,
    )
}

/// A cell of a painted grid is `x` where it was painted, and as before
/// elsewhere.
pub proof fn lemma_paint_cells(g: Seq<Seq<char>>, cells: Seq<(int, int)>, x: char)
    requires
        is_grid(g),
        in_bounds(g, cells),
    ensures
        is_grid(paint(g, cells, x)),
        grid_height(paint(g, cells, x)) == grid_height(g),
        grid_width(paint(g, cells, x)) == grid_width(g),
        forall|i: int, j: int|
            0 <= i < grid_height(g) && 0 <= j < grid_width(g) ==> #[trigger] paint(
                g,
                cells,
                x,
            )[i][j]
                == if cells.contains((i, j)) {
                x
            } else {
                g[i][j]
            },
    decreases cells.len(),
{
    if cells.len() > 0 {
        let rest = cells.drop_last();
        let q = cells.last();
        assert(in_bounds(g, rest)) by {
            assert forall|k: int| 0 <= k < rest.len() implies 0 <= (#[trigger] rest[k]).0
                < grid_height(g) && 0 <= rest[k].1 < grid_width(g) by {
                assert(rest[k] == cells[k]);
            }
        }
        lemma_paint_cells(g, rest, x);
        let p = paint(g, rest, x);
        let n = put(p, q.0, q.1, x);
        assert(cells[cells.len() - 1] == q);
        assert(n[0].len() == p[0].len()) by {
            assert(p[q.0].len() == p[0].len());
        }
        assert forall|i: int| 0 <= i < n.len() implies #[trigger] n[i].len() == n[0].len() by {
            assert(p[i].len() == p[0].len());
            assert(p[q.0].len() == p[0].len());
        }
        assert forall|i: int, j: int|
            0 <= i < grid_height(g) && 0 <= j < grid_width(g) implies #[trigger] n[i][j]
                == if cells.contains(
                (i, j),
            ) {
                x
            } else {
                g[i][j]
            } by {
            assert(p[i].len() == p[0].len());
            if (i, j) != q {
                if rest.contains((i, j)) {
                    let k = choose|k: int| 0 <= k < rest.len() && rest[k] == (i, j);
                    assert(cells[k] == (i, j));
                }
                if cells.contains((i, j)) {
                    let k = choose|k: int| 0 <= k < cells.len() && cells[k] == (i, j);
                    assert(k != cells.len() - 1);
                    assert(rest[k] == (i, j));
                }
            }
        }
    }
}

/// Writes `x` into each of `cells`.
fn apply(board: &mut Piece, cells: &Vec<(usize, usize)>, x: char)
    requires
        old(board).wf(),
        in_bounds(old(board).grid(), cells_view(cells@)),
    ensures
        final(board).wf(),
        final(board).id == old(board).id,
        final(board).grid() == paint(old(board).grid(), cells_view(cells@), x),
{
    let ghost g = board.grid();
    let ghost cv = cells_view(cells@);
    let mut k: usize = 0;
    while k < cells.len()
        invariant
            is_grid(g),
            cv == cells_view(cells@),
            in_bounds(g, cv),
            board.wf(),
            board.id == old(board).id,
            g == old(board).grid(),
            0 <= k <= cells@.len(),
            board.grid() == paint(g, cv.take(k as int), x),
        decreases cells@.len() - k,
    {
        let (r, c) = cells[k];
        proof {
            assert(in_bounds(g, cv.take(k as int))) by {
                assert forall|m: int| 0 <= m < cv.take(k as int).len() implies 0 <= (
                #[trigger] cv.take(k as int)[m]).0 < grid_height(g) && 0 <= cv.take(
                    k as int,
                )[m].1 < grid_width(g) by {
                    assert(cv.take(k as int)[m] == cv[m]);
                }
            }
            lemma_paint_cells(g, cv.take(k as int), x);
            assert(cv[k as int] == (r as int, c as int));
        }
        board.set_cell(r, c, x);
        k = k + 1;
        assert(cv.take(k as int).drop_last() =~= cv.take(k - 1));
    }
    assert(cv.take(cells@.len() as int) =~= cv);
}


/// A placement that fits covers only empty cells inside the board.
pub proof fn lemma_fit_cells(p: Seq<Seq<char>>, b: Seq<Seq<char>>, r: int, c: int)
    requires
        is_grid(p),
        is_grid(b),
        r >= 0,
        c >= 0,
        fits(p, b, r, c),
    ensures
        in_bounds(b, shift(filled_cells(p), r, c)),
        forall|k: int|
            0 <= k < shift(filled_cells(p), r, c).len() ==> {
                let q = #[trigger] shift(filled_cells(p), r, c)[k];
                b[q.0][q.1] == EMPTY
            },
{
    lemma_filled_cells_in_bounds(p);
    let cs = shift(filled_cells(p), r, c);
    assert forall|k: int| 0 <= k < cs.len() implies 0 <= (#[trigger] cs[k]).0 < grid_height(b) && 0
        <= cs[k].1 < grid_width(b) && b[cs[k].0][cs[k].1] == EMPTY by {
        let f = filled_cells(p)[k];
        assert(p[f.0][f.1] != EMPTY);
    }
}

/// Painting empty cells and then clearing them gives back the grid, and a
/// grid that extends the painted one extends the grid it was painted on.
pub proof fn lemma_paint_undo(g: Seq<Seq<char>>, cells: Seq<(int, int)>, x: char)
    requires
        is_grid(g),
        in_bounds(g, cells),
        forall|k: int|
            0 <= k < cells.len() ==> g[(#[trigger] cells[k]).0][cells[k].1] == EMPTY,
    ensures
        paint(paint(g, cells, x), cells, EMPTY) == g,
        forall|s: Seq<Seq<char>>| #[trigger] extends(s, paint(g, cells, x)) ==> extends(s, g),
{
    let g1 = paint(g, cells, x);
    lemma_paint_cells(g, cells, x);
    lemma_paint_cells(g1, cells, EMPTY);
    let g2 = paint(g1, cells, EMPTY);
    assert forall|i: int| 0 <= i < g.len() implies #[trigger] g2[i] =~= g[i] by {
        assert(g[i].len() == g[0].len());
        assert(g2[i].len() == g2[0].len());
        assert forall|j: int| 0 <= j < g[i].len() implies g2[i][j] == g[i][j] by {
            if cells.contains((i, j)) {
                let k = choose|k: int| 0 <= k < cells.len() && cells[k] == (i, j);
                assert(g[cells[k].0][cells[k].1] == EMPTY);
            }
        }
    }
    assert(g2 =~= g);
    assert forall|s: Seq<Seq<char>>| #[trigger] extends(s, g1) implies extends(s, g) by {
        assert forall|i: int, j: int|
            0 <= i < grid_height(g) && 0 <= j < grid_width(g) && #[trigger] g[i][j] != EMPTY
                implies s[i][j]
                == g[i][j] by {
            if cells.contains((i, j)) {
                let k = choose|k: int| 0 <= k < cells.len() && cells[k] == (i, j);
                assert(g[cells[k].0][cells[k].1] == EMPTY);
            }
            assert(g1[i][j] == g[i][j]);
        }
    }
}

/// Orientation `j` of piece `k` covers at least one cell and fits on `g` with
/// its top-left corner at `(r, c)`.
pub open spec fn places(
    pieces: Seq<Vec<Piece>>,
    g: Seq<Seq<char>>,
    k: int,
    j: int,
    r: int,
    c: int,
) -> bool {
    &&& 0 <= j < pieces[k]@.len()
    &&& r >= 0
    &&& c >= 0
    &&& fits(pieces[k]@[j].grid(), g, r, c)
    &&& filled_cells(pieces[k]@[j].grid()).len() > 0
}

/// `g` with orientation `j` of piece `k` written in at `(r, c)`.
pub open spec fn placed(
    pieces: Seq<Vec<Piece>>,
    g: Seq<Seq<char>>,
    k: int,
    j: int,
    r: int,
    c: int,
) -> Seq<Seq<char>> {
    paint(g, shift(filled_cells(pieces[k]@[j].grid()), r, c), pieces[k]@[j].id)
}

/// `s` is a board that placing each piece from `k` on once, in some
/// orientation and where it fits, makes of `g`.
pub open spec fn is_tiling(
    pieces: Seq<Vec<Piece>>,
    g: Seq<Seq<char>>,
    k: int,
    s: Seq<Seq<char>>,
) -> bool
    decreases pieces.len() - k,
{
    if k >= pieces.len() {
        s == g
    } else {
        exists|j: int, r: int, c: int|
            #[trigger] places(pieces, g, k, j, r, c) && is_tiling(
                pieces,
                placed(pieces, g, k, j, r, c),
                k + 1,
                s,
            )
    }
}

/// `s` is the board of one of the solutions recorded after the first `n`.
pub open spec fn recorded(sols: Seq<Piece>, n: int, s: Seq<Seq<char>>) -> bool {
    exists|m: int| n <= m < sols.len() && (#[trigger] sols[m]).grid() == s
}

/// The candidate `(r0, c0, j0)` comes before `(r, c, j)`: anchors in
/// row-major order, then orientations in order.
pub open spec fn before_pos(r0: int, c0: int, j0: int, r: int, c: int, j: int) -> bool {
    r0 < r || (r0 == r && (c0 < c || (c0 == c && j0 < j)))
}

/// `s` comes from a candidate before `(r, c, j)` that places piece `k` on `g`.
pub open spec fn found_before(
    pieces: Seq<Vec<Piece>>,
    g: Seq<Seq<char>>,
    k: int,
    r: int,
    c: int,
    j: int,
    s: Seq<Seq<char>>,
) -> bool {
    exists|j0: int, r0: int, c0: int|
        before_pos(r0, c0, j0, r, c, j) && #[trigger] places(pieces, g, k, j0, r0, c0) && is_tiling(
            pieces,
            placed(pieces, g, k, j0, r0, c0),
            k + 1,
            s,
        )
}

proof fn lemma_next_orientation(
    pieces: Seq<Vec<Piece>>,
    g: Seq<Seq<char>>,
    k: int,
    r: int,
    c: int,
    j: int,
    s: Seq<Seq<char>>,
)
    ensures
        found_before(pieces, g, k, r, c, j + 1, s) == (found_before(pieces, g, k, r, c, j, s) || (
        places(pieces, g, k, j, r, c) && is_tiling(
            pieces,
            placed(pieces, g, k, j, r, c),
            k + 1,
            s,
        ))),
{
    if found_before(pieces, g, k, r, c, j + 1, s) {
        let (j0, r0, c0) = choose|j0: int, r0: int, c0: int|
            before_pos(r0, c0, j0, r, c, j + 1) && #[trigger] places(pieces, g, k, j0, r0, c0)
                && is_tiling(pieces, placed(pieces, g, k, j0, r0, c0), k + 1, s);
        if !(r0 == r && c0 == c && j0 == j) {
            assert(before_pos(r0, c0, j0, r, c, j));
        }
    }
    if found_before(pieces, g, k, r, c, j, s) {
        let (j0, r0, c0) = choose|j0: int, r0: int, c0: int|
            before_pos(r0, c0, j0, r, c, j) && #[trigger] places(pieces, g, k, j0, r0, c0)
                && is_tiling(pieces, placed(pieces, g, k, j0, r0, c0), k + 1, s);
        assert(before_pos(r0, c0, j0, r, c, j + 1));
    }
    if places(pieces, g, k, j, r, c) && is_tiling(pieces, placed(pieces, g, k, j, r, c), k + 1, s) {
        assert(before_pos(r, c, j, r, c, j + 1));
    }
}

/// The boards that the search records from `g` at depth `k`, in the order it
/// records them: `g` itself once every piece is placed, else those of every
/// candidate in search order.
pub open spec fn search_boards(pieces: Seq<Vec<Piece>>, g: Seq<Seq<char>>, k: int) -> Seq<
    Seq<Seq<char>>,
>
    decreases pieces.len() - k, grid_height(g) + 1, 0int, 0int,
{
    if k >= pieces.len() {
        seq![g]
    } else {
        boards_before(pieces, g, k, grid_height(g), 0, 0)
    }
}

/// The boards recorded from the candidates before `(r, c, j)`: anchors in
/// row-major order, then orientations in order.
pub open spec fn boards_before(
    pieces: Seq<Vec<Piece>>,
    g: Seq<Seq<char>>,
    k: int,
    r: int,
    c: int,
    j: int,
) -> Seq<Seq<Seq<char>>>
    decreases pieces.len() - k, r, c, j,
{
    if k < 0 || k >= pieces.len() {
        Seq::empty()
    } else if j > 0 {
        boards_before(pieces, g, k, r, c, j - 1) + if places(pieces, g, k, j - 1, r, c) {
            search_boards(pieces, placed(pieces, g, k, j - 1, r, c), k + 1)
        } else {
            Seq::empty()
        }
    } else if c > 0 {
        boards_before(pieces, g, k, r, c - 1, pieces[k]@.len() as int)
    } else if r > 0 {
        boards_before(pieces, g, k, r - 1, grid_width(g), 0)
    } else {
        Seq::empty()
    }
}

/// The number of entries into the search from `g` at depth `k`: this one,
/// and those made for each candidate that places the piece.
pub open spec fn search_calls(pieces: Seq<Vec<Piece>>, g: Seq<Seq<char>>, k: int) -> nat
    decreases pieces.len() - k, grid_height(g) + 1, 0int, 0int,
{
    if k >= pieces.len() {
        1
    } else {
        1 + calls_before(pieces, g, k, grid_height(g), 0, 0)
    }
}

/// The entries made for the candidates before `(r, c, j)`.
pub open spec fn calls_before(
    pieces: Seq<Vec<Piece>>,
    g: Seq<Seq<char>>,
    k: int,
    r: int,
    c: int,
    j: int,
) -> nat
    decreases pieces.len() - k, r, c, j,
{
    if k < 0 || k >= pieces.len() {
        0
    } else if j > 0 {
        calls_before(pieces, g, k, r, c, j - 1) + if places(pieces, g, k, j - 1, r, c) {
            search_calls(pieces, placed(pieces, g, k, j - 1, r, c), k + 1)
        } else {
            0
        }
    } else if c > 0 {
        calls_before(pieces, g, k, r, c - 1, pieces[k]@.len() as int)
    } else if r > 0 {
        calls_before(pieces, g, k, r - 1, grid_width(g), 0)
    } else {
        0
    }
}

/// `x`, or the largest `usize` where `x` is larger.
pub open spec fn saturated(x: int) -> int {
    if x > usize::MAX {
        usize::MAX as int
    } else {
        x
    }
}

/// What a search keeps of what it found before, and what it adds: complete
/// boards that extend the board it started from.
pub open spec fn found_more(
    before: Seq<Piece>,
    after: Seq<Piece>,
    g: Seq<Seq<char>>,
    count: nat,
) -> bool {
    &&& after.len() >= before.len()
    &&& forall|k: int| 0 <= k < before.len() ==> #[trigger] after[k] == before[k]
    &&& forall|k: int|
        before.len() <= k < after.len() ==> extends(#[trigger] after[k].grid(), g) && occupied(
            after[k].grid(),
        ).len() == count
}

/// The occupied cells of a grid form a finite set.
pub proof fn lemma_occupied_finite(g: Seq<Seq<char>>)
    ensures
        occupied(g).finite(),
{
    lemma_cell_box_finite(grid_height(g), grid_width(g));
    assert(occupied(g).subset_of(cell_box(grid_height(g), grid_width(g))));
    vstd::set_lib::lemma_set_subset_finite(cell_box(grid_height(g), grid_width(g)), occupied(g));
}

/// Placing a piece that fits adds exactly its filled cells to the occupied
/// cells of the board.
pub proof fn lemma_place_count(g: Seq<Seq<char>>, p: Seq<Seq<char>>, r: int, c: int, x: char)
    requires
        is_grid(g),
        is_grid(p),
        r >= 0,
        c >= 0,
        fits(p, g, r, c),
        x != EMPTY,
        x != BLOCKED,
    ensures
        occupied(paint(g, shift(filled_cells(p), r, c), x)).len() == occupied(g).len() + filled_set(
            p,
        ).len(),
{
    let cells = shift(filled_cells(p), r, c);
    let g1 = paint(g, cells, x);
    lemma_fit_cells(p, g, r, c);
    lemma_paint_cells(g, cells, x);
    lemma_filled_cells_set(p);
    lemma_filled_cells_in_bounds(p);
    lemma_filled_set_finite(p);
    lemma_occupied_finite(g);
    let f = |q: (int, int)| (q.0 + r, q.1 + c);
    let cs = filled_set(p).map(f);
    assert forall|q: (int, int)| #[trigger] cells.to_set().contains(q) implies cs.contains(q) by {
        let k = choose|k: int| 0 <= k < cells.len() && #[trigger] cells[k] == q;
        assert(filled_cells(p).to_set().contains(filled_cells(p)[k]));
        assert(f(filled_cells(p)[k]) == q);
    }
    assert forall|q: (int, int)| #[trigger] cs.contains(q) implies cells.to_set().contains(q) by {
        let a = choose|a: (int, int)| filled_set(p).contains(a) && f(a) == q;
        assert(filled_cells(p).to_set().contains(a));
        let k = choose|k: int| 0 <= k < filled_cells(p).len() && #[trigger] filled_cells(p)[k] == a;
        assert(cells[k] == q);
    }
    assert(cells.to_set() =~= cs);
    assert(vstd::relations::injective_on(f, filled_set(p)));
    vstd::set_lib::lemma_map_size(filled_set(p), cs, f);
    assert forall|q: (int, int)| #[trigger] occupied(g1).contains(q) == (occupied(g).contains(q)
        || cs.contains(q)) by {
        if cs.contains(q) {
            let k = choose|k: int| 0 <= k < cells.len() && #[trigger] cells[k] == q;
            assert(g1[q.0][q.1] == x);
        } else if 0 <= q.0 < grid_height(g) && 0 <= q.1 < grid_width(g) {
            assert(!cells.contains(q));
        }
    }
    assert(occupied(g1) =~= occupied(g) + cs);
    assert(occupied(g).disjoint(cs)) by {
        assert forall|q: (int, int)| cs.contains(q) implies !occupied(g).contains(q) by {
            let k = choose|k: int| 0 <= k < cells.len() && #[trigger] cells[k] == q;
        }
    }
    vstd::set_lib::lemma_set_disjoint_lens(occupied(g), cs);
}

/// Places the pieces from `piece_id` on in every way that fits, recording a
/// copy of the board each time all of them are placed: the boards recorded
/// are exactly the tilings of those pieces. The board is given back as it
/// was; `calls` counts each entry into the search.
pub fn solve_from(
    pieces: &Vec<Vec<Piece>>,
    board: &mut Piece,
    calls: &mut usize,
    solutions: &mut Vec<Piece>,
    piece_id: usize,
)
    requires
        roster_wf(pieces@),
        old(board).wf(),
        piece_id <= pieces@.len(),
    ensures
        final(board).wf(),
        final(board).id == old(board).id,
        final(board).grid() == old(board).grid(),
        *final(calls) == saturated(*old(calls) + search_calls(pieces@, old(board).grid(), piece_id as int)),
        *final(calls) > 0,
        grids(final(solutions)@).subrange(old(solutions)@.len() as int, final(solutions)@.len() as int)
            == search_boards(pieces@, old(board).grid(), piece_id as int),
        found_more(
            old(solutions)@,
            final(solutions)@,
            old(board).grid(),
            occupied(old(board).grid()).len() + suffix_size(pieces@, piece_id as int),
        ),
        forall|s: Seq<Seq<char>>|
            recorded(final(solutions)@, old(solutions)@.len() as int, s) == #[trigger] is_tiling(
                pieces@,
                old(board).grid(),
                piece_id as int,
                s,
            ),
    decreases pieces@.len() - piece_id,
{
    *calls = (*calls).saturating_add(1);
    if piece_id == pieces.len() {
        let snap = board.copy();
        solutions.push(snap);
        assert(extends(snap.grid(), snap.grid()));
        assert(suffix_size(pieces@, piece_id as int) == 0);
        assert(grids(solutions@).subrange(old(solutions)@.len() as int, solutions@.len() as int)
            =~= seq![snap.grid()]);
        assert forall|s: Seq<Seq<char>>|
            recorded(solutions@, old(solutions)@.len() as int, s) == #[trigger] is_tiling(
                pieces@,
                old(board).grid(),
                piece_id as int,
                s,
            ) by {
            if s == snap.grid() {
                assert(solutions@[old(solutions)@.len() as int] == snap);
            }
        }
        return;
    }
    let ghost g0 = board.grid();
    let ghost sols0 = solutions@;
    let ghost total = occupied(g0).len() + suffix_size(pieces@, piece_id as int);
    let h = board.height();
    let w = board.width();
    let orients = &pieces[piece_id];
    let mut r: usize = 0;
    while r < h
        invariant
            roster_wf(pieces@),
            piece_id < pieces@.len() <= usize::MAX,
            orients == pieces@[piece_id as int],
            board.wf(),
            board.id == old(board).id,
            board.grid() == g0,
            g0 == old(board).grid(),
            h == grid_height(g0),
            w == grid_width(g0),
            *calls == saturated(*old(calls) + 1 + calls_before(pieces@, g0, piece_id as int, r as int, 0, 0)),
            grids(solutions@).subrange(sols0.len() as int, solutions@.len() as int) == boards_before(
                pieces@,
                g0,
                piece_id as int,
                r as int,
                0,
                0,
            ),
            *calls > 0,
            sols0 == old(solutions)@,
            found_more(sols0, solutions@, g0, total),
            total == occupied(g0).len() + suffix_size(pieces@, piece_id as int),
            0 <= r <= h,
            forall|s: Seq<Seq<char>>|
                recorded(solutions@, sols0.len() as int, s) == found_before(
                    pieces@,
                    g0,
                    piece_id as int,
                    r as int,
                    0,
                    0,
                    s,
                ),
        decreases h - r,
    {
        let mut c: usize = 0;
        while c < w
            invariant
                roster_wf(pieces@),
                piece_id < pieces@.len() <= usize::MAX,
                orients == pieces@[piece_id as int],
                board.wf(),
                board.id == old(board).id,
                board.grid() == g0,
                h == grid_height(g0),
                w == grid_width(g0),
                *calls == saturated(*old(calls) + 1 + calls_before(pieces@, g0, piece_id as int, r as int, c as int, 0)),
                grids(solutions@).subrange(sols0.len() as int, solutions@.len() as int) == boards_before(
                    pieces@,
                    g0,
                    piece_id as int,
                    r as int,
                    c as int,
                    0,
                ),
                *calls > 0,
                found_more(sols0, solutions@, g0, total),
                total == occupied(g0).len() + suffix_size(pieces@, piece_id as int),
                r < h,
                0 <= c <= w,
                sols0 == old(solutions)@,
                forall|s: Seq<Seq<char>>|
                    recorded(solutions@, sols0.len() as int, s) == found_before(
                        pieces@,
                        g0,
                        piece_id as int,
                        r as int,
                        c as int,
                        0,
                        s,
                    ),
            decreases w - c,
        {
            let mut j: usize = 0;
            while j < orients.len()
                invariant
                    roster_wf(pieces@),
                    piece_id < pieces@.len() <= usize::MAX,
                    orients == pieces@[piece_id as int],
                    board.wf(),
                    board.id == old(board).id,
                    board.grid() == g0,
                    *calls == saturated(*old(calls) + 1 + calls_before(pieces@, g0, piece_id as int, r as int, c as int, j as int)),
                    grids(solutions@).subrange(sols0.len() as int, solutions@.len() as int) == boards_before(
                        pieces@,
                        g0,
                        piece_id as int,
                        r as int,
                        c as int,
                        j as int,
                    ),
                    *calls > 0,
                    found_more(sols0, solutions@, g0, total),
                    total == occupied(g0).len() + suffix_size(pieces@, piece_id as int),
                    0 <= j <= orients@.len(),
                    r < h,
                    c < w,
                    h == grid_height(g0),
                    w == grid_width(g0),
                    sols0 == old(solutions)@,
                    forall|s: Seq<Seq<char>>|
                        recorded(solutions@, sols0.len() as int, s) == found_before(
                            pieces@,
                            g0,
                            piece_id as int,
                            r as int,
                            c as int,
                            j as int,
                            s,
                        ),
                decreases orients@.len() - j,
            {
                let p = &orients[j];
                assert(p.wf());
                let ghost start = solutions@;
                let occ = p.fit(board, r, c);
                proof {
                    assert(p == pieces@[piece_id as int]@[j as int]);
                    assert(cells_view(occ@).len() == occ@.len());
                    assert(shift(filled_cells(p.grid()), r as int, c as int).len() == filled_cells(
                        p.grid(),
                    ).len());
                    assert((occ@.len() != 0) == places(
                        pieces@,
                        g0,
                        piece_id as int,
                        j as int,
                        r as int,
                        c as int,
                    ));
                }
                if occ.len() != 0 {
                    let ghost cells = cells_view(occ@);
                    let ghost sols1 = solutions@;
                    proof {
                        lemma_fit_cells(p.grid(), g0, r as int, c as int);
                        lemma_paint_undo(g0, cells, p.id);
                        lemma_paint_cells(g0, cells, p.id);
                        lemma_place_count(g0, p.grid(), r as int, c as int, p.id);
                        assert(p == pieces@[piece_id as int]@[j as int]);
                        assert(filled_set(p.grid()).len() == piece_size(pieces@, piece_id as int));
                        assert(suffix_size(pieces@, piece_id as int) == piece_size(
                            pieces@,
                            piece_id as int,
                        ) + suffix_size(pieces@, piece_id + 1));
                    }
                    apply(board, &occ, p.id);
                    let ghost calls1 = *calls;
                    solve_from(pieces, board, calls, solutions, piece_id + 1);
                    proof {
                        let pl = placed(pieces@, g0, piece_id as int, j as int, r as int, c as int);
                        assert(cells == shift(filled_cells(p.grid()), r as int, c as int));
                        assert(grids(solutions@).subrange(sols0.len() as int, solutions@.len() as int)
                            =~= grids(start).subrange(sols0.len() as int, start.len() as int)
                            + grids(solutions@).subrange(start.len() as int, solutions@.len() as int));
                        assert(*calls == saturated(calls1 + search_calls(pieces@, pl, piece_id + 1)));
                    }
                    proof {
                        assert forall|k: int| sols1.len() <= k < solutions@.len() implies extends(
                            #[trigger] solutions@[k].grid(),
                            g0,
                        ) && occupied(solutions@[k].grid()).len() == total by {
                            assert(extends(solutions@[k].grid(), paint(g0, cells, p.id)));
                        }
                    }
                    apply(board, &occ, EMPTY);
                    proof {
                        let pl = placed(pieces@, g0, piece_id as int, j as int, r as int, c as int);
                        assert(cells == shift(filled_cells(p.grid()), r as int, c as int));
                        assert forall|s: Seq<Seq<char>>|
                            #[trigger] recorded(solutions@, sols0.len() as int, s) == (recorded(
                                start,
                                sols0.len() as int,
                                s,
                            ) || is_tiling(pieces@, pl, piece_id + 1, s)) by {
                            assert(recorded(solutions@, sols1.len() as int, s) == is_tiling(
                                pieces@,
                                pl,
                                piece_id + 1,
                                s,
                            ));
                            if recorded(solutions@, sols0.len() as int, s) {
                                let m = choose|m: int|
                                    sols0.len() <= m < solutions@.len() && (
                                    #[trigger] solutions@[m]).grid() == s;
                                if m < sols1.len() {
                                    assert(start[m] == solutions@[m]);
                                } else {
                                    assert(recorded(solutions@, sols1.len() as int, s));
                                }
                            }
                            if recorded(start, sols0.len() as int, s) {
                                let m = choose|m: int|
                                    sols0.len() <= m < start.len() && (#[trigger] start[m]).grid()
                                        == s;
                                assert(solutions@[m] == start[m]);
                            }
                            if recorded(solutions@, sols1.len() as int, s) {
                                let m = choose|m: int|
                                    sols1.len() <= m < solutions@.len() && (
                                    #[trigger] solutions@[m]).grid() == s;
                                assert(sols0.len() <= m);
                            }
                        }
                    }
                }
                proof {
                    assert(boards_before(pieces@, g0, piece_id as int, r as int, c as int, j + 1)
                        == boards_before(pieces@, g0, piece_id as int, r as int, c as int, j as int)
                        + if places(pieces@, g0, piece_id as int, j as int, r as int, c as int) {
                        search_boards(
                            pieces@,
                            placed(pieces@, g0, piece_id as int, j as int, r as int, c as int),
                            piece_id + 1,
                        )
                    } else {
                        Seq::empty()
                    });
                    assert(calls_before(pieces@, g0, piece_id as int, r as int, c as int, j + 1)
                        == calls_before(pieces@, g0, piece_id as int, r as int, c as int, j as int)
                        + if places(pieces@, g0, piece_id as int, j as int, r as int, c as int) {
                        search_calls(
                            pieces@,
                            placed(pieces@, g0, piece_id as int, j as int, r as int, c as int),
                            piece_id + 1,
                        )
                    } else {
                        0
                    });
                    if !places(pieces@, g0, piece_id as int, j as int, r as int, c as int) {
                        assert(grids(solutions@).subrange(sols0.len() as int, solutions@.len() as int)
                            =~= grids(start).subrange(sols0.len() as int, start.len() as int)
                            + Seq::empty());
                    }
                    assert forall|s: Seq<Seq<char>>|
                        recorded(solutions@, sols0.len() as int, s) == #[trigger] found_before(
                            pieces@,
                            g0,
                            piece_id as int,
                            r as int,
                            c as int,
                            j + 1,
                            s,
                        ) by {
                        lemma_next_orientation(
                            pieces@,
                            g0,
                            piece_id as int,
                            r as int,
                            c as int,
                            j as int,
                            s,
                        );
                    }
                }
                j = j + 1;
            }
            assert(boards_before(pieces@, g0, piece_id as int, r as int, c + 1, 0) == boards_before(
                pieces@, g0, piece_id as int, r as int, c as int, orients@.len() as int));
            assert(calls_before(pieces@, g0, piece_id as int, r as int, c + 1, 0) == calls_before(
                pieces@, g0, piece_id as int, r as int, c as int, orients@.len() as int));
            c = c + 1;
        }
        assert(boards_before(pieces@, g0, piece_id as int, r + 1, 0, 0) == boards_before(
            pieces@, g0, piece_id as int, r as int, w as int, 0));
        assert(calls_before(pieces@, g0, piece_id as int, r + 1, 0, 0) == calls_before(
            pieces@, g0, piece_id as int, r as int, w as int, 0));
        r = r + 1;
    }
}


/// The rows of piece `k` of the roster.
pub fn piece_rows(k: usize) -> (r: Vec<&'static str>)
    requires
        k < PIECE_COUNT,
    ensures
        rows_ok(r@),
        rows_view(r@) == piece_grid(k as int),
        forall|j: int|
            0 <= j < r@[0]@.len() ==> r@[0]@[j] == EMPTY || r@[0]@[j] == piece_symbol(k as int),
{
    proof {
        reveal_strlit("..Z");
        reveal_strlit(".SSS");
        reveal_strlit(".T..");
        reveal_strlit("BB.");
        reveal_strlit("BBB");
        reveal_strlit("F..");
        reveal_strlit("FFF");
        reveal_strlit("L...");
        reveal_strlit("LLLL");
        reveal_strlit("QQQ");
        reveal_strlit("SS..");
        reveal_strlit("TTTT");
        reveal_strlit("U.U");
        reveal_strlit("UUU");
        reveal_strlit("Z..");
        reveal_strlit("ZZZ");
    }
    let r = if k == 0 {
        vec!["F..", "F..", "FFF"]
    } else if k == 1 {
        vec!["TTTT", ".T.."]
    } else if k == 2 {
        vec!["SS..", ".SSS"]
    } else if k == 3 {
        vec!["QQQ", "QQQ"]
    } else if k == 4 {
        vec!["Z..", "ZZZ", "..Z"]
    } else if k == 5 {
        vec!["L...", "LLLL"]
    } else if k == 6 {
        vec!["U.U", "UUU"]
    } else {
        vec!["BB.", "BBB"]
    };
    assert(rows_view(r@) =~= piece_grid(k as int));
    assert(r@[0]@[0] != EMPTY || r@[0]@[1] != EMPTY);
    r
}

/// The rows of the board before the month and the day are marked.
pub fn board_rows() -> (r: Vec<&'static str>)
    ensures
        rows_ok(r@),
        rows_view(r@) == board_grid(),
{
    proof {
        reveal_strlit("...####");
        reveal_strlit("......#");
        reveal_strlit(".......");
    }
    let r = vec!["......#", "......#", ".......", ".......", ".......", ".......", "...####"];
    assert(rows_view(r@) =~= board_grid());
    assert(r@[0]@[6] != EMPTY);
    r
}

/// The cell that shows `month`: two rows of six months.
pub open spec fn month_cell(month: int) -> (int, int) {
    ((month - 1) / 6, (month - 1) % 6)
}

/// The cell that shows `day`: from the third row on, rows of seven days.
pub open spec fn day_cell(day: int) -> (int, int) {
    (2 + (day - 1) / 7, (day - 1) % 7)
}

/// A month and a day of the month that the board shows.
pub open spec fn valid_date(day: int, month: int) -> bool {
    1 <= month <= 12 && 1 <= day <= 31
}

/// The board with the month and the day marked.
pub open spec fn initial_grid(day: int, month: int) -> Seq<Seq<char>> {
    let m = month_cell(month);
    let d = day_cell(day);
    put(put(board_grid(), m.0, m.1, MONTH), d.0, d.1, DAY)
}

/// The count that holds at every depth of the search: with the pieces before
/// `k` placed, the board has two marks and their filled cells occupied; placing
/// an orientation of piece `k` where it fits gives the count for depth `k + 1`.
pub proof fn lemma_depth_count(
    pieces: Seq<Vec<Piece>>,
    g: Seq<Seq<char>>,
    k: int,
    j: int,
    r: int,
    c: int,
)
    requires
        roster_wf(pieces),
        is_grid(g),
        0 <= k < pieces.len(),
        0 <= j < pieces[k]@.len(),
        r >= 0,
        c >= 0,
        fits(pieces[k]@[j].grid(), g, r, c),
        occupied(g).len() == 2 + prefix_size(pieces, k),
    ensures
        occupied(
            paint(g, shift(filled_cells(pieces[k]@[j].grid()), r, c), pieces[k]@[j].id),
        ).len() == 2 + prefix_size(pieces, k + 1),
{
    let p = pieces[k]@[j];
    lemma_place_count(g, p.grid(), r, c, p.id);
}

/// A marked board has exactly two occupied cells: the month and the day.
pub proof fn lemma_initial_occupied(day: int, month: int)
    requires
        valid_date(day, month),
    ensures
        occupied(initial_grid(day, month)) == set![month_cell(month), day_cell(day)],
        occupied(initial_grid(day, month)).len() == 2,
{
    reveal_strlit("......#");
    reveal_strlit(".......");
    reveal_strlit("...####");
    let g = initial_grid(day, month);
    let b = board_grid();
    assert forall|i: int, j: int| 0 <= i < 7 && 0 <= j < 7 implies #[trigger] b[i][j] == EMPTY
        || b[i][j] == BLOCKED by {}
    assert(occupied(g) =~= set![month_cell(month), day_cell(day)]);
    assert(month_cell(month) != day_cell(day));
}

/// The puzzle for one date: the roster with every orientation of each piece,
/// the board being tiled, and what the search has found.
pub struct Board {
    pub pieces: Vec<Vec<Piece>>,
    pub board: Piece,
    pub day: usize,
    pub month: usize,
    pub calls: usize,
    pub solutions: Vec<Piece>,
}

impl Board {
    pub open spec fn wf(&self) -> bool {
        &&& self.board.wf()
        &&& roster_wf(self.pieces@)
    }

    /// The puzzle for `day` of `month`, with the orientations of each piece
    /// of the roster and the two cells of the date marked.
    pub fn new(day: usize, month: usize) -> (r: Board)
        requires
            valid_date(day as int, month as int),
        ensures
            r.wf(),
            r.board.grid() == initial_grid(day as int, month as int),
            r.day == day,
            r.month == month,
            r.calls == 0,
            r.solutions@.len() == 0,
            r.pieces@.len() == PIECE_COUNT,
            occupied(r.board.grid()).len() == 2 + prefix_size(r.pieces@, 0),
            forall|k: int|
                0 <= k < PIECE_COUNT ==> grids(#[trigger] r.pieces@[k]@).to_set() == orientations(
                    piece_grid(k),
                ) && grids(r.pieces@[k]@).no_duplicates(),
            forall|k: int, j: int|
                0 <= k < PIECE_COUNT && 0 <= j < r.pieces@[k]@.len() ==> #[trigger] r.pieces@[k]@[j].id
                    == piece_symbol(k),
    {
        let rows = board_rows();
        let mut board = Piece::from(rows.as_slice());
        let mut pieces: Vec<Vec<Piece>> = Vec::new();
        let mut k: usize = 0;
        while k < PIECE_COUNT
            invariant
                0 <= k <= PIECE_COUNT,
                pieces@.len() == k,
                roster_wf(pieces@),
                forall|i: int|
                    0 <= i < k ==> grids(#[trigger] pieces@[i]@).to_set() == orientations(
                        piece_grid(i),
                    ) && grids(pieces@[i]@).no_duplicates(),
                forall|i: int, j: int|
                    0 <= i < k && 0 <= j < pieces@[i]@.len() ==> #[trigger] pieces@[i]@[j].id
                        == piece_symbol(i),
            decreases PIECE_COUNT - k,
        {
            let lines = piece_rows(k);
            let piece = Piece::from(lines.as_slice());
            let pos = piece.generate_positions();
            let ghost before = pieces@;
            pieces.push(pos);
            proof {
                assert(pieces@[k as int] == pos);
                assert forall|i: int| 0 <= i < k implies #[trigger] pieces@[i] == before[i] by {}
                assert(piece.id == piece_symbol(k as int));
                assert forall|i: int, j: int|
                    0 <= i <= k && 0 <= j < pieces@[i]@.len() implies #[trigger] pieces@[i]@[j].id
                        == piece_symbol(i) by {
                    if i < k {
                        assert(pieces@[i]@[j] == before[i]@[j]);
                    }
                }
                assert(piece_size(pieces@, k as int) == filled_set(piece.grid()).len());
                assert forall|i: int, j: int|
                    0 <= i < pieces@.len() && 0 <= j < pieces@[i]@.len() implies {
                    let p = #[trigger] pieces@[i]@[j];
                    &&& p.wf()
                    &&& p.id != EMPTY
                    &&& p.id != BLOCKED
                    &&& filled_set(p.grid()).len() == piece_size(pieces@, i)
                } by {
                    if i < k {
                        assert(pieces@[i]@[j] == before[i]@[j]);
                        assert(piece_size(pieces@, i) == piece_size(before, i));
                    }
                }
            }
            k = k + 1;
        }
        proof {
            reveal_strlit("......#");
            reveal_strlit(".......");
        }
        let m = month - 1;
        let d = day - 1;
        board.set_cell(m / 6, m % 6, MONTH);
        board.set_cell(2 + d / 7, d % 7, DAY);
        proof {
            lemma_initial_occupied(day as int, month as int);
        }
        Board { pieces, board, day, month, calls: 0, solutions: Vec::new() }
    }

    /// Runs the whole search from the marked board: `solutions` holds every
    /// tiling by the roster, each piece placed once where it fits, and `calls`
    /// counts the steps of the search.
    pub fn solve_dfs(&mut self)
        requires
            old(self).wf(),
        ensures
            final(self).wf(),
            final(self).pieces == old(self).pieces,
            final(self).board.grid() == old(self).board.grid(),
            final(self).day == old(self).day,
            final(self).month == old(self).month,
            final(self).calls > 0,
            final(self).calls == saturated(
                search_calls(old(self).pieces@, old(self).board.grid(), 0) as int,
            ),
            grids(final(self).solutions@) == search_boards(old(self).pieces@, old(self).board.grid(), 0),
            forall|k: int|
                0 <= k < final(self).solutions@.len() ==> extends(
                    #[trigger] final(self).solutions@[k].grid(),
                    old(self).board.grid(),
                ) && occupied(final(self).solutions@[k].grid()).len() == occupied(
                    old(self).board.grid(),
                ).len() + suffix_size(old(self).pieces@, 0),
            forall|s: Seq<Seq<char>>|
                recorded(final(self).solutions@, 0, s) == #[trigger] is_tiling(
                    old(self).pieces@,
                    old(self).board.grid(),
                    0,
                    s,
                ),
    {
        self.calls = 0;
        self.solutions = Vec::new();
        solve_from(&self.pieces, &mut self.board, &mut self.calls, &mut self.solutions, 0);
        assert(grids(self.solutions@) =~= grids(self.solutions@).subrange(0, self.solutions@.len() as int));
    }
}

/// A date changes the board only in the cells that show it: away from the
/// cells of both dates, two marked boards agree, and each shows its month and
/// its day.
pub proof fn lemma_date_marks_only(d1: int, m1: int, d2: int, m2: int)
    requires
        valid_date(d1, m1),
        valid_date(d2, m2),
    ensures
        initial_grid(d1, m1)[month_cell(m1).0][month_cell(m1).1] == MONTH,
        initial_grid(d1, m1)[day_cell(d1).0][day_cell(d1).1] == DAY,
        forall|i: int, j: int|
            0 <= i < 7 && 0 <= j < 7 && (i, j) != month_cell(m1) && (i, j) != day_cell(d1) && (i, j)
                != month_cell(m2) && (i, j) != day_cell(d2) ==> #[trigger] initial_grid(
                d1,
                m1,
            )[i][j]
                == initial_grid(d2, m2)[i][j],
{
    reveal_strlit("......#");
    reveal_strlit(".......");
    reveal_strlit("...####");
}

} // verus!
