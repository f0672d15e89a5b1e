use day_puzzle::board::{board_rows, piece_rows, solve_from, Board, PIECE_COUNT};
use day_puzzle::shape::Piece;

fn grid(p: &Piece) -> Vec<String> {
    p.data.iter().map(|r| r.iter().collect()).collect()
}

fn piece(rows: &[&str]) -> Piece {
    Piece::from(rows)
}

fn count_filled(p: &Piece) -> usize {
    p.data.iter().flatten().filter(|&&c| c != '.').count()
}

fn sorted_grids(v: &[Piece]) -> Vec<Vec<String>> {
    let mut g: Vec<Vec<String>> = v.iter().map(grid).collect();
    g.sort();
    g
}

#[test]
fn from_takes_id_and_rows() {
    let p = piece(&["..Z", "ZZZ"]);
    assert_eq!(p.id, 'Z');
    assert_eq!(p.width(), 3);
    assert_eq!(p.height(), 2);
    assert_eq!(grid(&p), vec!["..Z", "ZZZ"]);
}

#[test]
fn rev_mirrors_each_row() {
    let p = piece(&["L...", "LLLL"]);
    let r = p.rev();
    assert_eq!(r.id, 'L');
    assert_eq!(grid(&r), vec!["...L", "LLLL"]);
}

#[test]
fn transpose_swaps_rows_and_columns() {
    let p = piece(&["TTTT", ".T.."]);
    let t = p.transpose();
    assert_eq!(t.width(), 2);
    assert_eq!(t.height(), 4);
    assert_eq!(grid(&t), vec!["T.", "TT", "T.", "T."]);
}

#[test]
fn rotate_is_transpose_of_reflection() {
    let p = piece(&["F..", "F..", "FFF"]);
    assert_eq!(grid(&p.rotate()), vec!["..F", "..F", "FFF"]);
    let q = piece(&["SS..", ".SSS"]);
    assert_eq!(grid(&q.rotate()), grid(&q.rev().transpose()));
}

#[test]
fn rotate_four_times_is_identity() {
    for k in 0..PIECE_COUNT {
        let p = Piece::from(&piece_rows(k));
        let q = p.rotate().rotate().rotate().rotate();
        assert_eq!(grid(&q), grid(&p));
    }
    let b = Piece::from(&board_rows());
    assert_eq!(grid(&b.rotate().rotate().rotate().rotate()), grid(&b));
}

#[test]
fn reflect_twice_is_identity() {
    for k in 0..PIECE_COUNT {
        let p = Piece::from(&piece_rows(k));
        assert_eq!(grid(&p.rev().rev()), grid(&p));
    }
}

#[test]
fn same_grid_ignores_id() {
    let a = piece(&["QQQ", "QQQ"]);
    let b = piece(&["XXX", "XXX"]);
    let c = piece(&["QQ", "QQ", "QQ"]);
    assert!(a.same_grid(&a.rotate().rotate()));
    assert!(!a.same_grid(&b));
    assert!(!a.same_grid(&c));
    assert!(a.rotate().same_grid(&c));
}

#[test]
fn orientation_counts_follow_symmetry() {
    let expected = [4usize, 8, 8, 2, 4, 8, 4, 8];
    for k in 0..PIECE_COUNT {
        let p = Piece::from(&piece_rows(k));
        let pos = p.generate_positions();
        assert_eq!(pos.len(), expected[k], "piece {}", k);
        assert!(pos.iter().all(|q| q.id == p.id));
    }
}

#[test]
fn orientations_closed_under_rotation() {
    for k in 0..PIECE_COUNT {
        let p = Piece::from(&piece_rows(k));
        let pos = p.generate_positions();
        assert!(!pos.is_empty() && pos.len() <= 8);
        for (i, a) in pos.iter().enumerate() {
            for b in pos.iter().skip(i + 1) {
                assert_ne!(grid(a), grid(b));
            }
            let r = grid(&a.rotate());
            assert!(pos.iter().any(|b| grid(b) == r));
            let m = grid(&a.rev());
            assert!(pos.iter().any(|b| grid(b) == m));
        }
    }
}

#[test]
fn square_piece_has_one_orientation() {
    let p = piece(&["OO", "OO"]);
    let pos = p.generate_positions();
    assert_eq!(pos.len(), 1);
    assert_eq!(grid(&pos[0]), vec!["OO", "OO"]);
}

#[test]
fn fit_lists_cells_in_row_major_order() {
    let b = Piece::from(&board_rows());
    let p = piece(&["U.U", "UUU"]);
    assert_eq!(p.fit(&b, 2, 1), vec![(2, 1), (2, 3), (3, 1), (3, 2), (3, 3)]);
}

#[test]
fn fit_out_of_bounds_is_empty() {
    let b = Piece::from(&board_rows());
    let p = piece(&["TTTT", ".T.."]);
    assert!(p.fit(&b, 6, 0).is_empty());
    assert!(p.fit(&b, 0, 4).is_empty());
    assert!(p.fit(&b, usize::MAX, usize::MAX).is_empty());
}

#[test]
fn fit_over_blocked_or_taken_cell_is_empty() {
    let mut b = Piece::from(&board_rows());
    let p = piece(&["BB.", "BBB"]);
    assert!(p.fit(&b, 0, 4).is_empty());
    assert_eq!(p.fit(&b, 0, 3).len(), 5);
    b.data[1][3] = 'M';
    assert!(p.fit(&b, 0, 3).is_empty());
    let q = piece(&["U.U", "UUU"]);
    b.data[1][3] = '.';
    b.data[0][4] = 'D';
    assert_eq!(q.fit(&b, 0, 3), vec![(0, 3), (0, 5), (1, 3), (1, 4), (1, 5)]);
}

#[test]
fn fit_is_all_or_nothing() {
    let mut b = Piece::from(&board_rows());
    b.data[3][3] = 'M';
    for k in 0..PIECE_COUNT {
        let p = Piece::from(&piece_rows(k));
        for o in p.generate_positions() {
            let n = count_filled(&o);
            for r in 0..8 {
                for c in 0..8 {
                    let f = o.fit(&b, r, c);
                    assert!(f.is_empty() || f.len() == n);
                }
            }
        }
    }
}

#[test]
fn new_marks_month_and_day() {
    let b = Board::new(15, 6);
    assert_eq!(b.board.data[0][5], 'M');
    assert_eq!(b.board.data[4][0], 'D');
    let base = Piece::from(&board_rows());
    for r in 0..7 {
        for c in 0..7 {
            if (r, c) != (0, 5) && (r, c) != (4, 0) {
                assert_eq!(b.board.data[r][c], base.data[r][c]);
            }
        }
    }
    assert_eq!(b.pieces.len(), 8);
    assert_eq!(b.calls, 0);
    assert!(b.solutions.is_empty());
}

#[test]
fn new_marks_first_and_last_dates() {
    let b = Board::new(1, 1);
    assert_eq!(b.board.data[0][0], 'M');
    assert_eq!(b.board.data[2][0], 'D');
    let b = Board::new(31, 12);
    assert_eq!(b.board.data[1][5], 'M');
    assert_eq!(b.board.data[6][2], 'D');
}

#[test]
fn date_does_not_change_roster() {
    let a = Board::new(15, 6);
    let b = Board::new(3, 11);
    assert_eq!(a.pieces.len(), b.pieces.len());
    for k in 0..a.pieces.len() {
        assert_eq!(sorted_grids(&a.pieces[k]), sorted_grids(&b.pieces[k]));
        assert_eq!(a.pieces[k][0].id, b.pieces[k][0].id);
    }
}

const KNOWN: [&str; 7] = [
    "FFFZTM#", "FZZZTT#", "FZQQTLL", "UUQQTBL", "DUQQBBL", "UUSSBBL", "SSS####",
];

fn occupied(g: &Piece) -> usize {
    g.data.iter().flatten().filter(|&&c| c != '.' && c != '#').count()
}

#[test]
fn search_completes_known_tiling() {
    let mut b = Board::new(15, 6);
    let placed = ['F', 'T', 'S', 'Q', 'Z'];
    for (r, row) in KNOWN.iter().enumerate() {
        for (c, ch) in row.chars().enumerate() {
            if placed.contains(&ch) {
                assert_eq!(b.board.data[r][c], '.');
                b.board.data[r][c] = ch;
            }
        }
    }
    let before = grid(&b.board);
    let sizes: usize = (0..5).map(|k| count_filled(&b.pieces[k][0])).sum();
    assert_eq!(occupied(&b.board), sizes + 2);
    let mut calls = 0usize;
    let mut sols = Vec::new();
    solve_from(&b.pieces, &mut b.board, &mut calls, &mut sols, 5);
    assert_eq!(grid(&b.board), before);
    assert!(calls >= 4);
    let known: Vec<String> = KNOWN.iter().map(|s| s.to_string()).collect();
    assert!(sols.iter().any(|s| grid(s) == known));
    for s in &sols {
        assert_eq!(s.data.iter().flatten().filter(|&&c| c == '.').count(), 0);
        for p in &b.pieces {
            let id = p[0].id;
            let n = s.data.iter().flatten().filter(|&&c| c == id).count();
            assert_eq!(n, count_filled(&p[0]));
        }
        assert_eq!(s.data[0][5], 'M');
        assert_eq!(s.data[4][0], 'D');
        assert_eq!(occupied(s), 41 + 2);
    }
}

#[test]
fn search_at_last_depth_records_board() {
    let mut b = Board::new(2, 3);
    let mut calls = 0usize;
    let mut sols = Vec::new();
    let n = b.pieces.len();
    solve_from(&b.pieces, &mut b.board, &mut calls, &mut sols, n);
    assert_eq!(calls, 1);
    assert_eq!(sols.len(), 1);
    assert_eq!(grid(&sols[0]), grid(&b.board));
}

#[test]
fn search_restores_board_and_counts_calls() {
    let mut b = Board::new(15, 6);
    let before = grid(&b.board);
    let mut calls = 0usize;
    let mut sols = Vec::new();
    solve_from(&b.pieces, &mut b.board, &mut calls, &mut sols, 7);
    assert_eq!(grid(&b.board), before);
    assert!(calls > 1);
    assert!(sols.len() > 1);
    for s in &sols {
        assert_eq!(occupied(s), 2 + count_filled(&b.pieces[7][0]));
    }
}

#[test]
fn occupied_count_grows_with_each_piece() {
    let mut b = Board::new(15, 6);
    assert_eq!(occupied(&b.board), 2);
    let mut expected = 2;
    for k in 0..b.pieces.len() {
        let id = b.pieces[k][0].id;
        let mut target: Vec<(usize, usize)> = Vec::new();
        for (r, row) in KNOWN.iter().enumerate() {
            for (c, ch) in row.chars().enumerate() {
                if ch == id {
                    target.push((r, c));
                }
            }
        }
        let mut found = None;
        for r in 0..7 {
            for c in 0..7 {
                for o in &b.pieces[k] {
                    let f = o.fit(&b.board, r, c);
                    if f == target {
                        found = Some(f);
                    }
                }
            }
        }
        let cells = found.expect("the known tiling places every piece");
        for &(r, c) in &cells {
            b.board.data[r][c] = id;
        }
        expected += count_filled(&b.pieces[k][0]);
        assert_eq!(occupied(&b.board), expected);
    }
    assert_eq!(expected, 43);
    assert_eq!(grid(&b.board), KNOWN.iter().map(|s| s.to_string()).collect::<Vec<_>>());
}

#[test]
fn search_records_every_placement_of_last_piece() {
    let mut b = Board::new(9, 2);
    let mut expected: Vec<Vec<String>> = Vec::new();
    for r in 0..7 {
        for c in 0..7 {
            for o in &b.pieces[7] {
                let f = o.fit(&b.board, r, c);
                if !f.is_empty() {
                    let mut g = b.board.copy();
                    for &(rr, cc) in &f {
                        g.data[rr][cc] = o.id;
                    }
                    expected.push(grid(&g));
                }
            }
        }
    }
    let mut calls = 0usize;
    let mut sols = Vec::new();
    solve_from(&b.pieces, &mut b.board, &mut calls, &mut sols, 7);
    let got: Vec<Vec<String>> = sols.iter().map(grid).collect();
    assert_eq!(got, expected);
    assert_eq!(calls, 1 + expected.len());
}

#[test]
fn roster_ids_follow_piece_order() {
    let b = Board::new(15, 6);
    let ids = ['F', 'T', 'S', 'Q', 'Z', 'L', 'U', 'B'];
    for (k, pos) in b.pieces.iter().enumerate() {
        assert!(pos.iter().all(|p| p.id == ids[k]));
    }
}
