//! The N queens puzzle: all ways to put N queens on a board of N by N
//! squares so that none attacks another.
use vstd::prelude::*;

verus! {

/// A board, row by row: whether a queen stands on the square.
pub type Board = Vec<Vec<bool>>;

/// Boards as text, a string for each row.
pub type Solutions = Vec<Vec<String>>;

/// `String::push` appends one character to the end of the string.
pub assume_specification[ String::push ](s: &mut String, ch: char)
    ensures
        final(s)@ == old(s)@.push(ch),
;

/// The squares of a board, row by row: whether a queen stands there.
pub open spec fn cells(board: Seq<Vec<bool>>) -> Seq<Seq<bool>> {
    board.map_values(|row: Vec<bool>| row@)
}

/// The text of each row of each solution.
pub open spec fn texts(solutions: Seq<Vec<String>>) -> Seq<Seq<Seq<char>>> {
    solutions.map_values(|rows: Vec<String>| rows@.map_values(|row: String| row@))
}

/// The board has as many squares in each row as it has rows.
pub open spec fn square(b: Seq<Seq<bool>>) -> bool {
    forall|i: int| 0 <= i < b.len() ==> (#[trigger] b[i]).len() == b.len()
}

/// A queen in row `i` attacks the square at `row` and `col` below it: it
/// stands in the same column or on one of the two diagonals.
pub open spec fn attacked(b: Seq<Seq<bool>>, i: int, row: int, col: int) -> bool {
    ||| b[i][col]
    ||| (row - i <= col && b[i][col - (row - i)])
    ||| (col + (row - i) < b.len() && b[i][col + (row - i)])
}

/// No queen in a row above `row` attacks the square at `row` and `col`.
pub open spec fn free(b: Seq<Seq<bool>>, row: int, col: int) -> bool {
    forall|i: int| 0 <= i < row ==> !#[trigger] attacked(b, i, row, col)
}

/// The board with a queen on the square at `row` and `col`.
pub open spec fn placed(b: Seq<Seq<bool>>, row: int, col: int) -> Seq<Seq<bool>> {
    b.update(row, b[row].update(col, true))
}

/// No queen stands in row `row` or below it.
pub open spec fn empty_from(b: Seq<Seq<bool>>, row: int) -> bool {
    forall|r: int, c: int| row <= r < b.len() && 0 <= c < b[r].len() ==> !#[trigger] b[r][c]
}

/// A row as text: `Q` for a queen, `.` for an empty square.
pub open spec fn row_text(row: Seq<bool>) -> Seq<char> {
    row.map_values(
        |cell: bool|
            if cell {
                'Q'
            } else {
                '.'
            },
    )
}

/// A board as text, row by row.
pub open spec fn board_text(b: Seq<Seq<bool>>) -> Seq<Seq<char>> {
    b.map_values(|row: Seq<bool>| row_text(row))
}

/// The boards that come of `b`, which holds a queen in each row above
/// `row`, by putting into each further row a queen that no queen above it
/// attacks; in row `row` only the columns from `col` on are tried. The boards
/// with a queen further to the left come first.
pub open spec fn completions(n: int, b: Seq<Seq<bool>>, row: int, col: int) -> Seq<Seq<Seq<bool>>>
    decreases n - row, n - col,
{
    if row >= n {
        seq![b]
    } else if col >= n || col < 0 {
        Seq::empty()
    } else {
        (if free(b, row, col) {
            completions(n, placed(b, row, col), row + 1, 0)
        } else {
            Seq::empty()
        }) + completions(n, b, row, col + 1)
    }
}

/// All solutions for a board of `n` by `n` squares, as text.
pub fn solve_n_queens(n: usize) -> (solutions: Solutions)
    ensures
        texts(solutions@) == completions(
            n as int,
            Seq::new(n as nat, |i: int| Seq::new(n as nat, |j: int| false)),
            0,
            0,
        ).map_values(|b: Seq<Seq<bool>>| board_text(b)),
{
    let mut board: Board = Vec::new();
    let mut i: usize = 0;
    while i < n
        invariant
            i <= n,
            board@.len() == i,
            forall|k: int| 0 <= k < i ==> (#[trigger] board@[k])@ == Seq::new(n as nat, |j: int| false),
        decreases n - i,
    {
        let mut row: Vec<bool> = Vec::new();
        let mut j: usize = 0;
        while j < n
            invariant
                j <= n,
                row@.len() == j,
                forall|k: int| 0 <= k < j ==> !#[trigger] row@[k],
            decreases n - j,
        {
            row.push(false);
            j += 1;
        }
        assert(row@ =~= Seq::new(n as nat, |j: int| false));
        board.push(row);
        i += 1;
    }
    let mut solutions: Solutions = Vec::new();
    proof {
        assert(cells(board@) =~= Seq::new(n as nat, |i: int| Seq::new(n as nat, |j: int| false)));
        assert(texts(solutions@) =~= Seq::<Seq<Seq<char>>>::empty());
        assert(square(cells(board@)));
        assert(empty_from(cells(board@), 0));
    }
    _backtrack_n_queens(n, 0, &mut board, &mut solutions);
    proof {
        let found = completions(n as int, cells(board@), 0, 0).map_values(
            |b: Seq<Seq<bool>>| board_text(b),
        );
        assert(Seq::<Seq<Seq<char>>>::empty() + found =~= found);
    }
    solutions
}

/// Adds to `solutions` what comes of the board, which holds a queen in
/// each row above `cur_row`, by filling the rows from `cur_row` on; the
/// board is left as it was.
pub fn _backtrack_n_queens(n: usize, cur_row: usize, board: &mut Board, solutions: &mut Solutions)
    requires
        old(board)@.len() == n,
        square(cells(old(board)@)),
        empty_from(cells(old(board)@), cur_row as int),
        cur_row <= n,
    ensures
        cells(final(board)@) == cells(old(board)@),
        texts(final(solutions)@) == texts(old(solutions)@) + completions(
            n as int,
            cells(old(board)@),
            cur_row as int,
            0,
        ).map_values(|b: Seq<Seq<bool>>| board_text(b)),
    decreases n - cur_row,
{
    let ghost given = cells(board@);
    let ghost found_before = texts(solutions@);
    let ghost render = |b: Seq<Seq<bool>>| board_text(b);
    if cur_row == n {
        let rows = board_to_string(board);
        solutions.push(rows);
        proof {
            assert(completions(n as int, given, cur_row as int, 0) =~= seq![given]);
            assert(texts(solutions@) =~= found_before + seq![given].map_values(render));
        }
        return ;
    }
    let mut col: usize = 0;
    proof {
        assert(found_before + completions(n as int, given, cur_row as int, 0).map_values(render)
            =~= texts(solutions@) + completions(n as int, given, cur_row as int, 0).map_values(
            render,
        ));
    }
    while col < n
        invariant
            cur_row < n,
            col <= n,
            board@.len() == n,
            cells(board@) == given,
            square(given),
            empty_from(given, cur_row as int),
            render == (|b: Seq<Seq<bool>>| board_text(b)),
            found_before + completions(n as int, given, cur_row as int, 0).map_values(render)
                == texts(solutions@) + completions(
                n as int,
                given,
                cur_row as int,
                col as int,
            ).map_values(render),
        decreases n - col,
    {
        let ghost found_mid = texts(solutions@);
        let ghost rest = completions(n as int, given, cur_row as int, col + 1);
        proof {
            assert(given[cur_row as int].len() == n);
            assert(board@[cur_row as int]@ == given[cur_row as int]);
        }
        if is_valid(board, cur_row, col) {
            set_square(board, cur_row, col, true);
            proof {
                assert(cells(board@) =~= placed(given, cur_row as int, col as int));
                assert(square(cells(board@))) by {
                    assert forall|i: int| 0 <= i < cells(board@).len() implies (
                    #[trigger] cells(board@)[i]).len() == cells(board@).len() by {
                        assert(given[i].len() == given.len());
                    }
                }
                assert(empty_from(cells(board@), cur_row + 1)) by {
                    assert forall|r: int, c: int|
                        cur_row + 1 <= r < cells(board@).len() && 0 <= c < cells(
                            board@,
                        )[r].len() implies !#[trigger] cells(board@)[r][c] by {
                        assert(!given[r][c]);
                    }
                }
            }
            _backtrack_n_queens(n, cur_row + 1, board, solutions);
            proof {
                assert(cells(board@)[cur_row as int] == board@[cur_row as int]@);
                assert(cells(board@)[cur_row as int].len() == n);
            }
            set_square(board, cur_row, col, false);
            proof {
                assert(cells(board@) =~= given) by {
                    assert(given[cur_row as int][col as int] == false) by {
                        // a queen in this row would not have been put here yet
                        lemma_row_is_kept(given, cur_row as int, col as int);
                    }
                    assert(cells(board@)[cur_row as int] =~= given[cur_row as int]);
                }
                let below = completions(n as int, placed(given, cur_row as int, col as int), cur_row + 1, 0);
                assert((below + rest).map_values(render) =~= below.map_values(render)
                    + rest.map_values(render));
                assert(found_mid + (below.map_values(render) + rest.map_values(render))
                    =~= found_mid + below.map_values(render) + rest.map_values(render));
            }
        } else {
            proof {
                assert(Seq::<Seq<Seq<bool>>>::empty() + rest =~= rest);
            }
        }
        col += 1;
    }
    proof {
        assert(completions(n as int, given, cur_row as int, n as int) =~= Seq::<
            Seq<Seq<bool>>,
        >::empty());
        assert(texts(solutions@) + Seq::<Seq<Seq<bool>>>::empty().map_values(render)
            =~= texts(solutions@));
    }
}

/// Whether a queen can stand on the square at `row` and `col`: no queen in
/// a row above stands in the same column or on one of the two diagonals.
pub fn is_valid(board: &Board, row: usize, col: usize) -> (valid: bool)
    requires
        square(cells(board@)),
        row <= board@.len(),
        col < board@.len(),
    ensures
        valid == free(cells(board@), row as int, col as int),
{
    // the current row needs no check, because each row gets one queen;
    // the column and the two diagonals above are checked
    let n = board.len();
    let mut i: usize = 0;
    while i < row
        invariant
            n == board@.len(),
            square(cells(board@)),
            row <= n,
            col < n,
            i <= row,
            forall|k: int| 0 <= k < i ==> !#[trigger] attacked(cells(board@), k, row as int, col as int),
        decreases row - i,
    {
        proof {
            assert(cells(board@)[i as int].len() == n);
            assert(cells(board@)[i as int] == board@[i as int]@);
        }
        if board[i][col] || row - i <= col && board[i][col - (row - i)] || row - i < n - col
            && board[i][col + (row - i)] {
            assert(attacked(cells(board@), i as int, row as int, col as int));
            return false;
        }
        i += 1;
    }
    true
}

/// Puts a queen on the square at `row` and `col`, or takes it away.
pub fn set_square(board: &mut Board, row: usize, col: usize, queen: bool)
    requires
        row < old(board)@.len(),
        col < old(board)@[row as int]@.len(),
    ensures
        final(board)@.len() == old(board)@.len(),
        cells(final(board)@) == cells(old(board)@).update(
            row as int,
            cells(old(board)@)[row as int].update(col as int, queen),
        ),
{
    let squares = &mut board[row];
    squares[col] = queen;
    assert(cells(board@) =~= cells(old(board)@).update(
        row as int,
        cells(old(board)@)[row as int].update(col as int, queen),
    ));
}

/// Taking a queen away from where one was put brings the row back, if the
/// square was empty before.
pub proof fn lemma_row_is_kept(b: Seq<Seq<bool>>, row: int, col: int)
    requires
        0 <= row < b.len(),
        0 <= col < b[row].len(),
        !b[row][col],
    ensures
        placed(b, row, col).update(row, placed(b, row, col)[row].update(col, false)) =~= b,
{
    assert(placed(b, row, col)[row].update(col, false) =~= b[row]);
}

/// The board as text: a string for each row, with `Q` for a queen and `.`
/// for an empty square.
#[inline]
pub fn board_to_string(board: &Board) -> (rows: Vec<String>)
    ensures
        rows@.map_values(|row: String| row@) == board_text(cells(board@)),
{
    let mut rows: Vec<String> = Vec::new();
    let mut i: usize = 0;
    while i < board.len()
        invariant
            i <= board@.len(),
            rows@.len() == i,
            forall|k: int| 0 <= k < i ==> (#[trigger] rows@[k])@ == row_text(board@[k]@),
        decreases board@.len() - i,
    {
        let row = &board[i];
        let mut text = String::new();
        let mut j: usize = 0;
        while j < row.len()
            invariant
                j <= row@.len(),
                text@.len() == j,
                forall|k: int|
                    0 <= k < j ==> #[trigger] text@[k] == (if row@[k] {
                        'Q'
                    } else {
                        '.'
                    }),
            decreases row@.len() - j,
        {
            text.push(if row[j] {
                'Q'
            } else {
                '.'
            });
            j += 1;
        }
        assert(text@ =~= row_text(row@));
        rows.push(text);
        i += 1;
    }
    assert(rows@.map_values(|row: String| row@) =~= board_text(cells(board@)));
    rows
}

/// The queen of row `r` stands in column `c`, and nowhere else in the row.
pub open spec fn queen_at(b: Seq<Seq<bool>>, r: int, c: int) -> bool {
    &&& 0 <= c < b[r].len()
    &&& forall|k: int| 0 <= k < b[r].len() ==> (#[trigger] b[r][k] <==> k == c)
}

/// One queen stands in row `r`, and no queen above attacks it.
pub open spec fn row_stands(b: Seq<Seq<bool>>, r: int) -> bool {
    exists|c: int| #[trigger] queen_at(b, r, c) && free(b, r, c)
}

/// The board of `n` by `n` squares holds one queen in each of the first
/// `rows` rows, none of which is attacked by a queen above it, and no queen
/// below those rows.
pub open spec fn queens_stand(n: int, b: Seq<Seq<bool>>, rows: int) -> bool {
    &&& b.len() == n
    &&& square(b)
    &&& empty_from(b, rows)
    &&& forall|r: int| 0 <= r < rows ==> #[trigger] row_stands(b, r)
}

/// What `completions` gives for a board with a queen in each row above
/// `row` are boards with a queen in every row, none attacking another.
pub proof fn lemma_completions_are_solutions(
    n: int,
    b: Seq<Seq<bool>>,
    row: int,
    col: int,
    k: int,
)
    requires
        0 <= row <= n,
        0 <= col,
        queens_stand(n, b, row),
        0 <= k < completions(n, b, row, col).len(),
    ensures
        queens_stand(n, completions(n, b, row, col)[k], n),
    decreases n - row, n - col,
{
    if row >= n {
    } else if col >= n {
    } else {
        let rest = completions(n, b, row, col + 1);
        if free(b, row, col) {
            let next = placed(b, row, col);
            let head = completions(n, next, row + 1, 0);
            if k < head.len() {
                lemma_placed_stands(n, b, row, col);
                lemma_completions_are_solutions(n, next, row + 1, 0, k);
            } else {
                lemma_completions_are_solutions(n, b, row, col + 1, k - head.len());
            }
        } else {
            assert(Seq::<Seq<Seq<bool>>>::empty() + rest =~= rest);
            lemma_completions_are_solutions(n, b, row, col + 1, k);
        }
    }
}

/// A queen put on a free square of the first empty row makes one row
/// more in which a queen stands.
pub proof fn lemma_placed_stands(n: int, b: Seq<Seq<bool>>, row: int, col: int)
    requires
        0 <= row < n,
        0 <= col < n,
        queens_stand(n, b, row),
        free(b, row, col),
    ensures
        queens_stand(n, placed(b, row, col), row + 1),
{
    let next = placed(b, row, col);
    assert(b[row].len() == n);
    assert forall|i: int| 0 <= i < next.len() implies (#[trigger] next[i]).len() == next.len() by {
        assert(b[i].len() == b.len());
    }
    assert forall|r: int, c: int| row + 1 <= r < next.len() && 0 <= c < next[r].len() implies !#[trigger] next[r][c] by {
        assert(!b[r][c]);
    }
    assert forall|r: int| 0 <= r < row + 1 implies #[trigger] row_stands(next, r) by {
        if r < row {
            assert(row_stands(b, r));
            let c = choose|c: int| #[trigger] queen_at(b, r, c) && free(b, r, c);
            assert(next[r] == b[r]);
            assert forall|i: int| 0 <= i < r implies !#[trigger] attacked(next, i, r, c) by {
                assert(!attacked(b, i, r, c));
                assert(next[i] == b[i]);
            }
            assert(queen_at(next, r, c) && free(next, r, c));
        } else {
            assert forall|k: int| 0 <= k < next[row].len() implies (#[trigger] next[row][k] <==> k
                == col) by {
                if k != col {
                    assert(!b[row][k]);
                }
            }
            assert forall|i: int| 0 <= i < row implies !#[trigger] attacked(next, i, row, col) by {
                assert(!attacked(b, i, row, col));
                assert(next[i] == b[i]);
            }
            assert(queen_at(next, row, col) && free(next, row, col));
        }
    }
}

/// Every board with a queen in every row, none attacking another, is
/// among what `completions` gives for the board that holds its first rows,
/// if its queen in the next row stands in one of the columns yet to be tried.
pub proof fn lemma_solutions_are_completions(
    n: int,
    b: Seq<Seq<bool>>,
    row: int,
    col: int,
    s: Seq<Seq<bool>>,
)
    requires
        0 <= row <= n,
        0 <= col,
        queens_stand(n, b, row),
        queens_stand(n, s, n),
        forall|r: int| 0 <= r < row ==> #[trigger] s[r] == b[r],
        row < n ==> exists|c: int| col <= c && #[trigger] queen_at(s, row, c),
    ensures
        completions(n, b, row, col).contains(s),
    decreases n - row, n - col,
{
    if row >= n {
        assert(s =~= b);
        assert(completions(n, b, row, col)[0] == s);
    } else {
        let c = choose|c: int| col <= c && #[trigger] queen_at(s, row, c);
        assert(s[row].len() == n);
        assert(b[row].len() == n);
        let rest = completions(n, b, row, col + 1);
        let head = if free(b, row, col) {
            completions(n, placed(b, row, col), row + 1, 0)
        } else {
            Seq::<Seq<Seq<bool>>>::empty()
        };
        if c > col {
            lemma_solutions_are_completions(n, b, row, col + 1, s);
            let k = choose|k: int| 0 <= k < rest.len() && rest[k] == s;
            assert((head + rest)[head.len() + k] == s);
        } else {
            // the queen of this row stands in the column that is tried now
            assert(row_stands(s, row));
            let own = choose|own: int| #[trigger] queen_at(s, row, own) && free(s, row, own);
            assert(s[row][own] && s[row][col]);
            assert(own == col);
            assert forall|i: int| 0 <= i < row implies !#[trigger] attacked(b, i, row, col) by {
                assert(!attacked(s, i, row, col));
                assert(s[i] == b[i]);
            }
            let next = placed(b, row, col);
            lemma_placed_stands(n, b, row, col);
            assert(next[row] =~= s[row]) by {
                assert forall|k: int| 0 <= k < n implies next[row][k] == s[row][k] by {
                    if k != col {
                        assert(!b[row][k]);
                    }
                }
            }
            assert forall|r: int| 0 <= r < row + 1 implies #[trigger] s[r] == next[r] by {
                if r < row {
                    assert(s[r] == b[r]);
                }
            }
            if row + 1 < n {
                assert(row_stands(s, row + 1));
                let below = choose|below: int| #[trigger]
                    queen_at(s, row + 1, below) && free(s, row + 1, below);
                assert(0 <= below && queen_at(s, row + 1, below));
            }
            lemma_solutions_are_completions(n, next, row + 1, 0, s);
            let k = choose|k: int| 0 <= k < head.len() && head[k] == s;
            assert((head + rest)[k] == s);
        }
    }
}

} // verus!
