//! Connect Four as a position for the game-tree search.

use crate::board::{lemma_picked, picked, Board, Move, Piece, Score, NO_MOVE};
use vstd::prelude::*;

verus! {

/// What a cell holds, and who moves: black, red, or nobody.
#[derive(Clone, Copy, Debug, PartialEq, Eq, Structural)]
pub enum C4Piece {
    B,
    R,
    E,
}

impl Piece for C4Piece {
    open spec fn other(self) -> C4Piece {
        match self {
            C4Piece::B => C4Piece::R,
            C4Piece::R => C4Piece::B,
            C4Piece::E => C4Piece::E,
        }
    }

    fn opposite(&self) -> C4Piece {
        match self {
            C4Piece::B => C4Piece::R,
            C4Piece::R => C4Piece::B,
            _ => C4Piece::E,
        }
    }
}

/// The number of rows of the board.
pub const NUM_ROWS: u8 = 6;

/// The number of columns of the board.
pub const NUM_COLS: u8 = 7;

/// The number of pieces in a row that win the game.
pub const SEGMENT_LENGTH: u8 = 4;

/// The direction in which a segment runs from its first cell.
#[derive(Clone, Copy, Debug, PartialEq, Eq, Structural)]
pub enum Direction {
    /// Up a column.
    Vertical,
    /// Along a row, to the right.
    Horizontal,
    /// To the right and up.
    Rising,
    /// To the right and down.
    Falling,
}

/// The cell at step `t` of the segment that starts at column `c`, row `r`.
pub open spec fn cell_at(dir: Direction, c: int, r: int, t: int) -> (int, int) {
    match dir {
        Direction::Vertical => (c, r + t),
        Direction::Horizontal => (c + t, r),
        Direction::Rising => (c + t, r + t),
        Direction::Falling => (c + t, r - t),
    }
}

/// The segment of `length` cells that starts at column `c`, row `r`, as
/// pairs of column and row.
pub open spec fn segment_from(dir: Direction, c: int, r: int, length: int) -> Seq<(u8, u8)> {
    Seq::new(
        length as nat,
        |t: int| (cell_at(dir, c, r, t).0 as u8, cell_at(dir, c, r, t).1 as u8),
    )
}

/// The segments that start in column `c`, one for each row from `first` up
/// to `last`, by ascending row.
pub open spec fn segments_of_column(
    dir: Direction,
    c: int,
    first: int,
    last: int,
    length: int,
) -> Seq<Seq<(u8, u8)>> {
    Seq::new(
        if last > first {
            (last - first) as nat
        } else {
            0
        },
        |k: int| segment_from(dir, c, first + k, length),
    )
}

/// The segments that start in the columns below `columns`, by ascending
/// column and then row.
pub open spec fn segments_of_columns(
    dir: Direction,
    columns: int,
    first: int,
    last: int,
    length: int,
) -> Seq<Seq<(u8, u8)>>
    decreases columns,
{
    if columns <= 0 {
        Seq::empty()
    } else {
        segments_of_columns(dir, columns - 1, first, last, length) + segments_of_column(
            dir,
            columns - 1,
            first,
            last,
            length,
        )
    }
}

/// Every run of `length` cells on a board of `columns` by `rows`: the
/// vertical runs, then the horizontal ones, then the rising and the falling
/// diagonals.
pub open spec fn all_segments(columns: int, rows: int, length: int) -> Seq<Seq<(u8, u8)>> {
    segments_of_columns(Direction::Vertical, columns, 0, rows - length + 1, length)
        + segments_of_columns(Direction::Horizontal, columns - length + 1, 0, rows, length)
        + segments_of_columns(
        Direction::Rising,
        columns - length + 1,
        0,
        rows - length + 1,
        length,
    ) + segments_of_columns(Direction::Falling, columns - length + 1, length - 1, rows, length)
}

/// The views of the segments held in a vector.
pub open spec fn segments_view(v: Seq<Vec<(u8, u8)>>) -> Seq<Seq<(u8, u8)>> {
    Seq::new(v.len(), |i: int| v[i]@)
}

/// Appends the segments of one direction that start in the columns below
/// `columns` and in the rows from `first` up to `last`.
fn push_segments(
    segments: &mut Vec<Vec<(u8, u8)>>,
    dir: Direction,
    columns: u8,
    first: u8,
    last: u8,
    length: u8,
)
    requires
        first <= last,
        dir != Direction::Vertical ==> columns + length <= 256,
        dir == Direction::Vertical || dir == Direction::Rising ==> last + length <= 256,
        dir == Direction::Falling ==> length <= first + 1,
    ensures
        segments_view(final(segments)@) == segments_view(old(segments)@) + segments_of_columns(
            dir,
            columns as int,
            first as int,
            last as int,
            length as int,
        ),
{
    let ghost before = segments_view(segments@);
    let mut c: u8 = 0;
    assert(segments_view(segments@) == before + segments_of_columns(
        dir,
        0,
        first as int,
        last as int,
        length as int,
    ));
    while c < columns
        invariant
            c <= columns,
            first <= last,
            dir != Direction::Vertical ==> columns + length <= 256,
            dir == Direction::Vertical || dir == Direction::Rising ==> last + length <= 256,
            dir == Direction::Falling ==> length <= first + 1,
            segments_view(segments@) == before + segments_of_columns(
                dir,
                c as int,
                first as int,
                last as int,
                length as int,
            ),
        decreases columns - c,
    {
        let ghost done = segments_view(segments@);
        let mut r: u8 = first;
        while r < last
            invariant
                c < columns,
                first <= r <= last,
                dir != Direction::Vertical ==> columns + length <= 256,
                dir == Direction::Vertical || dir == Direction::Rising ==> last + length <= 256,
                dir == Direction::Falling ==> length <= first + 1,
                segments_view(segments@) == done + segments_of_column(
                    dir,
                    c as int,
                    first as int,
                    r as int,
                    length as int,
                ),
            decreases last - r,
        {
            let mut segment: Vec<(u8, u8)> = Vec::new();
            let mut t: u8 = 0;
            while t < length
                invariant
                    c < columns,
                    first <= r < last,
                    t <= length,
                    dir != Direction::Vertical ==> columns + length <= 256,
                    dir == Direction::Vertical || dir == Direction::Rising ==> last + length
                        <= 256,
                    dir == Direction::Falling ==> length <= first + 1,
                    segment@ == segment_from(dir, c as int, r as int, t as int),
                decreases length - t,
            {
                let cell = match dir {
                    Direction::Vertical => (c, r + t),
                    Direction::Horizontal => (c + t, r),
                    Direction::Rising => (c + t, r + t),
                    Direction::Falling => (c + t, r - t),
                };
                segment.push(cell);
                t += 1;
                assert(segment@ == segment_from(dir, c as int, r as int, t as int));
            }
            let ghost prev = segments@;
            segments.push(segment);
            r += 1;
            assert(segments_view(segments@) == segments_view(prev).push(segment@));
            assert(segments_view(segments@) == done + segments_of_column(
                dir,
                c as int,
                first as int,
                r as int,
                length as int,
            ));
        }
        c += 1;
        assert(segments_view(segments@) == before + segments_of_columns(
            dir,
            c as int,
            first as int,
            last as int,
            length as int,
        ));
    }
}

/// Lists every run of `segment_length` cells on a board of `num_columns` by
/// `num_rows`, each as the pairs of column and row of its cells.
pub fn generate_segments(num_columns: u8, num_rows: u8, segment_length: u8) -> (segments: Vec<
    Vec<(u8, u8)>,
>)
    requires
        1 <= segment_length <= num_rows,
        segment_length <= num_columns,
    ensures
        segments_view(segments@) == all_segments(
            num_columns as int,
            num_rows as int,
            segment_length as int,
        ),
{
    let mut segments: Vec<Vec<(u8, u8)>> = Vec::new();
    assert(segments_view(segments@) == Seq::<Seq<(u8, u8)>>::empty());
    // generate the vertical segments
    push_segments(
        &mut segments,
        Direction::Vertical,
        num_columns,
        0,
        num_rows - segment_length + 1,
        segment_length,
    );
    // generate the horizontal segments
    push_segments(
        &mut segments,
        Direction::Horizontal,
        num_columns - segment_length + 1,
        0,
        num_rows,
        segment_length,
    );
    // generate the bottom left to top right diagonal segments
    push_segments(
        &mut segments,
        Direction::Rising,
        num_columns - segment_length + 1,
        0,
        num_rows - segment_length + 1,
        segment_length,
    );
    // generate the top left to bottom right diagonal segments
    push_segments(
        &mut segments,
        Direction::Falling,
        num_columns - segment_length + 1,
        segment_length - 1,
        num_rows,
        segment_length,
    );
    segments
}

/// One column of the board: the pieces dropped into it, the lowest first.
#[derive(Clone, Debug, PartialEq, Eq)]
pub struct C4Column(pub Vec<C4Piece>);

impl View for C4Column {
    type V = Seq<C4Piece>;

    open spec fn view(&self) -> Seq<C4Piece> {
        self.0@
    }
}

/// The piece in `row` of a column, `E` above its top.
pub open spec fn piece_at(column: Seq<C4Piece>, row: int) -> C4Piece {
    if 0 <= row < column.len() {
        column[row]
    } else {
        C4Piece::E
    }
}

impl C4Column {
    /// Makes an empty column with room for `n` pieces.
    pub fn new(n: usize) -> (column: C4Column)
        ensures
            column@ == Seq::<C4Piece>::empty(),
    {
        C4Column(Vec::with_capacity(n))
    }

    /// Returns whether the column has reached the top of the board.
    pub fn full(&self) -> (b: bool)
        ensures
            b == (self@.len() == NUM_ROWS),
    {
        self.0.len() == NUM_ROWS as usize
    }

    /// Drops a piece on top of the column, which must not be full.
    pub fn push(&mut self, item: C4Piece)
        requires
            old(self)@.len() != NUM_ROWS,
        ensures
            final(self)@ == old(self)@.push(item),
    {
        self.0.push(item);
    }

    /// Returns the piece in row `index`, `E` above the top of the column.
    pub fn index(&self, index: usize) -> (piece: C4Piece)
        ensures
            piece == piece_at(self@, index as int),
    {
        if index >= self.0.len() {
            return C4Piece::E;
        }
        self.0[index]
    }

    /// Returns a column with the same pieces.
    fn copy(&self) -> (column: C4Column)
        ensures
            column@ == self@,
    {
        let pieces = self.0.clone();
        assert(pieces@ == self.0@);
        C4Column(pieces)
    }
}

/// A Connect Four position: the columns from left to right, the player to
/// move, and the segments in which four in a row can stand.
#[derive(Clone, Debug, PartialEq, Eq)]
pub struct C4Board {
    pub position: Vec<C4Column>,
    pub turn: C4Piece,
    pub segments: Vec<Vec<(u8, u8)>>,
}

/// The mathematical model of a Connect Four position.
pub struct C4State {
    pub columns: Seq<Seq<C4Piece>>,
    pub turn: C4Piece,
}

/// The views of the columns held in a vector.
pub open spec fn columns_view(position: Seq<C4Column>) -> Seq<Seq<C4Piece>> {
    Seq::new(position.len(), |i: int| position[i]@)
}

impl View for C4Board {
    type V = C4State;

    open spec fn view(&self) -> C4State {
        C4State { columns: columns_view(self.position@), turn: self.turn }
    }
}

/// Whether `columns` are the columns of a board: as many as the board is
/// wide, and none higher than the board.
pub open spec fn columns_fit(columns: Seq<Seq<C4Piece>>) -> bool {
    &&& columns.len() == NUM_COLS
    &&& forall|c: int| 0 <= c < columns.len() ==> (#[trigger] columns[c]).len() <= NUM_ROWS
}

/// The segments of the board.
pub open spec fn board_segments() -> Seq<Seq<(u8, u8)>> {
    all_segments(NUM_COLS as int, NUM_ROWS as int, SEGMENT_LENGTH as int)
}

/// The piece in the cell at a pair of column and row.
pub open spec fn piece_in(columns: Seq<Seq<C4Piece>>, cell: (u8, u8)) -> C4Piece {
    piece_at(columns[cell.0 as int], cell.1 as int)
}

/// The number of cells of `segment` that hold `piece`.
pub open spec fn count_of(columns: Seq<Seq<C4Piece>>, segment: Seq<(u8, u8)>, piece: C4Piece) -> nat
    decreases segment.len(),
{
    if segment.len() == 0 {
        0
    } else {
        count_of(columns, segment.drop_last(), piece) + if piece_in(columns, segment.last())
            == piece {
            1nat
        } else {
            0nat
        }
    }
}

/// What `count` pieces of one colour are worth in a segment without a piece
/// of the other colour.
pub open spec fn run_value(count: nat) -> Score {
    if count == 2 {
        1
    } else if count == 3 {
        100
    } else if count == 4 {
        1000000
    } else {
        0
    }
}

/// The score of one segment for `player`: nothing where both colours stand
/// in it, else the worth of its pieces, counted against `player` where they
/// are the opponent's. A segment without any piece counts as black's.
pub open spec fn segment_score(
    columns: Seq<Seq<C4Piece>>,
    segment: Seq<(u8, u8)>,
    player: C4Piece,
) -> Score {
    let black = count_of(columns, segment, C4Piece::B);
    let red = count_of(columns, segment, C4Piece::R);
    if red > 0 && black > 0 {
        0
    } else {
        let worth = run_value(
            if red > black {
                red
            } else {
                black
            },
        );
        let colour = if red > black {
            C4Piece::R
        } else {
            C4Piece::B
        };
        if colour != player {
            (-worth) as Score
        } else {
            worth
        }
    }
}

/// The sum of the scores of `segments` for `player`.
pub open spec fn total_score(
    columns: Seq<Seq<C4Piece>>,
    segments: Seq<Seq<(u8, u8)>>,
    player: C4Piece,
) -> int
    decreases segments.len(),
{
    if segments.len() == 0 {
        0
    } else {
        total_score(columns, segments.drop_last(), player) + segment_score(
            columns,
            segments.last(),
            player,
        )
    }
}

/// Whether one of `segments` holds four pieces of one colour.
pub open spec fn four_in_a_row(columns: Seq<Seq<C4Piece>>, segments: Seq<Seq<(u8, u8)>>) -> bool {
    exists|i: int|
        0 <= i < segments.len() && (count_of(columns, #[trigger] segments[i], C4Piece::B) == 4
            || count_of(columns, segments[i], C4Piece::R) == 4)
}

/// The columns that are not full, from left to right.
pub open spec fn open_columns(columns: Seq<Seq<C4Piece>>, n: int) -> Seq<Move> {
    picked(0, n, |c: int| columns[c].len() != NUM_ROWS)
}

/// Whether `segment` has `length` cells, all on a board of `columns` by `rows`.
pub open spec fn segment_fits(segment: Seq<(u8, u8)>, length: int, columns: int, rows: int) -> bool {
    &&& segment.len() == length
    &&& forall|k: int|
        0 <= k < segment.len() ==> (#[trigger] segment[k]).0 < columns && segment[k].1 < rows
}

/// The segments of one direction are as many as their starting cells, and
/// each lies on the board when its first and last cells do.
pub proof fn lemma_segments_of_columns(
    dir: Direction,
    columns: int,
    first: int,
    last: int,
    length: int,
    width: int,
    height: int,
)
    requires
        0 <= columns,
        0 <= first <= last,
        0 <= length,
        width <= 256,
        height <= 256,
        dir == Direction::Vertical ==> columns <= width,
        dir != Direction::Vertical ==> columns + length - 1 <= width,
        dir == Direction::Vertical || dir == Direction::Rising ==> last + length - 1 <= height,
        dir == Direction::Horizontal || dir == Direction::Falling ==> last <= height,
        dir == Direction::Falling ==> length - 1 <= first,
    ensures
        segments_of_columns(dir, columns, first, last, length).len() == columns * (last - first),
        forall|i: int|
            0 <= i < segments_of_columns(dir, columns, first, last, length).len() ==> segment_fits(
                #[trigger] segments_of_columns(dir, columns, first, last, length)[i],
                length,
                width,
                height,
            ),
    decreases columns,
{
    let all = segments_of_columns(dir, columns, first, last, length);
    if columns > 0 {
        lemma_segments_of_columns(dir, columns - 1, first, last, length, width, height);
        let front = segments_of_columns(dir, columns - 1, first, last, length);
        let this = segments_of_column(dir, columns - 1, first, last, length);
        assert(all == front + this);
        assert(columns * (last - first) == (columns - 1) * (last - first) + (last - first))
            by (nonlinear_arith);
        assert forall|i: int| 0 <= i < all.len() implies segment_fits(
            #[trigger] all[i],
            length,
            width,
            height,
        ) by {
            if i < front.len() {
                assert(all[i] == front[i]);
            } else {
                let k = i - front.len();
                assert(all[i] == this[k]);
                assert(this[k] == segment_from(dir, columns - 1, first + k, length));
            }
        }
    }
}

/// The board has 69 segments of four cells, all of them on the board.
pub proof fn lemma_board_segments()
    ensures
        board_segments().len() == 69,
        forall|i: int|
            0 <= i < board_segments().len() ==> segment_fits(
                #[trigger] board_segments()[i],
                SEGMENT_LENGTH as int,
                NUM_COLS as int,
                NUM_ROWS as int,
            ),
{
    let v = segments_of_columns(Direction::Vertical, 7, 0, 3, 4);
    let h = segments_of_columns(Direction::Horizontal, 4, 0, 6, 4);
    let r = segments_of_columns(Direction::Rising, 4, 0, 3, 4);
    let f = segments_of_columns(Direction::Falling, 4, 3, 6, 4);
    lemma_segments_of_columns(Direction::Vertical, 7, 0, 3, 4, 7, 6);
    lemma_segments_of_columns(Direction::Horizontal, 4, 0, 6, 4, 7, 6);
    lemma_segments_of_columns(Direction::Rising, 4, 0, 3, 4, 7, 6);
    lemma_segments_of_columns(Direction::Falling, 4, 3, 6, 4, 7, 6);
    let all = board_segments();
    assert(all == v + h + r + f);
    assert forall|i: int| 0 <= i < all.len() implies segment_fits(#[trigger] all[i], 4, 7, 6) by {
        if i < 21 {
            assert(all[i] == v[i]);
        } else if i < 45 {
            assert(all[i] == h[i - 21]);
        } else if i < 57 {
            assert(all[i] == r[i - 45]);
        } else {
            assert(all[i] == f[i - 57]);
        }
    }
}

/// Returns a copy of the segments.
fn copy_segments(segments: &Vec<Vec<(u8, u8)>>) -> (copy: Vec<Vec<(u8, u8)>>)
    ensures
        segments_view(copy@) == segments_view(segments@),
{
    let mut copy: Vec<Vec<(u8, u8)>> = Vec::new();
    let mut i: usize = 0;
    while i < segments.len()
        invariant
            i <= segments.len(),
            copy.len() == i,
            forall|k: int| 0 <= k < i ==> (#[trigger] copy@[k])@ == segments@[k]@,
        decreases segments.len() - i,
    {
        let mut segment: Vec<(u8, u8)> = Vec::new();
        let mut j: usize = 0;
        while j < segments[i].len()
            invariant
                i < segments.len(),
                j <= segments@[i as int].len(),
                segment@ == segments@[i as int]@.take(j as int),
            decreases segments@[i as int].len() - j,
        {
            segment.push(segments[i][j]);
            j += 1;
        }
        assert(segment@ == segments@[i as int]@);
        copy.push(segment);
        i += 1;
    }
    assert(segments_view(copy@) == segments_view(segments@));
    copy
}

/// The score of a segment lies between minus a million and a million.
pub proof fn lemma_segment_score_bound(
    columns: Seq<Seq<C4Piece>>,
    segment: Seq<(u8, u8)>,
    player: C4Piece,
)
    ensures
        -1000000 <= segment_score(columns, segment, player) <= 1000000,
{
}

/// The total score of some segments is at most a million for each.
pub proof fn lemma_total_score_bound(
    columns: Seq<Seq<C4Piece>>,
    segments: Seq<Seq<(u8, u8)>>,
    player: C4Piece,
)
    ensures
        -1000000 * segments.len() <= total_score(columns, segments, player) <= 1000000
            * segments.len(),
    decreases segments.len(),
{
    if segments.len() > 0 {
        lemma_total_score_bound(columns, segments.drop_last(), player);
        lemma_segment_score_bound(columns, segments.last(), player);
    }
}

impl C4Board {
    /// Makes a board from its columns, or an empty board where none are
    /// given, with `turn` to move.
    pub fn new(position: Option<Vec<C4Column>>, turn: C4Piece) -> (board: C4Board)
        requires
            position matches Some(p) ==> columns_fit(columns_view(p@)),
        ensures
            board.wf(),
            board@.turn == turn,
            position matches Some(p) ==> board@.columns == columns_view(p@),
            position is None ==> board@.columns == Seq::new(
                NUM_COLS as nat,
                |c: int| Seq::<C4Piece>::empty(),
            ),
    {
        let position = match position {
            None => {
                let mut columns: Vec<C4Column> = Vec::new();
                let mut c: u8 = 0;
                while c < NUM_COLS
                    invariant
                        c <= NUM_COLS,
                        columns.len() == c,
                        forall|k: int|
                            0 <= k < c ==> (#[trigger] columns@[k])@ == Seq::<C4Piece>::empty(),
                    decreases NUM_COLS - c,
                {
                    columns.push(C4Column::new(NUM_ROWS as usize));
                    c += 1;
                }
                assert(columns_view(columns@) == Seq::new(
                    NUM_COLS as nat,
                    |c: int| Seq::<C4Piece>::empty(),
                ));
                columns
            },
            Some(p) => p,
        };
        let segments: Vec<Vec<(u8, u8)>> = generate_segments(NUM_COLS, NUM_ROWS, SEGMENT_LENGTH);
        C4Board { position, turn, segments }
    }

    /// Returns the count of black & red pieces in a segment
    pub fn count_segment(&self, segment: &Vec<(u8, u8)>) -> (counts: (u8, u8))
        requires
            self.wf(),
            segment.len() <= u8::MAX,
            forall|k: int| 0 <= k < segment.len() ==> (#[trigger] segment@[k]).0 < NUM_COLS,
        ensures
            counts.0 == count_of(self@.columns, segment@, C4Piece::B),
            counts.1 == count_of(self@.columns, segment@, C4Piece::R),
    {
        let mut black_count: u8 = 0;
        let mut red_count: u8 = 0;
        let mut i: usize = 0;
        while i < segment.len()
            invariant
                self.wf(),
                i <= segment.len() <= u8::MAX,
                forall|k: int| 0 <= k < segment.len() ==> (#[trigger] segment@[k]).0 < NUM_COLS,
                black_count == count_of(self@.columns, segment@.take(i as int), C4Piece::B),
                red_count == count_of(self@.columns, segment@.take(i as int), C4Piece::R),
                black_count <= i,
                red_count <= i,
            decreases segment.len() - i,
        {
            let (column, row) = segment[i];
            proof {
                let upto = segment@.take(i + 1);
                assert(upto.drop_last() == segment@.take(i as int));
                assert(upto.last() == segment@[i as int]);
                assert(self@.columns[column as int] == self.position@[column as int]@);
            }
            let piece = self.position[column as usize].index(row as usize);
            if piece == C4Piece::B {
                black_count += 1;
            } else if piece == C4Piece::R {
                red_count += 1;
            }
            i += 1;
        }
        assert(segment@.take(i as int) == segment@);
        return (black_count, red_count);
    }

    /// Returns the score of one segment for `player`.
    pub fn evaluate_segment(&self, segment: &Vec<(u8, u8)>, player: C4Piece) -> (score: Score)
        requires
            self.wf(),
            segment.len() <= u8::MAX,
            forall|k: int| 0 <= k < segment.len() ==> (#[trigger] segment@[k]).0 < NUM_COLS,
        ensures
            score == segment_score(self@.columns, segment@, player),
    {
        let (black_count, red_count) = self.count_segment(segment);
        if red_count > 0 && black_count > 0 {
            return 0;  // mixed segments are neutral
        }
        let count = if red_count > black_count {
            red_count
        } else {
            black_count
        };
        let mut score: Score = 0;
        if count == 2 {
            score = 1;
        } else if count == 3 {
            score = 100;
        } else if count == 4 {
            score = 1000000;
        }
        let mut color: C4Piece = C4Piece::B;
        if red_count > black_count {
            color = C4Piece::R;
        }
        if color != player {
            return -score;
        }
        score
    }
}

impl Board<C4Piece> for C4Board {
    open spec fn wf(&self) -> bool {
        &&& columns_fit(columns_view(self.position@))
        &&& segments_view(self.segments@) == board_segments()
    }

    open spec fn to_move(s: C4State) -> C4Piece {
        s.turn
    }

    open spec fn moves(s: C4State) -> Seq<Move> {
        open_columns(s.columns, s.columns.len() as int)
    }

    open spec fn after(s: C4State, m: Move) -> C4State {
        C4State {
            columns: s.columns.update(m as int, s.columns[m as int].push(s.turn)),
            turn: s.turn.other(),
        }
    }

    open spec fn won(s: C4State) -> bool {
        four_in_a_row(s.columns, board_segments())
    }

    open spec fn score(s: C4State, player: C4Piece) -> Score {
        total_score(s.columns, board_segments(), player) as Score
    }

    open spec fn fixed_order() -> bool {
        true
    }

    fn turn(&self) -> C4Piece {
        self.turn
    }

    fn make_move(&self, location: Move) -> C4Board {
        proof {
            lemma_picked(0, NUM_COLS as int, |c: int| self@.columns[c].len() != NUM_ROWS);
        }
        let mut temp_position: Vec<C4Column> = Vec::new();
        let mut c: usize = 0;
        while c < NUM_COLS as usize
            invariant
                self.wf(),
                c <= NUM_COLS,
                temp_position.len() == c,
                forall|k: int| 0 <= k < c ==> (#[trigger] temp_position@[k])@ == self.position@[k]@,
            decreases NUM_COLS - c,
        {
            temp_position.push(self.position[c].copy());
            c += 1;
        }
        assert(columns_view(temp_position@) == self@.columns);
        let ghost before = temp_position@;
        temp_position[location as usize].push(self.turn);
        assert(columns_view(temp_position@) == self@.columns.update(
            location as int,
            self@.columns[location as int].push(self.turn),
        )) by {
            assert forall|k: int| 0 <= k < NUM_COLS implies #[trigger] temp_position@[k]@
                == self@.columns.update(
                location as int,
                self@.columns[location as int].push(self.turn),
            )[k] by {
                if k != location {
                    assert(temp_position@[k] == before[k]);
                }
            }
        }
        C4Board {
            position: temp_position,
            turn: self.turn.opposite(),
            segments: copy_segments(&self.segments),
        }
    }

    fn legal_moves(&self) -> Vec<Move> {
        let mut list: Vec<Move> = Vec::new();
        let mut c: u8 = 0;
        while c < NUM_COLS
            invariant
                self.wf(),
                c <= NUM_COLS,
                list@ == open_columns(self@.columns, c as int),
            decreases NUM_COLS - c,
        {
            if !self.position[c as usize].full() {
                list.push(c as Move);
            }
            c += 1;
            assert(list@ == open_columns(self@.columns, c as int));
        }
        proof {
            lemma_picked(0, NUM_COLS as int, |c: int| self@.columns[c].len() != NUM_ROWS);
            assert forall|k: int| 0 <= k < list.len() implies #[trigger] list@[k] != NO_MOVE by {
                assert(list@.contains(list@[k]));
            }
        }
        list
    }

    fn is_win(&self) -> bool {
        proof {
            lemma_board_segments();
        }
        let mut i: usize = 0;
        while i < self.segments.len()
            invariant
                self.wf(),
                i <= self.segments.len(),
                forall|k: int|
                    0 <= k < board_segments().len() ==> segment_fits(
                        #[trigger] board_segments()[k],
                        SEGMENT_LENGTH as int,
                        NUM_COLS as int,
                        NUM_ROWS as int,
                    ),
                forall|k: int|
                    0 <= k < i ==> count_of(self@.columns, #[trigger] board_segments()[k], C4Piece::B)
                        != 4 && count_of(self@.columns, board_segments()[k], C4Piece::R) != 4,
            decreases self.segments.len() - i,
        {
            assert(self.segments@[i as int]@ == board_segments()[i as int]);
            let (black_count, red_count) = self.count_segment(&self.segments[i]);
            if black_count == 4 || red_count == 4 {
                return true;
            }
            i += 1;
        }
        false
    }

    fn evaluate(&self, player: C4Piece) -> Score {
        proof {
            lemma_board_segments();
        }
        let mut total: Score = 0;
        let mut i: usize = 0;
        while i < self.segments.len()
            invariant
                self.wf(),
                i <= self.segments.len(),
                board_segments().len() == 69,
                forall|k: int|
                    0 <= k < board_segments().len() ==> segment_fits(
                        #[trigger] board_segments()[k],
                        SEGMENT_LENGTH as int,
                        NUM_COLS as int,
                        NUM_ROWS as int,
                    ),
                total == total_score(self@.columns, board_segments().take(i as int), player),
            decreases self.segments.len() - i,
        {
            proof {
                assert(self.segments@[i as int]@ == board_segments()[i as int]);
                let upto = board_segments().take(i + 1);
                assert(upto.drop_last() == board_segments().take(i as int));
                assert(upto.last() == board_segments()[i as int]);
                lemma_total_score_bound(self@.columns, board_segments().take(i as int), player);
                lemma_segment_score_bound(self@.columns, board_segments()[i as int], player);
            }
            total += self.evaluate_segment(&self.segments[i], player);
            i += 1;
        }
        proof {
            assert(board_segments().take(i as int) == board_segments());
            lemma_total_score_bound(self@.columns, board_segments(), player);
        }
        return total;
    }
}

} // verus!
