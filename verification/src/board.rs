//! Board representation and movement rules for checkers.
//!
//! The board is an 8x8 grid stored as a vector of 64 optional pieces in
//! row-major order, so enumeration order is canonical (by row, then column)
//! and every operation is deterministic. The mathematical model of a board
//! is the sequence view `Seq<Option<Piece>>` of length 64; all contracts are
//! stated over that view.

use vstd::prelude::*;

verus! {

/// Side length of the board.
pub const SIZE: i8 = 8;

/// One of the two players.
#[derive(Copy, Clone, PartialEq, Eq, Structural, Debug)]
pub enum Team {
    Light,
    Dark,
}

/// The opposing team, as a spec-level function.
pub open spec fn spec_other(team: Team) -> Team {
    match team {
        Team::Light => Team::Dark,
        Team::Dark => Team::Light,
    }
}

impl Team {
    /// The opposing team.
    pub fn other(self) -> (r: Team)
        ensures
            r == spec_other(self),
    {
        match self {
            Team::Light => Team::Dark,
            Team::Dark => Team::Light,
        }
    }
}

/// The rank of a piece: Men move only forward, Kings move either way.
#[derive(Copy, Clone, PartialEq, Eq, Structural, Debug)]
pub enum PieceType {
    Man,
    King,
}

/// A piece on the board; it does not know its own square.
#[derive(Copy, Clone, PartialEq, Eq, Structural, Debug)]
pub struct Piece {
    pub team: Team,
    pub piece_type: PieceType,
}

/// A coordinate pair. Coordinates on the board lie in `[0, SIZE)`, but a
/// `Square` value may hold any coordinates (queries on out-of-bounds squares
/// are answered, not rejected).
#[derive(Copy, Clone, Hash, PartialEq, Eq, Structural, Debug)]
pub struct Square {
    pub x: i8,
    pub y: i8,
}

/// A move of one piece from one square to another.
#[derive(Copy, Clone, PartialEq, Eq, Structural, Debug)]
pub struct Move {
    pub from: Square,
    pub to: Square,
}

/// Absolute value of a mathematical integer.
pub open spec fn abs_i(a: int) -> int {
    if a < 0 {
        -a
    } else {
        a
    }
}

/// Whether a square lies on the board.
pub open spec fn sq_in_bounds(s: Square) -> bool {
    0 <= s.x < SIZE && 0 <= s.y < SIZE
}

/// Row-major index of an in-bounds square into the board's cell sequence.
pub open spec fn sq_index(s: Square) -> int {
    s.y * 8 + s.x
}

/// The in-bounds square at a given row-major index.
pub open spec fn sq_of_index(i: int) -> Square {
    Square { x: (i % 8) as i8, y: (i / 8) as i8 }
}

/// A well-formed board view holds exactly one cell per square.
pub open spec fn board_wf(v: Seq<Option<Piece>>) -> bool {
    v.len() == 64
}

/// The piece standing on a square, or `None` for an empty or out-of-bounds
/// square.
pub open spec fn piece_at(v: Seq<Option<Piece>>, s: Square) -> Option<Piece>
    recommends
        board_wf(v),
{
    if sq_in_bounds(s) {
        v[sq_index(s)]
    } else {
        None
    }
}

/// The piece standing on the given cell of the standard starting layout:
/// twelve Men per team on the dark squares of the back three rows, Dark at
/// the top (small `y`), Light at the bottom.
pub open spec fn initial_cell(i: int) -> Option<Piece> {
    let x = i % 8;
    let y = i / 8;
    if (x + y) % 2 == 1 && (y < 3 || y > 4) {
        Some(
            Piece {
                team: if y < 3 {
                    Team::Dark
                } else {
                    Team::Light
                },
                piece_type: PieceType::Man,
            },
        )
    } else {
        None
    }
}

/// The standard starting position.
pub open spec fn initial_board() -> Seq<Option<Piece>> {
    Seq::new(64, |i: int| initial_cell(i))
}

/// A move is classified as a jump by its horizontal span alone.
pub open spec fn spec_is_jump(m: Move) -> bool {
    abs_i(m.from.x - m.to.x) > 1
}

impl Move {
    /// Whether this move is a jump (a capture) rather than a step.
    pub fn is_jump(&self) -> (r: bool)
        ensures
            r == spec_is_jump(*self),
    {
        let dx: i16 = self.from.x as i16 - self.to.x as i16;
        (if dx < 0 { -dx } else { dx }) > 1
    }
}

/// The board: a mapping from squares to pieces, stored row-major.
pub struct Board {
    cells: Vec<Option<Piece>>,
}

impl View for Board {
    type V = Seq<Option<Piece>>;

    closed spec fn view(&self) -> Seq<Option<Piece>> {
        self.cells@
    }
}

impl Board {
    /// A board is well-formed when it holds one cell per square.
    pub open spec fn wf(&self) -> bool {
        board_wf(self@)
    }

    /// Whether a square lies on the board.
    pub fn in_bounds(s: &Square) -> (r: bool)
        ensures
            r == sq_in_bounds(*s),
    {
        0 <= s.x && s.x < SIZE && 0 <= s.y && s.y < SIZE
    }

    /// The piece standing on a square, or `None` for an empty or
    /// out-of-bounds square.
    pub fn get_piece_at(&self, s: &Square) -> (r: Option<Piece>)
        requires
            self.wf(),
        ensures
            r == piece_at(self@, *s),
    {
        if Self::in_bounds(s) {
            let idx: usize = (s.y as usize) * 8 + (s.x as usize);
            self.cells[idx]
        } else {
            None
        }
    }

    /// Whether a square holds a piece.
    pub fn square_occupied(&self, s: &Square) -> (r: bool)
        requires
            self.wf(),
        ensures
            r == (piece_at(self@, *s) is Some),
    {
        self.get_piece_at(s).is_some()
    }

    /// The standard starting position.
    pub fn new() -> (r: Board)
        ensures
            r.wf(),
            r@ == initial_board(),
    {
        let mut cells: Vec<Option<Piece>> = Vec::new();
        let mut idx: usize = 0;
        while idx < 64
            invariant
                idx <= 64,
                cells@.len() == idx,
                forall|j: int| 0 <= j < idx ==> cells@[j] == initial_cell(j),
            decreases 64 - idx,
        {
            let x: usize = idx % 8;
            let y: usize = idx / 8;
            let cell: Option<Piece> = if (x + y) % 2 == 1 && (y < 3 || y > 4) {
                Some(
                    Piece {
                        team: if y < 3 {
                            Team::Dark
                        } else {
                            Team::Light
                        },
                        piece_type: PieceType::Man,
                    },
                )
            } else {
                None
            };
            cells.push(cell);
            idx = idx + 1;
        }
        let r = Board { cells };
        proof {
            assert(r@ =~= initial_board());
        }
        r
    }

    /// A board with no pieces on it, as a base for custom positions.
    pub fn empty() -> (r: Board)
        ensures
            r.wf(),
            forall|i: int| 0 <= i < r@.len() ==> r@[i] is None,
    {
        let mut cells: Vec<Option<Piece>> = Vec::new();
        let mut idx: usize = 0;
        while idx < 64
            invariant
                idx <= 64,
                cells@.len() == idx,
                forall|j: int| 0 <= j < idx ==> cells@[j] is None,
            decreases 64 - idx,
        {
            cells.push(None);
            idx = idx + 1;
        }
        Board { cells }
    }

    /// Puts a piece on a square, replacing whatever stood there.
    pub fn place_piece(&mut self, s: &Square, p: Piece)
        requires
            old(self).wf(),
            sq_in_bounds(*s),
        ensures
            final(self).wf(),
            final(self)@ == old(self)@.update(sq_index(*s), Some(p)),
    {
        let idx: usize = (s.y as usize) * 8 + (s.x as usize);
        self.cells.set(idx, Some(p));
    }

    /// Whether a piece may step from one square to another: `from` holds a
    /// piece, the diagonal distance is `distance` in both axes, the
    /// direction is legal for that piece, and `to` is on the board and
    /// empty.
    pub fn _can_step(&self, from: &Square, to: &Square, distance: i8) -> (r: bool)
        requires
            self.wf(),
        ensures
            r == spec_can_step_dist(self@, *from, *to, distance as int),
    {
        let piece = match self.get_piece_at(from) {
            Some(p) => p,
            None => {
                return false;
            },
        };
        let dx: i16 = to.x as i16 - from.x as i16;
        let dy: i16 = to.y as i16 - from.y as i16;
        let correct_direction = piece.piece_type == PieceType::King || (piece.team == Team::Light
            && dy <= -1) || (piece.team == Team::Dark && dy >= 1);
        let adx: i16 = if dx < 0 {
            -dx
        } else {
            dx
        };
        let ady: i16 = if dy < 0 {
            -dy
        } else {
            dy
        };
        let correct_distance = adx == distance as i16 && ady == distance as i16;
        !self.square_occupied(to) && correct_direction && correct_distance && Self::in_bounds(to)
    }

    /// Whether a piece may take a single diagonal step.
    pub fn can_step(&self, from: &Square, to: &Square) -> (r: bool)
        requires
            self.wf(),
        ensures
            r == spec_can_step(self@, *from, *to),
    {
        self._can_step(from, to, 1)
    }

    /// Whether a piece may jump from one square to another, capturing the
    /// enemy piece on the midpoint square.
    pub fn can_jump(&self, from: &Square, to: &Square) -> (r: bool)
        requires
            self.wf(),
        ensures
            r == spec_can_jump(self@, *from, *to),
    {
        let piece = match self.get_piece_at(from) {
            Some(p) => p,
            None => {
                return false;
            },
        };
        if !self._can_step(from, to, 2) {
            return false;
        }
        // Both squares are on the board and two apart in each axis, so each
        // coordinate sum is even and the quotient is the midpoint coordinate.
        let mx: i8 = (((from.x + to.x) as u8) / 2) as i8;
        let my: i8 = (((from.y + to.y) as u8) / 2) as i8;
        let between = Square { x: mx, y: my };
        let between_piece = match self.get_piece_at(&between) {
            Some(p) => p,
            None => {
                return false;
            },
        };
        piece.team != between_piece.team
    }

    /// Whether a piece may either step or jump between the two squares.
    pub fn can_move(&self, from: &Square, to: &Square) -> (r: bool)
        requires
            self.wf(),
        ensures
            r == spec_can_move(self@, *from, *to),
    {
        self.can_step(from, to) || self.can_jump(from, to)
    }

    /// Pushes the move from `s` by offset `(dx, dy)` onto `moves` when that
    /// move is legal, and otherwise leaves `moves` unchanged.
    fn push_candidate(&self, moves: &mut Vec<Move>, s: &Square, dx: i8, dy: i8, jump_only: bool)
        requires
            self.wf(),
            -2 <= dx <= 2,
            -2 <= dy <= 2,
        ensures
            final(moves)@ == old(moves)@ + move_candidate(
                self@,
                *s,
                dx as int,
                dy as int,
                jump_only,
            ),
    {
        let tx: i16 = s.x as i16 + dx as i16;
        let ty: i16 = s.y as i16 + dy as i16;
        if 0 <= tx && tx < 8 && 0 <= ty && ty < 8 {
            let t = Square { x: tx as i8, y: ty as i8 };
            let ok = if jump_only {
                self.can_jump(s, &t)
            } else {
                self.can_move(s, &t)
            };
            if ok {
                moves.push(Move { from: *s, to: t });
            }
        }
        proof {
            assert(moves@ =~= old(moves)@ + move_candidate(
                self@,
                *s,
                dx as int,
                dy as int,
                jump_only,
            ));
        }
    }

    /// Every legal move of the piece standing on a square: the diagonal
    /// steps and the diagonal jumps, in a fixed order. An empty or
    /// out-of-bounds square yields an empty list; the call never fails.
    pub fn get_valid_moves_for_piece_at(&self, square: &Square) -> (r: Result<Vec<Move>, String>)
        requires
            self.wf(),
        ensures
            r is Ok,
            r->Ok_0@ == valid_moves_at(self@, *square),
    {
        let mut moves: Vec<Move> = Vec::new();
        self.push_candidate(&mut moves, square, -1, -1, false);
        self.push_candidate(&mut moves, square, -1, 1, false);
        self.push_candidate(&mut moves, square, 1, -1, false);
        self.push_candidate(&mut moves, square, 1, 1, false);
        self.push_candidate(&mut moves, square, -2, -2, true);
        self.push_candidate(&mut moves, square, -2, 2, true);
        self.push_candidate(&mut moves, square, 2, -2, true);
        self.push_candidate(&mut moves, square, 2, 2, true);
        proof {
            assert(moves@ =~= valid_moves_at(self@, *square));
        }
        Ok(moves)
    }

    /// Only the legal jumps of the piece standing on a square, in the same
    /// fixed order as `get_valid_moves_for_piece_at` lists them.
    pub fn get_valid_jumps_for_piece_at(&self, square: &Square) -> (r: Vec<Move>)
        requires
            self.wf(),
        ensures
            r@ == valid_jumps_at(self@, *square),
    {
        let mut moves: Vec<Move> = Vec::new();
        self.push_candidate(&mut moves, square, -2, -2, true);
        self.push_candidate(&mut moves, square, -2, 2, true);
        self.push_candidate(&mut moves, square, 2, -2, true);
        self.push_candidate(&mut moves, square, 2, 2, true);
        proof {
            assert(moves@ =~= valid_jumps_at(self@, *square));
        }
        moves
    }

    /// Every legal move of every piece of a team, walking the squares in
    /// row-major order so that enumeration is deterministic.
    pub fn get_all_valid_moves(&self, team: Team) -> (r: Vec<Move>)
        requires
            self.wf(),
        ensures
            r@ == all_moves(self@, team),
    {
        let mut moves: Vec<Move> = Vec::new();
        let mut idx: usize = 0;
        while idx < 64
            invariant
                self.wf(),
                idx <= 64,
                moves@ == all_moves_upto(self@, team, idx as int),
            decreases 64 - idx,
        {
            let x: i8 = (idx % 8) as i8;
            let y: i8 = (idx / 8) as i8;
            let sq = Square { x, y };
            proof {
                assert(sq == sq_of_index(idx as int));
                assert(sq_index(sq) == idx as int);
            }
            let take = match self.cells[idx] {
                Some(p) => p.team == team,
                None => false,
            };
            if take {
                let mut ms = match self.get_valid_moves_for_piece_at(&sq) {
                    Ok(ms) => ms,
                    Err(_) => Vec::new(),
                };
                moves.append(&mut ms);
            }
            proof {
                assert(moves@ =~= all_moves_upto(self@, team, idx as int + 1));
            }
            idx = idx + 1;
        }
        moves
    }

    /// The row-major index of the first square holding the given piece
    /// value.
    pub fn find_piece_square(&self, piece: &Piece) -> (r: Square)
        requires
            self.wf(),
            has_piece(self@, *piece),
        ensures
            r == sq_of_index(first_piece_index(self@, *piece, 0)),
            piece_at(self@, r) == Some(*piece),
    {
        let mut idx: usize = 0;
        while idx < 64
            invariant
                self.wf(),
                has_piece(self@, *piece),
                idx <= 64,
                first_piece_index(self@, *piece, 0) == first_piece_index(self@, *piece, idx as int),
                forall|j: int| 0 <= j < idx ==> self@[j] != Some(*piece),
            decreases 64 - idx,
        {
            let hit = match self.cells[idx] {
                Some(p) => p == *piece,
                None => false,
            };
            if hit {
                let sq = Square { x: (idx % 8) as i8, y: (idx / 8) as i8 };
                proof {
                    assert(sq == sq_of_index(idx as int));
                    assert(sq_index(sq) == idx as int);
                }
                return sq;
            }
            idx = idx + 1;
        }
        proof {
            let w = choose|i: int| 0 <= i < self@.len() && self@[i] == Some(*piece);
            assert(self@[w] == Some(*piece));
            assert(false);
        }
        Square { x: 0, y: 0 }
    }

    /// Every legal move of the first square holding the given piece value.
    pub fn get_valid_moves_for_piece(&self, piece: &Piece) -> (r: Vec<Move>)
        requires
            self.wf(),
            has_piece(self@, *piece),
        ensures
            r@ == valid_moves_at(self@, sq_of_index(first_piece_index(self@, *piece, 0))),
    {
        let square = self.find_piece_square(piece);
        match self.get_valid_moves_for_piece_at(&square) {
            Ok(ms) => ms,
            Err(_) => Vec::new(),
        }
    }

    /// The placement as a list of square/piece pairs in row-major order,
    /// for rendering.
    pub fn get_pieces(&self) -> (r: Vec<(Square, Piece)>)
        requires
            self.wf(),
        ensures
            r@ == entries_upto(self@, 64),
    {
        let mut entries: Vec<(Square, Piece)> = Vec::new();
        let mut idx: usize = 0;
        while idx < 64
            invariant
                self.wf(),
                idx <= 64,
                entries@ == entries_upto(self@, idx as int),
            decreases 64 - idx,
        {
            match self.cells[idx] {
                Some(p) => {
                    let sq = Square { x: (idx % 8) as i8, y: (idx / 8) as i8 };
                    proof {
                        assert(sq == sq_of_index(idx as int));
                    }
                    entries.push((sq, p));
                },
                None => {},
            }
            proof {
                assert(entries@ =~= entries_upto(self@, idx as int + 1));
            }
            idx = idx + 1;
        }
        entries
    }

    /// Applies a move: lifts the piece off `from`, removes the captured
    /// piece behind a jump, promotes a Man that reaches its far rank, and
    /// sets the piece down on `to`. The caller must have validated the move;
    /// only a piece on `from` and an on-board `to` are required here.
    pub fn apply_move(&mut self, m: &Move)
        requires
            old(self).wf(),
            piece_at(old(self)@, m.from) is Some,
            sq_in_bounds(m.to),
        ensures
            final(self).wf(),
            final(self)@ == spec_apply_move(old(self)@, *m),
    {
        let from_idx: usize = (m.from.y as usize) * 8 + (m.from.x as usize);
        let piece = self.cells[from_idx].unwrap();
        self.cells.set(from_idx, None);

        if m.is_jump() {
            let mx: i8 = (((m.from.x + m.to.x) as u8) / 2) as i8;
            let my: i8 = (((m.from.y + m.to.y) as u8) / 2) as i8;
            proof {
                assert(Square { x: mx, y: my } == jump_mid(m.from, m.to));
            }
            let mid_idx: usize = (my as usize) * 8 + (mx as usize);
            self.cells.set(mid_idx, None);
        }
        let promoted = if (piece.team == Team::Light && m.to.y == 0) || (piece.team == Team::Dark
            && m.to.y == SIZE - 1) {
            Piece { team: piece.team, piece_type: PieceType::King }
        } else {
            piece
        };
        let to_idx: usize = (m.to.y as usize) * 8 + (m.to.x as usize);
        self.cells.set(to_idx, Some(promoted));
        proof {
            assert(self@ =~= spec_apply_move(old(self)@, *m));
        }
    }

    /// How many pieces of a team stand on the board.
    pub fn pieces_alive(&self, team: Team) -> (r: usize)
        requires
            self.wf(),
        ensures
            r == count_team(self@, team),
    {
        let mut count: usize = 0;
        let mut idx: usize = 0;
        while idx < 64
            invariant
                self.wf(),
                idx <= 64,
                count <= idx,
                count == count_team_upto(self@, team, idx as int),
            decreases 64 - idx,
        {
            let hit = match self.cells[idx] {
                Some(p) => p.team == team,
                None => false,
            };
            if hit {
                count = count + 1;
            }
            idx = idx + 1;
        }
        count
    }

    /// The game ends when either team has no pieces left.
    pub fn game_over(&self) -> (r: bool)
        requires
            self.wf(),
        ensures
            r == (count_team(self@, Team::Light) == 0 || count_team(self@, Team::Dark) == 0),
    {
        self.pieces_alive(Team::Light) == 0 || self.pieces_alive(Team::Dark) == 0
    }
}

impl Clone for Board {
    /// An independent copy with the same placement.
    fn clone(&self) -> (r: Board)
        ensures
            r@ == self@,
    {
        let mut cells: Vec<Option<Piece>> = Vec::new();
        let mut idx: usize = 0;
        while idx < self.cells.len()
            invariant
                idx <= self.cells@.len(),
                cells@.len() == idx,
                forall|j: int| 0 <= j < idx ==> cells@[j] == self.cells@[j],
            decreases self.cells@.len() - idx,
        {
            cells.push(self.cells[idx]);
            idx = idx + 1;
        }
        let r = Board { cells };
        proof {
            assert(r@ =~= self@);
        }
        r
    }
}

/// A legal direction of travel: Kings move either way along a diagonal,
/// Light Men move toward smaller `y`, Dark Men toward larger `y`.
pub open spec fn correct_direction(p: Piece, dy: int) -> bool {
    p.piece_type is King || (p.team is Light && dy <= -1) || (p.team is Dark && dy >= 1)
}

/// The step predicate at a given diagonal distance: `from` holds a piece,
/// `to` is on the board and empty, the direction is legal for that piece,
/// and the move spans `distance` squares in both axes.
pub open spec fn spec_can_step_dist(
    v: Seq<Option<Piece>>,
    from: Square,
    to: Square,
    distance: int,
) -> bool {
    &&& piece_at(v, from) is Some
    &&& piece_at(v, to) is None
    &&& correct_direction(piece_at(v, from).unwrap(), to.y - from.y)
    &&& abs_i(to.x - from.x) == distance
    &&& abs_i(to.y - from.y) == distance
    &&& sq_in_bounds(to)
}

/// A single diagonal step to an empty square.
pub open spec fn spec_can_step(v: Seq<Option<Piece>>, from: Square, to: Square) -> bool {
    spec_can_step_dist(v, from, to, 1)
}

/// The square halfway between the endpoints of a jump.
pub open spec fn jump_mid(from: Square, to: Square) -> Square {
    Square { x: ((from.x + to.x) / 2) as i8, y: ((from.y + to.y) / 2) as i8 }
}

/// A jump: a two-square diagonal move in a legal direction to an empty
/// on-board square, over an enemy piece on the midpoint square.
pub open spec fn spec_can_jump(v: Seq<Option<Piece>>, from: Square, to: Square) -> bool {
    &&& piece_at(v, from) is Some
    &&& piece_at(v, jump_mid(from, to)) is Some
    &&& spec_can_step_dist(v, from, to, 2)
    &&& piece_at(v, from).unwrap().team != piece_at(v, jump_mid(from, to)).unwrap().team
}

/// Either a step or a jump.
pub open spec fn spec_can_move(v: Seq<Option<Piece>>, from: Square, to: Square) -> bool {
    spec_can_step(v, from, to) || spec_can_jump(v, from, to)
}

/// The candidate move from `s` by offset `(dx, dy)`, as a sequence of one
/// move when it is legal and an empty sequence otherwise.
pub open spec fn move_candidate(
    v: Seq<Option<Piece>>,
    s: Square,
    dx: int,
    dy: int,
    jump_only: bool,
) -> Seq<Move> {
    let tx = s.x + dx;
    let ty = s.y + dy;
    if 0 <= tx < 8 && 0 <= ty < 8 {
        let t = Square { x: tx as i8, y: ty as i8 };
        if (if jump_only {
            spec_can_jump(v, s, t)
        } else {
            spec_can_move(v, s, t)
        }) {
            seq![Move { from: s, to: t }]
        } else {
            Seq::empty()
        }
    } else {
        Seq::empty()
    }
}

/// Every legal move of the piece on `s`: the four diagonal steps, then the
/// four diagonal jumps, each in a fixed order.
pub open spec fn valid_moves_at(v: Seq<Option<Piece>>, s: Square) -> Seq<Move> {
    move_candidate(v, s, -1, -1, false) + move_candidate(v, s, -1, 1, false) + move_candidate(
        v,
        s,
        1,
        -1,
        false,
    ) + move_candidate(v, s, 1, 1, false) + move_candidate(v, s, -2, -2, true) + move_candidate(
        v,
        s,
        -2,
        2,
        true,
    ) + move_candidate(v, s, 2, -2, true) + move_candidate(v, s, 2, 2, true)
}

/// Only the legal jumps of the piece on `s`, in the same fixed order.
pub open spec fn valid_jumps_at(v: Seq<Option<Piece>>, s: Square) -> Seq<Move> {
    move_candidate(v, s, -2, -2, true) + move_candidate(v, s, -2, 2, true) + move_candidate(
        v,
        s,
        2,
        -2,
        true,
    ) + move_candidate(v, s, 2, 2, true)
}

/// Whether a cell holds a piece of the given team.
pub open spec fn cell_is_team(c: Option<Piece>, team: Team) -> bool {
    c matches Some(p) && p.team == team
}

/// The moves contributed by the cell at index `i` to a team's move list.
pub open spec fn team_moves_at_index(v: Seq<Option<Piece>>, team: Team, i: int) -> Seq<Move> {
    if cell_is_team(v[i], team) {
        valid_moves_at(v, sq_of_index(i))
    } else {
        Seq::empty()
    }
}

/// A team's moves gathered from the first `n` cells in row-major order.
pub open spec fn all_moves_upto(v: Seq<Option<Piece>>, team: Team, n: int) -> Seq<Move>
    decreases n,
{
    if n <= 0 {
        Seq::empty()
    } else {
        all_moves_upto(v, team, n - 1) + team_moves_at_index(v, team, n - 1)
    }
}

/// Every legal move of every piece of a team, in row-major square order.
pub open spec fn all_moves(v: Seq<Option<Piece>>, team: Team) -> Seq<Move> {
    all_moves_upto(v, team, 64)
}

/// Whether some square holds the given piece value.
pub open spec fn has_piece(v: Seq<Option<Piece>>, p: Piece) -> bool {
    exists|i: int| 0 <= i < v.len() && v[i] == Some(p)
}

/// The first index at or after `i` whose cell holds the given piece value,
/// or the length of the board when there is none.
pub open spec fn first_piece_index(v: Seq<Option<Piece>>, p: Piece, i: int) -> int
    decreases v.len() - i,
{
    if i < 0 || i >= v.len() {
        v.len() as int
    } else if v[i] == Some(p) {
        i
    } else {
        first_piece_index(v, p, i + 1)
    }
}

/// The square/piece pairs among the first `n` cells, in row-major order.
pub open spec fn entries_upto(v: Seq<Option<Piece>>, n: int) -> Seq<(Square, Piece)>
    decreases n,
{
    if n <= 0 {
        Seq::empty()
    } else {
        entries_upto(v, n - 1) + (match v[n - 1] {
            Some(p) => seq![(sq_of_index(n - 1), p)],
            None => Seq::empty(),
        })
    }
}

/// How many of the first `n` cells hold a piece of the given team.
pub open spec fn count_team_upto(v: Seq<Option<Piece>>, team: Team, n: int) -> nat
    decreases n,
{
    if n <= 0 {
        0
    } else {
        count_team_upto(v, team, n - 1) + (if cell_is_team(v[n - 1], team) {
            1nat
        } else {
            0nat
        })
    }
}

/// How many pieces of a team stand on the board.
pub open spec fn count_team(v: Seq<Option<Piece>>, team: Team) -> nat {
    count_team_upto(v, team, v.len() as int)
}

/// How many of the first `n` cells hold any piece.
pub open spec fn count_all_upto(v: Seq<Option<Piece>>, n: int) -> nat
    decreases n,
{
    if n <= 0 {
        0
    } else {
        count_all_upto(v, n - 1) + (if v[n - 1] is Some {
            1nat
        } else {
            0nat
        })
    }
}

/// How many pieces stand on the board in all.
pub open spec fn count_all(v: Seq<Option<Piece>>) -> nat {
    count_all_upto(v, v.len() as int)
}

/// Whether a piece of this team is promoted on reaching this square: the
/// far rank is `y == 0` for Light and `y == SIZE - 1` for Dark.
pub open spec fn promotes(team: Team, to: Square) -> bool {
    (team is Light && to.y == 0) || (team is Dark && to.y == SIZE - 1)
}

/// The board after a move is applied: the piece leaves `from`; behind a
/// jump the midpoint square is emptied; a Man that reaches its far rank
/// becomes a King; the moved piece lands on `to`.
pub open spec fn spec_apply_move(v: Seq<Option<Piece>>, m: Move) -> Seq<Option<Piece>>
    recommends
        board_wf(v),
        piece_at(v, m.from) is Some,
        sq_in_bounds(m.to),
{
    let p = piece_at(v, m.from).unwrap();
    let v1 = v.update(sq_index(m.from), None);
    let v2 = if spec_is_jump(m) {
        v1.update(sq_index(jump_mid(m.from, m.to)), None)
    } else {
        v1
    };
    let q = if promotes(p.team, m.to) {
        Piece { team: p.team, piece_type: PieceType::King }
    } else {
        p
    };
    v2.update(sq_index(m.to), Some(q))
}

/// One where a cell holds a piece, zero where it is empty.
pub open spec fn cell_count(c: Option<Piece>) -> int {
    if c is Some {
        1
    } else {
        0
    }
}

proof fn lemma_count_all_upto_update(v: Seq<Option<Piece>>, k: int, c: Option<Piece>, n: int)
    requires
        0 <= k < v.len(),
        n <= v.len(),
    ensures
        count_all_upto(v.update(k, c), n) == if k < n {
            count_all_upto(v, n) - cell_count(v[k]) + cell_count(c)
        } else {
            count_all_upto(v, n) as int
        },
    decreases n,
{
    if n > 0 {
        lemma_count_all_upto_update(v, k, c, n - 1);
    }
}

/// A jump captures exactly one piece: applying a legal jump reduces the
/// total piece count on the board by exactly one.
pub proof fn lemma_jump_reduces_count(v: Seq<Option<Piece>>, m: Move)
    requires
        board_wf(v),
        spec_can_jump(v, m.from, m.to),
    ensures
        board_wf(spec_apply_move(v, m)),
        count_all(spec_apply_move(v, m)) == count_all(v) - 1,
{
    let mid = jump_mid(m.from, m.to);
    let fi = sq_index(m.from);
    let mi = sq_index(mid);
    let ti = sq_index(m.to);
    assert(sq_in_bounds(m.from));
    assert(sq_in_bounds(mid));
    assert(fi != mi && fi != ti && mi != ti);
    let v1 = v.update(fi, None);
    let v2 = v1.update(mi, None);
    lemma_count_all_upto_update(v, fi, None, 64);
    lemma_count_all_upto_update(v1, mi, None, 64);
    let p = piece_at(v, m.from).unwrap();
    let q = if promotes(p.team, m.to) {
        Piece { team: p.team, piece_type: PieceType::King }
    } else {
        p
    };
    lemma_count_all_upto_update(v2, ti, Some(q), 64);
}

/// A move changes the moved piece's rank only through the promotion rule: it
/// keeps its team; a Man becomes a King exactly on reaching the far rank, in
/// the same application; a King stays a King and is never demoted.
pub proof fn lemma_move_rank_change(v: Seq<Option<Piece>>, m: Move)
    requires
        board_wf(v),
        piece_at(v, m.from) is Some,
        sq_in_bounds(m.to),
    ensures
        ({
            let p = piece_at(v, m.from).unwrap();
            let after = spec_apply_move(v, m);
            &&& piece_at(after, m.to) is Some
            &&& piece_at(after, m.to).unwrap().team == p.team
            &&& piece_at(after, m.to).unwrap().piece_type == (if p.piece_type is King || promotes(
                p.team,
                m.to,
            ) {
                PieceType::King
            } else {
                PieceType::Man
            })
        }),
{
}

/// A jump is never legal over an empty midpoint square or over a piece of
/// the jumper's own team, nor onto an occupied landing square, whatever the
/// direction and distance.
pub proof fn lemma_can_jump_needs_enemy_midpoint(v: Seq<Option<Piece>>, a: Square, b: Square)
    requires
        board_wf(v),
    ensures
        piece_at(v, jump_mid(a, b)) is None ==> !spec_can_jump(v, a, b),
        (piece_at(v, a) is Some && piece_at(v, jump_mid(a, b)) is Some && piece_at(
            v,
            jump_mid(a, b),
        ).unwrap().team == piece_at(v, a).unwrap().team) ==> !spec_can_jump(v, a, b),
        piece_at(v, b) is Some ==> !spec_can_jump(v, a, b),
{
}

} // verus!
