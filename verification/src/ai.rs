//! The computer player: full-turn enumeration with jump chains, a material
//! evaluator, and a depth-limited minimax search with alpha-beta style
//! cutoffs.
//!
//! A `Decision` is one candidate turn together with the board it produces
//! and a memoized score. The search enumerates decisions, scores each by
//! recursive lookahead, and picks the best-scoring turn.

use vstd::prelude::*;

use crate::board::{
    all_moves, board_wf, count_all, count_team, lemma_jump_reduces_count, piece_at,
    spec_apply_move, spec_can_jump, spec_can_move, spec_is_jump, spec_other, sq_in_bounds,
    sq_of_index, valid_jumps_at, valid_moves_at, Board, Move, Piece, PieceType, Square, Team,
};

verus! {

/// Score of a lost position: the evaluating team has no pieces left.
pub const GAME_LOSS: i32 = i32::MIN;

/// Score of a won position: the opposing team has no pieces left.
pub const GAME_WIN: i32 = i32::MAX;

/// Material worth of a Man.
pub const VALUE_MAN: i32 = 10;

/// Material worth of a King.
pub const VALUE_KING: i32 = 20;

/// The material contribution of one cell from a team's point of view.
pub open spec fn cell_value(c: Option<Piece>, team: Team) -> int {
    match c {
        Some(p) => {
            let worth: int = if p.piece_type is Man {
                VALUE_MAN as int
            } else {
                VALUE_KING as int
            };
            if p.team == team {
                worth
            } else {
                -worth
            }
        },
        None => 0,
    }
}

/// The signed material sum over the first `n` cells.
pub open spec fn material_upto(v: Seq<Option<Piece>>, team: Team, n: int) -> int
    decreases n,
{
    if n <= 0 {
        0
    } else {
        material_upto(v, team, n - 1) + cell_value(v[n - 1], team)
    }
}

/// The evaluator: the loss sentinel when the team has no pieces, the win
/// sentinel when the opponent has none (loss takes priority), and otherwise
/// the signed material sum.
pub open spec fn spec_score(v: Seq<Option<Piece>>, team: Team) -> int {
    if count_team(v, team) == 0 {
        GAME_LOSS as int
    } else if count_team(v, spec_other(team)) == 0 {
        GAME_WIN as int
    } else {
        material_upto(v, team, 64)
    }
}

proof fn lemma_material_bounds(v: Seq<Option<Piece>>, team: Team, n: int)
    requires
        0 <= n,
    ensures
        -20 * n <= material_upto(v, team, n) <= 20 * n,
    decreases n,
{
    if n > 0 {
        lemma_material_bounds(v, team, n - 1);
    }
}

/// The evaluator returns the loss sentinel exactly when the team has no
/// pieces left, and the win sentinel exactly when it has pieces and the
/// opponent has none: the sentinels take priority over material scoring and
/// no material sum can reach either one.
pub proof fn lemma_score_sentinels(v: Seq<Option<Piece>>, team: Team)
    requires
        board_wf(v),
    ensures
        (spec_score(v, team) == GAME_LOSS as int) <==> (count_team(v, team) == 0),
        (spec_score(v, team) == GAME_WIN as int) <==> (count_team(v, team) != 0 && count_team(
            v,
            spec_other(team),
        ) == 0),
{
    lemma_material_bounds(v, team, 64);
}

/// One candidate turn for a team: the moves of the turn, the board it
/// produces, and a memoized score.
pub struct Decision {
    pub team: Team,
    pub moves: Vec<Move>,
    pub board_state: Board,
    pub score: Option<i32>,
}

impl Decision {
    /// A decision is well-formed when its board is.
    pub open spec fn wf(&self) -> bool {
        self.board_state.wf()
    }

    /// The evaluator's score for this decision's board, from this
    /// decision's own team's perspective.
    pub fn score_board_state(&self) -> (r: i32)
        requires
            self.wf(),
        ensures
            r as int == spec_score(self.board_state@, self.team),
    {
        if self.board_state.pieces_alive(self.team) == 0 {
            return GAME_LOSS;
        }
        if self.board_state.pieces_alive(self.team.other()) == 0 {
            return GAME_WIN;
        }
        let mut score: i32 = 0;
        let mut idx: usize = 0;
        while idx < 64
            invariant
                self.wf(),
                idx <= 64,
                -20 * idx <= score as int <= 20 * idx,
                score as int == material_upto(self.board_state@, self.team, idx as int),
            decreases 64 - idx,
        {
            let sq = Square { x: (idx % 8) as i8, y: (idx / 8) as i8 };
            proof {
                assert(sq == sq_of_index(idx as int));
                assert(crate::board::sq_index(sq) == idx as int);
            }
            match self.board_state.get_piece_at(&sq) {
                Some(p) => {
                    let worth: i32 = if p.piece_type == PieceType::Man {
                        VALUE_MAN
                    } else {
                        VALUE_KING
                    };
                    if p.team == self.team {
                        score = score + worth;
                    } else {
                        score = score - worth;
                    }
                },
                None => {},
            }
            idx = idx + 1;
        }
        score
    }

    /// The memoized score: computes and caches the evaluator's score on the
    /// first call, and afterwards returns whatever score is cached.
    pub fn cached_score_board_state(&mut self) -> (r: i32)
        requires
            old(self).wf(),
        ensures
            final(self).wf(),
            final(self).team == old(self).team,
            final(self).moves == old(self).moves,
            final(self).board_state == old(self).board_state,
            final(self).score == Some(r),
            old(self).score matches Some(s) ==> r == s,
            old(self).score is None ==> r as int == spec_score(
                old(self).board_state@,
                old(self).team,
            ),
    {
        match self.score {
            Some(score) => score,
            None => {
                let s = self.score_board_state();
                self.score = Some(s);
                s
            },
        }
    }

    /// Scores this decision by lookahead: at depth zero, or when the
    /// opponent has no legal turn, the evaluator's score; otherwise the
    /// cutoff fold over the opponent's decisions scored one ply deeper. The
    /// result is memoized; a decision that already carries a score returns
    /// it unchanged.
    pub fn score_recursive(&mut self, depth: usize, is_max_player: bool, alpha: i32, beta: i32) -> (r:
        i32)
        requires
            old(self).wf(),
        ensures
            final(self).wf(),
            final(self).team == old(self).team,
            final(self).moves == old(self).moves,
            final(self).board_state == old(self).board_state,
            final(self).score == Some(r),
            old(self).score matches Some(s) ==> r == s,
            old(self).score is None ==> r as int == ab_value(
                old(self).board_state@,
                old(self).team,
                depth as nat,
                is_max_player,
                alpha as int,
                beta as int,
            ),
        decreases depth,
    {
        match self.score {
            Some(s) => {
                return s;
            },
            None => {},
        }
        if depth == 0 {
            return self.cached_score_board_state();
        }
        let ghost bv = self.board_state@;
        let ghost t = self.team;
        let ghost dep = depth as nat;
        let enemy = self.team.other();
        let mut enemy_decisions = Ai::_get_possible_decisions(enemy, self.board_state.clone());
        let ghost kids = spec_decisions(bv, spec_other(t));
        if enemy_decisions.is_empty() {
            return self.cached_score_board_state();
        }
        let ghost vals = ab_values(
            kids,
            spec_other(t),
            (dep - 1) as nat,
            !is_max_player,
            alpha as int,
            beta as int,
            0,
        );
        proof {
            lemma_ab_values_props(
                kids,
                spec_other(t),
                (dep - 1) as nat,
                !is_max_player,
                alpha as int,
                beta as int,
            );
        }
        let ghost total = enemy_decisions@.len();
        let mut scores: Vec<i32> = Vec::new();
        while enemy_decisions.len() > 0
            invariant
                scores@.len() + enemy_decisions@.len() == total,
                total == kids.len(),
                vals == ab_values(
                    kids,
                    spec_other(t),
                    (dep - 1) as nat,
                    !is_max_player,
                    alpha as int,
                    beta as int,
                    0,
                ),
                vals.len() == kids.len(),
                forall|k: int|
                    0 <= k < kids.len() ==> vals[k] == ab_value(
                        (#[trigger] kids[k]).board,
                        spec_other(t),
                        (dep - 1) as nat,
                        !is_max_player,
                        alpha as int,
                        beta as int,
                    ),
                depth >= 1,
                dep == depth as nat,
                forall|k: int|
                    0 <= k < enemy_decisions@.len() ==> {
                        &&& (#[trigger] enemy_decisions@[k]).score is None
                        &&& enemy_decisions@[k].team == spec_other(t)
                        &&& enemy_decisions@[k].board_state@ == kids[scores@.len() + k].board
                        &&& enemy_decisions@[k].board_state.wf()
                    },
                forall|k: int| 0 <= k < scores@.len() ==> (#[trigger] scores@[k]) as int == vals[k],
            decreases enemy_decisions@.len(),
        {
            let mut d = enemy_decisions.remove(0);
            let s = d.score_recursive(depth - 1, !is_max_player, alpha, beta);
            scores.push(s);
        }
        let result: i32;
        if is_max_player {
            let mut score: i32 = GAME_LOSS;
            let mut a: i32 = alpha;
            let mut k: usize = 0;
            while k < scores.len()
                invariant_except_break
                    k <= scores@.len(),
                    scores@.len() == vals.len(),
                    forall|j: int|
                        0 <= j < scores@.len() ==> (#[trigger] scores@[j]) as int == vals[j],
                    combine_max(vals, 0, GAME_LOSS as int, alpha as int, beta as int)
                        == combine_max(vals, k as int, score as int, a as int, beta as int),
                ensures
                    score as int == combine_max(
                        vals,
                        0,
                        GAME_LOSS as int,
                        alpha as int,
                        beta as int,
                    ),
                decreases scores@.len() - k,
            {
                let sk = scores[k];
                if sk > score {
                    score = sk;
                }
                if score > a {
                    a = score;
                }
                if a >= beta {
                    break ;
                }
                k = k + 1;
            }
            self.score = Some(score);
            result = score;
        } else {
            let mut score: i32 = GAME_WIN;
            let mut b: i32 = beta;
            let mut k: usize = 0;
            while k < scores.len()
                invariant_except_break
                    k <= scores@.len(),
                    scores@.len() == vals.len(),
                    forall|j: int|
                        0 <= j < scores@.len() ==> (#[trigger] scores@[j]) as int == vals[j],
                    combine_min(vals, 0, GAME_WIN as int, alpha as int, beta as int) == combine_min(
                        vals,
                        k as int,
                        score as int,
                        alpha as int,
                        b as int,
                    ),
                ensures
                    score as int == combine_min(
                        vals,
                        0,
                        GAME_WIN as int,
                        alpha as int,
                        beta as int,
                    ),
                decreases scores@.len() - k,
            {
                let sk = scores[k];
                if sk < score {
                    score = sk;
                }
                if score < b {
                    b = score;
                }
                if alpha >= b {
                    break ;
                }
                k = k + 1;
            }
            self.score = Some(score);
            result = score;
        }
        result
    }
}

/// The specification-level image of a `Decision`: one candidate turn and
/// the board it produces.
pub struct SpecDecision {
    pub moves: Seq<Move>,
    pub board: Seq<Option<Piece>>,
}

/// Every legal move listed by `valid_moves_at` passes the movement
/// predicate.
pub proof fn lemma_valid_moves_at_valid(v: Seq<Option<Piece>>, s: Square)
    ensures
        forall|k: int|
            0 <= k < valid_moves_at(v, s).len() ==> spec_can_move(
                v,
                (#[trigger] valid_moves_at(v, s)[k]).from,
                valid_moves_at(v, s)[k].to,
            ),
{
}

/// Every jump listed by `valid_jumps_at` starts on the queried square and
/// passes the jump predicate.
pub proof fn lemma_jumps_at_are_jumps(v: Seq<Option<Piece>>, s: Square)
    ensures
        forall|k: int|
            0 <= k < valid_jumps_at(v, s).len() ==> (#[trigger] valid_jumps_at(v, s)[k]).from == s
                && spec_can_jump(v, valid_jumps_at(v, s)[k].from, valid_jumps_at(v, s)[k].to),
{
}

/// Every move listed by `all_moves_upto` passes the movement predicate.
proof fn lemma_all_moves_upto_valid(v: Seq<Option<Piece>>, team: Team, n: int)
    ensures
        forall|k: int|
            0 <= k < crate::board::all_moves_upto(v, team, n).len() ==> spec_can_move(
                v,
                (#[trigger] crate::board::all_moves_upto(v, team, n)[k]).from,
                crate::board::all_moves_upto(v, team, n)[k].to,
            ),
    decreases n,
{
    if n > 0 {
        lemma_all_moves_upto_valid(v, team, n - 1);
        lemma_valid_moves_at_valid(v, sq_of_index(n - 1));
        let whole = crate::board::all_moves_upto(v, team, n);
        let prefix = crate::board::all_moves_upto(v, team, n - 1);
        let tail = crate::board::team_moves_at_index(v, team, n - 1);
        assert forall|k: int| 0 <= k < whole.len() implies spec_can_move(
            v,
            (#[trigger] whole[k]).from,
            whole[k].to,
        ) by {
            if k < prefix.len() {
                assert(whole[k] == prefix[k]);
            } else {
                assert(whole[k] == tail[k - prefix.len()]);
                assert(tail.len() > 0 ==> tail == valid_moves_at(v, sq_of_index(n - 1)));
            }
        }
    }
}

/// Every move listed by `get_all_valid_moves` passes the movement
/// predicate.
pub proof fn lemma_all_moves_valid(v: Seq<Option<Piece>>, team: Team)
    ensures
        forall|k: int|
            0 <= k < all_moves(v, team).len() ==> spec_can_move(
                v,
                (#[trigger] all_moves(v, team)[k]).from,
                all_moves(v, team)[k].to,
            ),
{
    lemma_all_moves_upto_valid(v, team, 64);
}

/// The decisions reachable by optionally extending a jump chain: the chain
/// as it stands, followed by every continuation of it by one more jump of
/// the same piece, recursively. Every prefix of a chain is its own turn.
pub open spec fn spec_chain(v: Seq<Option<Piece>>, path: Seq<Move>, sq: Square) -> Seq<
    SpecDecision,
>
    decreases count_all(v), 1int, 0int,
    when board_wf(v)
{
    seq![SpecDecision { moves: path, board: v }] + spec_chain_list(v, path, sq, 0)
}

/// The continuations of a jump chain, taking the listed jumps from index
/// `i` on.
pub open spec fn spec_chain_list(
    v: Seq<Option<Piece>>,
    path: Seq<Move>,
    sq: Square,
    i: int,
) -> Seq<SpecDecision>
    decreases count_all(v), 0int, valid_jumps_at(v, sq).len() - i,
    when board_wf(v)
{
    let jumps = valid_jumps_at(v, sq);
    if i < 0 || i >= jumps.len() {
        Seq::empty()
    } else {
        let j = jumps[i];
        let nb = spec_apply_move(v, j);
        {
            proof {
                lemma_jumps_at_are_jumps(v, sq);
                lemma_jump_reduces_count(v, j);
            }
            spec_chain(nb, path.push(j), j.to) + spec_chain_list(v, path, sq, i + 1)
        }
    }
}

/// The decisions seeded by the given moves from index `i` on: a step
/// becomes a single one-move decision, a jump seeds a chain expansion.
pub open spec fn spec_decisions_list(v: Seq<Option<Piece>>, moves: Seq<Move>, i: int) -> Seq<
    SpecDecision,
>
    decreases moves.len() - i,
{
    if i < 0 || i >= moves.len() {
        Seq::empty()
    } else {
        let m = moves[i];
        let nb = spec_apply_move(v, m);
        (if spec_is_jump(m) {
            spec_chain(nb, seq![m], m.to)
        } else {
            seq![SpecDecision { moves: seq![m], board: nb }]
        }) + spec_decisions_list(v, moves, i + 1)
    }
}

/// Every legal turn of a team: each legal move seeds one decision, and each
/// jump additionally seeds every extension of its chain.
pub open spec fn spec_decisions(v: Seq<Option<Piece>>, team: Team) -> Seq<SpecDecision> {
    spec_decisions_list(v, all_moves(v, team), 0)
}

/// The executable decision list mirrors the specification-level one: same
/// length, and entry by entry the same team, turn, board, and a clear score
/// cache.
pub open spec fn decisions_match(ds: Seq<Decision>, ss: Seq<SpecDecision>, team: Team) -> bool {
    &&& ds.len() == ss.len()
    &&& forall|k: int|
        0 <= k < ds.len() ==> {
            &&& (#[trigger] ds[k]).team == team
            &&& ds[k].score is None
            &&& ds[k].moves@ == ss[k].moves
            &&& ds[k].board_state@ == ss[k].board
            &&& ds[k].board_state.wf()
        }
}

proof fn lemma_decisions_match_concat(
    a: Seq<Decision>,
    x: Seq<SpecDecision>,
    b: Seq<Decision>,
    y: Seq<SpecDecision>,
    team: Team,
)
    requires
        decisions_match(a, x, team),
        decisions_match(b, y, team),
    ensures
        decisions_match(a + b, x + y, team),
{
    assert forall|k: int| 0 <= k < (a + b).len() implies {
        &&& ((a + b)[k]).team == team
        &&& (a + b)[k].score is None
        &&& (a + b)[k].moves@ == (x + y)[k].moves
        &&& (a + b)[k].board_state@ == (x + y)[k].board
        &&& (a + b)[k].board_state.wf()
    } by {
        if k < a.len() {
            assert(a[k].team == team);
        } else {
            assert(b[k - a.len()].team == team);
        }
    }
}

fn clone_moves(v: &Vec<Move>) -> (r: Vec<Move>)
    ensures
        r@ == v@,
{
    let mut r: Vec<Move> = Vec::new();
    let mut i: usize = 0;
    while i < v.len()
        invariant
            i <= v@.len(),
            r@.len() == i,
            forall|j: int| 0 <= j < i ==> r@[j] == v@[j],
        decreases v@.len() - i,
    {
        r.push(v[i]);
        i = i + 1;
    }
    proof {
        assert(r@ =~= v@);
    }
    r
}

/// A turn is continuous: each move starts on the square where the previous
/// one ended.
pub open spec fn turn_continuous(ms: Seq<Move>) -> bool {
    forall|k: int| 0 <= k < ms.len() - 1 ==> (#[trigger] ms[k]).to == ms[k + 1].from
}

/// The moves of a turn from index `i` on can be replayed in order: each
/// finds a piece on its starting square and lands on the board.
pub open spec fn turn_applies(v: Seq<Option<Piece>>, ms: Seq<Move>, i: int) -> bool
    decreases ms.len() - i,
{
    if i < 0 || i >= ms.len() {
        true
    } else {
        &&& piece_at(v, ms[i].from) is Some
        &&& sq_in_bounds(ms[i].to)
        &&& turn_applies(spec_apply_move(v, ms[i]), ms, i + 1)
    }
}

/// The board after the moves of a turn from index `i` on are applied in
/// order.
pub open spec fn apply_turn(v: Seq<Option<Piece>>, ms: Seq<Move>, i: int) -> Seq<Option<Piece>>
    decreases ms.len() - i,
{
    if i < 0 || i >= ms.len() {
        v
    } else {
        apply_turn(spec_apply_move(v, ms[i]), ms, i + 1)
    }
}

proof fn lemma_turn_push(v: Seq<Option<Piece>>, ms: Seq<Move>, j: Move, i: int)
    requires
        0 <= i <= ms.len(),
        turn_applies(v, ms, i),
        piece_at(apply_turn(v, ms, i), j.from) is Some,
        sq_in_bounds(j.to),
    ensures
        turn_applies(v, ms.push(j), i),
        apply_turn(v, ms.push(j), i) == spec_apply_move(apply_turn(v, ms, i), j),
    decreases ms.len() - i,
{
    if i < ms.len() {
        assert(ms.push(j)[i] == ms[i]);
        lemma_turn_push(spec_apply_move(v, ms[i]), ms, j, i + 1);
    } else {
        assert(ms.push(j)[i] == j);
        assert(apply_turn(v, ms, i) == v);
        assert(apply_turn(spec_apply_move(v, j), ms.push(j), i + 1) == spec_apply_move(v, j));
        assert(turn_applies(spec_apply_move(v, j), ms.push(j), i + 1));
    }
}

proof fn lemma_chain_playable(
    v0: Seq<Option<Piece>>,
    v: Seq<Option<Piece>>,
    path: Seq<Move>,
    sq: Square,
)
    requires
        board_wf(v),
        path.len() > 0,
        path.last().to == sq,
        turn_continuous(path),
        turn_applies(v0, path, 0),
        apply_turn(v0, path, 0) == v,
    ensures
        forall|k: int|
            0 <= k < spec_chain(v, path, sq).len() ==> {
                let d = #[trigger] spec_chain(v, path, sq)[k];
                &&& turn_continuous(d.moves)
                &&& turn_applies(v0, d.moves, 0)
                &&& apply_turn(v0, d.moves, 0) == d.board
            },
    decreases count_all(v), 1int, 0int,
{
    lemma_chain_list_playable(v0, v, path, sq, 0);
    let whole = spec_chain(v, path, sq);
    let rest = spec_chain_list(v, path, sq, 0);
    assert forall|k: int| 0 <= k < whole.len() implies {
        let d = #[trigger] whole[k];
        &&& turn_continuous(d.moves)
        &&& turn_applies(v0, d.moves, 0)
        &&& apply_turn(v0, d.moves, 0) == d.board
    } by {
        if k > 0 {
            assert(whole[k] == rest[k - 1]);
        }
    }
}

proof fn lemma_chain_list_playable(
    v0: Seq<Option<Piece>>,
    v: Seq<Option<Piece>>,
    path: Seq<Move>,
    sq: Square,
    i: int,
)
    requires
        board_wf(v),
        path.len() > 0,
        path.last().to == sq,
        turn_continuous(path),
        turn_applies(v0, path, 0),
        apply_turn(v0, path, 0) == v,
    ensures
        forall|k: int|
            0 <= k < spec_chain_list(v, path, sq, i).len() ==> {
                let d = #[trigger] spec_chain_list(v, path, sq, i)[k];
                &&& turn_continuous(d.moves)
                &&& turn_applies(v0, d.moves, 0)
                &&& apply_turn(v0, d.moves, 0) == d.board
            },
    decreases count_all(v), 0int, valid_jumps_at(v, sq).len() - i,
{
    let jumps = valid_jumps_at(v, sq);
    if 0 <= i < jumps.len() {
        let j = jumps[i];
        lemma_jumps_at_are_jumps(v, sq);
        lemma_jump_reduces_count(v, j);
        lemma_turn_push(v0, path, j, 0);
        assert(turn_continuous(path.push(j))) by {
            let ext = path.push(j);
            assert forall|k: int| 0 <= k < ext.len() - 1 implies (#[trigger] ext[k]).to == ext[k
                + 1].from by {
                if k < path.len() - 1 {
                    assert(ext[k] == path[k] && ext[k + 1] == path[k + 1]);
                } else {
                    assert(ext[k] == path.last() && ext[k + 1] == j);
                }
            }
        }
        lemma_chain_playable(v0, spec_apply_move(v, j), path.push(j), j.to);
        lemma_chain_list_playable(v0, v, path, sq, i + 1);
        let whole = spec_chain_list(v, path, sq, i);
        let seg = spec_chain(spec_apply_move(v, j), path.push(j), j.to);
        let rest = spec_chain_list(v, path, sq, i + 1);
        assert forall|k: int| 0 <= k < whole.len() implies {
            let d = #[trigger] whole[k];
            &&& turn_continuous(d.moves)
            &&& turn_applies(v0, d.moves, 0)
            &&& apply_turn(v0, d.moves, 0) == d.board
        } by {
            if k < seg.len() {
                assert(whole[k] == seg[k]);
            } else {
                assert(whole[k] == rest[k - seg.len()]);
            }
        }
    }
}

/// Every decision the enumerator produces is playable: its turn is
/// non-empty and continuous, each of its moves in order finds a piece on
/// its starting square and lands on the board, and replaying the whole turn
/// with `apply_move` yields exactly the decision's board.
pub proof fn lemma_decisions_playable(v: Seq<Option<Piece>>, team: Team)
    requires
        board_wf(v),
    ensures
        forall|k: int|
            0 <= k < spec_decisions(v, team).len() ==> {
                let d = #[trigger] spec_decisions(v, team)[k];
                &&& d.moves.len() > 0
                &&& turn_continuous(d.moves)
                &&& turn_applies(v, d.moves, 0)
                &&& apply_turn(v, d.moves, 0) == d.board
            },
{
    lemma_all_moves_valid(v, team);
    lemma_decisions_list_first_move(v, all_moves(v, team), 0);
    lemma_decisions_list_playable(v, all_moves(v, team), 0);
}

proof fn lemma_decisions_list_playable(v: Seq<Option<Piece>>, moves: Seq<Move>, i: int)
    requires
        board_wf(v),
        0 <= i <= moves.len(),
        forall|k: int|
            0 <= k < moves.len() ==> spec_can_move(v, (#[trigger] moves[k]).from, moves[k].to),
    ensures
        forall|k: int|
            0 <= k < spec_decisions_list(v, moves, i).len() ==> {
                let d = #[trigger] spec_decisions_list(v, moves, i)[k];
                &&& turn_continuous(d.moves)
                &&& turn_applies(v, d.moves, 0)
                &&& apply_turn(v, d.moves, 0) == d.board
            },
    decreases moves.len() - i,
{
    if i < moves.len() {
        let m = moves[i];
        let nb = spec_apply_move(v, m);
        lemma_decisions_list_playable(v, moves, i + 1);
        let seg: Seq<SpecDecision> = if spec_is_jump(m) {
            spec_chain(nb, seq![m], m.to)
        } else {
            seq![SpecDecision { moves: seq![m], board: nb }]
        };
        assert(spec_can_move(v, m.from, m.to));
        assert(turn_applies(nb, seq![m], 1));
        assert(apply_turn(nb, seq![m], 1) == nb);
        assert(turn_applies(v, seq![m], 0));
        assert(apply_turn(v, seq![m], 0) == nb);
        if spec_is_jump(m) {
            lemma_chain_playable(v, nb, seq![m], m.to);
        }
        let whole = spec_decisions_list(v, moves, i);
        let rest = spec_decisions_list(v, moves, i + 1);
        assert forall|k: int| 0 <= k < whole.len() implies {
            let d = #[trigger] whole[k];
            &&& turn_continuous(d.moves)
            &&& turn_applies(v, d.moves, 0)
            &&& apply_turn(v, d.moves, 0) == d.board
        } by {
            if k < seg.len() {
                assert(whole[k] == seg[k]);
            } else {
                assert(whole[k] == rest[k - seg.len()]);
            }
        }
    }
}

/// The turn the search returns can be replayed as it stands against the
/// board it was computed from: it is continuous, and each move in order
/// meets `apply_move`'s precondition.
pub proof fn lemma_chosen_turn_playable(v: Seq<Option<Piece>>, team: Team, depth: nat)
    requires
        board_wf(v),
    ensures
        turn_continuous(spec_chosen_turn(v, team, depth)),
        turn_applies(v, spec_chosen_turn(v, team, depth), 0),
{
    let kids = spec_decisions(v, team);
    if kids.len() > 0 {
        lemma_decisions_playable(v, team);
        let vals = ab_values(kids, team, depth, true, GAME_LOSS as int, GAME_WIN as int, 0);
        lemma_ab_values_props(kids, team, depth, true, GAME_LOSS as int, GAME_WIN as int);
        lemma_last_argmax_in_range(vals);
    }
}

/// The largest value in a non-empty sequence.
pub open spec fn seq_max(s: Seq<int>) -> int
    decreases s.len(),
    when s.len() > 0
{
    if s.len() == 1 {
        s[0]
    } else {
        let rest = seq_max(s.drop_last());
        if s.last() > rest {
            s.last()
        } else {
            rest
        }
    }
}

/// The smallest value in a non-empty sequence.
pub open spec fn seq_min(s: Seq<int>) -> int
    decreases s.len(),
    when s.len() > 0
{
    if s.len() == 1 {
        s[0]
    } else {
        let rest = seq_min(s.drop_last());
        if s.last() < rest {
            s.last()
        } else {
            rest
        }
    }
}

/// The plain minimax value of a decision node: the team's own evaluator
/// score at depth zero or when the opponent has no legal turn, and
/// otherwise the maximum (or minimum) of the opponent's decision values one
/// ply deeper. Child scores are taken from the child's own team perspective
/// and combined directly, as the search does.
pub open spec fn node_value(v: Seq<Option<Piece>>, t: Team, depth: nat, is_max: bool) -> int
    decreases depth, 0int, 0int,
{
    if depth == 0 {
        spec_score(v, t)
    } else {
        let kids = spec_decisions(v, spec_other(t));
        if kids.len() == 0 {
            spec_score(v, t)
        } else {
            let vals = node_values(kids, spec_other(t), (depth - 1) as nat, !is_max, 0);
            if is_max {
                seq_max(vals)
            } else {
                seq_min(vals)
            }
        }
    }
}

/// The minimax values of the decisions from index `i` on.
pub open spec fn node_values(
    kids: Seq<SpecDecision>,
    t: Team,
    depth: nat,
    is_max: bool,
    i: int,
) -> Seq<int>
    decreases depth, 1int, kids.len() - i,
{
    if i < 0 || i >= kids.len() {
        Seq::empty()
    } else {
        seq![node_value(kids[i].board, t, depth, is_max)] + node_values(
            kids,
            t,
            depth,
            is_max,
            i + 1,
        )
    }
}

/// The maximizing player's fold over child values from index `i` on: the
/// running maximum raises `alpha`, and the fold stops early once `alpha`
/// reaches `beta`.
pub open spec fn combine_max(vals: Seq<int>, i: int, score: int, alpha: int, beta: int) -> int
    decreases vals.len() - i,
{
    if i < 0 || i >= vals.len() {
        score
    } else {
        let s2 = if vals[i] > score {
            vals[i]
        } else {
            score
        };
        let a2 = if s2 > alpha {
            s2
        } else {
            alpha
        };
        if a2 >= beta {
            s2
        } else {
            combine_max(vals, i + 1, s2, a2, beta)
        }
    }
}

/// The minimizing player's fold over child values from index `i` on: the
/// running minimum lowers `beta`, and the fold stops early once `beta`
/// falls to `alpha`.
pub open spec fn combine_min(vals: Seq<int>, i: int, score: int, alpha: int, beta: int) -> int
    decreases vals.len() - i,
{
    if i < 0 || i >= vals.len() {
        score
    } else {
        let s2 = if vals[i] < score {
            vals[i]
        } else {
            score
        };
        let b2 = if s2 < beta {
            s2
        } else {
            beta
        };
        if alpha >= b2 {
            s2
        } else {
            combine_min(vals, i + 1, s2, alpha, b2)
        }
    }
}

/// The value computed by the search with cutoffs: as `node_value`, but the
/// children's values are folded with the running cutoff rule, every child
/// being explored with the same window the node itself was given.
pub open spec fn ab_value(
    v: Seq<Option<Piece>>,
    t: Team,
    depth: nat,
    is_max: bool,
    alpha: int,
    beta: int,
) -> int
    decreases depth, 0int, 0int,
{
    if depth == 0 {
        spec_score(v, t)
    } else {
        let kids = spec_decisions(v, spec_other(t));
        if kids.len() == 0 {
            spec_score(v, t)
        } else {
            let vals = ab_values(kids, spec_other(t), (depth - 1) as nat, !is_max, alpha, beta, 0);
            if is_max {
                combine_max(vals, 0, GAME_LOSS as int, alpha, beta)
            } else {
                combine_min(vals, 0, GAME_WIN as int, alpha, beta)
            }
        }
    }
}

/// The search values of the decisions from index `i` on.
pub open spec fn ab_values(
    kids: Seq<SpecDecision>,
    t: Team,
    depth: nat,
    is_max: bool,
    alpha: int,
    beta: int,
    i: int,
) -> Seq<int>
    decreases depth, 1int, kids.len() - i,
{
    if i < 0 || i >= kids.len() {
        Seq::empty()
    } else {
        seq![ab_value(kids[i].board, t, depth, is_max, alpha, beta)] + ab_values(
            kids,
            t,
            depth,
            is_max,
            alpha,
            beta,
            i + 1,
        )
    }
}

proof fn lemma_ab_values_suffix(
    kids: Seq<SpecDecision>,
    t: Team,
    depth: nat,
    is_max: bool,
    alpha: int,
    beta: int,
    i: int,
)
    requires
        0 <= i <= kids.len(),
    ensures
        ab_values(kids, t, depth, is_max, alpha, beta, i).len() == kids.len() - i,
        forall|k: int|
            i <= k < kids.len() ==> ab_values(kids, t, depth, is_max, alpha, beta, i)[k - i]
                == ab_value((#[trigger] kids[k]).board, t, depth, is_max, alpha, beta),
    decreases kids.len() - i,
{
    if i < kids.len() {
        lemma_ab_values_suffix(kids, t, depth, is_max, alpha, beta, i + 1);
    }
}

/// The value list of a node's children, entry by entry.
proof fn lemma_ab_values_props(
    kids: Seq<SpecDecision>,
    t: Team,
    depth: nat,
    is_max: bool,
    alpha: int,
    beta: int,
)
    ensures
        ab_values(kids, t, depth, is_max, alpha, beta, 0).len() == kids.len(),
        forall|k: int|
            0 <= k < kids.len() ==> ab_values(kids, t, depth, is_max, alpha, beta, 0)[k]
                == ab_value((#[trigger] kids[k]).board, t, depth, is_max, alpha, beta),
{
    lemma_ab_values_suffix(kids, t, depth, is_max, alpha, beta, 0);
}

/// The index of the last occurrence of the maximum value in a non-empty
/// sequence: ties between equal scores fall to the later entry, as a stable
/// sort by score followed by taking the last element would break them.
pub open spec fn last_argmax(vals: Seq<int>) -> int
    decreases vals.len(),
    when vals.len() > 0
{
    if vals.len() == 1 {
        0
    } else {
        let r = last_argmax(vals.drop_last());
        if vals.last() >= vals[r] {
            vals.len() - 1
        } else {
            r
        }
    }
}

proof fn lemma_last_argmax_in_range(vals: Seq<int>)
    requires
        vals.len() > 0,
    ensures
        0 <= last_argmax(vals) < vals.len(),
    decreases vals.len(),
{
    if vals.len() > 1 {
        lemma_last_argmax_in_range(vals.drop_last());
    }
}

/// The turn the search selects for a team: among the team's legal turns,
/// scored by lookahead to the given depth over the full window, the one
/// with the best score, later turns winning ties; the empty turn when the
/// team has no legal move.
pub open spec fn spec_chosen_turn(v: Seq<Option<Piece>>, team: Team, depth: nat) -> Seq<Move> {
    let kids = spec_decisions(v, team);
    if kids.len() == 0 {
        Seq::empty()
    } else {
        let vals = ab_values(kids, team, depth, true, GAME_LOSS as int, GAME_WIN as int, 0);
        kids[last_argmax(vals)].moves
    }
}

/// The search entry point: enumerates the team's legal turns, scores each
/// by lookahead to `max_depth` plies, and returns the best-scoring turn,
/// later turns winning ties. An empty turn signals that the team has no
/// legal move and has lost.
pub fn choose_turn(board: Board, team: Team, max_depth: usize) -> (r: Vec<Move>)
    requires
        board.wf(),
    ensures
        r@ == spec_chosen_turn(board@, team, max_depth as nat),
{
    let ghost bv = board@;
    let ghost kids = spec_decisions(bv, team);
    let ghost vals = ab_values(
        kids,
        team,
        max_depth as nat,
        true,
        GAME_LOSS as int,
        GAME_WIN as int,
        0,
    );
    proof {
        lemma_ab_values_props(
            kids,
            team,
            max_depth as nat,
            true,
            GAME_LOSS as int,
            GAME_WIN as int,
        );
    }
    let mut decisions = Ai::_get_possible_decisions(team, board);
    let mut scores: Vec<i32> = Vec::new();
    let mut turns: Vec<Vec<Move>> = Vec::new();
    let ghost total = decisions@.len();
    while decisions.len() > 0
        invariant
            scores@.len() == turns@.len(),
            scores@.len() + decisions@.len() == total,
            total == kids.len(),
            vals == ab_values(
                kids,
                team,
                max_depth as nat,
                true,
                GAME_LOSS as int,
                GAME_WIN as int,
                0,
            ),
            vals.len() == kids.len(),
            forall|k: int|
                0 <= k < kids.len() ==> vals[k] == ab_value(
                    (#[trigger] kids[k]).board,
                    team,
                    max_depth as nat,
                    true,
                    GAME_LOSS as int,
                    GAME_WIN as int,
                ),
            forall|k: int|
                0 <= k < decisions@.len() ==> {
                    &&& (#[trigger] decisions@[k]).score is None
                    &&& decisions@[k].team == team
                    &&& decisions@[k].moves@ == kids[scores@.len() + k].moves
                    &&& decisions@[k].board_state@ == kids[scores@.len() + k].board
                    &&& decisions@[k].board_state.wf()
                },
            forall|k: int| 0 <= k < scores@.len() ==> (#[trigger] scores@[k]) as int == vals[k],
            forall|k: int| 0 <= k < turns@.len() ==> (#[trigger] turns@[k])@ == kids[k].moves,
        decreases decisions@.len(),
    {
        let mut d = decisions.remove(0);
        let s = d.score_recursive(max_depth, true, GAME_LOSS, GAME_WIN);
        scores.push(s);
        turns.push(d.moves);
    }
    if scores.len() == 0 {
        return Vec::new();
    }
    let mut best: usize = 0;
    let mut k: usize = 1;
    while k < scores.len()
        invariant
            1 <= k <= scores@.len(),
            scores@.len() == vals.len(),
            scores@.len() == turns@.len(),
            vals.len() >= 1,
            forall|j: int| 0 <= j < scores@.len() ==> (#[trigger] scores@[j]) as int == vals[j],
            best < k,
            best as int == last_argmax(vals.take(k as int)),
        decreases scores@.len() - k,
    {
        proof {
            assert(vals.take(k as int + 1).drop_last() =~= vals.take(k as int));
            assert(vals.take(k as int + 1).last() == vals[k as int]);
        }
        if scores[k] >= scores[best] {
            best = k;
        }
        k = k + 1;
    }
    proof {
        assert(vals.take(vals.len() as int) =~= vals);
        lemma_last_argmax_in_range(vals);
    }
    turns.remove(best)
}

proof fn lemma_chain_first_move(v: Seq<Option<Piece>>, path: Seq<Move>, sq: Square)
    requires
        board_wf(v),
        path.len() > 0,
    ensures
        spec_chain(v, path, sq).len() > 0,
        forall|k: int|
            0 <= k < spec_chain(v, path, sq).len() ==> (#[trigger] spec_chain(
                v,
                path,
                sq,
            )[k]).moves.len() > 0 && spec_chain(v, path, sq)[k].moves[0] == path[0],
    decreases count_all(v), 1int, 0int,
{
    lemma_chain_list_first_move(v, path, sq, 0);
    let whole = spec_chain(v, path, sq);
    let head: Seq<SpecDecision> = seq![SpecDecision { moves: path, board: v }];
    let rest = spec_chain_list(v, path, sq, 0);
    assert forall|k: int| 0 <= k < whole.len() implies (#[trigger] whole[k]).moves.len() > 0
        && whole[k].moves[0] == path[0] by {
        if k == 0 {
            assert(whole[k] == head[0]);
        } else {
            assert(whole[k] == rest[k - 1]);
        }
    }
}

proof fn lemma_chain_list_first_move(v: Seq<Option<Piece>>, path: Seq<Move>, sq: Square, i: int)
    requires
        board_wf(v),
        path.len() > 0,
    ensures
        forall|k: int|
            0 <= k < spec_chain_list(v, path, sq, i).len() ==> (#[trigger] spec_chain_list(
                v,
                path,
                sq,
                i,
            )[k]).moves.len() > 0 && spec_chain_list(v, path, sq, i)[k].moves[0] == path[0],
    decreases count_all(v), 0int, valid_jumps_at(v, sq).len() - i,
{
    let jumps = valid_jumps_at(v, sq);
    if 0 <= i < jumps.len() {
        let j = jumps[i];
        lemma_jumps_at_are_jumps(v, sq);
        lemma_jump_reduces_count(v, j);
        lemma_chain_first_move(spec_apply_move(v, j), path.push(j), j.to);
        lemma_chain_list_first_move(v, path, sq, i + 1);
        let whole = spec_chain_list(v, path, sq, i);
        let seg = spec_chain(spec_apply_move(v, j), path.push(j), j.to);
        let rest = spec_chain_list(v, path, sq, i + 1);
        assert forall|k: int| 0 <= k < whole.len() implies (#[trigger] whole[k]).moves.len() > 0
            && whole[k].moves[0] == path[0] by {
            if k < seg.len() {
                assert(whole[k] == seg[k]);
                assert(path.push(j)[0] == path[0]);
            } else {
                assert(whole[k] == rest[k - seg.len()]);
            }
        }
    }
}

proof fn lemma_decisions_list_first_move(v: Seq<Option<Piece>>, moves: Seq<Move>, i: int)
    requires
        board_wf(v),
        0 <= i <= moves.len(),
        forall|k: int|
            0 <= k < moves.len() ==> spec_can_move(v, (#[trigger] moves[k]).from, moves[k].to),
    ensures
        spec_decisions_list(v, moves, i).len() >= moves.len() - i,
        forall|k: int|
            0 <= k < spec_decisions_list(v, moves, i).len() ==> (#[trigger] spec_decisions_list(
                v,
                moves,
                i,
            )[k]).moves.len() > 0 && moves.contains(spec_decisions_list(v, moves, i)[k].moves[0]),
    decreases moves.len() - i,
{
    if i < moves.len() {
        let m = moves[i];
        let nb = spec_apply_move(v, m);
        lemma_decisions_list_first_move(v, moves, i + 1);
        let seg: Seq<SpecDecision> = if spec_is_jump(m) {
            spec_chain(nb, seq![m], m.to)
        } else {
            seq![SpecDecision { moves: seq![m], board: nb }]
        };
        if spec_is_jump(m) {
            assert(board_wf(nb));
            lemma_chain_first_move(nb, seq![m], m.to);
        }
        assert(moves.contains(m)) by {
            assert(moves[i] == m);
        }
        assert forall|k: int| 0 <= k < spec_decisions_list(v, moves, i).len() implies (
        #[trigger] spec_decisions_list(v, moves, i)[k]).moves.len() > 0 && moves.contains(
            spec_decisions_list(v, moves, i)[k].moves[0],
        ) by {
            if k < seg.len() {
                assert(spec_decisions_list(v, moves, i)[k] == seg[k]);
                assert(seg[k].moves[0] == m);
            } else {
                assert(spec_decisions_list(v, moves, i)[k] == spec_decisions_list(
                    v,
                    moves,
                    i + 1,
                )[k - seg.len()]);
            }
        }
    }
}

/// Whenever a team has at least one legal move, the turn the search selects
/// is non-empty and its first move is one of the team's legal moves; and
/// the selection is a function of the board, team, and depth alone, so two
/// searches over identical inputs return identical turns.
pub proof fn lemma_chosen_turn_valid(v: Seq<Option<Piece>>, team: Team, depth: nat)
    requires
        board_wf(v),
        all_moves(v, team).len() > 0,
    ensures
        spec_chosen_turn(v, team, depth).len() > 0,
        all_moves(v, team).contains(spec_chosen_turn(v, team, depth)[0]),
{
    lemma_all_moves_valid(v, team);
    lemma_decisions_list_first_move(v, all_moves(v, team), 0);
    let kids = spec_decisions(v, team);
    let vals = ab_values(kids, team, depth, true, GAME_LOSS as int, GAME_WIN as int, 0);
    lemma_ab_values_props(kids, team, depth, true, GAME_LOSS as int, GAME_WIN as int);
    lemma_last_argmax_in_range(vals);
}

proof fn lemma_seq_max_props(s: Seq<int>)
    requires
        s.len() > 0,
    ensures
        forall|k: int| 0 <= k < s.len() ==> seq_max(s) >= #[trigger] s[k],
        exists|k: int| 0 <= k < s.len() && seq_max(s) == s[k],
    decreases s.len(),
{
    if s.len() == 1 {
        assert(seq_max(s) == s[0]);
    } else {
        lemma_seq_max_props(s.drop_last());
        assert(forall|k: int| 0 <= k < s.len() - 1 ==> s.drop_last()[k] == #[trigger] s[k]);
        if seq_max(s) == s.last() {
            assert(seq_max(s) == s[s.len() - 1]);
        } else {
            let w = choose|k: int|
                0 <= k < s.drop_last().len() && seq_max(s.drop_last()) == s.drop_last()[k];
            assert(s[w] == seq_max(s));
        }
    }
}

proof fn lemma_seq_min_props(s: Seq<int>)
    requires
        s.len() > 0,
    ensures
        forall|k: int| 0 <= k < s.len() ==> seq_min(s) <= #[trigger] s[k],
        exists|k: int| 0 <= k < s.len() && seq_min(s) == s[k],
    decreases s.len(),
{
    if s.len() == 1 {
        assert(seq_min(s) == s[0]);
    } else {
        lemma_seq_min_props(s.drop_last());
        assert(forall|k: int| 0 <= k < s.len() - 1 ==> s.drop_last()[k] == #[trigger] s[k]);
        if seq_min(s) == s.last() {
            assert(seq_min(s) == s[s.len() - 1]);
        } else {
            let w = choose|k: int|
                0 <= k < s.drop_last().len() && seq_min(s.drop_last()) == s.drop_last()[k];
            assert(s[w] == seq_min(s));
        }
    }
}

proof fn lemma_combine_max_props(vals: Seq<int>, i: int, score: int, alpha: int)
    requires
        0 <= i <= vals.len(),
        alpha <= score <= GAME_WIN as int,
        forall|k: int| 0 <= k < vals.len() ==> #[trigger] vals[k] <= GAME_WIN as int,
    ensures
        ({
            let r = combine_max(vals, i, score, alpha, GAME_WIN as int);
            &&& r >= score
            &&& forall|k: int| i <= k < vals.len() ==> r >= #[trigger] vals[k]
            &&& (r == score || exists|k: int| i <= k < vals.len() && r == #[trigger] vals[k])
        }),
    decreases vals.len() - i,
{
    if i < vals.len() {
        let s2 = if vals[i] > score {
            vals[i]
        } else {
            score
        };
        let a2 = if s2 > alpha {
            s2
        } else {
            alpha
        };
        if a2 < GAME_WIN as int {
            lemma_combine_max_props(vals, i + 1, s2, a2);
        }
    }
}

proof fn lemma_combine_min_props(vals: Seq<int>, i: int, score: int, beta: int)
    requires
        0 <= i <= vals.len(),
        GAME_LOSS as int <= score <= beta,
        forall|k: int| 0 <= k < vals.len() ==> GAME_LOSS as int <= #[trigger] vals[k],
    ensures
        ({
            let r = combine_min(vals, i, score, GAME_LOSS as int, beta);
            &&& r <= score
            &&& forall|k: int| i <= k < vals.len() ==> r <= #[trigger] vals[k]
            &&& (r == score || exists|k: int| i <= k < vals.len() && r == #[trigger] vals[k])
        }),
    decreases vals.len() - i,
{
    if i < vals.len() {
        let s2 = if vals[i] < score {
            vals[i]
        } else {
            score
        };
        let b2 = if s2 < beta {
            s2
        } else {
            beta
        };
        if (GAME_LOSS as int) < b2 {
            lemma_combine_min_props(vals, i + 1, s2, b2);
        }
    }
}

proof fn lemma_node_value_bounds(v: Seq<Option<Piece>>, t: Team, depth: nat, is_max: bool)
    ensures
        GAME_LOSS as int <= node_value(v, t, depth, is_max) <= GAME_WIN as int,
    decreases depth, 0int, 0int,
{
    lemma_material_bounds(v, t, 64);
    if depth > 0 {
        let kids = spec_decisions(v, spec_other(t));
        if kids.len() > 0 {
            let vals = node_values(kids, spec_other(t), (depth - 1) as nat, !is_max, 0);
            lemma_node_values_bounds(kids, spec_other(t), (depth - 1) as nat, !is_max, 0);
            if is_max {
                lemma_seq_max_props(vals);
            } else {
                lemma_seq_min_props(vals);
            }
        }
    }
}

proof fn lemma_node_values_bounds(
    kids: Seq<SpecDecision>,
    t: Team,
    depth: nat,
    is_max: bool,
    i: int,
)
    requires
        0 <= i <= kids.len(),
    ensures
        node_values(kids, t, depth, is_max, i).len() == kids.len() - i,
        forall|k: int|
            0 <= k < kids.len() - i ==> GAME_LOSS as int <= #[trigger] node_values(
                kids,
                t,
                depth,
                is_max,
                i,
            )[k] <= GAME_WIN as int,
    decreases depth, 1int, kids.len() - i,
{
    if i < kids.len() {
        lemma_node_value_bounds(kids[i].board, t, depth, is_max);
        lemma_node_values_bounds(kids, t, depth, is_max, i + 1);
    }
}

proof fn lemma_values_equal(kids: Seq<SpecDecision>, t: Team, depth: nat, is_max: bool, i: int)
    requires
        0 <= i <= kids.len(),
    ensures
        ab_values(kids, t, depth, is_max, GAME_LOSS as int, GAME_WIN as int, i) == node_values(
            kids,
            t,
            depth,
            is_max,
            i,
        ),
    decreases depth, 1int, kids.len() - i,
{
    if i < kids.len() {
        lemma_search_equals_minimax(kids[i].board, t, depth, is_max);
        lemma_values_equal(kids, t, depth, is_max, i + 1);
    }
}

/// Over the full window, the search's cutoff fold selects exactly the plain
/// minimax value: pruning changes only how much of the tree is explored,
/// never the value chosen.
pub proof fn lemma_search_equals_minimax(v: Seq<Option<Piece>>, t: Team, depth: nat, is_max: bool)
    ensures
        ab_value(v, t, depth, is_max, GAME_LOSS as int, GAME_WIN as int) == node_value(
            v,
            t,
            depth,
            is_max,
        ),
    decreases depth, 0int, 0int,
{
    if depth > 0 {
        let kids = spec_decisions(v, spec_other(t));
        if kids.len() > 0 {
            lemma_values_equal(kids, spec_other(t), (depth - 1) as nat, !is_max, 0);
            let vals = node_values(kids, spec_other(t), (depth - 1) as nat, !is_max, 0);
            lemma_node_values_bounds(kids, spec_other(t), (depth - 1) as nat, !is_max, 0);
            if is_max {
                lemma_combine_max_props(vals, 0, GAME_LOSS as int, GAME_LOSS as int);
                lemma_seq_max_props(vals);
            } else {
                lemma_combine_min_props(vals, 0, GAME_WIN as int, GAME_WIN as int);
                lemma_seq_min_props(vals);
            }
        }
    }
}

/// The default search depth, in plies.
pub const MAX_DEPTH: usize = 4;

/// The computer player for one team.
pub struct Ai {
    pub team: Team,
}

impl Ai {
    /// The next full turn for this team on the given board, searched to the
    /// default depth.
    pub fn get_next_moves(&self, board: Board) -> (r: Vec<Move>)
        requires
            board.wf(),
        ensures
            r@ == spec_chosen_turn(board@, self.team, MAX_DEPTH as nat),
    {
        choose_turn(board, self.team, MAX_DEPTH)
    }

    /// Expands a jump chain: emits the chain as it stands, then applies
    /// each further jump available to the same piece and recurses, so that
    /// every prefix of every chain becomes its own decision.
    pub fn _process_jump(team: Team, current_path: Vec<Move>, board: Board, jump: &Move) -> (r:
        Vec<Decision>)
        requires
            board.wf(),
        ensures
            decisions_match(r@, spec_chain(board@, current_path@, jump.to), team),
        decreases count_all(board@),
    {
        let ghost bv = board@;
        let ghost path = current_path@;
        let first_moves = clone_moves(&current_path);
        let first_board = board.clone();
        let mut result: Vec<Decision> = Vec::new();
        result.push(Decision { team, moves: first_moves, board_state: first_board, score: None });
        let ghost mut done: Seq<SpecDecision> = seq![SpecDecision { moves: path, board: bv }];
        proof {
            lemma_jumps_at_are_jumps(bv, jump.to);
        }
        let jumps = board.get_valid_jumps_for_piece_at(&jump.to);
        let mut i: usize = 0;
        while i < jumps.len()
            invariant
                board.wf(),
                board@ == bv,
                current_path@ == path,
                jumps@ == valid_jumps_at(bv, jump.to),
                i <= jumps@.len(),
                decisions_match(result@, done, team),
                done + spec_chain_list(bv, path, jump.to, i as int) == spec_chain(
                    bv,
                    path,
                    jump.to,
                ),
                forall|k: int|
                    0 <= k < jumps@.len() ==> spec_can_jump(
                        bv,
                        (#[trigger] jumps@[k]).from,
                        jumps@[k].to,
                    ),
            decreases jumps@.len() - i,
        {
            let j = jumps[i];
            let mut new_board = board.clone();
            new_board.apply_move(&j);
            let mut next_path = clone_moves(&current_path);
            next_path.push(j);
            proof {
                lemma_jump_reduces_count(bv, j);
            }
            let mut sub = Self::_process_jump(team, next_path, new_board, &j);
            proof {
                lemma_decisions_match_concat(
                    result@,
                    done,
                    sub@,
                    spec_chain(spec_apply_move(bv, j), path.push(j), j.to),
                    team,
                );
            }
            result.append(&mut sub);
            proof {
                let seg = spec_chain(spec_apply_move(bv, j), path.push(j), j.to);
                assert(spec_chain_list(bv, path, jump.to, i as int) == seg + spec_chain_list(
                    bv,
                    path,
                    jump.to,
                    i as int + 1,
                ));
                assert((done + seg) + spec_chain_list(bv, path, jump.to, i as int + 1) =~= done
                    + spec_chain_list(bv, path, jump.to, i as int));
                done = done + seg;
            }
            i = i + 1;
        }
        proof {
            assert(spec_chain_list(bv, path, jump.to, i as int) =~= Seq::<SpecDecision>::empty());
            assert(done =~= spec_chain(bv, path, jump.to));
        }
        result
    }

    /// Every legal turn of a team on the given board: one decision per
    /// step, and one per prefix of each jump chain.
    pub fn _get_possible_decisions(team: Team, board: Board) -> (r: Vec<Decision>)
        requires
            board.wf(),
        ensures
            decisions_match(r@, spec_decisions(board@, team), team),
    {
        let ghost bv = board@;
        let mut result: Vec<Decision> = Vec::new();
        let moves = board.get_all_valid_moves(team);
        proof {
            lemma_all_moves_valid(bv, team);
        }
        let ghost mut done: Seq<SpecDecision> = Seq::empty();
        let mut i: usize = 0;
        while i < moves.len()
            invariant
                board.wf(),
                board@ == bv,
                moves@ == all_moves(bv, team),
                i <= moves@.len(),
                decisions_match(result@, done, team),
                done + spec_decisions_list(bv, moves@, i as int) == spec_decisions(bv, team),
                forall|k: int|
                    0 <= k < moves@.len() ==> spec_can_move(
                        bv,
                        (#[trigger] moves@[k]).from,
                        moves@[k].to,
                    ),
            decreases moves@.len() - i,
        {
            let mv = moves[i];
            let mut new_board = board.clone();
            new_board.apply_move(&mv);
            let ghost seg: Seq<SpecDecision> = if spec_is_jump(mv) {
                spec_chain(spec_apply_move(bv, mv), seq![mv], mv.to)
            } else {
                seq![SpecDecision { moves: seq![mv], board: spec_apply_move(bv, mv) }]
            };
            if mv.is_jump() {
                let mut path: Vec<Move> = Vec::new();
                path.push(mv);
                proof {
                    assert(path@ =~= seq![mv]);
                }
                let mut sub = Self::_process_jump(team, path, new_board, &mv);
                proof {
                    lemma_decisions_match_concat(result@, done, sub@, seg, team);
                }
                result.append(&mut sub);
            } else {
                let single = Decision {
                    team,
                    moves: {
                        let mut path: Vec<Move> = Vec::new();
                        path.push(mv);
                        path
                    },
                    board_state: new_board,
                    score: None,
                };
                result.push(single);
                proof {
                    lemma_decisions_match_concat(
                        result@.drop_last(),
                        done,
                        seq![result@.last()],
                        seg,
                        team,
                    );
                    assert(result@ =~= result@.drop_last() + seq![result@.last()]);
                }
            }
            proof {
                assert(spec_decisions_list(bv, moves@, i as int) == seg + spec_decisions_list(
                    bv,
                    moves@,
                    i as int + 1,
                ));
                assert((done + seg) + spec_decisions_list(bv, moves@, i as int + 1) =~= done
                    + spec_decisions_list(bv, moves@, i as int));
                done = done + seg;
            }
            i = i + 1;
        }
        proof {
            assert(spec_decisions_list(bv, moves@, i as int) =~= Seq::<SpecDecision>::empty());
            assert(done =~= spec_decisions(bv, team));
        }
        result
    }
}

} // verus!
