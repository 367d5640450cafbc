use vstd::prelude::*;

use crate::model::Coords;
use crate::model::Game;
use crate::model::Move;
use crate::model::PartialGame;
use crate::model::Piece;
use crate::model::PieceKind;
use crate::model::piece_at_view;
use crate::model::occupant;
use crate::stream::GenMoves;
use crate::stream::MoveStream;

verus! {

/// Number of direction codes: every (dl, dt, dx, dy) with components in
/// -2 ..= 2, encoded in base five.
pub const DIR_CODES: usize = 625;

/// The displacement a direction code stands for: the code's base-five digits
/// shifted into -2 ..= 2, ordered (timeline, turn, file, rank).
pub open spec fn dir_of(i: int) -> (int, int, int, int) {
    ((i % 5) - 2, ((i / 5) % 5) - 2, ((i / 25) % 5) - 2, ((i / 125) % 5) - 2)
}

/// Whether a piece kind may step by the given displacement in one move.
/// The king steps one square in any combination of the four dimensions; the
/// knight leaps two squares along one dimension and one along another, in
/// any of the four dimensions.
pub open spec fn kind_dir_ok(k: PieceKind, dl: int, dt: int, dx: int, dy: int) -> bool {
    let s = dl * dl + dt * dt + dx * dx + dy * dy;
    match k {
        PieceKind::King => 1 <= s && dl * dl <= 1 && dt * dt <= 1 && dx * dx <= 1 && dy * dy <= 1,
        PieceKind::Knight => s == 5,
    }
}

/// The square a direction code leads to from c.
pub open spec fn dest_of(c: Coords, i: int) -> Coords {
    let d = dir_of(i);
    Coords {
        l: (c.l + d.0) as i32,
        t: (c.t + d.1) as i32,
        x: (c.x + d.2) as i32,
        y: (c.y + d.3) as i32,
    }
}

/// A piece of this colour may end a move on `to`: the overlay shows a board
/// there, the square lies on the grid, and no piece of its own colour holds
/// it.
pub open spec fn can_land(game: Game, pg: PartialGame, p: Piece, to: Coords) -> bool {
    &&& pg.board_at(game, to.l as int, to.t as int) is Some
    &&& 0 <= to.x < game.width
    &&& 0 <= to.y < game.height
    &&& match piece_at_view(game, pg, to.l as int, to.t as int, to.x as int, to.y as int) {
        Some(q) => q.white != p.white,
        None => true,
    }
}

/// The candidate moves the direction code contributes for piece p at c: one
/// move if the kind allows the displacement and the piece can land there,
/// none otherwise.
pub open spec fn move_at(game: Game, pg: PartialGame, p: Piece, c: Coords, i: int) -> Seq<Move> {
    let d = dir_of(i);
    let to = dest_of(c, i);
    if kind_dir_ok(p.kind, d.0, d.1, d.2, d.3) && can_land(game, pg, p, to) {
        seq![
            Move {
                piece: p,
                from: c,
                to,
                captured: piece_at_view(game, pg, to.l as int, to.t as int, to.x as int, to.y as int),
            },
        ]
    } else {
        seq![]
    }
}

/// The moves of the direction codes below n, in code order.
pub open spec fn piece_moves_upto(game: Game, pg: PartialGame, p: Piece, c: Coords, n: int) -> Seq<
    Move,
>
    decreases n,
{
    if n <= 0 {
        Seq::empty()
    } else {
        piece_moves_upto(game, pg, p, c, n - 1) + move_at(game, pg, p, c, n - 1)
    }
}

/// The whole candidate move sequence of piece p standing at c, in direction
/// code order.
pub open spec fn piece_moves(game: Game, pg: PartialGame, p: Piece, c: Coords) -> Seq<Move> {
    piece_moves_upto(game, pg, p, c, DIR_CODES as int)
}

/// Every candidate move of a piece carries that piece and starts at its
/// square.
pub proof fn lemma_piece_moves_shape(game: Game, pg: PartialGame, p: Piece, c: Coords, n: int)
    ensures
        forall|k: int|
            0 <= k < piece_moves_upto(game, pg, p, c, n).len() ==> {
                &&& (#[trigger] piece_moves_upto(game, pg, p, c, n)[k]).piece == p
                &&& piece_moves_upto(game, pg, p, c, n)[k].from == c
            },
    decreases n,
{
    if n > 0 {
        lemma_piece_moves_shape(game, pg, p, c, n - 1);
    }
}

/// Direction code digits lie in -2 ..= 2.
proof fn lemma_dir_bounds(i: int)
    requires
        0 <= i,
    ensures
        ({
            let d = dir_of(i);
            -2 <= d.0 <= 2 && -2 <= d.1 <= 2 && -2 <= d.2 <= 2 && -2 <= d.3 <= 2
        }),
{
    assert(0 <= i % 5 < 5 && 0 <= (i / 5) % 5 < 5 && 0 <= (i / 25) % 5 < 5 && 0 <= (i / 125) % 5
        < 5) by (nonlinear_arith)
        requires
            0 <= i,
    ;
}

/// A direction code is recovered from its own digits: the encoding is
/// injective.
proof fn lemma_dir_code(i: int)
    requires
        0 <= i < 625,
    ensures
        ({
            let d = dir_of(i);
            (d.0 + 2) + 5 * (d.1 + 2) + 25 * (d.2 + 2) + 125 * (d.3 + 2) == i
        }),
{
    vstd::arithmetic::div_mod::lemma_fundamental_div_mod(i, 5);
    vstd::arithmetic::div_mod::lemma_div_denominator(i, 5, 5);
    vstd::arithmetic::div_mod::lemma_fundamental_div_mod(i / 5, 5);
    vstd::arithmetic::div_mod::lemma_div_denominator(i, 25, 5);
    vstd::arithmetic::div_mod::lemma_fundamental_div_mod(i / 25, 5);
    vstd::arithmetic::div_mod::lemma_div_denominator(i, 125, 5);
    vstd::arithmetic::div_mod::lemma_fundamental_div_mod(i / 125, 5);
    assert(i / 625 == 0) by (nonlinear_arith)
        requires
            0 <= i < 625,
    ;
}

/// Distinct direction codes name distinct displacements.
proof fn lemma_dir_injective(i: int, j: int)
    requires
        0 <= i < 625,
        0 <= j < 625,
        dir_of(i) == dir_of(j),
    ensures
        i == j,
{
    lemma_dir_code(i);
    lemma_dir_code(j);
}

/// The coordinates from which no displacement arithmetic can wrap: every
/// square of a well-formed board satisfies them.
pub open spec fn coords_bounded(c: Coords) -> bool {
    &&& -crate::model::TIMELINE_BOUND <= c.l <= crate::model::TIMELINE_BOUND
    &&& 0 <= c.t <= crate::model::TURN_BOUND
    &&& 0 <= c.x <= crate::model::DIM_BOUND
    &&& 0 <= c.y <= crate::model::DIM_BOUND
}

proof fn lemma_piece_upto_distinct(game: Game, pg: PartialGame, p: Piece, c: Coords, n: int)
    requires
        coords_bounded(c),
        0 <= n <= DIR_CODES,
    ensures
        forall|k1: int, k2: int|
            0 <= k1 < k2 < piece_moves_upto(game, pg, p, c, n).len() ==> (
            #[trigger] piece_moves_upto(game, pg, p, c, n)[k1]).to != (#[trigger] piece_moves_upto(
                game,
                pg,
                p,
                c,
                n,
            )[k2]).to,
        forall|k: int|
            0 <= k < piece_moves_upto(game, pg, p, c, n).len() ==> exists|i: int|
                0 <= i < n && (#[trigger] piece_moves_upto(game, pg, p, c, n)[k]).to == dest_of(
                    c,
                    i,
                ),
    decreases n,
{
    if n > 0 {
        lemma_piece_upto_distinct(game, pg, p, c, n - 1);
        let pre = piece_moves_upto(game, pg, p, c, n - 1);
        let cur = piece_moves_upto(game, pg, p, c, n);
        assert forall|k: int| 0 <= k < cur.len() implies exists|i: int|
            0 <= i < n && (#[trigger] cur[k]).to == dest_of(c, i) by {
            if k < pre.len() {
                let i = choose|i: int| 0 <= i < n - 1 && (#[trigger] pre[k]).to == dest_of(c, i);
                assert(cur[k] == pre[k] && 0 <= i < n && cur[k].to == dest_of(c, i));
            } else {
                assert(cur[k].to == dest_of(c, n - 1));
            }
        }
        assert forall|k1: int, k2: int| 0 <= k1 < k2 < cur.len() implies (
        #[trigger] cur[k1]).to != (#[trigger] cur[k2]).to by {
            if k2 < pre.len() {
                assert(cur[k1] == pre[k1] && cur[k2] == pre[k2]);
            } else {
                // k2 names the single move the code n - 1 contributes
                assert(cur[k1] == pre[k1]);
                assert(cur[k2].to == dest_of(c, n - 1));
                let i = choose|i: int| 0 <= i < n - 1 && (#[trigger] pre[k1]).to == dest_of(c, i);
                if cur[k1].to == cur[k2].to {
                    lemma_dir_bounds(i);
                    lemma_dir_bounds(n - 1);
                    let di = dir_of(i);
                    let dn = dir_of(n - 1);
                    assert(dest_of(c, i).l == c.l + di.0 && dest_of(c, i).t == c.t + di.1
                        && dest_of(c, i).x == c.x + di.2 && dest_of(c, i).y == c.y + di.3);
                    assert(dest_of(c, n - 1).l == c.l + dn.0 && dest_of(c, n - 1).t == c.t + dn.1
                        && dest_of(c, n - 1).x == c.x + dn.2 && dest_of(c, n - 1).y == c.y
                        + dn.3);
                    assert(di == dn);
                    lemma_dir_injective(i, n - 1);
                    assert(false);
                }
            }
        }
    }
}

/// No move appears twice in a piece's candidate sequence: distinct
/// direction codes lead to distinct destination squares.
pub proof fn lemma_piece_moves_distinct(game: Game, pg: PartialGame, p: Piece, c: Coords)
    requires
        coords_bounded(c),
    ensures
        forall|k1: int, k2: int|
            0 <= k1 < k2 < piece_moves(game, pg, p, c).len() ==> (#[trigger] piece_moves(
                game,
                pg,
                p,
                c,
            )[k1]) != (#[trigger] piece_moves(game, pg, p, c)[k2]),
{
    lemma_piece_upto_distinct(game, pg, p, c, DIR_CODES as int);
}

/// A piece with its square: the unit the piece move generator works on.
#[derive(Clone, Copy, PartialEq, Eq, Structural, Debug)]
pub struct PiecePosition {
    pub piece: Piece,
    pub coords: Coords,
}

impl PiecePosition {
    pub fn new(piece: Piece, coords: Coords) -> (r: PiecePosition)
        ensures
            r == (PiecePosition { piece, coords }),
    {
        PiecePosition { piece, coords }
    }
}

/// The move stream of one piece: its candidate moves, handed out in
/// direction code order.
pub struct PieceMoveIter {
    pub moves: Vec<Move>,
    pub pos: usize,
}

impl MoveStream for PieceMoveIter {
    open spec fn all(&self) -> Seq<Move> {
        self.moves@
    }

    open spec fn emitted(&self) -> nat {
        self.pos as nat
    }

    open spec fn inv(&self) -> bool {
        self.pos <= self.moves@.len()
    }

    proof fn lemma_emitted_bounded(&self) {
    }

    fn next(&mut self) -> (r: Option<Move>) {
        if self.pos < self.moves.len() {
            let m = self.moves[self.pos];
            self.pos = self.pos + 1;
            Some(m)
        } else {
            None
        }
    }
}

/// Whether the kind may step by the given displacement; mirrors
/// `kind_dir_ok`.
fn dir_allows(k: PieceKind, dl: i32, dt: i32, dx: i32, dy: i32) -> (r: bool)
    requires
        -2 <= dl <= 2,
        -2 <= dt <= 2,
        -2 <= dx <= 2,
        -2 <= dy <= 2,
    ensures
        r == kind_dir_ok(k, dl as int, dt as int, dx as int, dy as int),
{
    proof {
        assert(0 <= dl * dl <= 4 && 0 <= dt * dt <= 4 && 0 <= dx * dx <= 4 && 0 <= dy * dy <= 4)
            by (nonlinear_arith)
            requires
                -2 <= dl <= 2,
                -2 <= dt <= 2,
                -2 <= dx <= 2,
                -2 <= dy <= 2,
        ;
    }
    let s = dl * dl + dt * dt + dx * dx + dy * dy;
    match k {
        PieceKind::King => 1 <= s && dl * dl <= 1 && dt * dt <= 1 && dx * dx <= 1 && dy * dy <= 1,
        PieceKind::Knight => s == 5,
    }
}

/// Whether p may land on `to`, and what stands there: `None` when it cannot
/// land, `Some(occupant)` when it can.
fn landing(game: &Game, pg: &PartialGame, p: Piece, to: Coords) -> (r: Option<Option<Piece>>)
    requires
        game.wf(),
        pg.wf(*game),
    ensures
        r is Some <==> can_land(*game, *pg, p, to),
        r matches Some(occ) ==> occ == piece_at_view(
            *game,
            *pg,
            to.l as int,
            to.t as int,
            to.x as int,
            to.y as int,
        ),
{
    match pg.get_board(game, to.l, to.t) {
        None => None,
        Some(b) => {
            proof {
                pg.lemma_board_at_wf(*game, to.l as int, to.t as int);
            }
            if 0 <= to.x && to.x < game.width && 0 <= to.y && to.y < game.height {
                match b.get(to.x, to.y) {
                    Some(q) => {
                        if q.white != p.white {
                            Some(Some(q))
                        } else {
                            None
                        }
                    }
                    None => Some(None),
                }
            } else {
                None
            }
        }
    }
}

/// The candidate moves of piece p standing at c, materialized in direction
/// code order.
pub fn compute_piece_moves(game: &Game, pg: &PartialGame, p: Piece, c: Coords) -> (r: Vec<Move>)
    requires
        game.wf(),
        pg.wf(*game),
        piece_at_view(*game, *pg, c.l as int, c.t as int, c.x as int, c.y as int) == Some(p),
    ensures
        r@ == piece_moves(*game, *pg, p, c),
{
    proof {
        pg.lemma_board_at_wf(*game, c.l as int, c.t as int);
    }
    let mut r: Vec<Move> = Vec::new();
    let mut i: usize = 0;
    while i < DIR_CODES
        invariant
            game.wf(),
            pg.wf(*game),
            piece_at_view(*game, *pg, c.l as int, c.t as int, c.x as int, c.y as int) == Some(p),
            -crate::model::TIMELINE_BOUND <= c.l <= crate::model::TIMELINE_BOUND,
            0 <= c.t <= crate::model::TURN_BOUND,
            0 <= c.x < game.width,
            0 <= c.y < game.height,
            i <= DIR_CODES,
            r@ == piece_moves_upto(*game, *pg, p, c, i as int),
        decreases DIR_CODES - i,
    {
        let dl = (i % 5) as i32 - 2;
        let dt = ((i / 5) % 5) as i32 - 2;
        let dx = ((i / 25) % 5) as i32 - 2;
        let dy = ((i / 125) % 5) as i32 - 2;
        proof {
            assert(dir_of(i as int) == (dl as int, dt as int, dx as int, dy as int));
        }
        if dir_allows(p.kind, dl, dt, dx, dy) {
            let to = Coords { l: c.l + dl, t: c.t + dt, x: c.x + dx, y: c.y + dy };
            proof {
                assert(to == dest_of(c, i as int));
            }
            match landing(game, pg, p, to) {
                Some(occ) => {
                    r.push(Move { piece: p, from: c, to, captured: occ });
                    proof {
                        assert(r@ == piece_moves_upto(*game, *pg, p, c, i + 1));
                    }
                }
                None => {
                    proof {
                        assert(r@ == piece_moves_upto(*game, *pg, p, c, i + 1));
                    }
                }
            }
        } else {
            proof {
                assert(move_at(*game, *pg, p, c, i as int) == Seq::<Move>::empty());
                assert(r@ == piece_moves_upto(*game, *pg, p, c, i + 1));
            }
        }
        i = i + 1;
    }
    r
}

impl PiecePosition {
    /// The sequence this piece position stands for: its candidate moves when
    /// the overlay still shows the piece on its square, nothing when the
    /// reference went stale.
    pub open spec fn piece_spec_moves(self, game: Game, pg: PartialGame) -> Option<Seq<Move>> {
        if piece_at_view(
            game,
            pg,
            self.coords.l as int,
            self.coords.t as int,
            self.coords.x as int,
            self.coords.y as int,
        ) == Some(self.piece) {
            Some(piece_moves(game, pg, self.piece, self.coords))
        } else {
            None
        }
    }
}

impl<'a> GenMoves<'a> for PiecePosition {
    type Iter = PieceMoveIter;

    open spec fn spec_moves(self, game: Game, pg: PartialGame) -> Option<Seq<Move>> {
        self.piece_spec_moves(game, pg)
    }

    open spec fn gen_requires(self, game: Game, pg: PartialGame) -> bool {
        true
    }

    fn generate_moves(self, game: &'a Game, pg: &'a PartialGame) -> (r: Option<PieceMoveIter>) {
        match occupant(game, pg, self.coords.l, self.coords.t, self.coords.x, self.coords.y) {
            Some(q) => {
                if q == self.piece {
                    Some(
                        PieceMoveIter {
                            moves: compute_piece_moves(game, pg, self.piece, self.coords),
                            pos: 0,
                        },
                    )
                } else {
                    None
                }
            }
            None => None,
        }
    }

    fn validate_move(self, game: &'a Game, pg: &'a PartialGame, mv: &Move) -> (r: bool) {
        match self.generate_moves(game, pg) {
            Some(it) => {
                let mut k: usize = 0;
                while k < it.moves.len()
                    invariant
                        self.spec_moves(*game, *pg) == Some(it.moves@),
                        k <= it.moves@.len(),
                        forall|j: int| 0 <= j < k ==> it.moves@[j] != *mv,
                    decreases it.moves@.len() - k,
                {
                    if it.moves[k] == *mv {
                        proof {
                            assert(it.moves@[k as int] == *mv);
                            assert(it.moves@.contains(*mv));
                        }
                        return true;
                    }
                    k = k + 1;
                }
                assert(!it.moves@.contains(*mv));
                false
            }
            None => false,
        }
    }
}

} // verus!
