use vstd::prelude::*;

use crate::model::Board;
use crate::model::Coords;
use crate::model::Game;
use crate::model::Move;
use crate::model::PartialGame;
use crate::rules::PieceMoveIter;
use crate::rules::PiecePosition;
use crate::rules::piece_moves;
use crate::stream::GenMoves;
use crate::stream::MoveStream;

verus! {

/// The square a board index addresses.
pub open spec fn coords_of(b: Board, i: int) -> Coords {
    Coords { l: b.l, t: b.t, x: (i % (b.width as int)) as i32, y: (i / (b.width as int)) as i32 }
}

/// What one square of the board contributes to the board's move sequence:
/// the piece move generator's output for a piece of the board's active
/// colour, nothing for an empty square, a foreign piece, or a stale one.
pub open spec fn square_moves(game: Game, pg: PartialGame, b: Board, i: int) -> Seq<Move> {
    if 0 <= i < b.pieces@.len() {
        match b.pieces@[i] {
            Some(p) => if p.white == b.to_move_white() {
                match (PiecePosition { piece: p, coords: coords_of(b, i) }).piece_spec_moves(
                    game,
                    pg,
                ) {
                    Some(s) => s,
                    None => Seq::empty(),
                }
            } else {
                Seq::empty()
            },
            None => Seq::empty(),
        }
    } else {
        Seq::empty()
    }
}

/// The moves of the squares below n, in square index order.
pub open spec fn board_moves_upto(game: Game, pg: PartialGame, b: Board, n: int) -> Seq<Move>
    decreases n,
{
    if n <= 0 {
        Seq::empty()
    } else {
        board_moves_upto(game, pg, b, n - 1) + square_moves(game, pg, b, n - 1)
    }
}

/// The whole move sequence of the board: every active-colour piece's moves,
/// chained in increasing square index order.
pub open spec fn board_moves(game: Game, pg: PartialGame, b: Board) -> Seq<Move> {
    board_moves_upto(game, pg, b, b.width * b.height)
}

/// Square prefixes only grow.
pub proof fn lemma_upto_mono(game: Game, pg: PartialGame, b: Board, n: int, m: int)
    requires
        n <= m,
    ensures
        board_moves_upto(game, pg, b, n).len() <= board_moves_upto(game, pg, b, m).len(),
    decreases m - n,
{
    if n < m {
        lemma_upto_mono(game, pg, b, n, m - 1);
    }
}

/// Where square n's j-th move stands inside any longer square prefix.
pub proof fn lemma_upto_index(game: Game, pg: PartialGame, b: Board, n: int, j: int, m: int)
    requires
        0 <= n < m,
        0 <= j < square_moves(game, pg, b, n).len(),
    ensures
        board_moves_upto(game, pg, b, n).len() + j < board_moves_upto(game, pg, b, m).len(),
        board_moves_upto(game, pg, b, m)[board_moves_upto(game, pg, b, n).len() + j]
            == square_moves(game, pg, b, n)[j],
    decreases m - n,
{
    if m == n + 1 {
    } else {
        lemma_upto_index(game, pg, b, n, j, m - 1);
    }
}

/// A move of a square prefix comes from one of its squares.
pub proof fn lemma_upto_source(game: Game, pg: PartialGame, b: Board, n: int, m: Move)
    requires
        board_moves_upto(game, pg, b, n).contains(m),
    ensures
        exists|i: int| 0 <= i < n && #[trigger] square_moves(game, pg, b, i).contains(m),
    decreases n,
{
    if n > 0 {
        if square_moves(game, pg, b, n - 1).contains(m) {
            assert(0 <= n - 1 < n && square_moves(game, pg, b, n - 1).contains(m));
        } else {
            let prefix = board_moves_upto(game, pg, b, n - 1);
            let k = choose|k: int|
                0 <= k < board_moves_upto(game, pg, b, n).len() && board_moves_upto(
                    game,
                    pg,
                    b,
                    n,
                )[k] == m;
            if k < prefix.len() {
                assert(prefix[k] == m);
                lemma_upto_source(game, pg, b, n - 1, m);
            } else {
                assert(square_moves(game, pg, b, n - 1)[k - prefix.len()] == m);
                assert(square_moves(game, pg, b, n - 1).contains(m));
            }
        }
    }
}

proof fn lemma_board_upto_distinct(game: Game, pg: PartialGame, b: Board, n: int)
    requires
        b.wf(),
        0 <= n <= b.width * b.height,
    ensures
        forall|k1: int, k2: int|
            0 <= k1 < k2 < board_moves_upto(game, pg, b, n).len() ==> (#[trigger] board_moves_upto(
                game,
                pg,
                b,
                n,
            )[k1]) != (#[trigger] board_moves_upto(game, pg, b, n)[k2]),
        forall|k: int|
            0 <= k < board_moves_upto(game, pg, b, n).len() ==> exists|i: int|
                0 <= i < n && (#[trigger] board_moves_upto(game, pg, b, n)[k]).from == coords_of(
                    b,
                    i,
                ),
    decreases n,
{
    if n > 0 {
        lemma_board_upto_distinct(game, pg, b, n - 1);
        let pre = board_moves_upto(game, pg, b, n - 1);
        let cur = board_moves_upto(game, pg, b, n);
        let sq = square_moves(game, pg, b, n - 1);
        let w = b.width as int;
        let h = b.height as int;
        crate::rules::lemma_piece_moves_shape(
            game,
            pg,
            b.pieces@[n - 1]->Some_0,
            coords_of(b, n - 1),
            crate::rules::DIR_CODES as int,
        );
        assert(0 <= (n - 1) % w < w && 0 <= (n - 1) / w < h && ((n - 1) / w) * w + (n - 1) % w == n
            - 1) by (nonlinear_arith)
            requires
                0 <= n - 1 < w * h,
                1 <= w,
                1 <= h,
        ;
        assert forall|k: int| 0 <= k < cur.len() implies exists|i: int|
            0 <= i < n && (#[trigger] cur[k]).from == coords_of(b, i) by {
            if k < pre.len() {
                let i = choose|i: int|
                    0 <= i < n - 1 && (#[trigger] pre[k]).from == coords_of(b, i);
                assert(cur[k] == pre[k] && 0 <= i < n && cur[k].from == coords_of(b, i));
            } else {
                assert(cur[k] == sq[k - pre.len()]);
                assert(cur[k].from == coords_of(b, n - 1));
            }
        }
        assert forall|k1: int, k2: int| 0 <= k1 < k2 < cur.len() implies (#[trigger] cur[k1]) != (
        #[trigger] cur[k2]) by {
            if k2 < pre.len() {
                assert(cur[k1] == pre[k1] && cur[k2] == pre[k2]);
            } else if k1 < pre.len() {
                // k1 names an earlier square's move, k2 one of square n - 1
                assert(cur[k1] == pre[k1]);
                assert(cur[k2] == sq[k2 - pre.len()]);
                assert(cur[k2].from == coords_of(b, n - 1));
                let i = choose|i: int|
                    0 <= i < n - 1 && (#[trigger] pre[k1]).from == coords_of(b, i);
                if cur[k1] == cur[k2] {
                    assert(0 <= i % w < w && 0 <= i / w < h && (i / w) * w + i % w == i)
                        by (nonlinear_arith)
                        requires
                            0 <= i < w * h,
                            1 <= w,
                            1 <= h,
                    ;
                    assert(coords_of(b, i).x == i % w && coords_of(b, i).y == i / w);
                    assert(coords_of(b, n - 1).x == (n - 1) % w && coords_of(b, n - 1).y == (n - 1)
                        / w);
                    assert(i == n - 1);
                    assert(false);
                }
            } else {
                // both name moves of square n - 1: a piece's own sequence
                // has no duplicates
                assert(cur[k1] == sq[k1 - pre.len()] && cur[k2] == sq[k2 - pre.len()]);
                if sq.len() > 0 {
                    let p = b.pieces@[n - 1]->Some_0;
                    let c = coords_of(b, n - 1);
                    assert(crate::rules::coords_bounded(c));
                    crate::rules::lemma_piece_moves_distinct(game, pg, p, c);
                    assert(sq == crate::rules::piece_moves(game, pg, p, c));
                }
            }
        }
    }
}

/// No move appears twice in a board's move sequence: moves of different
/// squares start on different squares, and one piece's candidates end on
/// different squares. With `lemma_board_moves_membership` this makes the
/// sequence the duplicate-free union of the piece move generator outputs
/// over the board's active-colour squares.
pub proof fn lemma_board_moves_distinct(game: Game, pg: PartialGame, b: Board)
    requires
        b.wf(),
    ensures
        forall|k1: int, k2: int|
            0 <= k1 < k2 < board_moves(game, pg, b).len() ==> (#[trigger] board_moves(
                game,
                pg,
                b,
            )[k1]) != (#[trigger] board_moves(game, pg, b)[k2]),
{
    lemma_board_upto_distinct(game, pg, b, (b.width * b.height) as int);
}

/// The board move generator: scans the board's squares in increasing index
/// order and chains one piece move stream per active-colour piece.
pub struct BoardIter<'a> {
    pub board: &'a Board,
    pub game: &'a Game,
    pub partial_game: &'a PartialGame,
    pub index: i32,
    pub current_piece: Option<PieceMoveIter>,
}

impl<'a> BoardIter<'a> {
    /// The whole sequence this board stream stands for.
    pub open spec fn iter_all(&self) -> Seq<Move> {
        board_moves(*self.game, *self.partial_game, *self.board)
    }

    /// How many moves the stream has handed out.
    pub open spec fn iter_emitted(&self) -> nat {
        (board_moves_upto(*self.game, *self.partial_game, *self.board, self.index as int).len()
            + match self.current_piece {
            Some(it) => it.pos as int,
            None => 0,
        }) as nat
    }

    /// The stream's structural invariant.
    pub open spec fn iter_inv(&self) -> bool {
        &&& self.game.wf()
        &&& self.partial_game.wf(*self.game)
        &&& self.board.wf()
        &&& self.board.width == self.game.width
        &&& self.board.height == self.game.height
        &&& 0 <= self.index <= self.board.width * self.board.height
        &&& match self.current_piece {
            Some(it) => {
                &&& self.index < self.board.width * self.board.height
                &&& it.moves@ == square_moves(
                    *self.game,
                    *self.partial_game,
                    *self.board,
                    self.index as int,
                )
                &&& it.pos <= it.moves@.len()
            }
            None => true,
        }
    }
}

impl<'a> MoveStream for BoardIter<'a> {
    open spec fn all(&self) -> Seq<Move> {
        self.iter_all()
    }

    open spec fn emitted(&self) -> nat {
        self.iter_emitted()
    }

    open spec fn inv(&self) -> bool {
        self.iter_inv()
    }

    proof fn lemma_emitted_bounded(&self) {
        let g = *self.game;
        let pg = *self.partial_game;
        let b = *self.board;
        let wh = b.width * b.height;
        match self.current_piece {
            Some(it) => {
                if it.pos > 0 {
                    lemma_upto_index(g, pg, b, self.index as int, it.pos - 1, wh as int);
                } else {
                    lemma_upto_mono(g, pg, b, self.index as int, wh as int);
                }
            }
            None => {
                lemma_upto_mono(g, pg, b, self.index as int, wh as int);
            }
        }
    }

    fn next(&mut self) -> (r: Option<Move>) {
        loop
            invariant
                self.inv(),
                self.board == old(self).board,
                self.game == old(self).game,
                self.partial_game == old(self).partial_game,
                self.emitted() == old(self).emitted(),
            decreases
                    self.board.width * self.board.height - self.index,
                    (if self.current_piece is None {
                        1int
                    } else {
                        0int
                    }),
        {
            let g = self.game;
            let pg = self.partial_game;
            let b = self.board;
            let w = b.width;
            let h = b.height;
            proof {
                assert(1 <= w * h <= 0x10000) by (nonlinear_arith)
                    requires
                        1 <= w <= 256,
                        1 <= h <= 256,
                ;
            }
            if self.index >= w * h {
                proof {
                    self.lemma_emitted_bounded();
                }
                return None;
            }
            let mut advance = false;
            match &mut self.current_piece {
                None => {}
                Some(it) => {
                    let ghost pos0 = it.pos as int;
                    match it.next() {
                        Some(m) => {
                            proof {
                                lemma_upto_index(
                                    *g,
                                    *pg,
                                    *b,
                                    self.index as int,
                                    pos0,
                                    (w * h) as int,
                                );
                            }
                            return Some(m);
                        }
                        None => {
                            advance = true;
                        }
                    }
                }
            }
            if advance {
                proof {
                    assert(board_moves_upto(*g, *pg, *b, self.index + 1)
                        == board_moves_upto(*g, *pg, *b, self.index as int) + square_moves(
                        *g,
                        *pg,
                        *b,
                        self.index as int,
                    ));
                }
                self.index = self.index + 1;
                self.current_piece = None;
            } else {
                // no live piece stream: look at the square under the scan
                proof {
                    assert(self.index * 1 < w * h);
                    assert(0 <= self.index % w < w && 0 <= self.index / w < h && (self.index / w)
                        * w + self.index % w == self.index) by (nonlinear_arith)
                        requires
                            0 <= self.index < w * h,
                            1 <= w,
                            1 <= h,
                    ;
                }
                let x = self.index % w;
                let y = self.index / w;
                let c = Coords { l: b.l, t: b.t, x, y };
                let sq = b.get(x, y);
                let mut skip = true;
                match sq {
                    Some(p) => {
                        if p.white == b.white() {
                            match PiecePosition::new(p, c).generate_moves(g, pg) {
                                Some(it2) => {
                                    self.current_piece = Some(it2);
                                    skip = false;
                                }
                                None => {}
                            }
                        }
                    }
                    None => {}
                }
                if skip {
                    proof {
                        assert(square_moves(*g, *pg, *b, self.index as int) == Seq::<
                            Move,
                        >::empty());
                        assert(board_moves_upto(*g, *pg, *b, self.index + 1) == board_moves_upto(
                            *g,
                            *pg,
                            *b,
                            self.index as int,
                        ) + square_moves(*g, *pg, *b, self.index as int));
                    }
                    self.index = self.index + 1;
                    self.current_piece = None;
                }
            }
        }
    }
}

impl Board {
    /// The board generator promises its sequence only for a well-formed
    /// board shaped like the game.
    pub open spec fn board_gen_requires(self, game: Game) -> bool {
        &&& self.wf()
        &&& self.width == game.width
        &&& self.height == game.height
    }
}

impl<'a> GenMoves<'a> for &'a Board {
    type Iter = BoardIter<'a>;

    open spec fn spec_moves(self, game: Game, pg: PartialGame) -> Option<Seq<Move>> {
        Some(board_moves(game, pg, *self))
    }

    open spec fn gen_requires(self, game: Game, pg: PartialGame) -> bool {
        self.board_gen_requires(game)
    }

    fn generate_moves(self, game: &'a Game, pg: &'a PartialGame) -> (r: Option<BoardIter<'a>>) {
        Some(BoardIter { board: self, game, partial_game: pg, index: 0, current_piece: None })
    }

    fn validate_move(self, game: &'a Game, pg: &'a PartialGame, mv: &Move) -> (r: bool) {
        proof {
            lemma_board_moves_membership(*game, *pg, *self, *mv);
        }
        if mv.from.l != self.l || mv.from.t != self.t {
            return false;
        }
        if !(0 <= mv.from.x && mv.from.x < self.width && 0 <= mv.from.y && mv.from.y
            < self.height) {
            return false;
        }
        match self.get(mv.from.x, mv.from.y) {
            None => false,
            Some(p) => {
                if p.white != self.white() {
                    false
                } else {
                    PiecePosition::new(p, mv.from).validate_move(game, pg, mv)
                }
            }
        }
    }
}

/// What it means for a move to belong to a board's move sequence: it starts
/// on the board, on a square the overlay shows an active-colour piece on,
/// and that piece's own move sequence holds it.
pub proof fn lemma_board_moves_membership(game: Game, pg: PartialGame, b: Board, m: Move)
    requires
        b.wf(),
    ensures
        board_moves(game, pg, b).contains(m) <==> {
            &&& m.from.l == b.l
            &&& m.from.t == b.t
            &&& 0 <= m.from.x < b.width
            &&& 0 <= m.from.y < b.height
            &&& match b.piece_at(m.from.x as int, m.from.y as int) {
                Some(p) => p.white == b.to_move_white() && match (PiecePosition {
                    piece: p,
                    coords: m.from,
                }).piece_spec_moves(game, pg) {
                    Some(s) => s.contains(m),
                    None => false,
                },
                None => false,
            }
        },
{
    let w = b.width as int;
    let h = b.height as int;
    if board_moves(game, pg, b).contains(m) {
        lemma_upto_source(game, pg, b, w * h, m);
        let i = choose|i: int| 0 <= i < w * h && #[trigger] square_moves(game, pg, b, i).contains(
            m,
        );
        assert(0 <= i % w < w && 0 <= i / w < h && (i / w) * w + i % w == i) by (nonlinear_arith)
            requires
                0 <= i < w * h,
                1 <= w,
                1 <= h,
        ;
        let p = b.pieces@[i]->Some_0;
        let c = coords_of(b, i);
        crate::rules::lemma_piece_moves_shape(game, pg, p, c, crate::rules::DIR_CODES as int);
        let s = square_moves(game, pg, b, i);
        let k = choose|k: int| 0 <= k < s.len() && s[k] == m;
        assert(m.from == c);
        assert(b.piece_at(m.from.x as int, m.from.y as int) == b.pieces@[i]);
    }
    if {
        &&& m.from.l == b.l
        &&& m.from.t == b.t
        &&& 0 <= m.from.x < b.width
        &&& 0 <= m.from.y < b.height
        &&& match b.piece_at(m.from.x as int, m.from.y as int) {
            Some(p) => p.white == b.to_move_white() && match (PiecePosition {
                piece: p,
                coords: m.from,
            }).piece_spec_moves(game, pg) {
                Some(s) => s.contains(m),
                None => false,
            },
            None => false,
        }
    } {
        let i = m.from.y as int * w + m.from.x as int;
        assert(0 <= i < w * h && i % w == m.from.x as int && i / w == m.from.y as int)
            by (nonlinear_arith)
            requires
                0 <= m.from.x < w,
                0 <= m.from.y < h,
                i == m.from.y as int * w + m.from.x as int,
        ;
        assert(coords_of(b, i) == m.from);
        let s = square_moves(game, pg, b, i);
        let k = choose|k: int| 0 <= k < s.len() && s[k] == m;
        lemma_upto_index(game, pg, b, i, k, w * h);
        assert(board_moves(game, pg, b)[board_moves_upto(game, pg, b, i).len() + k] == m);
        assert(board_moves(game, pg, b).contains(m));
    }
}

} // verus!
