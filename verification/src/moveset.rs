use vstd::prelude::*;

use crate::board_moves::board_moves;
use crate::board_moves::coords_of;
use crate::model::Board;
use crate::model::Coords;
use crate::model::Game;
use crate::model::Move;
use crate::model::PartialGame;
use crate::model::Piece;
use crate::model::PieceKind;
use crate::model::copy_squares;
use crate::model::find_board;
use crate::model::lemma_find_board_first;
use crate::model::lemma_find_board_spec;
use crate::model::piece_at_view;
use crate::model::unique_keys;
use crate::rules::piece_moves;
use crate::rules::compute_piece_moves;

verus! {

/// Why a candidate turn was rejected; never a generic failure.
#[derive(Clone, Copy, PartialEq, Eq, Structural, Debug)]
pub enum MovesetValidityErr {
    /// Some playable board is played zero or two times, or a board is
    /// targeted twice.
    DuplicateOrMissingBoard,
    /// A move targets a board that is not played this turn, so no resulting
    /// board could receive the piece.
    InconsistentTimeline,
    /// A move fails re-validation against its source board.
    IllegalMove,
    /// Applying the moves leaves a friendly king under attack somewhere in
    /// the multiverse.
    KingInCheck,
}

/// A candidate complete turn: one move per playable board.
pub struct Moveset {
    pub moves: Vec<Move>,
}

impl Moveset {
    pub fn new(moves: Vec<Move>) -> (r: Moveset)
        ensures
            r.moves@ == moves@,
    {
        Moveset { moves }
    }
}

/// (l, t) addresses a board the active player must play this turn: the
/// overlay shows it, the active player is to move on it, and no later board
/// supersedes it on its timeline.
pub open spec fn own_key(game: Game, pg: PartialGame, l: int, t: int) -> bool {
    &&& pg.board_at(game, l, t) is Some
    &&& pg.board_at(game, l, t)->Some_0.to_move_white() == game.active_white
    &&& pg.board_at(game, l, t + 1) is None
}

/// No two moves start on the same board.
pub open spec fn froms_distinct(ms: Seq<Move>) -> bool {
    forall|i: int, j: int|
        0 <= i < j < ms.len() ==> !(#[trigger] ms[i].from.l == #[trigger] ms[j].from.l
            && ms[i].from.t == ms[j].from.t)
}

/// No two moves target the same board.
pub open spec fn tos_distinct(ms: Seq<Move>) -> bool {
    forall|i: int, j: int|
        0 <= i < j < ms.len() ==> !(#[trigger] ms[i].to.l == #[trigger] ms[j].to.l && ms[i].to.t
            == ms[j].to.t)
}

/// Every move starts on a playable board.
pub open spec fn froms_own(game: Game, pg: PartialGame, ms: Seq<Move>) -> bool {
    forall|i: int|
        0 <= i < ms.len() ==> #[trigger] own_key(game, pg, ms[i].from.l as int, ms[i].from.t as int)
}

/// Every playable board is played.
pub open spec fn all_own_played(game: Game, pg: PartialGame, ms: Seq<Move>) -> bool {
    forall|l: int, t: int|
        #[trigger] own_key(game, pg, l, t) ==> exists|i: int|
            0 <= i < ms.len() && (#[trigger] ms[i].from.l as int) == l && ms[i].from.t as int == t
}

/// Step one of turn validation: every playable board played exactly once and
/// no board targeted twice.
pub open spec fn played_ok(game: Game, pg: PartialGame, ms: Seq<Move>) -> bool {
    &&& froms_distinct(ms)
    &&& tos_distinct(ms)
    &&& froms_own(game, pg, ms)
    &&& all_own_played(game, pg, ms)
}

/// Some move of the set starts on the board move i targets.
pub open spec fn target_played(ms: Seq<Move>, i: int) -> bool {
    exists|j: int|
        0 <= j < ms.len() && (#[trigger] ms[j].from.l) == ms[i].to.l && ms[j].from.t == ms[i].to.t
}

/// Every move targets a board that is itself played this turn, so the moved
/// piece has a resulting board to land on.
pub open spec fn targets_ok(ms: Seq<Move>) -> bool {
    forall|i: int| 0 <= i < ms.len() ==> #[trigger] target_played(ms, i)
}

/// Every move re-validates against its source board: the board the overlay
/// shows at the move's source address generates it.
pub open spec fn all_legal(game: Game, pg: PartialGame, ms: Seq<Move>) -> bool {
    forall|i: int|
        0 <= i < ms.len() ==> match pg.board_at(
            game,
            (#[trigger] ms[i]).from.l as int,
            ms[i].from.t as int,
        ) {
            Some(b) => board_moves(game, pg, b).contains(ms[i]),
            None => false,
        }
}

/// A king of this colour stands at c in the overlay.
pub open spec fn is_king_at(game: Game, pg: PartialGame, c: Coords, white: bool) -> bool {
    piece_at_view(game, pg, c.l as int, c.t as int, c.x as int, c.y as int) == Some(
        Piece { kind: PieceKind::King, white },
    )
}

/// The i-th candidate move of the piece at c ends on `target`.
pub open spec fn attacker_hits(
    game: Game,
    pg: PartialGame,
    q: Piece,
    c: Coords,
    i: int,
    target: Coords,
) -> bool {
    &&& piece_at_view(game, pg, c.l as int, c.t as int, c.x as int, c.y as int) == Some(q)
    &&& 0 <= i < piece_moves(game, pg, q, c).len()
    &&& piece_moves(game, pg, q, c)[i].to == target
}

/// Some piece of that colour, anywhere in the overlay, has a candidate move
/// onto `target`.
pub open spec fn square_attacked(game: Game, pg: PartialGame, target: Coords, by_white: bool) -> bool {
    exists|q: Piece, c: Coords, i: int|
        #[trigger] attacker_hits(game, pg, q, c, i, target) && q.white == by_white
}

/// A king of this colour is under attack on some board of some timeline.
pub open spec fn in_check(game: Game, pg: PartialGame, white: bool) -> bool {
    exists|c: Coords| #[trigger] is_king_at(game, pg, c, white) && square_attacked(game, pg, c, !white)
}

/// Every occupied square of this board is listed.
pub open spec fn board_squares_listed(b: Board, r: Seq<(Piece, Coords)>) -> bool {
    forall|idx: int|
        0 <= idx < b.pieces@.len() && b.pieces@[idx] is Some ==> r.contains(
            (b.pieces@[idx]->Some_0, #[trigger] coords_of(b, idx)),
        )
}

/// Every listed entry names a square the overlay really shows occupied.
pub open spec fn entries_sound(game: Game, pg: PartialGame, r: Seq<(Piece, Coords)>) -> bool {
    forall|k: int|
        0 <= k < r.len() ==> piece_at_view(
            game,
            pg,
            (#[trigger] r[k]).1.l as int,
            r[k].1.t as int,
            r[k].1.x as int,
            r[k].1.y as int,
        ) == Some(r[k].0)
}

/// Every occupied square of the overlay is listed.
pub open spec fn entries_complete(game: Game, pg: PartialGame, r: Seq<(Piece, Coords)>) -> bool {
    forall|q: Piece, c: Coords|
        piece_at_view(game, pg, c.l as int, c.t as int, c.x as int, c.y as int) == Some(q)
            ==> #[trigger] r.contains((q, c))
}

proof fn lemma_contains_push<T>(s: Seq<T>, x: T, e: T)
    requires
        s.contains(e),
    ensures
        s.push(x).contains(e),
{
    let k = choose|k: int| 0 <= k < s.len() && s[k] == e;
    assert(s.push(x)[k] == e);
}

proof fn lemma_listed_grow(b: Board, r1: Seq<(Piece, Coords)>, r2: Seq<(Piece, Coords)>)
    requires
        board_squares_listed(b, r1),
        r1.is_prefix_of(r2),
    ensures
        board_squares_listed(b, r2),
{
    assert forall|idx: int|
        0 <= idx < b.pieces@.len() && b.pieces@[idx] is Some implies r2.contains(
        (b.pieces@[idx]->Some_0, #[trigger] coords_of(b, idx)),
    ) by {
        let e = (b.pieces@[idx]->Some_0, coords_of(b, idx));
        let k = choose|k: int| 0 <= k < r1.len() && r1[k] == e;
        assert(r2[k] == e);
    }
}

/// A member of a sequence with unique keys is what the lookup by its own key
/// returns.
pub proof fn lemma_member_found(s: Seq<Board>, j: int)
    requires
        unique_keys(s),
        0 <= j < s.len(),
    ensures
        find_board(s, s[j].l as int, s[j].t as int) == Some(s[j]),
{
    lemma_find_board_first(s, s[j].l as int, s[j].t as int, j);
}

/// Lists every occupied square of one board, with its coordinates.
fn push_board_squares(game: &Game, pg: &PartialGame, b: &Board, r: &mut Vec<(Piece, Coords)>)
    requires
        game.wf(),
        pg.wf(*game),
        b.wf(),
        pg.board_at(*game, b.l as int, b.t as int) == Some(*b),
        entries_sound(*game, *pg, old(r)@),
    ensures
        entries_sound(*game, *pg, final(r)@),
        board_squares_listed(*b, final(r)@),
        old(r)@.is_prefix_of(final(r)@),
{
    let w = b.width;
    let h = b.height;
    let mut idx: usize = 0;
    while idx < b.pieces.len()
        invariant
            game.wf(),
            pg.wf(*game),
            b.wf(),
            w == b.width,
            h == b.height,
            pg.board_at(*game, b.l as int, b.t as int) == Some(*b),
            idx <= b.pieces@.len(),
            entries_sound(*game, *pg, r@),
            old(r)@.is_prefix_of(r@),
            forall|k: int|
                0 <= k < idx && b.pieces@[k] is Some ==> r@.contains(
                    (b.pieces@[k]->Some_0, #[trigger] coords_of(*b, k)),
                ),
        decreases b.pieces@.len() - idx,
    {
        proof {
            assert(b.pieces@.len() <= 0x10000) by (nonlinear_arith)
                requires
                    b.pieces@.len() == (b.width as int) * (b.height as int),
                    1 <= b.width <= 256,
                    1 <= b.height <= 256,
            ;
        }
        match b.pieces[idx] {
            Some(p) => {
                proof {
                    assert(0 <= (idx as int) % (w as int) < w && 0 <= (idx as int) / (w as int) < h
                        && ((idx as int) / (w as int)) * (w as int) + (idx as int) % (w as int)
                        == idx as int) by (nonlinear_arith)
                        requires
                            (idx as int) < (w as int) * (h as int),
                            1 <= w,
                            1 <= h,
                    ;
                }
                let x = (idx as i32) % w;
                let y = (idx as i32) / w;
                let c = Coords { l: b.l, t: b.t, x, y };
                proof {
                    assert(c == coords_of(*b, idx as int));
                    assert(b.piece_at(x as int, y as int) == b.pieces@[idx as int]);
                }
                let ghost r0 = r@;
                r.push((p, c));
                proof {
                    assert forall|k: int| 0 <= k < idx + 1 && b.pieces@[k] is Some implies r@
                        .contains((b.pieces@[k]->Some_0, #[trigger] coords_of(*b, k))) by {
                        if k < idx {
                            lemma_contains_push(r0, (p, c), (b.pieces@[k]->Some_0, coords_of(*b, k)));
                        } else {
                            assert(r@[r0.len() as int] == (p, c));
                        }
                    }
                }
            }
            None => {}
        }
        idx = idx + 1;
    }
}

/// Lists every occupied square the overlay shows, across every timeline:
/// first the overlay's own boards, then the baseline boards they do not
/// supersede.
fn collect_squares(game: &Game, pg: &PartialGame) -> (r: Vec<(Piece, Coords)>)
    requires
        game.wf(),
        pg.wf(*game),
    ensures
        entries_sound(*game, *pg, r@),
        entries_complete(*game, *pg, r@),
{
    let mut r: Vec<(Piece, Coords)> = Vec::new();
    let mut i: usize = 0;
    while i < pg.boards.len()
        invariant
            game.wf(),
            pg.wf(*game),
            i <= pg.boards@.len(),
            entries_sound(*game, *pg, r@),
            forall|j: int| 0 <= j < i ==> board_squares_listed(#[trigger] pg.boards@[j], r@),
        decreases pg.boards@.len() - i,
    {
        let b = &pg.boards[i];
        proof {
            lemma_member_found(pg.boards@, i as int);
        }
        let ghost r0 = r@;
        push_board_squares(game, pg, b, &mut r);
        proof {
            assert forall|j: int| 0 <= j < i + 1 implies board_squares_listed(
                #[trigger] pg.boards@[j],
                r@,
            ) by {
                if j < i {
                    lemma_listed_grow(pg.boards@[j], r0, r@);
                }
            }
        }
        i = i + 1;
    }
    let mut j: usize = 0;
    while j < game.boards.len()
        invariant
            game.wf(),
            pg.wf(*game),
            j <= game.boards@.len(),
            entries_sound(*game, *pg, r@),
            forall|k: int| 0 <= k < pg.boards@.len() ==> board_squares_listed(
                #[trigger] pg.boards@[k],
                r@,
            ),
            forall|k: int|
                0 <= k < j && find_board(
                    pg.boards@,
                    #[trigger] game.boards@[k].l as int,
                    game.boards@[k].t as int,
                ) is None ==> board_squares_listed(game.boards@[k], r@),
        decreases game.boards@.len() - j,
    {
        let b = &game.boards[j];
        if !pg.has_overlay_board(b.l, b.t) {
            proof {
                lemma_member_found(game.boards@, j as int);
            }
            let ghost r0 = r@;
            push_board_squares(game, pg, b, &mut r);
            proof {
                assert forall|k: int| 0 <= k < pg.boards@.len() implies board_squares_listed(
                    #[trigger] pg.boards@[k],
                    r@,
                ) by {
                    lemma_listed_grow(pg.boards@[k], r0, r@);
                }
                assert forall|k: int|
                    0 <= k < j + 1 && find_board(
                        pg.boards@,
                        #[trigger] game.boards@[k].l as int,
                        game.boards@[k].t as int,
                    ) is None implies board_squares_listed(game.boards@[k], r@) by {
                    if k < j {
                        lemma_listed_grow(game.boards@[k], r0, r@);
                    }
                }
            }
        }
        j = j + 1;
    }
    proof {
        assert forall|q: Piece, c: Coords|
            piece_at_view(*game, *pg, c.l as int, c.t as int, c.x as int, c.y as int) == Some(
                q,
            ) implies #[trigger] r@.contains((q, c)) by {
            let b = pg.board_at(*game, c.l as int, c.t as int)->Some_0;
            pg.lemma_board_at_wf(*game, c.l as int, c.t as int);
            lemma_find_board_spec(pg.boards@, c.l as int, c.t as int);
            lemma_find_board_spec(game.boards@, c.l as int, c.t as int);
            let idx = (c.y as int) * (b.width as int) + (c.x as int);
            assert(0 <= idx < (b.width as int) * (b.height as int) && idx % (b.width as int)
                == c.x as int && idx / (b.width as int) == c.y as int) by (nonlinear_arith)
                requires
                    0 <= (c.x as int) && (c.x as int) < (b.width as int),
                    0 <= (c.y as int) && (c.y as int) < (b.height as int),
                    idx == (c.y as int) * (b.width as int) + (c.x as int),
                    1 <= b.width,
                    1 <= b.height,
            ;
            assert(coords_of(b, idx) == c);
            assert(b.pieces@[idx] == Some(q));
            match find_board(pg.boards@, c.l as int, c.t as int) {
                Some(bb) => {
                    let k = choose|k: int|
                        0 <= k < pg.boards@.len() && pg.boards@[k] == bb && bb.l == c.l as int
                            && bb.t == c.t as int;
                    assert(board_squares_listed(pg.boards@[k], r@));
                }
                None => {
                    let k = choose|k: int|
                        0 <= k < game.boards@.len() && game.boards@[k] == b && b.l == c.l as int
                            && b.t == c.t as int;
                    assert(board_squares_listed(game.boards@[k], r@));
                }
            }
        }
    }
    r
}

/// Whether any piece of the given colour attacks `target`, scanning the
/// listed squares.
fn attacked_from(
    game: &Game,
    pg: &PartialGame,
    squares: &Vec<(Piece, Coords)>,
    target: Coords,
    by_white: bool,
) -> (r: bool)
    requires
        game.wf(),
        pg.wf(*game),
        entries_sound(*game, *pg, squares@),
        entries_complete(*game, *pg, squares@),
    ensures
        r == square_attacked(*game, *pg, target, by_white),
{
    let mut k: usize = 0;
    while k < squares.len()
        invariant
            game.wf(),
            pg.wf(*game),
            entries_sound(*game, *pg, squares@),
            entries_complete(*game, *pg, squares@),
            k <= squares@.len(),
            forall|k2: int, i: int|
                0 <= k2 < k && squares@[k2].0.white == by_white ==> !(#[trigger] attacker_hits(
                    *game,
                    *pg,
                    squares@[k2].0,
                    squares@[k2].1,
                    i,
                    target,
                )),
        decreases squares@.len() - k,
    {
        let (q, c) = squares[k];
        if q.white == by_white {
            let mvs = compute_piece_moves(game, pg, q, c);
            let mut n: usize = 0;
            while n < mvs.len()
                invariant
                    mvs@ == piece_moves(*game, *pg, q, c),
                    q.white == by_white,
                    piece_at_view(*game, *pg, c.l as int, c.t as int, c.x as int, c.y as int)
                        == Some(q),
                    n <= mvs@.len(),
                    forall|n2: int| 0 <= n2 < n ==> (#[trigger] mvs@[n2]).to != target,
                decreases mvs@.len() - n,
            {
                if mvs[n].to.l == target.l && mvs[n].to.t == target.t && mvs[n].to.x == target.x
                    && mvs[n].to.y == target.y {
                    proof {
                        assert(attacker_hits(*game, *pg, q, c, n as int, target));
                        assert(square_attacked(*game, *pg, target, by_white));
                    }
                    return true;
                }
                n = n + 1;
            }
        }
        k = k + 1;
    }
    proof {
        if square_attacked(*game, *pg, target, by_white) {
            let (q, c, i) = choose|q: Piece, c: Coords, i: int|
                #[trigger] attacker_hits(*game, *pg, q, c, i, target) && q.white == by_white;
            assert(squares@.contains((q, c)));
            let k2 = choose|k2: int| 0 <= k2 < squares@.len() && squares@[k2] == (q, c);
            assert(!attacker_hits(*game, *pg, q, c, i, target));
        }
    }
    false
}

/// Whether a king of the given colour is under attack anywhere in the
/// overlay.
pub fn in_check_exec(game: &Game, pg: &PartialGame, white: bool) -> (r: bool)
    requires
        game.wf(),
        pg.wf(*game),
    ensures
        r == in_check(*game, *pg, white),
{
    let squares = collect_squares(game, pg);
    let mut k: usize = 0;
    while k < squares.len()
        invariant
            game.wf(),
            pg.wf(*game),
            entries_sound(*game, *pg, squares@),
            entries_complete(*game, *pg, squares@),
            k <= squares@.len(),
            forall|k2: int|
                0 <= k2 < k ==> !((#[trigger] squares@[k2]).0 == (Piece {
                    kind: PieceKind::King,
                    white,
                }) && square_attacked(*game, *pg, squares@[k2].1, !white)),
        decreases squares@.len() - k,
    {
        let (q, c) = squares[k];
        if q.kind == PieceKind::King && q.white == white {
            if attacked_from(game, pg, &squares, c, !white) {
                proof {
                    assert(is_king_at(*game, *pg, c, white));
                }
                return true;
            }
        }
        k = k + 1;
    }
    proof {
        if in_check(*game, *pg, white) {
            let c = choose|c: Coords|
                #[trigger] is_king_at(*game, *pg, c, white) && square_attacked(
                    *game,
                    *pg,
                    c,
                    !white,
                );
            let q = Piece { kind: PieceKind::King, white };
            assert(squares@.contains((q, c)));
            let k2 = choose|k2: int| 0 <= k2 < squares@.len() && squares@[k2] == (q, c);
        }
    }
    false
}



/// A move's source square is exactly (l, t, x, y).
pub open spec fn move_leaves(m: Move, l: int, t: int, x: int, y: int) -> bool {
    m.from.l as int == l && m.from.t as int == t && m.from.x as int == x && m.from.y as int == y
}

/// A move's destination square is exactly (l, t, x, y).
pub open spec fn move_lands(m: Move, l: int, t: int, x: int, y: int) -> bool {
    m.to.l as int == l && m.to.t as int == t && m.to.x as int == x && m.to.y as int == y
}

/// The occupant of one square of a played board's successor: a piece landing
/// there wins, a piece leaving empties the square, everything else stays.
pub open spec fn applied_square(ms: Seq<Move>, b: Board, idx: int) -> Option<Piece> {
    let x = idx % (b.width as int);
    let y = idx / (b.width as int);
    if exists|i: int| 0 <= i < ms.len() && move_lands(#[trigger] ms[i], b.l as int, b.t as int, x, y) {
        let i = choose|i: int|
            0 <= i < ms.len() && move_lands(#[trigger] ms[i], b.l as int, b.t as int, x, y);
        Some(ms[i].piece)
    } else if exists|i: int|
        0 <= i < ms.len() && move_leaves(#[trigger] ms[i], b.l as int, b.t as int, x, y) {
        None
    } else {
        b.pieces@[idx]
    }
}

/// The full grid of a played board's successor.
pub open spec fn applied_pieces(ms: Seq<Move>, b: Board) -> Seq<Option<Piece>> {
    Seq::new(b.pieces@.len(), |idx: int| applied_square(ms, b, idx))
}

/// nb is the successor the moveset produces for the played board b: same
/// timeline, next turn, and the applied grid.
pub open spec fn successor_of(ms: Seq<Move>, b: Board, nb: Board) -> bool {
    &&& nb.l == b.l
    &&& nb.t == b.t + 1
    &&& nb.width == b.width
    &&& nb.height == b.height
    &&& nb.pieces@ == applied_pieces(ms, b)
}

/// The baseline boards the overlay does not supersede, in baseline order.
pub open spec fn unshadowed(pgb: Seq<Board>, s: Seq<Board>) -> Seq<Board>
    decreases s.len(),
{
    if s.len() == 0 {
        Seq::empty()
    } else {
        unshadowed(pgb, s.drop_last()) + if find_board(
            pgb,
            s.last().l as int,
            s.last().t as int,
        ) is None {
            seq![s.last()]
        } else {
            seq![]
        }
    }
}

/// The boards of s the active player must play, in order.
pub open spec fn own_filter(game: Game, pg: PartialGame, s: Seq<Board>) -> Seq<Board>
    decreases s.len(),
{
    if s.len() == 0 {
        Seq::empty()
    } else {
        own_filter(game, pg, s.drop_last()) + if own_key(
            game,
            pg,
            s.last().l as int,
            s.last().t as int,
        ) {
            seq![s.last()]
        } else {
            seq![]
        }
    }
}

/// The playable boards of the overlay, in a fixed order: the overlay's own
/// playable boards first, then the playable baseline boards it does not
/// supersede.
pub open spec fn own_boards_seq(game: Game, pg: PartialGame) -> Seq<Board> {
    own_filter(game, pg, pg.boards@) + own_filter(game, pg, unshadowed(pg.boards@, game.boards@))
}

proof fn lemma_own_filter_sub(game: Game, pg: PartialGame, s: Seq<Board>)
    ensures
        forall|k: int|
            0 <= k < own_filter(game, pg, s).len() ==> s.contains(
                #[trigger] own_filter(game, pg, s)[k],
            ) && own_key(
                game,
                pg,
                own_filter(game, pg, s)[k].l as int,
                own_filter(game, pg, s)[k].t as int,
            ),
    decreases s.len(),
{
    if s.len() > 0 {
        lemma_own_filter_sub(game, pg, s.drop_last());
        assert forall|k: int| 0 <= k < own_filter(game, pg, s).len() implies s.contains(
            #[trigger] own_filter(game, pg, s)[k],
        ) && own_key(
            game,
            pg,
            own_filter(game, pg, s)[k].l as int,
            own_filter(game, pg, s)[k].t as int,
        ) by {
            let f0 = own_filter(game, pg, s.drop_last());
            if k < f0.len() {
                assert(s.drop_last().contains(f0[k]));
                let j = choose|j: int| 0 <= j < s.drop_last().len() && s.drop_last()[j] == f0[k];
                assert(s[j] == f0[k]);
            } else {
                assert(own_filter(game, pg, s)[k] == s.last());
                assert(s[s.len() - 1] == s.last());
            }
        }
    }
}

proof fn lemma_own_filter_complete(game: Game, pg: PartialGame, s: Seq<Board>, j: int)
    requires
        0 <= j < s.len(),
        own_key(game, pg, s[j].l as int, s[j].t as int),
    ensures
        own_filter(game, pg, s).contains(s[j]),
    decreases s.len(),
{
    if j == s.len() - 1 {
        let f = own_filter(game, pg, s);
        assert(f[f.len() - 1] == s.last());
    } else {
        lemma_own_filter_complete(game, pg, s.drop_last(), j);
        let f0 = own_filter(game, pg, s.drop_last());
        let k = choose|k: int| 0 <= k < f0.len() && f0[k] == s.drop_last()[j];
        assert(own_filter(game, pg, s)[k] == s[j]);
    }
}

proof fn lemma_unshadowed_sub(pgb: Seq<Board>, s: Seq<Board>)
    ensures
        forall|k: int|
            0 <= k < unshadowed(pgb, s).len() ==> s.contains(#[trigger] unshadowed(pgb, s)[k])
                && find_board(
                pgb,
                unshadowed(pgb, s)[k].l as int,
                unshadowed(pgb, s)[k].t as int,
            ) is None,
    decreases s.len(),
{
    if s.len() > 0 {
        lemma_unshadowed_sub(pgb, s.drop_last());
        assert forall|k: int| 0 <= k < unshadowed(pgb, s).len() implies s.contains(
            #[trigger] unshadowed(pgb, s)[k],
        ) && find_board(
            pgb,
            unshadowed(pgb, s)[k].l as int,
            unshadowed(pgb, s)[k].t as int,
        ) is None by {
            let f0 = unshadowed(pgb, s.drop_last());
            if k < f0.len() {
                assert(s.drop_last().contains(f0[k]));
                let j = choose|j: int| 0 <= j < s.drop_last().len() && s.drop_last()[j] == f0[k];
                assert(s[j] == f0[k]);
            } else {
                assert(unshadowed(pgb, s)[k] == s.last());
                assert(s[s.len() - 1] == s.last());
            }
        }
    }
}

proof fn lemma_unshadowed_complete(pgb: Seq<Board>, s: Seq<Board>, j: int)
    requires
        0 <= j < s.len(),
        find_board(pgb, s[j].l as int, s[j].t as int) is None,
    ensures
        unshadowed(pgb, s).contains(s[j]),
    decreases s.len(),
{
    if j == s.len() - 1 {
        let f = unshadowed(pgb, s);
        assert(f[f.len() - 1] == s.last());
    } else {
        lemma_unshadowed_complete(pgb, s.drop_last(), j);
        let f0 = unshadowed(pgb, s.drop_last());
        let k = choose|k: int| 0 <= k < f0.len() && f0[k] == s.drop_last()[j];
        assert(unshadowed(pgb, s)[k] == s[j]);
    }
}

/// What the canonical playable-board list holds: playable boards only, each
/// the board the overlay shows at its address, every playable address
/// represented, and no address twice.
pub proof fn lemma_own_boards_seq(game: Game, pg: PartialGame)
    requires
        game.wf(),
        pg.wf(game),
    ensures
        forall|k: int|
            0 <= k < own_boards_seq(game, pg).len() ==> own_key(
                game,
                pg,
                (#[trigger] own_boards_seq(game, pg)[k]).l as int,
                own_boards_seq(game, pg)[k].t as int,
            ) && pg.board_at(
                game,
                own_boards_seq(game, pg)[k].l as int,
                own_boards_seq(game, pg)[k].t as int,
            ) == Some(own_boards_seq(game, pg)[k]),
        forall|l: int, t: int|
            #[trigger] own_key(game, pg, l, t) ==> exists|k: int|
                0 <= k < own_boards_seq(game, pg).len() && (#[trigger] own_boards_seq(
                    game,
                    pg,
                )[k]).l as int == l && own_boards_seq(game, pg)[k].t as int == t,
        unique_keys(own_boards_seq(game, pg)),
{
    let f1 = own_filter(game, pg, pg.boards@);
    let fu = unshadowed(pg.boards@, game.boards@);
    let f2 = own_filter(game, pg, fu);
    let f = own_boards_seq(game, pg);
    lemma_own_filter_sub(game, pg, pg.boards@);
    lemma_own_filter_sub(game, pg, fu);
    lemma_unshadowed_sub(pg.boards@, game.boards@);
    // every listed board is the overlay's board at its own address
    assert forall|k: int| 0 <= k < f.len() implies own_key(
        game,
        pg,
        (#[trigger] f[k]).l as int,
        f[k].t as int,
    ) && pg.board_at(game, f[k].l as int, f[k].t as int) == Some(f[k]) by {
        if k < f1.len() {
            let b = f1[k];
            let j = choose|j: int| 0 <= j < pg.boards@.len() && pg.boards@[j] == b;
            lemma_member_found(pg.boards@, j);
        } else {
            let b = f2[k - f1.len()];
            assert(fu.contains(b));
            let j2 = choose|j2: int| 0 <= j2 < fu.len() && fu[j2] == b;
            assert(game.boards@.contains(b));
            let j = choose|j: int| 0 <= j < game.boards@.len() && game.boards@[j] == b;
            lemma_member_found(game.boards@, j);
        }
    }
    // every playable address is listed
    assert forall|l: int, t: int| #[trigger] own_key(game, pg, l, t) implies exists|k: int|
        0 <= k < f.len() && (#[trigger] f[k]).l as int == l && f[k].t as int == t by {
        let b = pg.board_at(game, l, t)->Some_0;
        pg.lemma_board_at_wf(game, l, t);
        lemma_find_board_spec(pg.boards@, l, t);
        lemma_find_board_spec(game.boards@, l, t);
        match find_board(pg.boards@, l, t) {
            Some(bb) => {
                let j = choose|j: int|
                    0 <= j < pg.boards@.len() && pg.boards@[j] == bb && bb.l == l && bb.t == t;
                lemma_own_filter_complete(game, pg, pg.boards@, j);
                let k = choose|k: int| 0 <= k < f1.len() && f1[k] == bb;
                assert(f[k] == bb);
            }
            None => {
                let j = choose|j: int|
                    0 <= j < game.boards@.len() && game.boards@[j] == b && b.l == l && b.t == t;
                lemma_unshadowed_complete(pg.boards@, game.boards@, j);
                let j2 = choose|j2: int| 0 <= j2 < fu.len() && fu[j2] == b;
                lemma_own_filter_complete(game, pg, fu, j2);
                let k2 = choose|k2: int| 0 <= k2 < f2.len() && f2[k2] == b;
                assert(f[f1.len() + k2] == b);
            }
        }
    }
    // no address twice
    assert forall|k1: int, k2: int| 0 <= k1 < k2 < f.len() implies !(#[trigger] f[k1].l
        == #[trigger] f[k2].l && f[k1].t == f[k2].t) by {
        let b1 = f[k1];
        let b2 = f[k2];
        if k1 < f1.len() && k2 < f1.len() {
            let j1 = choose|j: int| 0 <= j < pg.boards@.len() && pg.boards@[j] == b1;
            let j2 = choose|j: int| 0 <= j < pg.boards@.len() && pg.boards@[j] == b2;
            lemma_member_found(pg.boards@, j1);
            lemma_member_found(pg.boards@, j2);
            if b1.l == b2.l && b1.t == b2.t {
                assert(find_board(pg.boards@, b1.l as int, b1.t as int) == Some(b1));
                assert(find_board(pg.boards@, b2.l as int, b2.t as int) == Some(b2));
                assert(b1 == b2);
                // two positions of the filter holding one board of a
                // unique-keyed source cannot both arise
                lemma_own_filter_distinct(game, pg, pg.boards@, k1, k2);
            }
        } else if k1 < f1.len() && k2 >= f1.len() {
            assert(pg.boards@.contains(b1));
            let j1 = choose|j: int| 0 <= j < pg.boards@.len() && pg.boards@[j] == b1;
            lemma_member_found(pg.boards@, j1);
            assert(fu.contains(b2));
            let j2 = choose|j2: int| 0 <= j2 < fu.len() && fu[j2] == b2;
            if b1.l == b2.l && b1.t == b2.t {
                assert(find_board(pg.boards@, b2.l as int, b2.t as int) == Some(b1));
            }
        } else {
            assert(fu.contains(b1) && fu.contains(b2));
            let j1 = choose|j: int| 0 <= j < fu.len() && fu[j] == b1;
            let j2 = choose|j: int| 0 <= j < fu.len() && fu[j] == b2;
            assert(game.boards@.contains(b1) && game.boards@.contains(b2));
            let g1 = choose|j: int| 0 <= j < game.boards@.len() && game.boards@[j] == b1;
            let g2 = choose|j: int| 0 <= j < game.boards@.len() && game.boards@[j] == b2;
            lemma_member_found(game.boards@, g1);
            lemma_member_found(game.boards@, g2);
            if b1.l == b2.l && b1.t == b2.t {
                assert(b1 == b2);
                lemma_unshadowed_unique(pg.boards@, game.boards@);
                lemma_own_filter_distinct(game, pg, fu, k1 - f1.len(), k2 - f1.len());
            }
        }
    }
}

/// Dropping shadowed boards keeps addresses unique.
proof fn lemma_unshadowed_unique(pgb: Seq<Board>, s: Seq<Board>)
    requires
        unique_keys(s),
    ensures
        unique_keys(unshadowed(pgb, s)),
    decreases s.len(),
{
    if s.len() > 0 {
        assert(unique_keys(s.drop_last())) by {
            assert(forall|i: int, j: int|
                0 <= i < j < s.drop_last().len() ==> s.drop_last()[i] == s[i] && s.drop_last()[j]
                    == s[j]);
        }
        lemma_unshadowed_unique(pgb, s.drop_last());
        lemma_unshadowed_sub(pgb, s.drop_last());
        let f = unshadowed(pgb, s);
        let f0 = unshadowed(pgb, s.drop_last());
        assert forall|k1: int, k2: int| 0 <= k1 < k2 < f.len() implies !(#[trigger] f[k1].l
            == #[trigger] f[k2].l && f[k1].t == f[k2].t) by {
            if k2 >= f0.len() {
                assert(f[k2] == s.last());
                assert(s.drop_last().contains(f0[k1]));
                let j = choose|j: int| 0 <= j < s.drop_last().len() && s.drop_last()[j] == f0[k1];
                assert(s[j] == f0[k1]);
                assert(s[s.len() - 1] == s.last());
            }
        }
    }
}

/// One board of a unique-keyed source appears at most once in the filter.
proof fn lemma_own_filter_distinct(game: Game, pg: PartialGame, s: Seq<Board>, k1: int, k2: int)
    requires
        unique_keys(s),
        0 <= k1 < k2 < own_filter(game, pg, s).len(),
    ensures
        !(own_filter(game, pg, s)[k1].l == own_filter(game, pg, s)[k2].l && own_filter(
            game,
            pg,
            s,
        )[k1].t == own_filter(game, pg, s)[k2].t),
    decreases s.len(),
{
    let f = own_filter(game, pg, s);
    let f0 = own_filter(game, pg, s.drop_last());
    assert(s.len() > 0);
    assert(unique_keys(s.drop_last())) by {
        assert(forall|i: int, j: int|
            0 <= i < j < s.drop_last().len() ==> s.drop_last()[i] == s[i] && s.drop_last()[j]
                == s[j]);
    }
    if k2 < f0.len() {
        lemma_own_filter_distinct(game, pg, s.drop_last(), k1, k2);
    } else {
        // k2 names the last element of s; k1 names a board of s.drop_last()
        assert(f[k2] == s.last());
        lemma_own_filter_sub(game, pg, s.drop_last());
        assert(s.drop_last().contains(f0[k1]));
        let j = choose|j: int| 0 <= j < s.drop_last().len() && s.drop_last()[j] == f0[k1];
        assert(s[j] == f0[k1]);
        assert(s[s.len() - 1] == s.last());
    }
}

/// Two overlays that list, board for board, boards with equal fields.
pub open spec fn similar_pg(p1: PartialGame, p2: PartialGame) -> bool {
    &&& p1.boards@.len() == p2.boards@.len()
    &&& forall|j: int|
        0 <= j < p1.boards@.len() ==> (#[trigger] p1.boards@[j]).same_as(p2.boards@[j])
}

proof fn lemma_find_congr(s1: Seq<Board>, s2: Seq<Board>, l: int, t: int)
    requires
        s1.len() == s2.len(),
        forall|j: int| 0 <= j < s1.len() ==> (#[trigger] s1[j]).same_as(s2[j]),
    ensures
        match (find_board(s1, l, t), find_board(s2, l, t)) {
            (Some(a), Some(b)) => a.same_as(b),
            (None, None) => true,
            _ => false,
        },
    decreases s1.len(),
{
    if s1.len() > 0 {
        assert(s1[0].same_as(s2[0]));
        if !(s1[0].l == l && s1[0].t == t) {
            assert(forall|j: int|
                0 <= j < s1.drop_first().len() ==> (#[trigger] s1.drop_first()[j]) == s1[j + 1]
                    && s2.drop_first()[j] == s2[j + 1]);
            lemma_find_congr(s1.drop_first(), s2.drop_first(), l, t);
        }
    }
}

proof fn lemma_view_congr(game: Game, p1: PartialGame, p2: PartialGame, l: int, t: int)
    requires
        similar_pg(p1, p2),
    ensures
        p1.board_at(game, l, t) is Some <==> p2.board_at(game, l, t) is Some,
        p1.board_at(game, l, t) is Some ==> p1.board_at(game, l, t)->Some_0.same_as(
            p2.board_at(game, l, t)->Some_0,
        ),
        forall|x: int, y: int|
            piece_at_view(game, p1, l, t, x, y) == piece_at_view(game, p2, l, t, x, y),
{
    lemma_find_congr(p1.boards@, p2.boards@, l, t);
}

proof fn lemma_piece_moves_upto_congr(
    game: Game,
    p1: PartialGame,
    p2: PartialGame,
    q: Piece,
    c: Coords,
    n: int,
)
    requires
        similar_pg(p1, p2),
    ensures
        crate::rules::piece_moves_upto(game, p1, q, c, n) == crate::rules::piece_moves_upto(
            game,
            p2,
            q,
            c,
            n,
        ),
    decreases n,
{
    if n > 0 {
        lemma_piece_moves_upto_congr(game, p1, p2, q, c, n - 1);
        let to = crate::rules::dest_of(c, n - 1);
        lemma_view_congr(game, p1, p2, to.l as int, to.t as int);
        assert(crate::rules::move_at(game, p1, q, c, n - 1) == crate::rules::move_at(
            game,
            p2,
            q,
            c,
            n - 1,
        ));
    }
}

proof fn lemma_in_check_mono(game: Game, pa: PartialGame, pb: PartialGame, white: bool)
    requires
        similar_pg(pa, pb),
        in_check(game, pa, white),
    ensures
        in_check(game, pb, white),
{
    let c = choose|c: Coords|
        #[trigger] is_king_at(game, pa, c, white) && square_attacked(game, pa, c, !white);
    lemma_view_congr(game, pa, pb, c.l as int, c.t as int);
    assert(is_king_at(game, pb, c, white));
    let (q, ac, i) = choose|q: Piece, ac: Coords, i: int|
        #[trigger] attacker_hits(game, pa, q, ac, i, c) && q.white == !white;
    lemma_view_congr(game, pa, pb, ac.l as int, ac.t as int);
    lemma_piece_moves_upto_congr(game, pa, pb, q, ac, crate::rules::DIR_CODES as int);
    assert(attacker_hits(game, pb, q, ac, i, c));
    assert(square_attacked(game, pb, c, !white));
}

/// Overlays that agree board for board agree on check.
pub proof fn lemma_in_check_congr(game: Game, p1: PartialGame, p2: PartialGame, white: bool)
    requires
        similar_pg(p1, p2),
    ensures
        in_check(game, p1, white) == in_check(game, p2, white),
{
    assert(similar_pg(p2, p1));
    if in_check(game, p1, white) {
        lemma_in_check_mono(game, p1, p2, white);
    }
    if in_check(game, p2, white) {
        lemma_in_check_mono(game, p2, p1, white);
    }
}

/// What the overlay an accepted moveset produces looks like: the parent's
/// boards kept unchanged, then exactly one successor for each playable
/// board, in the canonical playable order.
pub open spec fn result_shape(game: Game, pg: PartialGame, ms: Seq<Move>, npg: PartialGame) -> bool {
    let own = own_boards_seq(game, pg);
    &&& npg.boards@.len() == pg.boards@.len() + own.len()
    &&& forall|j: int|
        0 <= j < pg.boards@.len() ==> (#[trigger] npg.boards@[j]).same_as(pg.boards@[j])
    &&& forall|k: int|
        0 <= k < own.len() ==> successor_of(
            ms,
            own[k],
            #[trigger] npg.boards@[pg.boards@.len() + k],
        )
}

/// Applying the moveset would leave a friendly king attacked somewhere.
pub open spec fn applied_in_check(game: Game, pg: PartialGame, ms: Seq<Move>) -> bool {
    exists|npg: PartialGame|
        #[trigger] result_shape(game, pg, ms, npg) && npg.wf(game) && in_check(
            game,
            npg,
            game.active_white,
        )
}

/// Two overlays of the shape an accepted moveset produces agree board for
/// board.
pub proof fn lemma_shape_similar(
    game: Game,
    pg: PartialGame,
    ms: Seq<Move>,
    n1: PartialGame,
    n2: PartialGame,
)
    requires
        result_shape(game, pg, ms, n1),
        result_shape(game, pg, ms, n2),
    ensures
        similar_pg(n1, n2),
{
    assert forall|j: int| 0 <= j < n1.boards@.len() implies (#[trigger] n1.boards@[j]).same_as(
        n2.boards@[j],
    ) by {
        if j < pg.boards@.len() {
        } else {
            let k = j - pg.boards@.len();
            assert(successor_of(
                ms,
                own_boards_seq(game, pg)[k],
                n1.boards@[pg.boards@.len() + k],
            ));
            assert(successor_of(
                ms,
                own_boards_seq(game, pg)[k],
                n2.boards@[pg.boards@.len() + k],
            ));
        }
    }
}

proof fn lemma_square_index(w: int, h: int, idx: int)
    requires
        1 <= w,
        1 <= h,
        0 <= idx < w * h,
    ensures
        0 <= idx % w < w,
        0 <= idx / w < h,
        (idx / w) * w + idx % w == idx,
    decreases 0int,
{
    assert(0 <= idx % w < w && 0 <= idx / w < h && (idx / w) * w + idx % w == idx)
        by (nonlinear_arith)
        requires
            1 <= w,
            1 <= h,
            0 <= idx < w * h,
    ;
}

proof fn lemma_square_xy(w: int, h: int, x: int, y: int)
    requires
        1 <= w <= 256,
        1 <= h <= 256,
        0 <= x < w,
        0 <= y < h,
    ensures
        0 <= y * w + x < w * h,
        w * h <= 0x10000,
        (y * w + x) % w == x,
        (y * w + x) / w == y,
    decreases 0int,
{
    assert(0 <= y * w + x < w * h && w * h <= 0x10000 && (y * w + x) % w == x && (y * w + x) / w
        == y) by (nonlinear_arith)
        requires
            1 <= w <= 256,
            1 <= h <= 256,
            0 <= x < w,
            0 <= y < h,
    ;
}

/// Whether the active player must play the board at (l, t).
pub fn is_own_key_exec(game: &Game, pg: &PartialGame, l: i32, t: i32) -> (r: bool)
    requires
        game.wf(),
        pg.wf(*game),
    ensures
        r == own_key(*game, *pg, l as int, t as int),
{
    match pg.get_board(game, l, t) {
        None => false,
        Some(b) => {
            proof {
                pg.lemma_board_at_wf(*game, l as int, t as int);
            }
            if b.white() == game.active_white {
                match pg.get_board(game, l, t + 1) {
                    None => true,
                    Some(_) => false,
                }
            } else {
                false
            }
        }
    }
}

fn check_froms_distinct(ms: &Vec<Move>) -> (r: bool)
    ensures
        r == froms_distinct(ms@),
{
    let mut i: usize = 0;
    while i < ms.len()
        invariant
            i <= ms@.len(),
            forall|a: int, b: int|
                0 <= a < b < ms@.len() && a < i ==> !(#[trigger] ms@[a].from.l
                    == #[trigger] ms@[b].from.l && ms@[a].from.t == ms@[b].from.t),
        decreases ms@.len() - i,
    {
        let mut j: usize = i + 1;
        while j < ms.len()
            invariant
                i < j <= ms@.len() || (i + 1 == j && j >= ms@.len()),
                i < ms@.len(),
                forall|b: int|
                    i < b < j ==> !(#[trigger] ms@[i as int].from.l == #[trigger] ms@[b].from.l
                        && ms@[i as int].from.t == ms@[b].from.t),
            decreases ms@.len() - j,
        {
            if ms[i].from.l == ms[j].from.l && ms[i].from.t == ms[j].from.t {
                proof {
                    assert(ms@[i as int].from.l == ms@[j as int].from.l);
                    assert(!froms_distinct(ms@));
                }
                return false;
            }
            j = j + 1;
        }
        i = i + 1;
    }
    true
}

fn check_tos_distinct(ms: &Vec<Move>) -> (r: bool)
    ensures
        r == tos_distinct(ms@),
{
    let mut i: usize = 0;
    while i < ms.len()
        invariant
            i <= ms@.len(),
            forall|a: int, b: int|
                0 <= a < b < ms@.len() && a < i ==> !(#[trigger] ms@[a].to.l
                    == #[trigger] ms@[b].to.l && ms@[a].to.t == ms@[b].to.t),
        decreases ms@.len() - i,
    {
        let mut j: usize = i + 1;
        while j < ms.len()
            invariant
                i < j <= ms@.len() || (i + 1 == j && j >= ms@.len()),
                i < ms@.len(),
                forall|b: int|
                    i < b < j ==> !(#[trigger] ms@[i as int].to.l == #[trigger] ms@[b].to.l
                        && ms@[i as int].to.t == ms@[b].to.t),
            decreases ms@.len() - j,
        {
            if ms[i].to.l == ms[j].to.l && ms[i].to.t == ms[j].to.t {
                proof {
                    assert(ms@[i as int].to.l == ms@[j as int].to.l);
                    assert(!tos_distinct(ms@));
                }
                return false;
            }
            j = j + 1;
        }
        i = i + 1;
    }
    true
}

fn check_froms_own(game: &Game, pg: &PartialGame, ms: &Vec<Move>) -> (r: bool)
    requires
        game.wf(),
        pg.wf(*game),
    ensures
        r == froms_own(*game, *pg, ms@),
{
    let mut i: usize = 0;
    while i < ms.len()
        invariant
            game.wf(),
            pg.wf(*game),
            i <= ms@.len(),
            forall|a: int|
                0 <= a < i ==> #[trigger] own_key(
                    *game,
                    *pg,
                    ms@[a].from.l as int,
                    ms@[a].from.t as int,
                ),
        decreases ms@.len() - i,
    {
        if !is_own_key_exec(game, pg, ms[i].from.l, ms[i].from.t) {
            return false;
        }
        i = i + 1;
    }
    true
}

fn check_all_own_played(game: &Game, pg: &PartialGame, ms: &Vec<Move>, own: &Vec<(i32, i32)>) -> (r:
    bool)
    requires
        game.wf(),
        pg.wf(*game),
        forall|k: int|
            0 <= k < own@.len() ==> own_key(
                *game,
                *pg,
                (#[trigger] own@[k]).0 as int,
                own@[k].1 as int,
            ),
        forall|l: int, t: int|
            #[trigger] own_key(*game, *pg, l, t) ==> exists|k: int|
                0 <= k < own@.len() && ((#[trigger] own@[k]).0 as int) == l && (own@[k].1 as int)
                    == t,
    ensures
        r == all_own_played(*game, *pg, ms@),
{
    let mut k: usize = 0;
    while k < own.len()
        invariant
            game.wf(),
            pg.wf(*game),
            k <= own@.len(),
            forall|k2: int|
                0 <= k2 < own@.len() ==> own_key(
                    *game,
                    *pg,
                    (#[trigger] own@[k2]).0 as int,
                    own@[k2].1 as int,
                ),
            forall|l: int, t: int|
                #[trigger] own_key(*game, *pg, l, t) ==> exists|k2: int|
                    0 <= k2 < own@.len() && ((#[trigger] own@[k2]).0 as int) == l && (own@[k2].1
                        as int) == t,
            forall|k2: int|
                0 <= k2 < k ==> exists|i: int|
                    0 <= i < ms@.len() && (#[trigger] ms@[i].from.l) == (#[trigger] own@[k2]).0
                        && ms@[i].from.t == own@[k2].1,
        decreases own@.len() - k,
    {
        let (l, t) = own[k];
        let mut i: usize = 0;
        let mut found = false;
        while i < ms.len()
            invariant
                i <= ms@.len(),
                l == own@[k as int].0,
                t == own@[k as int].1,
                found ==> exists|i2: int|
                    0 <= i2 < ms@.len() && (#[trigger] ms@[i2].from.l) == l && ms@[i2].from.t == t,
                !found ==> forall|i2: int|
                    0 <= i2 < i ==> !((#[trigger] ms@[i2].from.l) == l && ms@[i2].from.t == t),
            decreases ms@.len() - i,
        {
            if ms[i].from.l == l && ms[i].from.t == t {
                found = true;
                proof {
                    assert(ms@[i as int].from.l == l);
                }
            }
            i = i + 1;
        }
        if !found {
            proof {
                assert(own_key(*game, *pg, own@[k as int].0 as int, own@[k as int].1 as int));
                assert(!all_own_played(*game, *pg, ms@)) by {
                    let bl = own@[k as int].0 as int;
                    let bt = own@[k as int].1 as int;
                    if all_own_played(*game, *pg, ms@) {
                        assert(own_key(*game, *pg, bl, bt));
                        let i2 = choose|i2: int|
                            0 <= i2 < ms@.len() && ((#[trigger] ms@[i2].from.l) as int) == bl && (
                            ms@[i2].from.t as int) == bt;
                        assert(false);
                    }
                }
            }
            return false;
        }
        k = k + 1;
    }
    proof {
        assert forall|l: int, t: int| #[trigger] own_key(*game, *pg, l, t) implies exists|i: int|
            0 <= i < ms@.len() && ((#[trigger] ms@[i].from.l) as int) == l && (ms@[i].from.t
            as int) == t by {
            let k2 = choose|k2: int|
                0 <= k2 < own@.len() && ((#[trigger] own@[k2]).0 as int) == l && (own@[k2].1
                    as int) == t;
            let i2 = choose|i2: int|
                0 <= i2 < ms@.len() && (#[trigger] ms@[i2].from.l) == own@[k2].0 && ms@[i2].from.t
                    == own@[k2].1;
            assert(((ms@[i2].from.l) as int) == l && (ms@[i2].from.t as int) == t);
        }
    }
    true
}

fn check_targets(ms: &Vec<Move>) -> (r: bool)
    ensures
        r == targets_ok(ms@),
{
    let mut i: usize = 0;
    while i < ms.len()
        invariant
            i <= ms@.len(),
            forall|a: int| 0 <= a < i ==> #[trigger] target_played(ms@, a),
        decreases ms@.len() - i,
    {
        let mut j: usize = 0;
        let mut found = false;
        while j < ms.len()
            invariant
                j <= ms@.len(),
                i < ms@.len(),
                found ==> target_played(ms@, i as int),
                !found ==> forall|j2: int|
                    0 <= j2 < j ==> !((#[trigger] ms@[j2].from.l) == ms@[i as int].to.l
                        && ms@[j2].from.t == ms@[i as int].to.t),
            decreases ms@.len() - j,
        {
            if ms[j].from.l == ms[i].to.l && ms[j].from.t == ms[i].to.t {
                found = true;
                proof {
                    assert(ms@[j as int].from.l == ms@[i as int].to.l);
                    assert(target_played(ms@, i as int));
                }
            }
            j = j + 1;
        }
        if !found {
            proof {
                assert(!target_played(ms@, i as int)) by {
                    if target_played(ms@, i as int) {
                        let j2 = choose|j2: int|
                            0 <= j2 < ms@.len() && (#[trigger] ms@[j2].from.l) == ms@[i as int].to.l
                                && ms@[j2].from.t == ms@[i as int].to.t;
                        assert(false);
                    }
                }
            }
            return false;
        }
        i = i + 1;
    }
    true
}

fn check_legal(game: &Game, pg: &PartialGame, ms: &Vec<Move>) -> (r: bool)
    requires
        game.wf(),
        pg.wf(*game),
        froms_own(*game, *pg, ms@),
    ensures
        r == all_legal(*game, *pg, ms@),
{
    let mut i: usize = 0;
    while i < ms.len()
        invariant
            game.wf(),
            pg.wf(*game),
            froms_own(*game, *pg, ms@),
            i <= ms@.len(),
            forall|a: int|
                0 <= a < i ==> match pg.board_at(
                    *game,
                    ((#[trigger] ms@[a]).from.l) as int,
                    (ms@[a].from.t) as int,
                ) {
                    Some(b) => board_moves(*game, *pg, b).contains(ms@[a]),
                    None => false,
                },
        decreases ms@.len() - i,
    {
        let mv = ms[i];
        match pg.get_board(game, mv.from.l, mv.from.t) {
            Some(b) => {
                proof {
                    pg.lemma_board_at_wf(*game, mv.from.l as int, mv.from.t as int);
                }
                if !crate::stream::GenMoves::validate_move(b, game, pg, &mv) {
                    return false;
                }
            }
            None => {
                proof {
                    assert(own_key(*game, *pg, ms@[i as int].from.l as int, ms@[i as int].from.t as int));
                    assert(false);
                }
                return false;
            }
        }
        i = i + 1;
    }
    true
}

/// Builds the successor of one played board: copies the grid, empties every
/// square a move leaves, then places every piece a move lands here.
fn apply_board(game: &Game, pg: &PartialGame, ms: &Vec<Move>, src: &Board) -> (nb: Board)
    requires
        game.wf(),
        pg.wf(*game),
        src.wf(),
        src.width == game.width,
        src.height == game.height,
        tos_distinct(ms@),
        src.t < crate::model::TURN_BOUND,
    ensures
        successor_of(ms@, *src, nb),
        nb.wf(),
        nb.width == game.width,
        nb.height == game.height,
{
    let w = src.width;
    let h = src.height;
    let mut pieces = copy_squares(&src.pieces);
    let mut i: usize = 0;
    while i < ms.len()
        invariant
            src.wf(),
            w == src.width,
            h == src.height,
            pieces@.len() == src.pieces@.len(),
            i <= ms@.len(),
            forall|idx: int|
                0 <= idx < pieces@.len() ==> #[trigger] pieces@[idx] == (if exists|i2: int|
                    0 <= i2 < i && move_leaves(
                        #[trigger] ms@[i2],
                        src.l as int,
                        src.t as int,
                        idx % (src.width as int),
                        idx / (src.width as int),
                    ) {
                    None::<Piece>
                } else {
                    src.pieces@[idx]
                }),
        decreases ms@.len() - i,
    {
        let m = ms[i];
        let ghost pieces0 = pieces@;
        if m.from.l == src.l && m.from.t == src.t && 0 <= m.from.x && m.from.x < w && 0 <= m.from.y
            && m.from.y < h {
            proof {
                lemma_square_xy(w as int, h as int, m.from.x as int, m.from.y as int);
            }
            let idx: usize = (m.from.y * w + m.from.x) as usize;
            pieces.set(idx, None);
        }
        proof {
            assert forall|idx: int| 0 <= idx < pieces@.len() implies #[trigger] pieces@[idx] == (
            if exists|i2: int|
                0 <= i2 < i + 1 && move_leaves(
                    #[trigger] ms@[i2],
                    src.l as int,
                    src.t as int,
                    idx % (src.width as int),
                    idx / (src.width as int),
                ) {
                None::<Piece>
            } else {
                src.pieces@[idx]
            }) by {
                lemma_square_index(w as int, h as int, idx);
                let x = idx % (src.width as int);
                let y = idx / (src.width as int);
                if move_leaves(ms@[i as int], src.l as int, src.t as int, x, y) {
                    assert(idx == y * (w as int) + x);
                } else {
                    if exists|i2: int|
                        0 <= i2 < i && move_leaves(
                            #[trigger] ms@[i2],
                            src.l as int,
                            src.t as int,
                            x,
                            y,
                        ) {
                        assert(pieces0[idx] == None::<Piece>);
                    } else {
                        assert(pieces0[idx] == src.pieces@[idx]);
                    }
                }
            }
        }
        i = i + 1;
    }
    let ghost mid = pieces@;
    let mut i2: usize = 0;
    while i2 < ms.len()
        invariant
            src.wf(),
            w == src.width,
            h == src.height,
            pieces@.len() == src.pieces@.len(),
            mid.len() == src.pieces@.len(),
            i2 <= ms@.len(),
            forall|idx: int|
                0 <= idx < pieces@.len() ==> {
                    let x = idx % (src.width as int);
                    let y = idx / (src.width as int);
                    if exists|i3: int|
                        0 <= i3 < i2 && move_lands(#[trigger] ms@[i3], src.l as int, src.t as int, x, y) {
                        exists|i3: int|
                            0 <= i3 < i2 && move_lands(
                                #[trigger] ms@[i3],
                                src.l as int,
                                src.t as int,
                                x,
                                y,
                            ) && #[trigger] pieces@[idx] == Some(ms@[i3].piece)
                    } else {
                        pieces@[idx] == mid[idx]
                    }
                },
        decreases ms@.len() - i2,
    {
        let m = ms[i2];
        let ghost pieces0 = pieces@;
        if m.to.l == src.l && m.to.t == src.t && 0 <= m.to.x && m.to.x < w && 0 <= m.to.y && m.to.y
            < h {
            proof {
                lemma_square_xy(w as int, h as int, m.to.x as int, m.to.y as int);
            }
            let idx: usize = (m.to.y * w + m.to.x) as usize;
            pieces.set(idx, Some(m.piece));
        }
        proof {
            assert forall|idx: int| 0 <= idx < pieces@.len() implies ({
                let x = idx % (src.width as int);
                let y = idx / (src.width as int);
                if exists|i3: int|
                    0 <= i3 < i2 + 1 && move_lands(#[trigger] ms@[i3], src.l as int, src.t as int, x, y) {
                    exists|i3: int|
                        0 <= i3 < i2 + 1 && move_lands(
                            #[trigger] ms@[i3],
                            src.l as int,
                            src.t as int,
                            x,
                            y,
                        ) && #[trigger] pieces@[idx] == Some(ms@[i3].piece)
                } else {
                    pieces@[idx] == mid[idx]
                }
            }) by {
                lemma_square_index(w as int, h as int, idx);
                let x = idx % (src.width as int);
                let y = idx / (src.width as int);
                if move_lands(ms@[i2 as int], src.l as int, src.t as int, x, y) {
                    assert(idx == y * (w as int) + x);
                    assert(pieces@[idx] == Some(ms@[i2 as int].piece));
                } else {
                    if exists|i3: int|
                        0 <= i3 < i2 && move_lands(
                            #[trigger] ms@[i3],
                            src.l as int,
                            src.t as int,
                            x,
                            y,
                        ) {
                        let i3 = choose|i3: int|
                            0 <= i3 < i2 && move_lands(
                                #[trigger] ms@[i3],
                                src.l as int,
                                src.t as int,
                                x,
                                y,
                            ) && pieces0[idx] == Some(ms@[i3].piece);
                        assert(pieces@[idx] == pieces0[idx]);
                    }
                }
            }
        }
        i2 = i2 + 1;
    }
    let nb = Board { l: src.l, t: src.t + 1, width: w, height: h, pieces };
    proof {
        assert forall|idx: int| 0 <= idx < nb.pieces@.len() implies nb.pieces@[idx]
            == applied_square(ms@, *src, idx) by {
            lemma_square_index(w as int, h as int, idx);
            let x = idx % (src.width as int);
            let y = idx / (src.width as int);
            if exists|i3: int|
                0 <= i3 < ms@.len() && move_lands(#[trigger] ms@[i3], src.l as int, src.t as int, x, y) {
                let ic = choose|i3: int|
                    0 <= i3 < ms@.len() && move_lands(
                        #[trigger] ms@[i3],
                        src.l as int,
                        src.t as int,
                        x,
                        y,
                    );
                let iv = choose|i3: int|
                    0 <= i3 < ms@.len() && move_lands(
                        #[trigger] ms@[i3],
                        src.l as int,
                        src.t as int,
                        x,
                        y,
                    ) && nb.pieces@[idx] == Some(ms@[i3].piece);
                if ic != iv {
                    assert(ms@[ic].to.l == ms@[iv].to.l && ms@[ic].to.t == ms@[iv].to.t);
                    assert(false);
                }
            }
        }
        assert(nb.pieces@ =~= applied_pieces(ms@, *src));
    }
    nb
}

/// The playable boards' addresses, in the canonical order.
fn collect_own_boards(game: &Game, pg: &PartialGame) -> (r: Vec<(i32, i32)>)
    requires
        game.wf(),
        pg.wf(*game),
    ensures
        r@.len() == own_boards_seq(*game, *pg).len(),
        forall|k: int|
            0 <= k < r@.len() ==> (#[trigger] r@[k]).0 == own_boards_seq(*game, *pg)[k].l
                && r@[k].1 == own_boards_seq(*game, *pg)[k].t,
{
    let mut r: Vec<(i32, i32)> = Vec::new();
    let mut i: usize = 0;
    while i < pg.boards.len()
        invariant
            game.wf(),
            pg.wf(*game),
            i <= pg.boards@.len(),
            r@.len() == own_filter(*game, *pg, pg.boards@.take(i as int)).len(),
            forall|k: int|
                0 <= k < r@.len() ==> (#[trigger] r@[k]).0 == own_filter(
                    *game,
                    *pg,
                    pg.boards@.take(i as int),
                )[k].l && r@[k].1 == own_filter(*game, *pg, pg.boards@.take(i as int))[k].t,
        decreases pg.boards@.len() - i,
    {
        let b = &pg.boards[i];
        proof {
            assert(pg.boards@.take(i + 1).drop_last() =~= pg.boards@.take(i as int));
            assert(pg.boards@.take(i + 1).last() == pg.boards@[i as int]);
        }
        if is_own_key_exec(game, pg, b.l, b.t) {
            r.push((b.l, b.t));
        }
        i = i + 1;
    }
    proof {
        assert(pg.boards@.take(pg.boards@.len() as int) =~= pg.boards@);
    }
    let ghost f1 = own_filter(*game, *pg, pg.boards@);
    let mut j: usize = 0;
    while j < game.boards.len()
        invariant
            game.wf(),
            pg.wf(*game),
            j <= game.boards@.len(),
            f1 == own_filter(*game, *pg, pg.boards@),
            r@.len() == f1.len() + own_filter(
                *game,
                *pg,
                unshadowed(pg.boards@, game.boards@.take(j as int)),
            ).len(),
            forall|k: int|
                0 <= k < r@.len() ==> {
                    let f = f1 + own_filter(
                        *game,
                        *pg,
                        unshadowed(pg.boards@, game.boards@.take(j as int)),
                    );
                    (#[trigger] r@[k]).0 == f[k].l && r@[k].1 == f[k].t
                },
        decreases game.boards@.len() - j,
    {
        let b = &game.boards[j];
        proof {
            assert(game.boards@.take(j + 1).drop_last() =~= game.boards@.take(j as int));
            assert(game.boards@.take(j + 1).last() == game.boards@[j as int]);
            let fu0 = unshadowed(pg.boards@, game.boards@.take(j as int));
            let fu1 = unshadowed(pg.boards@, game.boards@.take(j + 1));
            if find_board(pg.boards@, game.boards@[j as int].l as int, game.boards@[j as int].t as int)
                is None {
                assert(fu1 =~= fu0.push(game.boards@[j as int]));
                assert(fu1.drop_last() =~= fu0);
            } else {
                assert(fu1 =~= fu0);
            }
        }
        if !pg.has_overlay_board(b.l, b.t) {
            if is_own_key_exec(game, pg, b.l, b.t) {
                r.push((b.l, b.t));
            }
        }
        j = j + 1;
    }
    proof {
        assert(game.boards@.take(game.boards@.len() as int) =~= game.boards@);
    }
    r
}

impl Moveset {
    /// Validates this candidate turn against the overlay and, when it is
    /// accepted, applies it: every playable board must be played exactly
    /// once and no board targeted twice, every move must re-validate
    /// against its source board, every target must itself be a played
    /// board, and the resulting multiverse must leave no king of the active
    /// player under attack. On success the result is the overlay of the next turn:
    /// the parent's boards unchanged, plus one successor board per played
    /// board. The outcome is a function of (game, overlay, moveset) alone.
    ///
    /// When a turn fails several checks at once, the reported reason
    /// follows the validation order: board bookkeeping first
    /// (`DuplicateOrMissingBoard`), then per-move re-validation
    /// (`IllegalMove`), then target consistency (`InconsistentTimeline`) —
    /// a legal move onto a board that exists but is not played this turn
    /// has no resulting board to land on — and king safety (`KingInCheck`)
    /// last.
    pub fn generate_partial_game(&self, game: &Game, pg: &PartialGame) -> (r: Result<
        PartialGame,
        MovesetValidityErr,
    >)
        requires
            game.wf(),
            pg.wf(*game),
            forall|l: int, t: int|
                #[trigger] own_key(*game, *pg, l, t) ==> t < crate::model::TURN_BOUND as int,
        ensures
            (r == Err::<PartialGame, MovesetValidityErr>(
                MovesetValidityErr::DuplicateOrMissingBoard,
            )) <==> !played_ok(*game, *pg, self.moves@),
            (r == Err::<PartialGame, MovesetValidityErr>(MovesetValidityErr::IllegalMove)) <==> (
            played_ok(*game, *pg, self.moves@) && !all_legal(*game, *pg, self.moves@)),
            (r == Err::<PartialGame, MovesetValidityErr>(MovesetValidityErr::InconsistentTimeline))
                <==> (played_ok(*game, *pg, self.moves@) && all_legal(*game, *pg, self.moves@)
                && !targets_ok(self.moves@)),
            (r == Err::<PartialGame, MovesetValidityErr>(MovesetValidityErr::KingInCheck)) <==> (
            played_ok(*game, *pg, self.moves@) && targets_ok(self.moves@) && all_legal(
                *game,
                *pg,
                self.moves@,
            ) && applied_in_check(*game, *pg, self.moves@)),
            (r is Ok) <==> (played_ok(*game, *pg, self.moves@) && targets_ok(self.moves@)
                && all_legal(*game, *pg, self.moves@) && !applied_in_check(
                *game,
                *pg,
                self.moves@,
            )),
            r matches Ok(npg) ==> result_shape(*game, *pg, self.moves@, npg) && npg.wf(*game)
                && !in_check(*game, npg, game.active_white),
    {
        let ms = &self.moves;
        let own = collect_own_boards(game, pg);
        proof {
            lemma_own_boards_seq(*game, *pg);
        }
        let ok1 = check_froms_distinct(ms);
        let ok2 = check_tos_distinct(ms);
        let ok3 = check_froms_own(game, pg, ms);
        proof {
            assert forall|l: int, t: int| #[trigger] own_key(*game, *pg, l, t) implies exists|
                k2: int,
            |
                0 <= k2 < own@.len() && ((#[trigger] own@[k2]).0 as int) == l && (own@[k2].1
                    as int) == t by {
                let k2 = choose|k2: int|
                    0 <= k2 < own_boards_seq(*game, *pg).len() && ((#[trigger] own_boards_seq(
                        *game,
                        *pg,
                    )[k2]).l as int) == l && (own_boards_seq(*game, *pg)[k2].t as int) == t;
                assert(0 <= k2 < own@.len() && (own@[k2].0 as int) == l && (own@[k2].1 as int)
                    == t);
            }
            assert forall|k2: int| 0 <= k2 < own@.len() implies own_key(
                *game,
                *pg,
                (#[trigger] own@[k2]).0 as int,
                own@[k2].1 as int,
            ) by {
                assert(own_key(
                    *game,
                    *pg,
                    own_boards_seq(*game, *pg)[k2].l as int,
                    own_boards_seq(*game, *pg)[k2].t as int,
                ));
            }
        }
        if !(ok1 && ok2 && ok3) {
            return Err(MovesetValidityErr::DuplicateOrMissingBoard);
        }
        if !check_all_own_played(game, pg, ms, &own) {
            return Err(MovesetValidityErr::DuplicateOrMissingBoard);
        }
        if !check_legal(game, pg, ms) {
            return Err(MovesetValidityErr::IllegalMove);
        }
        if !check_targets(ms) {
            return Err(MovesetValidityErr::InconsistentTimeline);
        }
        let ghost own_seq = own_boards_seq(*game, *pg);
        let mut boards: Vec<Board> = Vec::new();
        let mut i: usize = 0;
        while i < pg.boards.len()
            invariant
                game.wf(),
                pg.wf(*game),
                i <= pg.boards@.len(),
                boards@.len() == i,
                forall|j: int| 0 <= j < i ==> (#[trigger] boards@[j]).same_as(pg.boards@[j]),
            decreases pg.boards@.len() - i,
        {
            boards.push(pg.boards[i].clone());
            i = i + 1;
        }
        let mut k: usize = 0;
        while k < own.len()
            invariant
                game.wf(),
                pg.wf(*game),
                tos_distinct(ms@),
                ms@ == self.moves@,
                forall|l: int, t: int|
                    #[trigger] own_key(*game, *pg, l, t) ==> t < crate::model::TURN_BOUND as int,
                own_seq == own_boards_seq(*game, *pg),
                own@.len() == own_seq.len(),
                forall|k2: int|
                    0 <= k2 < own@.len() ==> (#[trigger] own@[k2]).0 == own_seq[k2].l
                        && own@[k2].1 == own_seq[k2].t,
                forall|k2: int|
                    0 <= k2 < own_seq.len() ==> own_key(
                        *game,
                        *pg,
                        (#[trigger] own_seq[k2]).l as int,
                        own_seq[k2].t as int,
                    ) && pg.board_at(*game, own_seq[k2].l as int, own_seq[k2].t as int) == Some(
                        own_seq[k2],
                    ),
                k <= own@.len(),
                boards@.len() == pg.boards@.len() + k,
                forall|j: int|
                    0 <= j < pg.boards@.len() ==> (#[trigger] boards@[j]).same_as(pg.boards@[j]),
                forall|k2: int|
                    0 <= k2 < k ==> successor_of(
                        ms@,
                        own_seq[k2],
                        #[trigger] boards@[pg.boards@.len() + k2],
                    ) && boards@[pg.boards@.len() + k2].wf() && boards@[pg.boards@.len()
                        + k2].width == game.width && boards@[pg.boards@.len() + k2].height
                        == game.height,
            decreases own@.len() - k,
        {
            let (l, t) = own[k];
            match pg.get_board(game, l, t) {
                Some(src) => {
                    proof {
                        assert(own_key(*game, *pg, l as int, t as int));
                        pg.lemma_board_at_wf(*game, l as int, t as int);
                        assert(*src == own_seq[k as int]);
                    }
                    let nb = apply_board(game, pg, ms, src);
                    boards.push(nb);
                }
                None => {
                    proof {
                        assert(own_key(*game, *pg, l as int, t as int));
                        assert(false);
                    }
                    return Err(MovesetValidityErr::IllegalMove);
                }
            }
            k = k + 1;
        }
        let npg = PartialGame { boards };
        proof {
            // the new overlay is well formed: every board keeps its shape
            // and no (timeline, turn) address repeats
            assert forall|a: int, b: int| 0 <= a < b < npg.boards@.len() implies !(
            #[trigger] npg.boards@[a].l == #[trigger] npg.boards@[b].l && npg.boards@[a].t
                == npg.boards@[b].t) by {
                let n0 = pg.boards@.len() as int;
                if a < n0 && b >= n0 {
                    let bb = own_seq[b - n0];
                    assert(successor_of(ms@, bb, npg.boards@[n0 + (b - n0)]));
                    assert(own_key(*game, *pg, bb.l as int, bb.t as int));
                    if npg.boards@[a].l == npg.boards@[b].l && npg.boards@[a].t
                        == npg.boards@[b].t {
                        lemma_find_board_spec(pg.boards@, bb.l as int, bb.t as int + 1);
                        assert(pg.boards@[a].l as int == bb.l as int && pg.boards@[a].t as int
                            == bb.t as int + 1);
                        assert(false);
                    }
                } else if a >= n0 {
                    let b1 = own_seq[a - n0];
                    let b2 = own_seq[b - n0];
                    assert(successor_of(ms@, b1, npg.boards@[n0 + (a - n0)]));
                    assert(successor_of(ms@, b2, npg.boards@[n0 + (b - n0)]));
                }
            }
            assert forall|j: int| 0 <= j < npg.boards@.len() implies (#[trigger] npg.boards@[j]).wf()
                && npg.boards@[j].width == game.width && npg.boards@[j].height == game.height by {
                let n0 = pg.boards@.len() as int;
                if j < n0 {
                    assert(npg.boards@[j].same_as(pg.boards@[j]));
                    assert(pg.boards@[j].wf());
                } else {
                    assert(successor_of(ms@, own_seq[j - n0], npg.boards@[n0 + (j - n0)]));
                }
            }
            assert(npg.wf(*game));
            assert(result_shape(*game, *pg, self.moves@, npg));
        }
        if in_check_exec(game, &npg, game.active_white) {
            proof {
                assert(applied_in_check(*game, *pg, self.moves@));
            }
            Err(MovesetValidityErr::KingInCheck)
        } else {
            proof {
                if applied_in_check(*game, *pg, self.moves@) {
                    let npg2 = choose|npg2: PartialGame|
                        #[trigger] result_shape(*game, *pg, self.moves@, npg2) && npg2.wf(*game)
                            && in_check(*game, npg2, game.active_white);
                    lemma_shape_similar(*game, *pg, self.moves@, npg, npg2);
                    lemma_in_check_congr(*game, npg, npg2, game.active_white);
                    assert(false);
                }
            }
            Ok(npg)
        }
    }
}
} // verus!
