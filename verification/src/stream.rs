use vstd::prelude::*;

use crate::model::Game;
use crate::model::Move;
use crate::model::PartialGame;

verus! {

/// A one-shot, pull-based producer of moves. `all()` is the whole sequence
/// the producer stands for, `emitted()` how many of its moves have been
/// pulled; `next` hands the moves of `all()` out in order, exactly once.
pub trait MoveStream: Sized {
    spec fn all(&self) -> Seq<Move>;

    spec fn emitted(&self) -> nat;

    spec fn inv(&self) -> bool;

    proof fn lemma_emitted_bounded(&self)
        requires
            self.inv(),
        ensures
            self.emitted() <= self.all().len(),
    ;

    fn next(&mut self) -> (r: Option<Move>)
        requires
            old(self).inv(),
        ensures
            final(self).inv(),
            final(self).all() == old(self).all(),
            old(self).emitted() < old(self).all().len() ==> r == Some(
                old(self).all()[old(self).emitted() as int],
            ) && final(self).emitted() == old(self).emitted() + 1,
            old(self).emitted() >= old(self).all().len() ==> r is None && final(self).emitted()
                == old(self).emitted(),
    ;
}

/// Anything that can generate moves against a game and an overlay: it either
/// stands for a definite move sequence (`spec_moves` is `Some`) and then
/// hands out a stream of exactly that sequence, or it is stale and generates
/// nothing. `validate_move` decides membership in the sequence directly.
pub trait GenMoves<'a>: Sized {
    type Iter: MoveStream;

    spec fn spec_moves(self, game: Game, pg: PartialGame) -> Option<Seq<Move>>;

    /// What the generator asks of its own shape (a board asks to be well
    /// formed and sized like the game; a piece position asks nothing).
    spec fn gen_requires(self, game: Game, pg: PartialGame) -> bool;

    fn generate_moves(self, game: &'a Game, pg: &'a PartialGame) -> (r: Option<Self::Iter>)
        requires
            game.wf(),
            pg.wf(*game),
            self.gen_requires(*game, *pg),
        ensures
            match r {
                Some(it) => self.spec_moves(*game, *pg) == Some(it.all()) && it.inv()
                    && it.emitted() == 0,
                None => self.spec_moves(*game, *pg) is None,
            },
    ;

    fn validate_move(self, game: &'a Game, pg: &'a PartialGame, mv: &Move) -> (r: bool)
        requires
            game.wf(),
            pg.wf(*game),
            self.gen_requires(*game, *pg),
        ensures
            r == match self.spec_moves(*game, *pg) {
                Some(s) => s.contains(*mv),
                None => false,
            },
    ;
}

} // verus!
