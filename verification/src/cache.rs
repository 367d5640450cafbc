use vstd::prelude::*;

use crate::model::Game;
use crate::model::Move;
use crate::model::PartialGame;
use crate::stream::GenMoves;
use crate::stream::MoveStream;

verus! {

/// Where a scan of s for m, starting at `from`, stops: just past the first
/// occurrence of m at or after `from`, or at the end of s when there is
/// none.
pub open spec fn scan_stop(s: Seq<Move>, from: int, m: Move) -> int
    decreases s.len() - from,
{
    if from < 0 || from >= s.len() {
        s.len() as int
    } else if s[from] == m {
        from + 1
    } else {
        scan_stop(s, from + 1, m)
    }
}

/// A wrapper around any move stream that memoizes the moves it yields: the
/// cache is append-only and mirrors the stream's order exactly, so the
/// first n yielded moves can be looked up again without regenerating them.
pub struct CacheMoves<I: MoveStream> {
    pub iterator: I,
    pub cache: Vec<Move>,
}

impl<I: MoveStream> CacheMoves<I> {
    /// The whole underlying sequence.
    pub open spec fn all_spec(&self) -> Seq<Move> {
        self.iterator.all()
    }

    /// The moves yielded and memoized so far.
    pub open spec fn cached(&self) -> Seq<Move> {
        self.cache@
    }

    /// The cache holds exactly the prefix of the sequence that has been
    /// yielded.
    pub open spec fn cache_inv(&self) -> bool {
        &&& self.iterator.inv()
        &&& self.cache@ == self.iterator.all().take(self.iterator.emitted() as int)
    }

    /// Wraps a generator's move stream in an empty cache; nothing when the
    /// generator is stale.
    pub fn new<'a, G: GenMoves<'a, Iter = I>>(
        generator: G,
        game: &'a Game,
        partial_game: &'a PartialGame,
    ) -> (r: Option<Self>)
        requires
            game.wf(),
            partial_game.wf(*game),
            generator.gen_requires(*game, *partial_game),
        ensures
            match r {
                Some(c) => generator.spec_moves(*game, *partial_game) == Some(c.all_spec())
                    && c.cache_inv() && c.cached().len() == 0,
                None => generator.spec_moves(*game, *partial_game) is None,
            },
    {
        match generator.generate_moves(game, partial_game) {
            Some(it) => {
                proof {
                    assert(it.all().take(0) =~= Seq::<Move>::empty());
                }
                Some(CacheMoves { iterator: it, cache: Vec::new() })
            }
            None => None,
        }
    }

    /// Looks for a move among the memoized ones only. A hit means the move
    /// was yielded; a miss says nothing about the rest of the sequence.
    pub fn validate_move_cached(&self, mv: &Move) -> (r: bool)
        ensures
            r == self.cached().contains(*mv),
    {
        let mut k: usize = 0;
        while k < self.cache.len()
            invariant
                k <= self.cache@.len(),
                forall|j: int| 0 <= j < k ==> self.cache@[j] != *mv,
            decreases self.cache@.len() - k,
        {
            if self.cache[k] == *mv {
                proof {
                    assert(self.cache@[k as int] == *mv);
                    assert(self.cache@.contains(*mv));
                }
                return true;
            }
            k = k + 1;
        }
        proof {
            assert(!self.cache@.contains(*mv));
        }
        false
    }

    /// Looks for a move first in the cache, then by draining the rest of the
    /// stream (memoizing as it goes) until the move is found or the stream
    /// ends: membership in the whole sequence.
    pub fn validate_move(&mut self, mv: &Move) -> (r: bool)
        requires
            old(self).cache_inv(),
        ensures
            final(self).cache_inv(),
            final(self).all_spec() == old(self).all_spec(),
            r == old(self).all_spec().contains(*mv),
            old(self).cached().contains(*mv) ==> *final(self) == *old(self),
            !old(self).cached().contains(*mv) ==> final(self).cached() == old(
                self,
            ).all_spec().take(
                scan_stop(old(self).all_spec(), old(self).cached().len() as int, *mv),
            ),
    {
        if self.validate_move_cached(mv) {
            proof {
                let e = self.iterator.emitted() as int;
                let k = choose|k: int| 0 <= k < self.cache@.len() && self.cache@[k] == *mv;
                self.iterator.lemma_emitted_bounded();
                assert(self.all_spec()[k] == *mv);
                assert(self.all_spec().contains(*mv));
            }
            return true;
        }
        loop
            invariant
                self.cache_inv(),
                self.all_spec() == old(self).all_spec(),
                !self.cached().contains(*mv),
                !old(self).cached().contains(*mv),
                self.cached().len() >= old(self).cached().len(),
                scan_stop(self.all_spec(), old(self).cached().len() as int, *mv) == scan_stop(
                    self.all_spec(),
                    self.cached().len() as int,
                    *mv,
                ),
            decreases self.all_spec().len() - self.iterator.emitted(),
        {
            proof {
                self.iterator.lemma_emitted_bounded();
            }
            let ghost e0 = self.iterator.emitted() as int;
            match self.next() {
                Some(m) => {
                    if m == *mv {
                        proof {
                            assert(self.all_spec()[e0] == *mv);
                            assert(self.all_spec().contains(*mv));
                            assert(scan_stop(self.all_spec(), e0, *mv) == e0 + 1);
                            self.iterator.lemma_emitted_bounded();
                            assert(self.cached() =~= self.all_spec().take(e0 + 1));
                        }
                        return true;
                    }
                    proof {
                        self.iterator.lemma_emitted_bounded();
                        assert(self.cached() =~= old(self).all_spec().take(e0).push(m));
                        assert(scan_stop(self.all_spec(), e0, *mv) == scan_stop(
                            self.all_spec(),
                            e0 + 1,
                            *mv,
                        ));
                    }
                }
                None => {
                    proof {
                        self.iterator.lemma_emitted_bounded();
                        assert(self.cached() =~= self.all_spec());
                        assert(scan_stop(self.all_spec(), self.cached().len() as int, *mv)
                            == self.all_spec().len() as int);
                        assert(self.cached() =~= self.all_spec().take(
                            self.all_spec().len() as int,
                        ));
                    }
                    return false;
                }
            }
        }
    }

    /// The n-th yielded move, from the cache alone; absent when fewer than
    /// n + 1 moves have been yielded.
    pub fn get_cached(&mut self, n: usize) -> (r: Option<Move>)
        ensures
            *final(self) == *old(self),
            r == if (n as int) < old(self).cached().len() {
                Some(old(self).cached()[n as int])
            } else {
                None::<Move>
            },
    {
        if n < self.cache.len() {
            Some(self.cache[n])
        } else {
            None
        }
    }

    /// The n-th move of the sequence, draining the stream as far as needed;
    /// absent when the whole sequence is shorter than n + 1.
    pub fn get(&mut self, n: usize) -> (r: Option<Move>)
        requires
            old(self).cache_inv(),
        ensures
            final(self).cache_inv(),
            final(self).all_spec() == old(self).all_spec(),
            r == if (n as int) < old(self).all_spec().len() {
                Some(old(self).all_spec()[n as int])
            } else {
                None::<Move>
            },
            final(self).cached().len() >= if (n as int) < old(self).all_spec().len() {
                n + 1
            } else {
                old(self).all_spec().len() as int
            },
            final(self).cached().len() >= old(self).cached().len(),
            (n as int) < old(self).cached().len() ==> *final(self) == *old(self),
            (n as int) >= old(self).cached().len() ==> final(self).cached().len() <= n + 1,
    {
        if n < self.cache.len() {
            proof {
                self.iterator.lemma_emitted_bounded();
            }
            return Some(self.cache[n]);
        }
        loop
            invariant
                self.cache_inv(),
                self.all_spec() == old(self).all_spec(),
                self.cached().len() <= n,
                self.cached().len() >= old(self).cached().len(),
            decreases self.all_spec().len() - self.iterator.emitted(),
        {
            proof {
                self.iterator.lemma_emitted_bounded();
            }
            let ghost e0 = self.iterator.emitted() as int;
            match self.next() {
                Some(m) => {
                    proof {
                        self.iterator.lemma_emitted_bounded();
                        assert(self.cached() =~= old(self).all_spec().take(e0).push(m));
                    }
                    if self.cache.len() > n {
                        proof {
                            assert(m == self.all_spec()[n as int]);
                        }
                        return Some(m);
                    }
                }
                None => {
                    proof {
                        self.iterator.lemma_emitted_bounded();
                        assert(self.cached() =~= self.all_spec());
                    }
                    return None;
                }
            }
        }
    }
}

impl<I: MoveStream> MoveStream for CacheMoves<I> {
    open spec fn all(&self) -> Seq<Move> {
        self.iterator.all()
    }

    open spec fn emitted(&self) -> nat {
        self.cache@.len()
    }

    open spec fn inv(&self) -> bool {
        self.cache_inv()
    }

    proof fn lemma_emitted_bounded(&self) {
        self.iterator.lemma_emitted_bounded();
    }

    /// Yields the next move of the sequence and memoizes it.
    fn next(&mut self) -> (r: Option<Move>) {
        proof {
            self.iterator.lemma_emitted_bounded();
        }
        let ghost e0 = self.iterator.emitted() as int;
        match self.iterator.next() {
            Some(m) => {
                self.cache.push(m);
                proof {
                    assert(self.cache@ =~= self.iterator.all().take(e0 + 1));
                }
                Some(m)
            }
            None => None,
        }
    }
}

/// The cache mirrors iteration order exactly: after any number of yields,
/// the i-th memoized move is the i-th move of the underlying sequence.
pub proof fn lemma_cache_mirrors_stream<I: MoveStream>(c: &CacheMoves<I>, i: int)
    requires
        c.cache_inv(),
        0 <= i < c.cached().len(),
    ensures
        c.cached().len() <= c.all_spec().len(),
        c.cached()[i] == c.all_spec()[i],
{
    c.iterator.lemma_emitted_bounded();
}

/// A cached lookup never reports a move the stream has not yielded: every
/// cache member stands at some already-yielded position of the sequence.
pub proof fn lemma_cache_no_false_positive<I: MoveStream>(c: &CacheMoves<I>, m: Move)
    requires
        c.cache_inv(),
        c.cached().contains(m),
    ensures
        exists|i: int| 0 <= i < c.cached().len() && i < c.all_spec().len() && c.all_spec()[i] == m,
{
    c.iterator.lemma_emitted_bounded();
    let k = choose|k: int| 0 <= k < c.cached().len() && c.cached()[k] == m;
    assert(c.all_spec()[k] == m);
}

} // verus!
