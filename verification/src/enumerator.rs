use vstd::prelude::*;

use crate::board_moves::BoardIter;
use crate::board_moves::board_moves;
use crate::cache::CacheMoves;
use crate::model::Board;
use crate::model::Game;
use crate::model::Move;
use crate::model::PartialGame;
use crate::moveset::Moveset;
use crate::moveset::MovesetValidityErr;

verus! {

/// The number of combinations of one move per sequence.
pub open spec fn prod(ss: Seq<Seq<Move>>) -> nat
    decreases ss.len(),
{
    if ss.len() == 0 {
        1
    } else {
        ss[0].len() * prod(ss.drop_first())
    }
}

/// The number of combinations over the sequences from position j on.
pub open spec fn suffix_prod(ss: Seq<Seq<Move>>, j: int) -> nat {
    prod(ss.skip(j))
}

/// The j-th digit of idx in the mixed-radix system whose bases are the
/// sequence lengths, rightmost digit fastest.
pub open spec fn digit(ss: Seq<Seq<Move>>, idx: int, j: int) -> int {
    (idx / suffix_prod(ss, j + 1) as int) % ss[j].len() as int
}

/// The idx-th combination in odometer order: the last sequence varies
/// fastest, sequences to the left vary slowest.
pub open spec fn combo_at(ss: Seq<Seq<Move>>, idx: int) -> Seq<Move> {
    Seq::new(ss.len(), |j: int| ss[j][digit(ss, idx, j)])
}

/// The rank of a cursor tuple: how many combinations precede it in odometer
/// order.
pub open spec fn ord_from(ss: Seq<Seq<Move>>, cur: Seq<usize>, j: int) -> int
    decreases ss.len() - j,
{
    if j < 0 || j >= ss.len() {
        0
    } else {
        cur[j] * suffix_prod(ss, j + 1) + ord_from(ss, cur, j + 1)
    }
}

pub open spec fn ord(ss: Seq<Seq<Move>>, cur: Seq<usize>) -> int {
    ord_from(ss, cur, 0)
}

proof fn lemma_sp_unfold(ss: Seq<Seq<Move>>, j: int)
    requires
        0 <= j < ss.len(),
    ensures
        suffix_prod(ss, j) == ss[j].len() * suffix_prod(ss, j + 1),
{
    assert(ss.skip(j).drop_first() =~= ss.skip(j + 1));
    assert(ss.skip(j)[0] == ss[j]);
}


proof fn lemma_prod_zero(ss: Seq<Seq<Move>>, j: int)
    requires
        0 <= j < ss.len(),
        ss[j].len() == 0,
    ensures
        prod(ss) == 0,
    decreases ss.len(),
{
    if j == 0 {
        assert(prod(ss) == ss[0].len() * prod(ss.drop_first()));
    } else {
        assert(ss.drop_first()[j - 1] == ss[j]);
        lemma_prod_zero(ss.drop_first(), j - 1);
        assert(prod(ss) == ss[0].len() * 0) by (nonlinear_arith)
            requires
                prod(ss) == ss[0].len() * prod(ss.drop_first()),
                prod(ss.drop_first()) == 0,
        ;
    }
}

proof fn lemma_ord_bounds(ss: Seq<Seq<Move>>, cur: Seq<usize>, j: int)
    requires
        cur.len() == ss.len(),
        0 <= j <= ss.len(),
        forall|k: int| 0 <= k < ss.len() ==> (#[trigger] cur[k] as int) < ss[k].len(),
    ensures
        0 <= ord_from(ss, cur, j) < suffix_prod(ss, j),
    decreases ss.len() - j,
{
    if j == ss.len() {
        assert(ss.skip(j) =~= Seq::<Seq<Move>>::empty());
    } else {
        lemma_ord_bounds(ss, cur, j + 1);
        lemma_sp_unfold(ss, j);
        assert(0 <= cur[j] * suffix_prod(ss, j + 1) + ord_from(ss, cur, j + 1) < ss[j].len()
            * suffix_prod(ss, j + 1)) by (nonlinear_arith)
            requires
                0 <= ord_from(ss, cur, j + 1) < suffix_prod(ss, j + 1),
                0 <= (cur[j] as int) && (cur[j] as int) < ss[j].len(),
        ;
    }
}

proof fn lemma_sp_multiple(ss: Seq<Seq<Move>>, a: int, k: int) -> (m: nat)
    requires
        0 <= a <= k < ss.len(),
    ensures
        suffix_prod(ss, a) == m * (ss[k].len() * suffix_prod(ss, k + 1)),
    decreases k - a,
{
    lemma_sp_unfold(ss, k);
    if a == k {
        assert(suffix_prod(ss, a) == 1nat * (ss[k].len() * suffix_prod(ss, k + 1)));
        1nat
    } else {
        let m0 = lemma_sp_multiple(ss, a + 1, k);
        lemma_sp_unfold(ss, a);
        assert(suffix_prod(ss, a) == (ss[a].len() * m0) * (ss[k].len() * suffix_prod(ss, k + 1)))
            by (nonlinear_arith)
            requires
                suffix_prod(ss, a) == ss[a].len() * suffix_prod(ss, a + 1),
                suffix_prod(ss, a + 1) == m0 * (ss[k].len() * suffix_prod(ss, k + 1)),
        ;
        ss[a].len() * m0
    }
}

/// The rank of a cursor tuple decodes back to the tuple, digit by digit.
pub proof fn lemma_ord_digits(ss: Seq<Seq<Move>>, cur: Seq<usize>, j: int)
    requires
        cur.len() == ss.len(),
        0 <= j <= ss.len(),
        forall|k: int| 0 <= k < ss.len() ==> (#[trigger] cur[k] as int) < ss[k].len(),
    ensures
        forall|k: int|
            j <= k < ss.len() ==> (ord_from(ss, cur, j) / suffix_prod(ss, k + 1) as int) % (
            #[trigger] ss[k]).len() as int == cur[k] as int,
    decreases ss.len() - j,
{
    if j < ss.len() {
        lemma_ord_digits(ss, cur, j + 1);
        lemma_ord_bounds(ss, cur, j + 1);
        lemma_sp_unfold(ss, j);
        let r = ord_from(ss, cur, j + 1);
        let spj1 = suffix_prod(ss, j + 1) as int;
        assert forall|k: int| j <= k < ss.len() implies (ord_from(ss, cur, j) / suffix_prod(
            ss,
            k + 1,
        ) as int) % (#[trigger] ss[k]).len() as int == cur[k] as int by {
            let ck = ss[k].len() as int;
            let spk1 = suffix_prod(ss, k + 1) as int;
            if k == j {
                assert(spj1 >= 1) by {
                    if spj1 == 0 {
                        assert(0 <= r < spj1);
                    }
                }
                assert((cur[j] * spj1 + r) / spj1 % ck == cur[j] as int) by (nonlinear_arith)
                    requires
                        0 <= r < spj1,
                        1 <= spj1,
                        0 <= (cur[j] as int) && (cur[j] as int) < ck,
                ;
            } else {
                let m = lemma_sp_multiple(ss, j + 1, k);
                assert(spk1 >= 1 && ck >= 1) by {
                    lemma_sp_unfold(ss, k);
                    if suffix_prod(ss, k + 1) == 0 || ss[k].len() == 0 {
                        assert(spj1 == m * (ck * spk1));
                        assert(spj1 >= 1) by {
                            if spj1 == 0 {
                                assert(0 <= r < spj1);
                            }
                        }
                        assert(m * (ck * spk1) == 0) by (nonlinear_arith)
                            requires
                                ck * spk1 == 0 || ck == 0 || spk1 == 0,
                        ;
                        assert(false);
                    }
                }
                let a = cur[j] as int;
                assert(a * spj1 == ((a * m as int) * ck) * spk1) by (nonlinear_arith)
                    requires
                        spj1 == m * (ck * spk1),
                ;
                vstd::arithmetic::div_mod::lemma_hoist_over_denominator(
                    r,
                    (a * m as int) * ck,
                    spk1 as nat,
                );
                assert((r + ((a * m as int) * ck) * spk1) / spk1 == r / spk1 + (a * m as int)
                    * ck);
                vstd::arithmetic::div_mod::lemma_mod_multiples_vanish(
                    a * m as int,
                    r / spk1,
                    ck,
                );
                assert(ck * (a * m as int) == (a * m as int) * ck) by (nonlinear_arith);
                assert((a * spj1 + r) / spk1 % ck == r / spk1 % ck);
            }
        }
    }
}






proof fn lemma_prod_pos(ss: Seq<Seq<Move>>, j: int)
    requires
        0 <= j <= ss.len(),
        forall|k: int| 0 <= k < ss.len() ==> (#[trigger] ss[k]).len() > 0,
    ensures
        suffix_prod(ss, j) >= 1,
    decreases ss.len() - j,
{
    if j == ss.len() {
        assert(ss.skip(j) =~= Seq::<Seq<Move>>::empty());
    } else {
        lemma_prod_pos(ss, j + 1);
        lemma_sp_unfold(ss, j);
        assert(ss[j].len() * suffix_prod(ss, j + 1) >= 1) by (nonlinear_arith)
            requires
                ss[j].len() >= 1,
                suffix_prod(ss, j + 1) >= 1,
        ;
    }
}

/// A cursor tuple maxed out from position j on contributes the largest
/// possible suffix rank.
proof fn lemma_ord_maxed(ss: Seq<Seq<Move>>, cur: Seq<usize>, j: int)
    requires
        cur.len() == ss.len(),
        0 <= j <= ss.len(),
        forall|k: int| j <= k < ss.len() ==> (#[trigger] cur[k] as int) == ss[k].len() - 1,
    ensures
        ord_from(ss, cur, j) == suffix_prod(ss, j) - 1,
    decreases ss.len() - j,
{
    if j == ss.len() {
        assert(ss.skip(j) =~= Seq::<Seq<Move>>::empty());
    } else {
        lemma_ord_maxed(ss, cur, j + 1);
        lemma_sp_unfold(ss, j);
        assert((ss[j].len() - 1) * suffix_prod(ss, j + 1) + (suffix_prod(ss, j + 1) - 1)
            == ss[j].len() * suffix_prod(ss, j + 1) - 1) by (nonlinear_arith);
    }
}

/// Ranks of cursor tuples that agree below `adv` differ only by their
/// suffix ranks from `adv` on.
proof fn lemma_ord_localize(ss: Seq<Seq<Move>>, c1: Seq<usize>, c2: Seq<usize>, j: int, adv: int)
    requires
        c1.len() == ss.len(),
        c2.len() == ss.len(),
        0 <= j <= adv <= ss.len(),
        forall|k: int| 0 <= k < adv ==> (#[trigger] c1[k]) == c2[k],
    ensures
        ord_from(ss, c2, j) - ord_from(ss, c1, j) == ord_from(ss, c2, adv) - ord_from(
            ss,
            c1,
            adv,
        ),
    decreases adv - j,
{
    if j < adv {
        lemma_ord_localize(ss, c1, c2, j + 1, adv);
    }
}

/// With every cursor in range, the live state is the plain odometer state:
/// the rank equals the cursor tuple's rank, lies below the combination
/// count, and decodes digit by digit back to the cursors.
proof fn lemma_plain_state(ss: Seq<Seq<Move>>, cur: Seq<usize>, count: int)
    requires
        cur.len() == ss.len(),
        forall|k: int| 0 <= k < ss.len() ==> ((#[trigger] cur[k]) as int) < ss[k].len(),
        count == ord(ss, cur) || (count == 0 && prod(ss) == 0),
    ensures
        count == ord(ss, cur),
        0 <= count < prod(ss),
        forall|k: int| 0 <= k < ss.len() ==> digit(ss, count, k) == ((#[trigger] cur[k]) as int),
{
    assert forall|k: int| 0 <= k < ss.len() implies (#[trigger] ss[k]).len() > 0 by {
        assert((cur[k] as int) < ss[k].len());
    }
    lemma_prod_pos(ss, 0);
    assert(ss.skip(0) =~= ss);
    lemma_ord_bounds(ss, cur, 0);
    lemma_ord_digits(ss, cur, 0);
}

/// Carrying the odometer to a bump at position `adv` (digits to its right
/// rewound from their maxima to the start) raises the rank by exactly one
/// and keeps every cursor in range.
proof fn lemma_increment(ss: Seq<Seq<Move>>, c1: Seq<usize>, c2: Seq<usize>, adv: int)
    requires
        c1.len() == ss.len(),
        c2.len() == ss.len(),
        0 <= adv < ss.len(),
        forall|k: int| 0 <= k < adv ==> (#[trigger] c2[k]) == c1[k],
        ((c1[adv] + 1) as int) < ss[adv].len(),
        (c2[adv] as int) == c1[adv] + 1,
        forall|k: int| adv < k < ss.len() ==> ((#[trigger] c1[k]) as int) == ss[k].len() - 1,
        forall|k: int| adv < k < ss.len() ==> (#[trigger] c2[k]) == 0,
        forall|k: int| 0 <= k < ss.len() ==> ((#[trigger] c1[k]) as int) < ss[k].len(),
    ensures
        ord(ss, c2) == ord(ss, c1) + 1,
        forall|k: int| 0 <= k < ss.len() ==> ((#[trigger] c2[k]) as int) < ss[k].len(),
{
    lemma_ord_maxed(ss, c1, adv + 1);
    lemma_ord_zero(ss, c2, adv + 1);
    lemma_sp_unfold(ss, adv);
    assert(ord_from(ss, c1, adv) == c1[adv] * suffix_prod(ss, adv + 1) + (suffix_prod(ss, adv + 1)
        - 1));
    assert(ord_from(ss, c2, adv) == c2[adv] * suffix_prod(ss, adv + 1) + 0);
    assert((c1[adv] + 1) * suffix_prod(ss, adv + 1) == c1[adv] * suffix_prod(ss, adv + 1)
        + suffix_prod(ss, adv + 1)) by (nonlinear_arith);
    lemma_ord_localize(ss, c1, c2, 0, adv);
    assert forall|k: int| 0 <= k < ss.len() implies ((#[trigger] c2[k]) as int) < ss[k].len() by {
        if k > adv {
            assert(c2[k] == 0 && ss[k].len() >= 1) by {
                assert((c1[k] as int) == ss[k].len() - 1);
            }
        }
    }
}

/// A fully maxed-out cursor tuple ranks exactly last.
proof fn lemma_last_combo(ss: Seq<Seq<Move>>, cur: Seq<usize>)
    requires
        cur.len() == ss.len(),
        forall|k: int| 0 <= k < ss.len() ==> ((#[trigger] cur[k]) as int) == ss[k].len() - 1,
    ensures
        ord(ss, cur) == prod(ss) - 1,
{
    lemma_ord_maxed(ss, cur, 0);
    assert(ss.skip(0) =~= ss);
}

/// The odometer enumerator: one cached board move stream per playable
/// board, a cursor per stream, and a rank counting the combinations already
/// emitted.
pub struct GenMovesetIter<'a> {
    pub caches: Vec<CacheMoves<BoardIter<'a>>>,
    pub cursors: Vec<usize>,
    pub done: bool,
    pub count: Ghost<int>,
}

/// The move sequence one cached board stream stands for, spelt out over the
/// stream's own fields.
pub open spec fn cache_seq<'a>(c: CacheMoves<BoardIter<'a>>) -> Seq<Move> {
    c.iterator.iter_all()
}

/// The cached board stream is consistent: its stream invariant holds and the
/// cache mirrors the emitted prefix.
pub open spec fn cache_ok<'a>(c: CacheMoves<BoardIter<'a>>) -> bool {
    &&& c.iterator.iter_inv()
    &&& c.cache@ == c.iterator.iter_all().take(c.iterator.iter_emitted() as int)
}

impl<'a> GenMovesetIter<'a> {
    /// The per-board move sequences the enumerator combines.
    pub open spec fn seqs(&self) -> Seq<Seq<Move>> {
        Seq::new(self.caches@.len() as nat, |j: int| cache_seq(self.caches@[j]))
    }

    /// How many candidate movesets have been emitted.
    pub open spec fn emitted(&self) -> int {
        self.count@
    }

    /// The live cursors stand on moves of their sequences and rank exactly
    /// `count` in odometer order; the one other live state is a fresh
    /// enumerator over some empty sequence, which has no combination at all.
    pub open spec fn live_state(&self) -> bool {
        ||| (self.count@ == ord(self.seqs(), self.cursors@) && forall|j: int|
            0 <= j < self.seqs().len() ==> ((#[trigger] self.cursors@[j]) as int)
                < self.seqs()[j].len())
        ||| (self.count@ == 0 && prod(self.seqs()) == 0 && forall|j: int|
            0 <= j < self.cursors@.len() ==> (#[trigger] self.cursors@[j]) == 0)
    }

    pub open spec fn inv(&self) -> bool {
        &&& self.cursors@.len() == self.caches@.len()
        &&& forall|j: int| 0 <= j < self.caches@.len() ==> cache_ok(#[trigger] self.caches@[j])
        &&& if self.done {
            self.count@ == prod(self.seqs())
        } else {
            self.live_state()
        }
    }

    /// Builds the enumerator over the given playable boards: one board move
    /// stream per board, wrapped in a cache, every cursor at the first move.
    pub fn new(own_boards: &'a Vec<Board>, game: &'a Game, partial_game: &'a PartialGame) -> (r:
        GenMovesetIter<'a>)
        requires
            game.wf(),
            partial_game.wf(*game),
            forall|j: int|
                0 <= j < own_boards@.len() ==> (#[trigger] own_boards@[j]).board_gen_requires(
                    *game,
                ),
        ensures
            r.inv(),
            r.emitted() == 0,
            r.seqs().len() == own_boards@.len(),
            forall|j: int|
                0 <= j < own_boards@.len() ==> r.seqs()[j] == board_moves(
                    *game,
                    *partial_game,
                    #[trigger] own_boards@[j],
                ),
    {
        let n = own_boards.len();
        let mut caches: Vec<CacheMoves<BoardIter<'a>>> = Vec::new();
        let mut cursors: Vec<usize> = Vec::new();
        let mut j: usize = 0;
        while j < n
            invariant
                game.wf(),
                partial_game.wf(*game),
                n == own_boards@.len(),
                forall|k: int|
                    0 <= k < own_boards@.len() ==> (#[trigger] own_boards@[k]).board_gen_requires(
                        *game,
                    ),
                j <= n,
                caches@.len() == j,
                cursors@.len() == j,
                forall|k: int| 0 <= k < j ==> cache_ok(#[trigger] caches@[k]),
                forall|k: int|
                    0 <= k < j ==> cache_seq(#[trigger] caches@[k]) == board_moves(
                        *game,
                        *partial_game,
                        own_boards@[k],
                    ),
                forall|k: int| 0 <= k < j ==> (#[trigger] cursors@[k]) == 0,
            decreases n - j,
        {
            match CacheMoves::new(&own_boards[j], game, partial_game) {
                Some(c) => {
                    proof {
                        assert(cache_ok(c));
                        assert(cache_seq(c) == board_moves(*game, *partial_game, own_boards@[j as int]));
                    }
                    caches.push(c);
                    cursors.push(0);
                }
                None => {
                    proof {
                        assert(false);
                    }
                }
            }
            j = j + 1;
        }
        let r = GenMovesetIter { caches, cursors, done: false, count: Ghost(0) };
        proof {
            let ss = r.seqs();
            if exists|k: int| 0 <= k < ss.len() && (#[trigger] ss[k]).len() == 0 {
                let k = choose|k: int| 0 <= k < ss.len() && (#[trigger] ss[k]).len() == 0;
                lemma_prod_zero(ss, k);
            } else {
                assert forall|k: int| 0 <= k < ss.len() implies ((#[trigger] r.cursors@[k]) as int)
                    < ss[k].len() by {
                    assert(!(ss[k].len() == 0));
                }
                lemma_ord_zero(ss, r.cursors@, 0);
            }
        }
        r
    }

    /// Emits the next candidate moveset: the moves the cursors point at,
    /// one per playable board in board order, then advances the odometer
    /// (rightmost cursor fastest; an exhausted cursor rewinds to the start
    /// of its cache and carries left; enumeration ends when the leftmost
    /// cursor carries out). A candidate is owed exactly while the enumerator
    /// is live with every cursor on a move; each emission is the
    /// `emitted()`-th combination in odometer order and raises both the
    /// emission count and the cursor rank by one, so a fresh enumerator
    /// yields exactly `prod(seqs())` candidates, each combination once.
    #[verifier::rlimit(100)]
    #[verifier::spinoff_prover]
    pub fn next(&mut self) -> (r: Option<Result<Moveset, MovesetValidityErr>>)
        requires
            old(self).inv(),
        ensures
            final(self).inv(),
            final(self).seqs() == old(self).seqs(),
            (r is Some) <==> (!old(self).done && forall|k: int|
                0 <= k < old(self).seqs().len() ==> ((#[trigger] old(self).cursors@[k]) as int)
                    < old(self).seqs()[k].len()),
            r matches Some(Ok(m)) ==> {
                &&& m.moves@.len() == old(self).seqs().len()
                &&& forall|k: int|
                    0 <= k < m.moves@.len() ==> (#[trigger] m.moves@[k]) == old(self).seqs()[k][old(
                        self,
                    ).cursors@[k] as int]
                &&& m.moves@ == combo_at(old(self).seqs(), old(self).emitted())
            },
            r is Some ==> {
                &&& old(self).emitted() == ord(old(self).seqs(), old(self).cursors@)
                &&& 0 <= old(self).emitted() < prod(old(self).seqs())
                &&& final(self).emitted() == old(self).emitted() + 1
                &&& (final(self).done <==> old(self).emitted() + 1 == prod(old(self).seqs()))
                &&& final(self).done ==> ord(old(self).seqs(), old(self).cursors@) + 1 == prod(
                    old(self).seqs(),
                )
                &&& !final(self).done ==> ord(old(self).seqs(), final(self).cursors@) == ord(
                    old(self).seqs(),
                    old(self).cursors@,
                ) + 1
            },
            r is None ==> final(self).emitted() == old(self).emitted() && final(self).done,
    {
        if self.done {
            return None;
        }
        let ghost ss = self.seqs();
        let n = self.caches.len();
        let mut mvs: Vec<Move> = Vec::new();
        let mut j: usize = 0;
        while j < n
            invariant
                self.cursors@.len() == self.caches@.len(),
                forall|k: int|
                    0 <= k < self.caches@.len() ==> cache_ok(#[trigger] self.caches@[k]),
                self.live_state(),
                n == self.caches@.len(),
                ss == self.seqs(),
                ss == old(self).seqs(),
                self.done == false,
                self.cursors@ == old(self).cursors@,
                self.count == old(self).count,
                j <= n,
                mvs@.len() == j,
                forall|k: int|
                    0 <= k < j ==> (#[trigger] mvs@[k]) == ss[k][self.cursors@[k] as int]
                        && (self.cursors@[k] as int) < ss[k].len(),
                forall|k: int|
                    0 <= k < j ==> (self.cursors@[k] as int) < (
                    #[trigger] self.caches@[k]).cache@.len(),
            decreases n - j,
        {
            let cur = self.cursors[j];
            let ghost cpre = self.caches@[j as int];
            let got = self.caches[j].get(cur);
            proof {
                let cpost = self.caches@[j as int];
                assert(cpre.all_spec() == cache_seq(cpre));
                assert(cache_ok(cpost) && cache_seq(cpost) == cache_seq(cpre));
                assert(self.seqs() =~= ss);
                assert(cache_seq(cpre) == ss[j as int]);
            }
            match got {
                Some(m) => {
                    mvs.push(m);
                }
                None => {
                    // the cursor points past its sequence: some board has
                    // no move at all, so no combination exists
                    proof {
                        if self.count@ == ord(ss, self.cursors@) && (forall|k: int|
                            0 <= k < ss.len() ==> ((#[trigger] self.cursors@[k]) as int)
                                < ss[k].len()) {
                            assert((self.cursors@[j as int] as int) < ss[j as int].len());
                            assert(false);
                        }
                        assert(self.count@ == 0 && prod(ss) == 0);
                    }
                    self.done = true;
                    return None;
                }
            }
            j = j + 1;
        }
        proof {
            assert forall|k: int| 0 <= k < n implies ((#[trigger] self.cursors@[k]) as int)
                < ss[k].len() && (self.cursors@[k] as int) < self.caches@[k].cache@.len() by {
                assert(mvs@[k] == ss[k][self.cursors@[k] as int]);
                assert((self.cursors@[k] as int) < self.caches@[k].cache@.len());
            }
            lemma_plain_state(ss, self.cursors@, self.count@);
            assert(mvs@ =~= combo_at(ss, self.count@));
        }
        let ghost count0 = self.count@;
        let ghost emitted_cursors = self.cursors@;
        let mut adv: usize = n;
        let mut carried = true;
        while carried && adv > 0
            invariant
                self.cursors@.len() == self.caches@.len(),
                forall|k: int|
                    0 <= k < self.caches@.len() ==> cache_ok(#[trigger] self.caches@[k]),
                n == self.caches@.len(),
                ss == self.seqs(),
                ss == old(self).seqs(),
                self.done == false,
                self.count == old(self).count,
                adv <= n,
                forall|k: int|
                    0 <= k < adv ==> (#[trigger] self.cursors@[k]) == emitted_cursors[k],
                forall|k: int|
                    0 <= k < n ==> ((#[trigger] emitted_cursors[k]) as int) < ss[k].len(),
                carried ==> forall|k: int|
                    adv <= k < n ==> ((#[trigger] emitted_cursors[k]) as int) == ss[k].len() - 1,
                carried ==> forall|k: int|
                    adv <= k < n ==> (#[trigger] self.cursors@[k]) == 0,
                !carried ==> adv < n && ((emitted_cursors[adv as int] + 1) as int) < ss[adv as int].len()
                    && (self.cursors@[adv as int] as int) == emitted_cursors[adv as int] + 1,
                !carried ==> forall|k: int|
                    adv < k < n ==> ((#[trigger] emitted_cursors[k]) as int) == ss[k].len() - 1,
                !carried ==> forall|k: int|
                    adv < k < n ==> (#[trigger] self.cursors@[k]) == 0,
                forall|k: int|
                    0 <= k < n ==> (emitted_cursors[k] as int) < (
                    #[trigger] self.caches@[k]).cache@.len(),
            decreases adv,
        {
            adv = adv - 1;
            let cur = self.cursors[adv];
            let clen = self.caches[adv].cache.len();
            proof {
                assert(cur < clen);
            }
            let ghost cpre = self.caches@[adv as int];
            let got = self.caches[adv].get(cur + 1);
            proof {
                let cpost = self.caches@[adv as int];
                assert(cpre.all_spec() == cache_seq(cpre));
                assert(cache_ok(cpost) && cache_seq(cpost) == cache_seq(cpre));
                assert(self.seqs() =~= ss);
                assert(cache_seq(cpre) == ss[adv as int]);
            }
            match got {
                Some(_) => {
                    self.cursors.set(adv, cur + 1);
                    carried = false;
                }
                None => {
                    self.cursors.set(adv, 0);
                }
            }
        }
        if carried {
            // the leftmost cursor carried out: that was the last combination
            proof {
                lemma_last_combo(ss, emitted_cursors);
            }
            self.done = true;
            self.count = Ghost(count0 + 1);
        } else {
            proof {
                lemma_increment(ss, emitted_cursors, self.cursors@, adv as int);
                lemma_ord_bounds(ss, self.cursors@, 0);
                assert(ss.skip(0) =~= ss);
            }
            self.count = Ghost(count0 + 1);
        }
        Some(Ok(Moveset::new(mvs)))
    }
}

/// What the enumerator owes, counted: while the invariant holds, a
/// candidate is owed (the enumerator is live with every cursor on a move,
/// the condition under which `next` returns `Some`) exactly while fewer
/// than `prod(seqs())` candidates have been emitted. Together with `next`'s
/// contract — each emission is the `emitted()`-th combination in odometer
/// order and raises `emitted()` by one — a fresh enumerator yields exactly
/// one candidate per combination of per-board moves, in odometer order.
pub proof fn lemma_candidate_owed(it: &GenMovesetIter)
    requires
        it.inv(),
    ensures
        (!it.done && forall|k: int|
            0 <= k < it.seqs().len() ==> ((#[trigger] it.cursors@[k]) as int)
                < it.seqs()[k].len()) <==> it.emitted() < prod(it.seqs()),
{
    let ss = it.seqs();
    if !it.done && forall|k: int|
        0 <= k < ss.len() ==> ((#[trigger] it.cursors@[k]) as int) < ss[k].len() {
        lemma_plain_state(ss, it.cursors@, it.count@);
    }
    if it.emitted() < prod(ss) {
        assert(!it.done);
        if !(it.count@ == ord(ss, it.cursors@) && forall|k: int|
            0 <= k < ss.len() ==> ((#[trigger] it.cursors@[k]) as int) < ss[k].len()) {
            assert(it.count@ == 0 && prod(ss) == 0);
            assert(false);
        }
    }
}

proof fn lemma_ord_zero(ss: Seq<Seq<Move>>, cur: Seq<usize>, j: int)
    requires
        cur.len() == ss.len(),
        0 <= j <= ss.len(),
        forall|k: int| j <= k < cur.len() ==> (#[trigger] cur[k]) == 0,
    ensures
        ord_from(ss, cur, j) == 0,
    decreases ss.len() - j,
{
    if j < ss.len() {
        lemma_ord_zero(ss, cur, j + 1);
    }
}

} // verus!
