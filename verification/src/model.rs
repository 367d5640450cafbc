use vstd::prelude::*;

verus! {

/// Largest board width or height a well-formed board may carry.
pub const DIM_BOUND: i32 = 256;
/// Largest turn index a well-formed board may carry.
pub const TURN_BOUND: i32 = 0x3fff_ffff;
/// Largest absolute timeline index a well-formed board may carry.
pub const TIMELINE_BOUND: i32 = 0x3fff_ffff;

/// The kinds of pieces this variant plays with.
#[derive(Clone, Copy, PartialEq, Eq, Structural, Debug)]
pub enum PieceKind {
    King,
    Knight,
}

/// A piece: a kind together with the colour that owns it.
#[derive(Clone, Copy, PartialEq, Eq, Structural, Debug)]
pub struct Piece {
    pub kind: PieceKind,
    pub white: bool,
}

/// (timeline, turn, file, rank): one square on one board of the multiverse.
#[derive(Clone, Copy, PartialEq, Eq, Structural, Debug)]
pub struct Coords {
    pub l: i32,
    pub t: i32,
    pub x: i32,
    pub y: i32,
}

/// A candidate move: the moving piece, where it stands, where it goes, and
/// what stood on the destination square when the move was generated.
#[derive(Clone, Copy, PartialEq, Eq, Structural, Debug)]
pub struct Move {
    pub piece: Piece,
    pub from: Coords,
    pub to: Coords,
    pub captured: Option<Piece>,
}

/// An immutable grid of optional pieces, tagged with the timeline and turn
/// that address it. Square (x, y) lives at index `y * width + x`.
pub struct Board {
    pub l: i32,
    pub t: i32,
    pub width: i32,
    pub height: i32,
    pub pieces: Vec<Option<Piece>>,
}

impl Board {
    pub open spec fn wf(self) -> bool {
        &&& 1 <= self.width <= DIM_BOUND
        &&& 1 <= self.height <= DIM_BOUND
        &&& 0 <= self.t <= TURN_BOUND
        &&& -TIMELINE_BOUND <= self.l <= TIMELINE_BOUND
        &&& self.pieces@.len() == self.width * self.height
    }

    /// The colour whose move this board awaits: white on even turn indices.
    pub open spec fn to_move_white(self) -> bool {
        self.t % 2 == 0
    }

    /// The occupant of square (x, y); `None` outside the grid.
    pub open spec fn piece_at(self, x: int, y: int) -> Option<Piece> {
        if 0 <= x < self.width && 0 <= y < self.height {
            self.pieces@[y * self.width + x]
        } else {
            None
        }
    }

    /// Field-by-field agreement; two boards built independently can agree
    /// without being one value.
    pub open spec fn same_as(self, other: Board) -> bool {
        &&& self.l == other.l
        &&& self.t == other.t
        &&& self.width == other.width
        &&& self.height == other.height
        &&& self.pieces@ == other.pieces@
    }

    pub fn white(&self) -> (r: bool)
        ensures
            r == self.to_move_white(),
    {
        self.t % 2 == 0
    }

    pub fn get(&self, x: i32, y: i32) -> (r: Option<Piece>)
        requires
            self.wf(),
        ensures
            r == self.piece_at(x as int, y as int),
    {
        if 0 <= x && x < self.width && 0 <= y && y < self.height {
            proof {
                assert(y * self.width + x < self.width * self.height && 0 <= y * self.width + x
                    && self.width * self.height <= 0x10000) by (nonlinear_arith)
                    requires
                        0 <= x < self.width <= 256,
                        0 <= y < self.height <= 256,
                ;
            }
            let idx: usize = (y * self.width + x) as usize;
            self.pieces[idx]
        } else {
            None
        }
    }
}

impl Clone for Board {
    fn clone(&self) -> (res: Self)
        ensures
            res.same_as(*self),
    {
        Board {
            l: self.l,
            t: self.t,
            width: self.width,
            height: self.height,
            pieces: copy_squares(&self.pieces),
        }
    }
}

/// An element-for-element copy of a board's squares.
pub fn copy_squares(v: &Vec<Option<Piece>>) -> (r: Vec<Option<Piece>>)
    ensures
        r@ == v@,
{
    let mut r: Vec<Option<Piece>> = Vec::new();
    let mut i: usize = 0;
    while i < v.len()
        invariant
            i <= v.len(),
            r@ == v@.take(i as int),
        decreases v.len() - i,
    {
        r.push(v[i]);
        proof {
            assert(v@.take(i + 1) == v@.take(i as int).push(v@[i as int]));
        }
        i = i + 1;
    }
    proof {
        assert(v@.take(v@.len() as int) == v@);
    }
    r
}

/// True when no two boards of the sequence share a (timeline, turn) address.
pub open spec fn unique_keys(s: Seq<Board>) -> bool {
    forall|i: int, j: int|
        0 <= i < j < s.len() ==> !(#[trigger] s[i].l == #[trigger] s[j].l && s[i].t == s[j].t)
}

/// The first board of the sequence addressed by (l, t), if any.
pub open spec fn find_board(s: Seq<Board>, l: int, t: int) -> Option<Board>
    decreases s.len(),
{
    if s.len() == 0 {
        None
    } else if s[0].l == l && s[0].t == t {
        Some(s[0])
    } else {
        find_board(s.drop_first(), l, t)
    }
}

/// What a lookup result means: a hit is a member with that address, a miss
/// says no member has it.
pub proof fn lemma_find_board_spec(s: Seq<Board>, l: int, t: int)
    ensures
        match find_board(s, l, t) {
            Some(b) => exists|j: int| 0 <= j < s.len() && s[j] == b && b.l == l && b.t == t,
            None => forall|j: int| 0 <= j < s.len() ==> !(#[trigger] s[j].l == l && s[j].t == t),
        },
    decreases s.len(),
{
    if s.len() > 0 {
        if s[0].l == l && s[0].t == t {
            assert(s[0] == find_board(s, l, t)->Some_0);
        } else {
            lemma_find_board_spec(s.drop_first(), l, t);
            match find_board(s, l, t) {
                Some(b) => {
                    let j = choose|j: int|
                        0 <= j < s.drop_first().len() && s.drop_first()[j] == b && b.l == l && b.t
                            == t;
                    assert(s[j + 1] == b);
                }
                None => {
                    assert(forall|j: int|
                        1 <= j < s.len() ==> s[j] == s.drop_first()[j - 1]);
                }
            }
        }
    }
}

/// In a sequence at position j stands a board addressed (l, t), and no
/// earlier board is: then the lookup returns exactly that board.
pub proof fn lemma_find_board_first(s: Seq<Board>, l: int, t: int, j: int)
    requires
        0 <= j < s.len(),
        s[j].l == l && s[j].t == t,
        forall|k: int| 0 <= k < j ==> !(#[trigger] s[k].l == l && s[k].t == t),
    ensures
        find_board(s, l, t) == Some(s[j]),
    decreases j,
{
    if j == 0 {
    } else {
        assert(forall|k: int|
            0 <= k < j - 1 ==> s.drop_first()[k] == s[k + 1]);
        lemma_find_board_first(s.drop_first(), l, t, j - 1);
    }
}

/// The whole game configuration: the shared board dimensions, the player
/// whose turn the search enumerates, and the baseline boards of every
/// timeline.
pub struct Game {
    pub width: i32,
    pub height: i32,
    pub active_white: bool,
    pub boards: Vec<Board>,
}

impl Game {
    pub open spec fn wf(self) -> bool {
        &&& 1 <= self.width <= DIM_BOUND
        &&& 1 <= self.height <= DIM_BOUND
        &&& forall|i: int|
            0 <= i < self.boards@.len() ==> (#[trigger] self.boards@[i]).wf()
                && self.boards@[i].width == self.width && self.boards@[i].height == self.height
        &&& unique_keys(self.boards@)
    }
}

/// The speculative boards of the current turn, layered over the baseline
/// game: a board recorded here supersedes the baseline board at the same
/// (timeline, turn) address.
pub struct PartialGame {
    pub boards: Vec<Board>,
}

impl PartialGame {
    pub open spec fn wf(self, game: Game) -> bool {
        &&& forall|i: int|
            0 <= i < self.boards@.len() ==> (#[trigger] self.boards@[i]).wf()
                && self.boards@[i].width == game.width && self.boards@[i].height == game.height
        &&& unique_keys(self.boards@)
    }

    /// The board the overlay shows at (l, t): its own board if it holds one,
    /// else the baseline board of the game.
    pub open spec fn board_at(self, game: Game, l: int, t: int) -> Option<Board> {
        match find_board(self.boards@, l, t) {
            Some(b) => Some(b),
            None => find_board(game.boards@, l, t),
        }
    }

    /// A board the overlay shows is well formed and carries the address it
    /// is found under.
    pub proof fn lemma_board_at_wf(self, game: Game, l: int, t: int)
        requires
            game.wf(),
            self.wf(game),
            self.board_at(game, l, t) is Some,
        ensures
            self.board_at(game, l, t)->Some_0.wf(),
            self.board_at(game, l, t)->Some_0.width == game.width,
            self.board_at(game, l, t)->Some_0.height == game.height,
            self.board_at(game, l, t)->Some_0.l == l,
            self.board_at(game, l, t)->Some_0.t == t,
    {
        lemma_find_board_spec(self.boards@, l, t);
        lemma_find_board_spec(game.boards@, l, t);
    }

    /// A reference to the board the overlay shows at (l, t), if any.
    pub fn get_board<'a>(&'a self, game: &'a Game, l: i32, t: i32) -> (r: Option<&'a Board>)
        ensures
            match r {
                Some(b) => self.board_at(*game, l as int, t as int) == Some(*b),
                None => self.board_at(*game, l as int, t as int) is None,
            },
    {
        let mut i: usize = 0;
        while i < self.boards.len()
            invariant
                i <= self.boards@.len(),
                forall|k: int|
                    0 <= k < i ==> !(#[trigger] self.boards@[k].l == l && self.boards@[k].t == t),
            decreases self.boards@.len() - i,
        {
            if self.boards[i].l == l && self.boards[i].t == t {
                proof {
                    lemma_find_board_first(self.boards@, l as int, t as int, i as int);
                }
                return Some(&self.boards[i]);
            }
            i = i + 1;
        }
        proof {
            lemma_find_board_spec(self.boards@, l as int, t as int);
        }
        let mut j: usize = 0;
        while j < game.boards.len()
            invariant
                j <= game.boards@.len(),
                find_board(self.boards@, l as int, t as int) is None,
                forall|k: int|
                    0 <= k < j ==> !(#[trigger] game.boards@[k].l == l && game.boards@[k].t == t),
            decreases game.boards@.len() - j,
        {
            if game.boards[j].l == l && game.boards[j].t == t {
                proof {
                    lemma_find_board_first(game.boards@, l as int, t as int, j as int);
                }
                return Some(&game.boards[j]);
            }
            j = j + 1;
        }
        proof {
            lemma_find_board_spec(game.boards@, l as int, t as int);
        }
        None
    }
}

impl PartialGame {
    /// Whether the overlay itself (not the baseline game) holds a board at
    /// (l, t).
    pub fn has_overlay_board(&self, l: i32, t: i32) -> (r: bool)
        ensures
            r == (find_board(self.boards@, l as int, t as int) is Some),
    {
        let mut i: usize = 0;
        while i < self.boards.len()
            invariant
                i <= self.boards@.len(),
                forall|k: int|
                    0 <= k < i ==> !(#[trigger] self.boards@[k].l == l && self.boards@[k].t == t),
            decreases self.boards@.len() - i,
        {
            if self.boards[i].l == l && self.boards[i].t == t {
                proof {
                    lemma_find_board_first(self.boards@, l as int, t as int, i as int);
                }
                return true;
            }
            i = i + 1;
        }
        proof {
            lemma_find_board_spec(self.boards@, l as int, t as int);
        }
        false
    }
}

/// The occupant of the square (l, t, x, y) as the overlay shows it.
pub open spec fn piece_at_view(game: Game, pg: PartialGame, l: int, t: int, x: int, y: int) -> Option<
    Piece,
> {
    match pg.board_at(game, l, t) {
        Some(b) => b.piece_at(x, y),
        None => None,
    }
}

/// The occupant of a square of the overlay, executed.
pub fn occupant(game: &Game, pg: &PartialGame, l: i32, t: i32, x: i32, y: i32) -> (r: Option<Piece>)
    requires
        game.wf(),
        pg.wf(*game),
    ensures
        r == piece_at_view(*game, *pg, l as int, t as int, x as int, y as int),
{
    match pg.get_board(game, l, t) {
        Some(b) => {
            proof {
                pg.lemma_board_at_wf(*game, l as int, t as int);
            }
            b.get(x, y)
        }
        None => None,
    }
}

/// The baseline overlay of a fresh turn: no tentative board at all, every
/// lookup falls through to the game.
pub fn no_partial_game(game: &Game) -> (r: PartialGame)
    ensures
        r.boards@.len() == 0,
        r.wf(*game),
        forall|l: int, t: int| r.board_at(*game, l, t) == find_board(game.boards@, l, t),
{
    PartialGame { boards: Vec::new() }
}

} // verus!
