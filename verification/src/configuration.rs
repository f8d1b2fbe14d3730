//! The state of a game: who owns which cell and whose turn it is.

use crate::board::Board;
use crate::positions::{adjacent, on_grid, reachable, Positions, CELLS};
use vstd::prelude::*;

verus! {

/// One action of the side to move, from a source cell to a destination cell.
#[derive(Clone, Copy, Debug, PartialEq, Eq, Structural)]
pub enum Movement {
    /// The blob on the first cell stays and a new blob appears on the second, which touches it.
    Duplicate(u8, u8),
    /// The blob on the first cell leaves it for the second, one cell further away.
    Jump(u8, u8),
}

impl Movement {
    /// The cell the blob starts from.
    pub open spec fn source(self) -> int {
        match self {
            Movement::Duplicate(s, _) => s as int,
            Movement::Jump(s, _) => s as int,
        }
    }

    /// The cell that receives a blob.
    pub open spec fn destination(self) -> int {
        match self {
            Movement::Duplicate(_, d) => d as int,
            Movement::Jump(_, d) => d as int,
        }
    }

    /// Whether the source cell is vacated.
    pub open spec fn vacates(self) -> bool {
        self is Jump
    }

    /// The cell the blob starts from.
    pub fn origin(&self) -> (cell: u8)
        ensures
            cell == self.source(),
    {
        match self {
            Movement::Duplicate(s, _) => *s,
            Movement::Jump(s, _) => *s,
        }
    }

    /// The cell that receives a blob.
    pub fn target(&self) -> (cell: u8)
        ensures
            cell == self.destination(),
    {
        match self {
            Movement::Duplicate(_, d) => *d,
            Movement::Jump(_, d) => *d,
        }
    }

    /// Whether the source cell is vacated.
    pub fn is_jump(&self) -> (b: bool)
        ensures
            b == self.vacates(),
    {
        match self {
            Movement::Duplicate(_, _) => false,
            Movement::Jump(_, _) => true,
        }
    }
}

/// The mathematical content of a game state.
pub struct State {
    /// The cells in play.
    pub cells: Set<int>,
    /// The cells owned by the red player, who moves first.
    pub red: Set<int>,
    /// The cells owned by the blue player.
    pub blue: Set<int>,
    /// Whether blue is the side to move.
    pub blue_to_move: bool,
}

impl State {
    /// Both players own cells in play only, and no cell has two owners.
    pub open spec fn wf(self) -> bool {
        &&& forall|c: int| self.cells.contains(c) ==> on_grid(c)
        &&& self.red.subset_of(self.cells)
        &&& self.blue.subset_of(self.cells)
        &&& self.red.disjoint(self.blue)
    }

    /// The cells of the side to move.
    pub open spec fn mover(self) -> Set<int> {
        if self.blue_to_move {
            self.blue
        } else {
            self.red
        }
    }

    /// The cells of the side that is not to move.
    pub open spec fn opponent(self) -> Set<int> {
        if self.blue_to_move {
            self.red
        } else {
            self.blue
        }
    }

    /// The cells in play that nobody owns.
    pub open spec fn vacant(self) -> Set<int> {
        self.cells.difference(self.red).difference(self.blue)
    }

    /// The action, if any, that takes a blob of the side to move from `from` to `to`.
    pub open spec fn step(self, from: int, to: int) -> Option<Movement> {
        if self.mover().contains(from) && self.vacant().contains(to) {
            if adjacent(from, to) {
                Some(Movement::Duplicate(from as u8, to as u8))
            } else if reachable(from, to) {
                Some(Movement::Jump(from as u8, to as u8))
            } else {
                None
            }
        } else {
            None
        }
    }

    /// Whether `m` is an action that the side to move may take.
    pub open spec fn legal(self, m: Movement) -> bool {
        self.step(m.source(), m.destination()) == Some(m)
    }

    /// The legal actions from `from` to the cells below `bound`, by rising destination.
    pub open spec fn moves_from(self, from: int, bound: nat) -> Seq<Movement>
        decreases bound,
    {
        if bound == 0 {
            Seq::empty()
        } else {
            let rest = self.moves_from(from, (bound - 1) as nat);
            match self.step(from, bound - 1) {
                Some(m) => rest.push(m),
                None => rest,
            }
        }
    }

    /// The legal actions from the cells below `bound`, by rising source, then destination.
    pub open spec fn moves_below(self, bound: nat) -> Seq<Movement>
        decreases bound,
    {
        if bound == 0 {
            Seq::empty()
        } else {
            self.moves_below((bound - 1) as nat) + self.moves_from(bound - 1, 64)
        }
    }

    /// Every legal action of the side to move, by rising source, then destination.
    pub open spec fn moves(self) -> Seq<Movement> {
        self.moves_below(64)
    }

    /// Whether the side to move has a legal action.
    pub open spec fn can_move(self) -> bool {
        self.moves().len() > 0
    }

    /// Whether the game has ended: the side to move is stuck, or a player has no blob left.
    pub open spec fn game_over(self) -> bool {
        !self.can_move() || self.red.len() == 0 || self.blue.len() == 0
    }

    /// The cells of the opponent that touch `to`, which a blob arriving there converts.
    pub open spec fn captured(self, to: int) -> Set<int> {
        self.opponent().filter(|c: int| adjacent(c, to))
    }

    /// What the side to move owns once `m` is applied.
    pub open spec fn mover_after(self, m: Movement) -> Set<int> {
        let grown = self.mover().union(self.captured(m.destination())).insert(m.destination());
        if m.vacates() {
            grown.remove(m.source())
        } else {
            grown
        }
    }

    /// What the other side owns once `m` is applied.
    pub open spec fn opponent_after(self, m: Movement) -> Set<int> {
        self.opponent().difference(self.captured(m.destination()))
    }

    /// The state reached by applying `m`; the turn passes to the other side.
    pub open spec fn after(self, m: Movement) -> State {
        State {
            cells: self.cells,
            red: if self.blue_to_move {
                self.opponent_after(m)
            } else {
                self.mover_after(m)
            },
            blue: if self.blue_to_move {
                self.mover_after(m)
            } else {
                self.opponent_after(m)
            },
            blue_to_move: !self.blue_to_move,
        }
    }

    /// The same position with the other player to move.
    pub open spec fn passed(self) -> State {
        State { blue_to_move: !self.blue_to_move, ..self }
    }

    /// How many more cells the side to move owns than the other side.
    pub open spec fn value(self) -> int {
        self.mover().len() - self.opponent().len()
    }

    /// A well-formed state has finitely many cells, sixty-four at most.
    pub proof fn lemma_finite(self)
        requires
            self.wf(),
        ensures
            self.cells.finite(),
            self.red.finite(),
            self.blue.finite(),
            self.vacant().finite(),
            self.cells.len() <= 64,
            self.red.len() <= self.cells.len(),
            self.blue.len() <= self.cells.len(),
    {
        let grid = vstd::set_lib::set_int_range(0, 64);
        vstd::set_lib::lemma_int_range(0, 64);
        assert forall|c: int| self.cells.contains(c) implies grid.contains(c) by {
            assert(on_grid(c));
        }
        vstd::set_lib::lemma_len_subset(self.cells, grid);
        vstd::set_lib::lemma_len_subset(self.red, self.cells);
        vstd::set_lib::lemma_len_subset(self.blue, self.cells);
        vstd::set_lib::lemma_len_subset(self.vacant(), self.cells);
    }

    /// Every cell in play is owned by red, owned by blue or vacant, and by one of the three
    /// only: the three counts add up to the number of cells in play.
    pub proof fn lemma_cells_accounted(self)
        requires
            self.wf(),
        ensures
            self.red.len() + self.blue.len() + self.vacant().len() == self.cells.len(),
    {
        self.lemma_finite();
        let owned = self.red + self.blue;
        vstd::set_lib::lemma_set_disjoint_lens(self.red, self.blue);
        vstd::set_lib::lemma_set_disjoint_lens(owned, self.vacant());
        assert(owned + self.vacant() =~= self.cells);
    }

    /// Read with the other player to move, a position is worth the opposite.
    pub proof fn lemma_value_antisymmetric(self)
        ensures
            self.passed().value() == -self.value(),
    {
    }

    /// The value of a well-formed state lies between minus and plus sixty-four.
    pub proof fn lemma_value_bounds(self)
        requires
            self.wf(),
        ensures
            -64 <= self.value() <= 64,
    {
        self.lemma_finite();
    }

    /// The actions listed from one source are the legal ones from that source.
    pub proof fn lemma_moves_from(self, from: int, bound: nat, m: Movement)
        requires
            on_grid(from),
            bound <= 64,
        ensures
            self.moves_from(from, bound).contains(m) <==> self.legal(m) && m.source() == from
                && m.destination() < bound,
        decreases bound,
    {
        if bound > 0 {
            let rest = self.moves_from(from, (bound - 1) as nat);
            self.lemma_moves_from(from, (bound - 1) as nat, m);
            match self.step(from, bound - 1) {
                Some(last) => {
                    let all = rest.push(last);
                    assert(all[rest.len() as int] == last);
                    if rest.contains(m) {
                        let i = rest.lemma_contains_to_index(m);
                        assert(all[i] == m);
                    }
                    if all.contains(m) {
                        let i = all.lemma_contains_to_index(m);
                        if i < rest.len() {
                            assert(rest[i] == m);
                        }
                    }
                },
                None => {},
            }
        }
    }

    /// The actions listed from the sources below a bound are the legal ones from those sources.
    pub proof fn lemma_moves_below(self, bound: nat, m: Movement)
        requires
            bound <= 64,
        ensures
            self.moves_below(bound).contains(m) <==> self.legal(m) && m.source() < bound,
        decreases bound,
    {
        if bound > 0 {
            let head = self.moves_below((bound - 1) as nat);
            let tail = self.moves_from(bound - 1, 64);
            let all = head + tail;
            self.lemma_moves_below((bound - 1) as nat, m);
            self.lemma_moves_from(bound - 1, 64, m);
            if head.contains(m) {
                let i = head.lemma_contains_to_index(m);
                assert(all[i] == m);
            }
            if tail.contains(m) {
                let i = tail.lemma_contains_to_index(m);
                assert(all[head.len() + i] == m);
            }
            if all.contains(m) {
                let i = all.lemma_contains_to_index(m);
                if i < head.len() {
                    assert(head[i] == m);
                } else {
                    assert(tail[i - head.len()] == m);
                }
            }
        }
    }

    /// One source has sixty-four destinations at most.
    pub proof fn lemma_moves_from_count(self, from: int, bound: nat)
        ensures
            self.moves_from(from, bound).len() <= bound,
        decreases bound,
    {
        if bound > 0 {
            self.lemma_moves_from_count(from, (bound - 1) as nat);
        }
    }

    /// There are sixty-four times sixty-four actions at most.
    pub proof fn lemma_moves_count(self, bound: nat)
        ensures
            self.moves_below(bound).len() <= 64 * bound,
        decreases bound,
    {
        if bound > 0 {
            self.lemma_moves_count((bound - 1) as nat);
            self.lemma_moves_from_count(bound - 1, 64);
        }
    }

    /// The listed actions are exactly the legal ones; so the list is empty exactly when the
    /// side to move has no legal action.
    pub proof fn lemma_moves_legal(self, m: Movement)
        requires
            self.wf(),
        ensures
            self.moves().contains(m) <==> self.legal(m),
    {
        self.lemma_moves_below(64, m);
    }

    /// A cell that holds no blob of the side to move is the source of no action.
    pub proof fn lemma_no_moves_from(self, from: int, bound: nat)
        requires
            !self.mover().contains(from),
        ensures
            self.moves_from(from, bound) == Seq::<Movement>::empty(),
        decreases bound,
    {
        if bound > 0 {
            self.lemma_no_moves_from(from, (bound - 1) as nat);
        }
    }

    /// Applying a legal action keeps every blob on the board and every cell with one owner
    /// at most.
    pub proof fn lemma_after_wf(self, m: Movement)
        requires
            self.wf(),
            self.legal(m),
        ensures
            self.after(m).wf(),
    {
        let next = self.after(m);
        assert(next.red.subset_of(next.cells));
        assert(next.blue.subset_of(next.cells));
        assert(next.red.disjoint(next.blue));
    }
}

/// What tells one game state from another in a search on one board.
#[derive(Clone, Copy, Debug, PartialEq, Eq, Structural)]
pub struct Key {
    /// The cells of red in the upper half and the cells of blue in the lower half.
    pub cells: u128,
    /// Whether blue is the side to move.
    pub blue_to_move: bool,
}

/// Two numbers written one after the other, the first in the upper half.
pub open spec fn joined(upper: u64, lower: u64) -> u128 {
    ((upper as u128) << 64) | (lower as u128)
}

proof fn lemma_joined(a: u64, b: u64, c: u64, d: u64)
    by (bit_vector)
    requires
        joined(a, b) == joined(c, d),
    ensures
        a == c,
        b == d,
{
}

/// A game state: the board, the blobs of both players and the side to move.
///
/// A state is a small value; applying an action gives a new state and leaves the old one as it was.
#[derive(Clone, Copy, Debug, PartialEq, Eq, Structural)]
pub struct Configuration {
    board: Board,
    red: Positions,
    blue: Positions,
    blue_to_move: bool,
}

impl View for Configuration {
    type V = State;

    closed spec fn view(&self) -> State {
        State {
            cells: self.board@,
            red: self.red@,
            blue: self.blue@,
            blue_to_move: self.blue_to_move,
        }
    }
}

impl Configuration {
    /// The invariant of a game state: see [`State::wf`].
    pub open spec fn wf(&self) -> bool {
        self@.wf()
    }

    /// Two game states with the same content are the same value.
    pub proof fn lemma_same_state(self, other: Configuration)
        requires
            self@ == other@,
        ensures
            self == other,
    {
        self.red.lemma_same_cells(other.red);
        self.blue.lemma_same_cells(other.blue);
        self.board.lemma_same_board(other.board);
    }

    /// The cells that red owns, as a set of cells.
    pub closed spec fn red_cells(&self) -> Positions {
        self.red
    }

    /// The cells that blue owns, as a set of cells.
    pub closed spec fn blue_cells(&self) -> Positions {
        self.blue
    }

    /// The sets of cells of a state are what its content says.
    pub proof fn lemma_cells(self)
        ensures
            self.red_cells()@ == self@.red,
            self.blue_cells()@ == self@.blue,
    {
    }

    /// The key of the state: the cells of both players, each set as one number, and the side
    /// to move.
    pub open spec fn key(&self) -> Key {
        Key {
            cells: joined(self.red_cells().code(), self.blue_cells().code()),
            blue_to_move: self@.blue_to_move,
        }
    }

    /// Two states have the same key exactly when both players own the same cells in both and
    /// the same side is to move.
    pub proof fn lemma_key(self, other: Configuration)
        ensures
            self.key() == other.key() <==> self@.red == other@.red && self@.blue == other@.blue
                && self@.blue_to_move == other@.blue_to_move,
    {
        self.red.lemma_code(other.red);
        self.blue.lemma_code(other.blue);
        if self.key() == other.key() {
            lemma_joined(self.red.code(), self.blue.code(), other.red.code(), other.blue.code());
        }
    }

    /// Applying an action is a function of the state and the action: two results of applying
    /// the same action to the same state are the same value.
    pub proof fn lemma_play_is_a_function(self, m: Movement, once: Configuration, twice: Configuration)
        requires
            once@ == self@.after(m),
            twice@ == self@.after(m),
        ensures
            once == twice,
    {
        once.lemma_same_state(twice);
    }

    /// The opening position on `board`: red owns the first and the last cell of the grid, blue
    /// the two other corners, each as far as the corner is in play. Red moves first.
    pub fn new(board: &Board) -> (c: Configuration)
        ensures
            c.wf(),
            c@.cells == board@,
            c@.red == board@.intersect(set![0int, 63int]),
            c@.blue == board@.intersect(set![7int, 56int]),
            !c@.blue_to_move,
    {
        let red = Positions::empty().with(0).with(63).intersection(&board.cells());
        let blue = Positions::empty().with(7).with(56).intersection(&board.cells());
        let c = Configuration { board: *board, red, blue, blue_to_move: false };
        proof {
            board.lemma_on_grid();
            assert(c@.red =~= board@.intersect(set![0int, 63int]));
            assert(c@.blue =~= board@.intersect(set![7int, 56int]));
        }
        c
    }

    /// The state on `board` in which red owns `red`, blue owns `blue` and blue is to move if
    /// `blue_to_move`. There is none where a blob would stand outside the board or a cell
    /// would have two owners.
    pub fn with_blobs(board: &Board, red: Positions, blue: Positions, blue_to_move: bool) -> (r:
        Option<Configuration>)
        ensures
            r.is_some() <==> red@.subset_of(board@) && blue@.subset_of(board@) && red@.disjoint(
                blue@,
            ),
            r matches Some(c) ==> c.wf() && c@ == (State {
                cells: board@,
                red: red@,
                blue: blue@,
                blue_to_move,
            }),
    {
        let outside_red = red.difference(&board.cells());
        let outside_blue = blue.difference(&board.cells());
        let shared = red.intersection(&blue);
        if outside_red.is_empty() && outside_blue.is_empty() && shared.is_empty() {
            proof {
                board.lemma_on_grid();
                assert forall|c: int| red@.contains(c) implies board@.contains(c) by {
                    if !board@.contains(c) {
                        assert(outside_red@.contains(c));
                    }
                }
                assert forall|c: int| blue@.contains(c) implies board@.contains(c) by {
                    if !board@.contains(c) {
                        assert(outside_blue@.contains(c));
                    }
                }
                assert forall|c: int| red@.contains(c) implies !blue@.contains(c) by {
                    if blue@.contains(c) {
                        assert(shared@.contains(c));
                    }
                }
            }
            Some(Configuration { board: *board, red, blue, blue_to_move })
        } else {
            proof {
                if red@.subset_of(board@) && blue@.subset_of(board@) && red@.disjoint(blue@) {
                    assert(outside_red@ =~= Set::<int>::empty());
                    assert(outside_blue@ =~= Set::<int>::empty());
                    assert(shared@ =~= Set::<int>::empty());
                }
            }
            None
        }
    }

    /// The board the game is played on.
    pub fn board(&self) -> (b: Board)
        ensures
            b@ == self@.cells,
    {
        self.board
    }

    /// The cells that red owns.
    pub fn red(&self) -> (p: Positions)
        ensures
            p == self.red_cells(),
            p@ == self@.red,
    {
        self.red
    }

    /// The cells that blue owns.
    pub fn blue(&self) -> (p: Positions)
        ensures
            p == self.blue_cells(),
            p@ == self@.blue,
    {
        self.blue
    }

    /// Whether blue is the side to move.
    pub fn current_player(&self) -> (b: bool)
        ensures
            b == self@.blue_to_move,
    {
        self.blue_to_move
    }

    /// The cells of the side to move.
    pub fn mover(&self) -> (p: Positions)
        ensures
            p@ == self@.mover(),
    {
        if self.blue_to_move {
            self.blue
        } else {
            self.red
        }
    }

    /// The cells of the side that is not to move.
    pub fn opponent(&self) -> (p: Positions)
        ensures
            p@ == self@.opponent(),
    {
        if self.blue_to_move {
            self.red
        } else {
            self.blue
        }
    }

    /// The cells in play that nobody owns.
    pub fn vacant(&self) -> (p: Positions)
        ensures
            p@ == self@.vacant(),
    {
        self.board.cells().difference(&self.red).difference(&self.blue)
    }

    /// Applies `movement` and passes the turn. The state it is applied to stays as it was.
    ///
    /// Only an action that the side to move may take can be applied.
    pub fn play(&self, movement: &Movement) -> (next: Configuration)
        requires
            self.wf(),
            self@.legal(*movement),
        ensures
            next@ == self@.after(*movement),
            next.wf(),
    {
        let to: u8 = movement.target();
        let around = Board::neighbours(to);
        let taken = self.opponent().intersection(&around);
        let grown = self.mover().union(&taken).with(to);
        let mine = match movement {
            Movement::Duplicate(_, _) => grown,
            Movement::Jump(from, _) => grown.without(*from),
        };
        let theirs = self.opponent().difference(&taken);
        let next = if self.blue_to_move {
            Configuration { board: self.board, red: theirs, blue: mine, blue_to_move: false }
        } else {
            Configuration { board: self.board, red: mine, blue: theirs, blue_to_move: true }
        };
        proof {
            assert(taken@ =~= self@.captured(to as int));
            assert(mine@ =~= self@.mover_after(*movement));
            assert(theirs@ =~= self@.opponent_after(*movement));
            assert(next@ =~= self@.after(*movement));
            self@.lemma_after_wf(*movement);
        }
        next
    }

    /// Whether `movement` is an action that the side to move may take.
    pub fn is_legal(&self, movement: &Movement) -> (b: bool)
        requires
            self.wf(),
        ensures
            b == self@.legal(*movement),
    {
        let from: u8 = movement.origin();
        let to: u8 = movement.target();
        if !self.mover().contains(from) || !self.vacant().contains(to) {
            return false;
        }
        match movement {
            Movement::Duplicate(_, _) => Board::is_adjacent(from, to),
            Movement::Jump(_, _) => Board::is_reachable(from, to),
        }
    }

    /// Applies `movement` if the side to move may take it; there is no next state else.
    pub fn checked_play(&self, movement: &Movement) -> (next: Option<Configuration>)
        requires
            self.wf(),
        ensures
            next is Some <==> self@.legal(*movement),
            next matches Some(c) ==> c.wf() && c@ == self@.after(*movement),
    {
        if self.is_legal(movement) {
            Some(self.play(movement))
        } else {
            None
        }
    }

    /// Every legal action of the side to move, by rising source, then destination.
    pub fn movements(&self) -> (all: Vec<Movement>)
        requires
            self.wf(),
        ensures
            all@ == self@.moves(),
    {
        let mut all: Vec<Movement> = Vec::new();
        let mine = self.mover();
        let free = self.vacant();
        let mut from: u8 = 0;
        while from < CELLS
            invariant
                from <= CELLS,
                mine@ == self@.mover(),
                free@ == self@.vacant(),
                all@ == self@.moves_below(from as nat),
            decreases CELLS - from,
        {
            if mine.contains(from) {
                let ghost before = all@;
                let mut to: u8 = 0;
                while to < CELLS
                    invariant
                        from < CELLS,
                        to <= CELLS,
                        mine@ == self@.mover(),
                        free@ == self@.vacant(),
                        mine@.contains(from as int),
                        all@ == before + self@.moves_from(from as int, to as nat),
                    decreases CELLS - to,
                {
                    let ghost so_far = self@.moves_from(from as int, to as nat);
                    if free.contains(to) {
                        if Board::is_adjacent(from, to) {
                            all.push(Movement::Duplicate(from, to));
                            assert(all@ =~= before + so_far.push(Movement::Duplicate(from, to)));
                        } else if Board::is_reachable(from, to) {
                            all.push(Movement::Jump(from, to));
                            assert(all@ =~= before + so_far.push(Movement::Jump(from, to)));
                        }
                    }
                    to = to + 1;
                }
            } else {
                proof {
                    self@.lemma_no_moves_from(from as int, 64);
                    assert(all@ =~= all@ + Seq::<Movement>::empty());
                }
            }
            from = from + 1;
        }
        all
    }

    /// Whether the side to move has a legal action.
    pub fn can_move(&self) -> (b: bool)
        requires
            self.wf(),
        ensures
            b == self@.can_move(),
    {
        self.movements().len() > 0
    }

    /// Whether the game has ended: the side to move is stuck, or a player has no blob left.
    pub fn game_over(&self) -> (b: bool)
        requires
            self.wf(),
        ensures
            b == self@.game_over(),
    {
        !self.can_move() || self.red.len() == 0 || self.blue.len() == 0
    }

    /// The key under which a search files the state.
    pub fn serialize(&self) -> (k: Key)
        ensures
            k == self.key(),
    {
        Key {
            cells: ((self.red.bits() as u128) << 64) | (self.blue.bits() as u128),
            blue_to_move: self.blue_to_move,
        }
    }

    /// The static evaluation: how many more cells the side to move owns than the other side.
    pub fn value(&self) -> (v: i8)
        ensures
            v == self@.value(),
            -64 <= v <= 64,
    {
        let mine: u8 = self.mover().len();
        let theirs: u8 = self.opponent().len();
        (mine as i8) - (theirs as i8)
    }
}

} // verus!
