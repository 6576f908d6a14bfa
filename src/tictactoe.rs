//! Tic-tac-toe, as a verified implementation of the game contract.

use crate::environment::Environment;
use crate::game_tree::{child, ends_within};
use vstd::prelude::*;
use vstd::std_specs::cmp::PartialEqSpecImpl;

verus! {

/// A player of tic-tac-toe.
#[derive(Clone, Copy, Debug, Eq)]
pub enum Mark {
    X,
    O,
}

impl PartialEq for Mark {
    fn eq(&self, other: &Mark) -> (r: bool) {
        match (self, other) {
            (Mark::X, Mark::X) => true,
            (Mark::O, Mark::O) => true,
            _ => false,
        }
    }
}

impl PartialEqSpecImpl for Mark {
    open spec fn obeys_eq_spec() -> bool {
        true
    }

    open spec fn eq_spec(&self, other: &Mark) -> bool {
        *self == *other
    }
}

fn same_cell(a: Option<Mark>, b: Option<Mark>) -> (r: bool)
    ensures
        r == (a == b),
{
    match (a, b) {
        (None, None) => true,
        (Some(x), Some(y)) => x == y,
        _ => false,
    }
}

/// A 3x3 board, cells numbered 0 to 8 row by row. X moves first.
#[derive(Clone, Copy, Debug, PartialEq, Eq)]
pub struct Board {
    pub c0: Option<Mark>,
    pub c1: Option<Mark>,
    pub c2: Option<Mark>,
    pub c3: Option<Mark>,
    pub c4: Option<Mark>,
    pub c5: Option<Mark>,
    pub c6: Option<Mark>,
    pub c7: Option<Mark>,
    pub c8: Option<Mark>,
}

/// A cell as a base-3 digit.
pub open spec fn digit(c: Option<Mark>) -> u64 {
    match c {
        None => 0,
        Some(Mark::X) => 1,
        Some(Mark::O) => 2,
    }
}

/// 1 for an occupied cell, else 0.
pub open spec fn is_filled(c: Option<Mark>) -> int {
    if c is Some {
        1
    } else {
        0
    }
}

/// 1 for a cell that holds `m`, else 0.
pub open spec fn is_mark(c: Option<Mark>, m: Mark) -> int {
    if c == Some(m) {
        1
    } else {
        0
    }
}

/// Three cells that hold the same mark.
pub open spec fn three(a: Option<Mark>, b: Option<Mark>, c: Option<Mark>) -> bool {
    a is Some && a == b && b == c
}

/// The cells that are free among the first `n`, in increasing order.
pub open spec fn free_below(b: Board, n: nat) -> Seq<usize>
    decreases n,
{
    if n == 0 {
        Seq::empty()
    } else {
        let prev = free_below(b, (n - 1) as nat);
        if b.cell((n - 1) as int) is None {
            prev.push((n - 1) as usize)
        } else {
            prev
        }
    }
}

impl Board {
    pub open spec fn cell(self, i: int) -> Option<Mark> {
        if i == 0 {
            self.c0
        } else if i == 1 {
            self.c1
        } else if i == 2 {
            self.c2
        } else if i == 3 {
            self.c3
        } else if i == 4 {
            self.c4
        } else if i == 5 {
            self.c5
        } else if i == 6 {
            self.c6
        } else if i == 7 {
            self.c7
        } else if i == 8 {
            self.c8
        } else {
            None
        }
    }

    /// The board with `m` in cell `i`.
    pub open spec fn with(self, i: int, m: Mark) -> Board {
        Board {
            c0: if i == 0 { Some(m) } else { self.c0 },
            c1: if i == 1 { Some(m) } else { self.c1 },
            c2: if i == 2 { Some(m) } else { self.c2 },
            c3: if i == 3 { Some(m) } else { self.c3 },
            c4: if i == 4 { Some(m) } else { self.c4 },
            c5: if i == 5 { Some(m) } else { self.c5 },
            c6: if i == 6 { Some(m) } else { self.c6 },
            c7: if i == 7 { Some(m) } else { self.c7 },
            c8: if i == 8 { Some(m) } else { self.c8 },
        }
    }

    /// How many cells are occupied.
    pub open spec fn filled(self) -> int {
        is_filled(self.c0) + is_filled(self.c1) + is_filled(self.c2) + is_filled(self.c3) + is_filled(self.c4) + is_filled(self.c5) + is_filled(self.c6) + is_filled(self.c7) + is_filled(self.c8)
    }

    /// How many cells hold `m`.
    pub open spec fn count(self, m: Mark) -> int {
        is_mark(self.c0, m) + is_mark(self.c1, m) + is_mark(self.c2, m) + is_mark(self.c3, m) + is_mark(self.c4, m) + is_mark(self.c5, m) + is_mark(self.c6, m) + is_mark(self.c7, m) + is_mark(self.c8, m)
    }

    /// The mark of the first complete line, rows, then columns, then diagonals.
    pub open spec fn line_winner(self) -> Option<Mark> {
        if three(self.c0, self.c1, self.c2) {
            self.c0
        } else if three(self.c3, self.c4, self.c5) {
            self.c3
        } else if three(self.c6, self.c7, self.c8) {
            self.c6
        } else if three(self.c0, self.c3, self.c6) {
            self.c0
        } else if three(self.c1, self.c4, self.c7) {
            self.c1
        } else if three(self.c2, self.c5, self.c8) {
            self.c2
        } else if three(self.c0, self.c4, self.c8) {
            self.c0
        } else if three(self.c2, self.c4, self.c6) {
            self.c2
        } else {
            None
        }
    }

    /// X moves when both have placed as many marks, O otherwise.
    pub open spec fn mover(self) -> Mark {
        if self.count(Mark::X) > self.count(Mark::O) {
            Mark::O
        } else {
            Mark::X
        }
    }

    /// What cell `i` holds; cells past 8 are empty.
    pub fn cell_at(&self, i: usize) -> (r: Option<Mark>)
        ensures
            r == self.cell(i as int),
    {
        match i {
            0 => self.c0,
            1 => self.c1,
            2 => self.c2,
            3 => self.c3,
            4 => self.c4,
            5 => self.c5,
            6 => self.c6,
            7 => self.c7,
            8 => self.c8,
            _ => None,
        }
    }

    fn placed(&self, i: usize, m: Mark) -> (r: Board)
        ensures
            r == self.with(i as int, m),
    {
        let mut b = *self;
        match i {
            0 => {
                b.c0 = Some(m);
            },
            1 => {
                b.c1 = Some(m);
            },
            2 => {
                b.c2 = Some(m);
            },
            3 => {
                b.c3 = Some(m);
            },
            4 => {
                b.c4 = Some(m);
            },
            5 => {
                b.c5 = Some(m);
            },
            6 => {
                b.c6 = Some(m);
            },
            7 => {
                b.c7 = Some(m);
            },
            8 => {
                b.c8 = Some(m);
            },
            _ => {},
        }
        b
    }

    fn count_of(&self, m: Mark) -> (r: u8)
        ensures
            r == self.count(m),
    {
        let mut n: u8 = 0;
        if same_cell(self.c0, Some(m)) {
            n = n + 1;
        }
        if same_cell(self.c1, Some(m)) {
            n = n + 1;
        }
        if same_cell(self.c2, Some(m)) {
            n = n + 1;
        }
        if same_cell(self.c3, Some(m)) {
            n = n + 1;
        }
        if same_cell(self.c4, Some(m)) {
            n = n + 1;
        }
        if same_cell(self.c5, Some(m)) {
            n = n + 1;
        }
        if same_cell(self.c6, Some(m)) {
            n = n + 1;
        }
        if same_cell(self.c7, Some(m)) {
            n = n + 1;
        }
        if same_cell(self.c8, Some(m)) {
            n = n + 1;
        }
        n
    }

    fn full(&self) -> (r: bool)
        ensures
            r == (self.filled() == 9),
    {
        self.c0.is_some() && self.c1.is_some() && self.c2.is_some() && self.c3.is_some() && self.c4.is_some() && self.c5.is_some() && self.c6.is_some() && self.c7.is_some() && self.c8.is_some()
    }

    fn find_line(&self) -> (r: Option<Mark>)
        ensures
            r == self.line_winner(),
    {
        if self.c0.is_some() && same_cell(self.c0, self.c1) && same_cell(self.c1, self.c2) {
            self.c0
        } else if self.c3.is_some() && same_cell(self.c3, self.c4) && same_cell(self.c4, self.c5) {
            self.c3
        } else if self.c6.is_some() && same_cell(self.c6, self.c7) && same_cell(self.c7, self.c8) {
            self.c6
        } else if self.c0.is_some() && same_cell(self.c0, self.c3) && same_cell(self.c3, self.c6) {
            self.c0
        } else if self.c1.is_some() && same_cell(self.c1, self.c4) && same_cell(self.c4, self.c7) {
            self.c1
        } else if self.c2.is_some() && same_cell(self.c2, self.c5) && same_cell(self.c5, self.c8) {
            self.c2
        } else if self.c0.is_some() && same_cell(self.c0, self.c4) && same_cell(self.c4, self.c8) {
            self.c0
        } else if self.c2.is_some() && same_cell(self.c2, self.c4) && same_cell(self.c4, self.c6) {
            self.c2
        } else {
            None
        }
    }
}

proof fn lemma_free_below(b: Board, n: nat)
    requires
        n <= 9,
    ensures
        forall|j: int|
            0 <= j < free_below(b, n).len() ==> {
                let i = #[trigger] free_below(b, n)[j];
                &&& i < n
                &&& b.cell(i as int) is None
            },
    decreases n,
{
    if n > 0 {
        lemma_free_below(b, (n - 1) as nat);
    }
}

/// Every line of play from `b` ends within as many plies as there are free cells.
pub proof fn lemma_board_ends(b: Board)
    ensures
        ends_within::<usize, Mark, Board>(b, (9 - b.filled()) as nat),
    decreases 9 - b.filled(),
{
    if !b.terminal_spec() {
        let acts = b.actions_spec();
        lemma_free_below(b, 9);
        assert forall|j: int| 0 <= j < acts.len() implies ends_within::<usize, Mark, Board>(
            #[trigger] child::<usize, Mark, Board>(b, j),
            (9 - b.filled() - 1) as nat,
        ) by {
            let c = child::<usize, Mark, Board>(b, j);
            assert(c.filled() == b.filled() + 1);
            lemma_board_ends(c);
        }
    }
}

impl Environment<usize, Mark> for Board {
    open spec fn initial_spec() -> Board {
        Board {
            c0: None,
            c1: None,
            c2: None,
            c3: None,
            c4: None,
            c5: None,
            c6: None,
            c7: None,
            c8: None,
        }
    }

    /// The free cells in increasing order, none once a line is complete.
    open spec fn actions_spec(&self) -> Seq<usize> {
        if self.line_winner() is Some {
            Seq::empty()
        } else {
            free_below(*self, 9)
        }
    }

    open spec fn what_if_spec(&self, a: usize) -> Board {
        self.with(a as int, self.mover())
    }

    open spec fn terminal_spec(&self) -> bool {
        self.line_winner() is Some || self.filled() == 9
    }

    open spec fn turn_spec(&self) -> Mark {
        self.mover()
    }

    open spec fn winner_spec(&self) -> Option<Mark> {
        self.line_winner()
    }

    /// The cells read as the digits of a number in base 3.
    open spec fn key_spec(&self) -> u64 {
        (1 * digit(self.c0) + 3 * digit(self.c1) + 9 * digit(self.c2) + 27 * digit(self.c3) + 81 * digit(self.c4) + 243 * digit(self.c5) + 729 * digit(self.c6) + 2187 * digit(self.c7) + 6561 * digit(self.c8)) as u64
    }

    proof fn lemma_key_identifies(a: Board, b: Board) {
        assert(digit(a.c8) == digit(b.c8) && (1 * digit(a.c0) + 3 * digit(a.c1) + 9 * digit(a.c2) + 27 * digit(a.c3) + 81 * digit(a.c4) + 243 * digit(a.c5) + 729 * digit(a.c6) + 2187 * digit(a.c7)) == (1 * digit(b.c0) + 3 * digit(b.c1) + 9 * digit(b.c2) + 27 * digit(b.c3) + 81 * digit(b.c4) + 243 * digit(b.c5) + 729 * digit(b.c6) + 2187 * digit(b.c7))) by {
            assert((1 * digit(a.c0) + 3 * digit(a.c1) + 9 * digit(a.c2) + 27 * digit(a.c3) + 81 * digit(a.c4) + 243 * digit(a.c5) + 729 * digit(a.c6) + 2187 * digit(a.c7) + 6561 * digit(a.c8)) == (1 * digit(b.c0) + 3 * digit(b.c1) + 9 * digit(b.c2) + 27 * digit(b.c3) + 81 * digit(b.c4) + 243 * digit(b.c5) + 729 * digit(b.c6) + 2187 * digit(b.c7) + 6561 * digit(b.c8)));
            assert(0 <= (1 * digit(a.c0) + 3 * digit(a.c1) + 9 * digit(a.c2) + 27 * digit(a.c3) + 81 * digit(a.c4) + 243 * digit(a.c5) + 729 * digit(a.c6) + 2187 * digit(a.c7)) < 6561);
            assert(0 <= (1 * digit(b.c0) + 3 * digit(b.c1) + 9 * digit(b.c2) + 27 * digit(b.c3) + 81 * digit(b.c4) + 243 * digit(b.c5) + 729 * digit(b.c6) + 2187 * digit(b.c7)) < 6561);
        }
        assert(digit(a.c7) == digit(b.c7) && (1 * digit(a.c0) + 3 * digit(a.c1) + 9 * digit(a.c2) + 27 * digit(a.c3) + 81 * digit(a.c4) + 243 * digit(a.c5) + 729 * digit(a.c6)) == (1 * digit(b.c0) + 3 * digit(b.c1) + 9 * digit(b.c2) + 27 * digit(b.c3) + 81 * digit(b.c4) + 243 * digit(b.c5) + 729 * digit(b.c6))) by {
            assert((1 * digit(a.c0) + 3 * digit(a.c1) + 9 * digit(a.c2) + 27 * digit(a.c3) + 81 * digit(a.c4) + 243 * digit(a.c5) + 729 * digit(a.c6) + 2187 * digit(a.c7)) == (1 * digit(b.c0) + 3 * digit(b.c1) + 9 * digit(b.c2) + 27 * digit(b.c3) + 81 * digit(b.c4) + 243 * digit(b.c5) + 729 * digit(b.c6) + 2187 * digit(b.c7)));
            assert(0 <= (1 * digit(a.c0) + 3 * digit(a.c1) + 9 * digit(a.c2) + 27 * digit(a.c3) + 81 * digit(a.c4) + 243 * digit(a.c5) + 729 * digit(a.c6)) < 2187);
            assert(0 <= (1 * digit(b.c0) + 3 * digit(b.c1) + 9 * digit(b.c2) + 27 * digit(b.c3) + 81 * digit(b.c4) + 243 * digit(b.c5) + 729 * digit(b.c6)) < 2187);
        }
        assert(digit(a.c6) == digit(b.c6) && (1 * digit(a.c0) + 3 * digit(a.c1) + 9 * digit(a.c2) + 27 * digit(a.c3) + 81 * digit(a.c4) + 243 * digit(a.c5)) == (1 * digit(b.c0) + 3 * digit(b.c1) + 9 * digit(b.c2) + 27 * digit(b.c3) + 81 * digit(b.c4) + 243 * digit(b.c5))) by {
            assert((1 * digit(a.c0) + 3 * digit(a.c1) + 9 * digit(a.c2) + 27 * digit(a.c3) + 81 * digit(a.c4) + 243 * digit(a.c5) + 729 * digit(a.c6)) == (1 * digit(b.c0) + 3 * digit(b.c1) + 9 * digit(b.c2) + 27 * digit(b.c3) + 81 * digit(b.c4) + 243 * digit(b.c5) + 729 * digit(b.c6)));
            assert(0 <= (1 * digit(a.c0) + 3 * digit(a.c1) + 9 * digit(a.c2) + 27 * digit(a.c3) + 81 * digit(a.c4) + 243 * digit(a.c5)) < 729);
            assert(0 <= (1 * digit(b.c0) + 3 * digit(b.c1) + 9 * digit(b.c2) + 27 * digit(b.c3) + 81 * digit(b.c4) + 243 * digit(b.c5)) < 729);
        }
        assert(digit(a.c5) == digit(b.c5) && (1 * digit(a.c0) + 3 * digit(a.c1) + 9 * digit(a.c2) + 27 * digit(a.c3) + 81 * digit(a.c4)) == (1 * digit(b.c0) + 3 * digit(b.c1) + 9 * digit(b.c2) + 27 * digit(b.c3) + 81 * digit(b.c4))) by {
            assert((1 * digit(a.c0) + 3 * digit(a.c1) + 9 * digit(a.c2) + 27 * digit(a.c3) + 81 * digit(a.c4) + 243 * digit(a.c5)) == (1 * digit(b.c0) + 3 * digit(b.c1) + 9 * digit(b.c2) + 27 * digit(b.c3) + 81 * digit(b.c4) + 243 * digit(b.c5)));
            assert(0 <= (1 * digit(a.c0) + 3 * digit(a.c1) + 9 * digit(a.c2) + 27 * digit(a.c3) + 81 * digit(a.c4)) < 243);
            assert(0 <= (1 * digit(b.c0) + 3 * digit(b.c1) + 9 * digit(b.c2) + 27 * digit(b.c3) + 81 * digit(b.c4)) < 243);
        }
        assert(digit(a.c4) == digit(b.c4) && (1 * digit(a.c0) + 3 * digit(a.c1) + 9 * digit(a.c2) + 27 * digit(a.c3)) == (1 * digit(b.c0) + 3 * digit(b.c1) + 9 * digit(b.c2) + 27 * digit(b.c3))) by {
            assert((1 * digit(a.c0) + 3 * digit(a.c1) + 9 * digit(a.c2) + 27 * digit(a.c3) + 81 * digit(a.c4)) == (1 * digit(b.c0) + 3 * digit(b.c1) + 9 * digit(b.c2) + 27 * digit(b.c3) + 81 * digit(b.c4)));
            assert(0 <= (1 * digit(a.c0) + 3 * digit(a.c1) + 9 * digit(a.c2) + 27 * digit(a.c3)) < 81);
            assert(0 <= (1 * digit(b.c0) + 3 * digit(b.c1) + 9 * digit(b.c2) + 27 * digit(b.c3)) < 81);
        }
        assert(digit(a.c3) == digit(b.c3) && (1 * digit(a.c0) + 3 * digit(a.c1) + 9 * digit(a.c2)) == (1 * digit(b.c0) + 3 * digit(b.c1) + 9 * digit(b.c2))) by {
            assert((1 * digit(a.c0) + 3 * digit(a.c1) + 9 * digit(a.c2) + 27 * digit(a.c3)) == (1 * digit(b.c0) + 3 * digit(b.c1) + 9 * digit(b.c2) + 27 * digit(b.c3)));
            assert(0 <= (1 * digit(a.c0) + 3 * digit(a.c1) + 9 * digit(a.c2)) < 27);
            assert(0 <= (1 * digit(b.c0) + 3 * digit(b.c1) + 9 * digit(b.c2)) < 27);
        }
        assert(digit(a.c2) == digit(b.c2) && (1 * digit(a.c0) + 3 * digit(a.c1)) == (1 * digit(b.c0) + 3 * digit(b.c1))) by {
            assert((1 * digit(a.c0) + 3 * digit(a.c1) + 9 * digit(a.c2)) == (1 * digit(b.c0) + 3 * digit(b.c1) + 9 * digit(b.c2)));
            assert(0 <= (1 * digit(a.c0) + 3 * digit(a.c1)) < 9);
            assert(0 <= (1 * digit(b.c0) + 3 * digit(b.c1)) < 9);
        }
        assert(digit(a.c1) == digit(b.c1) && (1 * digit(a.c0)) == (1 * digit(b.c0))) by {
            assert((1 * digit(a.c0) + 3 * digit(a.c1)) == (1 * digit(b.c0) + 3 * digit(b.c1)));
            assert(0 <= (1 * digit(a.c0)) < 3);
            assert(0 <= (1 * digit(b.c0)) < 3);
        }
        assert(digit(a.c0) == digit(b.c0) && 0 == 0) by {
            assert((1 * digit(a.c0)) == (1 * digit(b.c0)));
            assert(0 <= 0 < 1);
            assert(0 <= 0 < 1);
        }
    }

    fn initial_state() -> (r: Board) {
        Board {
            c0: None,
            c1: None,
            c2: None,
            c3: None,
            c4: None,
            c5: None,
            c6: None,
            c7: None,
            c8: None,
        }
    }

    fn update(&mut self, a: &usize) -> (changed: bool) {
        let ghost before = *self;
        proof {
            lemma_free_below(before, 9);
        }
        let next = self.what_if(a);
        *self = next;
        assert(self.cell(*a as int) != before.cell(*a as int));
        true
    }

    fn what_if(&self, a: &usize) -> (r: Board) {
        let m = self.turn();
        self.placed(*a, m)
    }

    fn valid_actions(&self) -> (r: Vec<usize>) {
        let mut v: Vec<usize> = Vec::new();
        if self.find_line().is_some() {
            return v;
        }
        let mut i: usize = 0;
        while i < 9
            invariant
                i <= 9,
                v@ == free_below(*self, i as nat),
            decreases 9 - i,
        {
            if self.cell_at(i).is_none() {
                v.push(i);
            }
            i = i + 1;
        }
        v
    }

    fn is_valid(&self, a: &usize) -> (r: bool) {
        proof {
            lemma_free_below(*self, 9);
        }
        if self.find_line().is_some() || *a >= 9 {
            false
        } else {
            let r = self.cell_at(*a).is_none();
            proof {
                if r {
                    lemma_free_contains(*self, 9, *a);
                }
            }
            r
        }
    }

    fn is_terminal(&self) -> (r: bool) {
        self.find_line().is_some() || self.full()
    }

    fn turn(&self) -> (r: Mark) {
        if self.count_of(Mark::X) > self.count_of(Mark::O) {
            Mark::O
        } else {
            Mark::X
        }
    }

    fn winner(&self) -> (r: Option<Mark>) {
        self.find_line()
    }

    fn key(&self) -> (r: u64) {
        1 * self.digit_at(0) + 3 * self.digit_at(1) + 9 * self.digit_at(2) + 27 * self.digit_at(3) + 81 * self.digit_at(4) + 243 * self.digit_at(5) + 729 * self.digit_at(6) + 2187 * self.digit_at(7) + 6561 * self.digit_at(8)
    }
}

proof fn lemma_free_contains(b: Board, n: nat, a: usize)
    requires
        a < n <= 9,
        b.cell(a as int) is None,
    ensures
        free_below(b, n).contains(a),
    decreases n,
{
    if a < n - 1 {
        lemma_free_contains(b, (n - 1) as nat, a);
        assert(free_below(b, n).contains(a) || free_below(b, n) == free_below(b, (n - 1) as nat).push((n - 1) as usize));
        if free_below(b, n) != free_below(b, (n - 1) as nat) {
            let prev = free_below(b, (n - 1) as nat);
            let j = choose|j: int| 0 <= j < prev.len() && prev[j] == a;
            assert(free_below(b, n)[j] == a);
        }
    } else {
        let s = free_below(b, n);
        assert(s[s.len() - 1] == a);
    }
}

impl Board {
    fn digit_at(&self, i: usize) -> (r: u64)
        ensures
            r == digit(self.cell(i as int)),
    {
        match self.cell_at(i) {
            None => 0,
            Some(Mark::X) => 1,
            Some(Mark::O) => 2,
        }
    }
}

} // verus!
