use vstd::prelude::*;

use crate::board::{Board, Chip};
use std::collections::HashMap;

verus! {

broadcast use vstd::std_specs::hash::group_hash_axioms;

/// One logged ply: the board as the agent saw it before moving, and the
/// column it chose.
#[derive(Clone, Copy, Debug, PartialEq, Eq, Structural)]
pub struct Choice {
    pub board: Board,
    pub column: usize,
}

/// A learned weight for each of the seven columns.
#[derive(Clone, Copy, Debug, PartialEq, Eq)]
pub struct Weight(pub [i16; 7]);

impl View for Weight {
    type V = Seq<i16>;

    open spec fn view(&self) -> Seq<i16> {
        self.0@
    }
}

/// The all-zero weight row a fresh board starts from.
pub open spec fn blank_weights() -> Seq<i16> {
    Seq::new(7, |i: int| 0i16)
}

impl Weight {
    /// A row of seven zero weights.
    pub fn blank() -> (w: Self)
        ensures
            w@ == blank_weights(),
    {
        let w = Weight([0, 0, 0, 0, 0, 0, 0]);
        proof {
            assert(w@ =~= blank_weights());
        }
        w
    }

    /// A row holding exactly the given weights.
    pub fn from_weights(list: [i16; 7]) -> (w: Self)
        ensures
            w@ == list@,
    {
        Weight(list)
    }
}

/// How a finished game ended.
#[derive(Clone, Copy, Debug, PartialEq, Eq, Structural)]
pub enum GameResult {
    RedWon,
    YellowWon,
    Tie,
}

/// How hard to praise or blame the logged choices at the end of a game.
#[derive(Clone, Copy, Debug, PartialEq, Eq, Structural)]
pub enum Action {
    Reward(u32),
    Punish(u32),
}

/// A linear congruential pseudo-random stream: modulus 2^31,
/// multiplier 1103515245, increment 12345.
#[derive(Clone, Copy, Debug, PartialEq, Eq, Structural)]
pub struct Rand(pub u64);

impl Rand {
    /// The state always stays below the modulus.
    pub open spec fn wf(self) -> bool {
        self.0 < 0x80000000
    }

    /// The state one step ahead.
    pub open spec fn next_spec(self) -> int {
        (1103515245 * (self.0 as int) + 12345) % 0x80000000
    }

    /// A stream starting from `seed` (reduced by the modulus).
    pub fn new(seed: usize) -> (r: Self)
        ensures
            r.wf(),
            r.0 as int == (seed as int) % 0x80000000,
    {
        Rand((seed as u64) % 0x80000000)
    }

    /// Advances the stream and returns the new state.
    pub fn next(&mut self) -> (r: usize)
        requires
            old(self).wf(),
        ensures
            final(self).wf(),
            final(self).0 as int == old(self).next_spec(),
            r as int == old(self).next_spec(),
    {
        self.0 = (1103515245u64 * self.0 + 12345) % 0x80000000;
        self.0 as usize
    }
}

/// The memory as a map from canonical packed boards to weight rows.
pub open spec fn weights_view(m: Map<u128, Weight>) -> Map<u128, Seq<i16>> {
    Map::new(|k: u128| m.contains_key(k), |k: u128| m[k]@)
}

proof fn lemma_weights_view_insert(m: Map<u128, Weight>, k: u128, w: Weight)
    ensures
        weights_view(m.insert(k, w)) == weights_view(m).insert(k, w@),
{
    assert(weights_view(m.insert(k, w)) =~= weights_view(m).insert(k, w@));
}

/// Everything of an agent that choosing and learning read or change: its
/// memory, its log of the game in progress, its random stream's state, and
/// its exploration margin.
pub struct AgentState {
    pub mem: Map<u128, Seq<i16>>,
    pub log: Seq<Choice>,
    pub rand: int,
    pub expl: int,
}

/// The random stream's state one step ahead.
pub open spec fn next_rand(s: int) -> int {
    (1103515245 * s + 12345) % 0x80000000
}

/// The tabular self-play learner: a weight table over canonical boards, a
/// bounded log of the game in progress, an exploration margin, and its own
/// random stream.
#[derive(Clone)]
pub struct Bot {
    /// Canonical packed board -> weight per column.  A board and its mirror
    /// share one entry: whichever packing was seen first is the key.
    pub memory: HashMap<u128, Weight>,
    /// The plies of the game in progress, oldest first; at most 21, since
    /// one player moves at most 21 times in 42 cells.
    pub played_choices: Vec<Choice>,
    /// How far below the best weight a column may lie and still be chosen.
    pub exploration: i16,
    /// The agent's own random stream.
    pub rand: Rand,
}

impl Bot {
    /// The memory as a map to weight rows.
    pub open spec fn mem_view(self) -> Map<u128, Seq<i16>> {
        weights_view(self.memory@)
    }

    /// The log holds at most 21 plies of well-formed boards and real
    /// columns, the random stream is in range, and the exploration margin
    /// is not negative.
    pub open spec fn wf(self) -> bool {
        &&& self.played_choices@.len() <= 21
        &&& forall|i: int|
            0 <= i < self.played_choices@.len() ==> (#[trigger] self.played_choices@[i]).board.wf()
                && self.played_choices@[i].column < 7
        &&& self.rand.wf()
        &&& 0 <= self.exploration
    }

    /// A fresh agent with empty memory and log.
    pub fn new(exploration: i16, seed: usize) -> (b: Self)
        requires
            0 <= exploration,
        ensures
            b.wf(),
            b.memory@ == Map::<u128, Weight>::empty(),
            b.mem_view() == Map::<u128, Seq<i16>>::empty(),
            b.played_choices@ == Seq::<Choice>::empty(),
            b.played_choices@.len() == 0,
            b.exploration == exploration,
            b.rand.0 as int == (seed as int) % 0x80000000,
    {
        let b = Bot {
            memory: HashMap::new(),
            played_choices: Vec::new(),
            exploration,
            rand: Rand::new(seed),
        };
        proof {
            assert(b.mem_view() =~= Map::<u128, Seq<i16>>::empty());
            assert(b.played_choices@ =~= Seq::<Choice>::empty());
        }
        b
    }

    /// Drains the per-game log; memory, margin and stream stay.
    pub fn clear_played_choices(&mut self)
        ensures
            final(self).played_choices@.len() == 0,
            final(self).memory == old(self).memory,
            final(self).exploration == old(self).exploration,
            final(self).rand == old(self).rand,
            old(self).wf() ==> final(self).wf(),
    {
        self.played_choices.clear();
    }

    /// Appends one ply to the per-game log; the caller keeps it below its
    /// capacity of 21.
    pub fn remember_played_choice(&mut self, choice: Choice)
        requires
            old(self).wf(),
            old(self).played_choices@.len() < 21,
            choice.board.wf(),
            choice.column < 7,
        ensures
            final(self).wf(),
            final(self).played_choices@ == old(self).played_choices@.push(choice),
            final(self).memory == old(self).memory,
            final(self).exploration == old(self).exploration,
            final(self).rand == old(self).rand,
    {
        self.played_choices.push(choice);
    }

    /// How strongly ply `turn` of `last + 1` logged plies is adjusted: the
    /// last ply saturates, an earlier one counts `turn^2 / 50` (2 percent
    /// of the squared index, rounded down).
    pub open spec fn severity_spec(turn: int, last: int) -> int {
        if turn == last {
            i16::MAX as int
        } else {
            (turn * turn) / 50
        }
    }

    /// The lesson severity of ply `turn` of the current log.
    fn lesson_severity_from_turn(&self, turn: usize) -> (s: i16)
        requires
            1 <= self.played_choices@.len() <= 21,
            turn < self.played_choices@.len(),
        ensures
            s as int == Self::severity_spec(turn as int, self.played_choices@.len() - 1),
    {
        let last_turn = self.played_choices.len() - 1;
        if turn == last_turn {
            return i16::MAX;
        }
        proof {
            assert(turn * turn <= 400) by (nonlinear_arith)
                requires
                    turn <= 20,
            ;
        }
        let sq = (turn * turn) / 50;
        sq as i16
    }

    /// The key the memory resolves a board to, and whether it is the
    /// board's mirror: the board's own packing if stored, else the
    /// mirror's packing if that is stored, else the board's own packing.
    pub open spec fn canonical_key(mem: Map<u128, Seq<i16>>, board: Board) -> (u128, bool) {
        if mem.contains_key(board.bits()) {
            (board.bits(), false)
        } else if mem.contains_key(board.swap_spec().bits()) {
            (board.swap_spec().bits(), true)
        } else {
            (board.bits(), false)
        }
    }

    /// The memory after resolving a board: unchanged if the board or its
    /// mirror is known, else extended by a zero row under the board's own
    /// packing.
    pub open spec fn canonical_mem(mem: Map<u128, Seq<i16>>, board: Board) -> Map<u128, Seq<i16>> {
        if mem.contains_key(board.bits()) || mem.contains_key(board.swap_spec().bits()) {
            mem
        } else {
            mem.insert(board.bits(), blank_weights())
        }
    }

    /// Looks a board up in memory, inserting a zero row the first time a
    /// position (in either orientation) is met.  Returns the stored row and
    /// whether it was found under the board's mirror.
    fn get_or_insert_memory_weights(&mut self, board: Board) -> (r: (Weight, bool))
        ensures
            ({
                let (k, swapped) = Self::canonical_key(old(self).mem_view(), board);
                &&& final(self).mem_view() == Self::canonical_mem(old(self).mem_view(), board)
                &&& r.1 == swapped
                &&& final(self).mem_view().contains_key(k)
                &&& r.0@ == final(self).mem_view()[k]
                &&& final(self).played_choices == old(self).played_choices
                &&& final(self).exploration == old(self).exploration
                &&& final(self).rand == old(self).rand
            }),
    {
        let k = self.board_key(board);
        if self.memory.contains_key(&k) {
            match self.memory.get(&k) {
                Some(w) => (*w, false),
                None => {
                    proof {
                        assert(false);
                    }
                    (Weight::blank(), false)
                },
            }
        } else {
            let mk = self.board_key(board.swap());
            if self.memory.contains_key(&mk) {
                match self.memory.get(&mk) {
                    Some(w) => (*w, true),
                    None => {
                        proof {
                            assert(false);
                        }
                        (Weight::blank(), true)
                    },
                }
            } else {
                let w = Weight::blank();
                self.memory.insert(k, w);
                proof {
                    lemma_weights_view_insert(old(self).memory@, k, w);
                }
                (w, false)
            }
        }
    }

    /// The weight of column `i` as the agent reads it: reversed when the
    /// memory row was found under the board's mirror.
    pub open spec fn effective_weight(w: Seq<i16>, swapped: bool, i: int) -> int {
        if swapped {
            w[6 - i] as int
        } else {
            w[i] as int
        }
    }

    /// The greatest effective weight among the available columns below `c`;
    /// one less than i16's minimum when none is available.
    pub open spec fn best_weight_upto(board: Board, w: Seq<i16>, swapped: bool, c: int) -> int
        decreases c,
    {
        if c <= 0 {
            i16::MIN as int - 1
        } else {
            let rest = Self::best_weight_upto(board, w, swapped, c - 1);
            if !board.available_spec(c - 1) {
                rest
            } else {
                let v = Self::effective_weight(w, swapped, c - 1);
                if v > rest {
                    v
                } else {
                    rest
                }
            }
        }
    }

    /// The lowest weight still eligible: the exploration margin below the
    /// best weight, saturating at i16's minimum.
    pub open spec fn threshold_spec(maxw: int, exploration: int) -> int {
        if maxw - exploration < i16::MIN as int {
            i16::MIN as int
        } else {
            maxw - exploration
        }
    }

    /// The eligible columns in ascending order: available and weighted at
    /// or above the threshold.
    pub open spec fn admissible_upto(
        board: Board,
        w: Seq<i16>,
        swapped: bool,
        threshold: int,
        c: int,
    ) -> Seq<int>
        decreases c,
    {
        if c <= 0 {
            Seq::empty()
        } else {
            let rest = Self::admissible_upto(board, w, swapped, threshold, c - 1);
            if board.available_spec(c - 1) && Self::effective_weight(w, swapped, c - 1)
                >= threshold {
                rest.push(c - 1)
            } else {
                rest
            }
        }
    }

    /// The agent as its choosing-and-learning state.
    pub open spec fn state(self) -> AgentState {
        AgentState {
            mem: self.mem_view(),
            log: self.played_choices@,
            rand: self.rand.0 as int,
            expl: self.exploration as int,
        }
    }

    /// What one choice does, given the agent's memory, random state and
    /// margin: the column drawn and the memory after resolving the board.
    pub open spec fn choose_result(
        mem: Map<u128, Seq<i16>>,
        rand: int,
        exploration: int,
        board: Board,
    ) -> (int, Map<u128, Seq<i16>>) {
        let (k, swapped) = Self::canonical_key(mem, board);
        let m1 = Self::canonical_mem(mem, board);
        let w = m1[k];
        let maxw = Self::best_weight_upto(board, w, swapped, 7);
        let threshold = Self::threshold_spec(maxw, exploration);
        let adm = Self::admissible_upto(board, w, swapped, threshold, 7);
        (adm[next_rand(rand) % (adm.len() as int)], m1)
    }

    /// Chooses a column for `board`: resolve the weight row (mirrored rows
    /// read in reverse), find the best weight among the available columns,
    /// and draw uniformly among the columns within the exploration margin
    /// of it.  The caller logs the returned choice itself.
    pub fn choose_move(&mut self, board: Board) -> (choice: Choice)
        requires
            old(self).wf(),
            board.wf(),
            exists|c: int| 0 <= c < 7 && #[trigger] board.available_spec(c),
        ensures
            final(self).wf(),
            choice.board == board,
            choice.column < 7,
            board.available_spec(choice.column as int),
            final(self).played_choices == old(self).played_choices,
            final(self).exploration == old(self).exploration,
            final(self).rand.0 as int == old(self).rand.next_spec(),
            final(self).mem_view() == Self::canonical_mem(old(self).mem_view(), board),
            ({
                let (k, swapped) = Self::canonical_key(old(self).mem_view(), board);
                let w = Self::canonical_mem(old(self).mem_view(), board)[k];
                let maxw = Self::best_weight_upto(board, w, swapped, 7);
                let threshold = Self::threshold_spec(maxw, old(self).exploration as int);
                let adm = Self::admissible_upto(board, w, swapped, threshold, 7);
                &&& adm.len() > 0
                &&& choice.column as int == adm[old(self).rand.next_spec() % (adm.len() as int)]
            }),
            choice.column as int == Self::choose_result(
                old(self).mem_view(),
                old(self).rand.0 as int,
                old(self).exploration as int,
                board,
            ).0,
            final(self).mem_view() == Self::choose_result(
                old(self).mem_view(),
                old(self).rand.0 as int,
                old(self).exploration as int,
                board,
            ).1,
            final(self).rand.0 as int == next_rand(old(self).rand.0 as int),
    {
        let ghost old_mem = self.mem_view();
        let exploration = self.exploration;
        let (weights, swapped) = self.get_or_insert_memory_weights(board);
        let ghost k = Self::canonical_key(old_mem, board).0;
        let ghost w = self.mem_view()[k];
        let choices_avail = board.available_column_choices();

        let mut found = false;
        let mut maxw: i16 = i16::MIN;
        let mut column: usize = 0;
        while column < 7
            invariant
                column <= 7,
                weights@ == w,
                forall|c: int| 0 <= c < 7 ==> choices_avail@[c] == board.available_spec(c),
                !found ==> Self::best_weight_upto(board, w, swapped, column as int) == i16::MIN
                    as int - 1,
                found ==> maxw as int == Self::best_weight_upto(board, w, swapped, column as int),
            decreases 7 - column,
        {
            if choices_avail[column] {
                let wv = if swapped {
                    weights.0[6 - column]
                } else {
                    weights.0[column]
                };
                proof {
                    assert(wv as int == Self::effective_weight(w, swapped, column as int));
                }
                if !found || wv > maxw {
                    maxw = wv;
                    found = true;
                }
            }
            column += 1;
        }
        proof {
            lemma_best_weight_props(board, w, swapped, 7);
            assert(found);
        }

        let t32: i32 = maxw as i32 - exploration as i32;
        let threshold: i16 = if t32 < -32768 {
            -32768
        } else {
            t32 as i16
        };
        proof {
            assert(threshold as int == Self::threshold_spec(maxw as int, exploration as int));
        }

        let mut adm: Vec<usize> = Vec::new();
        let mut column: usize = 0;
        while column < 7
            invariant
                column <= 7,
                weights@ == w,
                forall|c: int| 0 <= c < 7 ==> choices_avail@[c] == board.available_spec(c),
                ({
                    let sadm = Self::admissible_upto(
                        board,
                        w,
                        swapped,
                        threshold as int,
                        column as int,
                    );
                    &&& adm@.len() == sadm.len()
                    &&& forall|i: int|
                        0 <= i < adm@.len() ==> (#[trigger] adm@[i]) as int == sadm[i] && adm@[i]
                            < 7
                }),
            decreases 7 - column,
        {
            if choices_avail[column] {
                let wv = if swapped {
                    weights.0[6 - column]
                } else {
                    weights.0[column]
                };
                proof {
                    assert(wv as int == Self::effective_weight(w, swapped, column as int));
                }
                if wv >= threshold {
                    adm.push(column);
                }
            }
            column += 1;
        }
        proof {
            lemma_admissible_nonempty(board, w, swapped, threshold as int);
        }
        let idx = self.rand.next() % adm.len();
        let column = adm[idx];
        Choice { board, column }
    }

    /// A weight clamped into i16's range.
    pub open spec fn sat16(x: int) -> int {
        if x > i16::MAX as int {
            i16::MAX as int
        } else if x < i16::MIN as int {
            i16::MIN as int
        } else {
            x
        }
    }

    /// The column a logged choice writes to: a row found under the mirror
    /// writes to the mirrored column.
    pub open spec fn target_column(column: int, swapped: bool) -> int {
        if swapped {
            6 - column
        } else {
            column
        }
    }

    /// The new weight of ply `i`'s column under the outcome-severity
    /// policy: the last ply is pinned to the extreme, earlier plies move
    /// by the base plus the ply's severity, saturating at the bounds.
    pub open spec fn lesson_weight(wv: int, action: Action, i: int, last: int) -> int {
        match action {
            Action::Reward(base) => if i == last {
                i16::MAX as int
            } else {
                Self::sat16(wv + Self::severity_spec(i, last) + base)
            },
            Action::Punish(base) => if i == last {
                i16::MIN as int
            } else {
                Self::sat16(wv - Self::severity_spec(i, last) - base)
            },
        }
    }

    /// The memory after ply `i` learns under the outcome-severity policy.
    pub open spec fn learn_step(
        mem: Map<u128, Seq<i16>>,
        ch: Choice,
        action: Action,
        i: int,
        last: int,
    ) -> Map<u128, Seq<i16>> {
        let (k, swapped) = Self::canonical_key(mem, ch.board);
        let m1 = Self::canonical_mem(mem, ch.board);
        let col = Self::target_column(ch.column as int, swapped);
        let w = m1[k];
        m1.insert(k, w.update(col, Self::lesson_weight(w[col] as int, action, i, last) as i16))
    }

    /// The memory after the first `n` logged plies learn under the
    /// outcome-severity policy, oldest first.
    pub open spec fn learn_fold(
        mem: Map<u128, Seq<i16>>,
        log: Seq<Choice>,
        action: Action,
        n: int,
    ) -> Map<u128, Seq<i16>>
        decreases n,
    {
        if n <= 0 {
            mem
        } else {
            Self::learn_step(
                Self::learn_fold(mem, log, action, n - 1),
                log[n - 1],
                action,
                n - 1,
                log.len() - 1,
            )
        }
    }

    /// The new weight of ply `i`'s column under the outcome-plus-heuristic
    /// policy: the last ply is pinned to the extreme matching the outcome
    /// (left alone on a tie), earlier plies move by the historical board's
    /// heuristic, saturating at the bounds.
    pub open spec fn board_lesson_weight(
        wv: int,
        board: Board,
        bot_chip: Chip,
        game_result: GameResult,
        i: int,
        last: int,
    ) -> int {
        if i == last {
            match game_result {
                GameResult::RedWon => if bot_chip == Chip::Red {
                    i16::MAX as int
                } else {
                    i16::MIN as int
                },
                GameResult::YellowWon => if bot_chip == Chip::Red {
                    i16::MIN as int
                } else {
                    i16::MAX as int
                },
                GameResult::Tie => wv,
            }
        } else {
            Self::sat16(wv + board.value_of_board_spec(bot_chip))
        }
    }

    /// The memory after ply `i` learns under the outcome-plus-heuristic
    /// policy.
    pub open spec fn learn_board_step(
        mem: Map<u128, Seq<i16>>,
        ch: Choice,
        bot_chip: Chip,
        game_result: GameResult,
        i: int,
        last: int,
    ) -> Map<u128, Seq<i16>> {
        let (k, swapped) = Self::canonical_key(mem, ch.board);
        let m1 = Self::canonical_mem(mem, ch.board);
        let col = Self::target_column(ch.column as int, swapped);
        let w = m1[k];
        m1.insert(
            k,
            w.update(
                col,
                Self::board_lesson_weight(
                    w[col] as int,
                    ch.board,
                    bot_chip,
                    game_result,
                    i,
                    last,
                ) as i16,
            ),
        )
    }

    /// The memory after the first `n` logged plies learn under the
    /// outcome-plus-heuristic policy, oldest first.
    pub open spec fn learn_board_fold(
        mem: Map<u128, Seq<i16>>,
        log: Seq<Choice>,
        bot_chip: Chip,
        game_result: GameResult,
        n: int,
    ) -> Map<u128, Seq<i16>>
        decreases n,
    {
        if n <= 0 {
            mem
        } else {
            Self::learn_board_step(
                Self::learn_board_fold(mem, log, bot_chip, game_result, n - 1),
                log[n - 1],
                bot_chip,
                game_result,
                n - 1,
                log.len() - 1,
            )
        }
    }

    /// The outcome-severity policy: every logged ply's weight learns from
    /// the reward or punishment, oldest ply first.  The log itself stays;
    /// the caller clears it separately.
    pub fn learn_from_played_choices(&mut self, action: Action)
        requires
            old(self).wf(),
        ensures
            final(self).wf(),
            final(self).mem_view() == Self::learn_fold(
                old(self).mem_view(),
                old(self).played_choices@,
                action,
                old(self).played_choices@.len() as int,
            ),
            final(self).played_choices == old(self).played_choices,
            final(self).exploration == old(self).exploration,
            final(self).rand == old(self).rand,
    {
        let ghost mem0 = self.mem_view();
        let ghost log = self.played_choices@;
        let n = self.played_choices.len();
        let mut idx: usize = 0;
        while idx < n
            invariant
                old(self).wf(),
                idx <= n,
                n == self.played_choices@.len(),
                self.played_choices == old(self).played_choices,
                self.exploration == old(self).exploration,
                self.rand == old(self).rand,
                log == self.played_choices@,
                mem0 == old(self).mem_view(),
                self.mem_view() == Self::learn_fold(mem0, log, action, idx as int),
            decreases n - idx,
        {
            let ghost prev = self.mem_view();
            let ch = self.played_choices[idx];
            let severity = self.lesson_severity_from_turn(idx);
            proof {
                assert(idx * idx <= 400) by (nonlinear_arith)
                    requires
                        idx <= 20,
                ;
            }
            let (mut weights, swapped) = self.get_or_insert_memory_weights(ch.board);
            let column = if swapped {
                6 - ch.column
            } else {
                ch.column
            };
            let wv = weights.0[column];
            let nv: i16 = match action {
                Action::Reward(base) => {
                    if severity == i16::MAX {
                        i16::MAX
                    } else {
                        clamp_i16(wv as i64 + severity as i64 + base as i64)
                    }
                },
                Action::Punish(base) => {
                    if severity == i16::MAX {
                        i16::MIN
                    } else {
                        clamp_i16(wv as i64 - severity as i64 - base as i64)
                    }
                },
            };
            let key = if swapped {
                self.board_key(ch.board.swap())
            } else {
                self.board_key(ch.board)
            };
            weights.0[column] = nv;
            self.memory.insert(key, weights);
            proof {
                lemma_weights_view_insert(old(self).memory@, key, weights);
                let (k, sw) = Self::canonical_key(prev, ch.board);
                let m1 = Self::canonical_mem(prev, ch.board);
                let col = Self::target_column(ch.column as int, sw);
                assert(nv as int == Self::lesson_weight(
                    m1[k][col] as int,
                    action,
                    idx as int,
                    log.len() - 1,
                ));
                assert(weights@ =~= m1[k].update(col, nv));
                assert(self.mem_view() =~= Self::learn_step(
                    prev,
                    ch,
                    action,
                    idx as int,
                    log.len() - 1,
                ));
            }
            idx += 1;
        }
    }

    /// The outcome-plus-heuristic policy: the last logged ply is pinned to
    /// the extreme matching the outcome (left alone on a tie), and every
    /// earlier ply's weight moves by the heuristic of its historical
    /// board, oldest ply first.  The caller clears the log separately.
    pub fn learn_from_board(&mut self, bot_chip: Chip, game_result: &GameResult)
        requires
            old(self).wf(),
        ensures
            final(self).wf(),
            final(self).mem_view() == Self::learn_board_fold(
                old(self).mem_view(),
                old(self).played_choices@,
                bot_chip,
                *game_result,
                old(self).played_choices@.len() as int,
            ),
            final(self).played_choices == old(self).played_choices,
            final(self).exploration == old(self).exploration,
            final(self).rand == old(self).rand,
    {
        let ghost mem0 = self.mem_view();
        let ghost log = self.played_choices@;
        let n = self.played_choices.len();
        let mut idx: usize = 0;
        while idx < n
            invariant
                old(self).wf(),
                idx <= n,
                n == self.played_choices@.len(),
                self.played_choices == old(self).played_choices,
                self.exploration == old(self).exploration,
                self.rand == old(self).rand,
                log == self.played_choices@,
                mem0 == old(self).mem_view(),
                self.mem_view() == Self::learn_board_fold(
                    mem0,
                    log,
                    bot_chip,
                    *game_result,
                    idx as int,
                ),
            decreases n - idx,
        {
            let ghost prev = self.mem_view();
            let last_turn = self.played_choices.len() - 1;
            let ch = self.played_choices[idx];
            let (mut weights, swapped) = self.get_or_insert_memory_weights(ch.board);
            let column = if swapped {
                6 - ch.column
            } else {
                ch.column
            };
            let wv = weights.0[column];
            let nv: i16 = if idx == last_turn {
                match game_result {
                    GameResult::RedWon => match bot_chip {
                        Chip::Red => i16::MAX,
                        Chip::Yellow => i16::MIN,
                    },
                    GameResult::YellowWon => match bot_chip {
                        Chip::Red => i16::MIN,
                        Chip::Yellow => i16::MAX,
                    },
                    GameResult::Tie => wv,
                }
            } else {
                let value = ch.board.value_of_board(bot_chip);
                clamp_i16(wv as i64 + value as i64)
            };
            let key = if swapped {
                self.board_key(ch.board.swap())
            } else {
                self.board_key(ch.board)
            };
            weights.0[column] = nv;
            self.memory.insert(key, weights);
            proof {
                lemma_weights_view_insert(old(self).memory@, key, weights);
                let (k, sw) = Self::canonical_key(prev, ch.board);
                let m1 = Self::canonical_mem(prev, ch.board);
                let col = Self::target_column(ch.column as int, sw);
                assert(nv as int == Self::board_lesson_weight(
                    m1[k][col] as int,
                    ch.board,
                    bot_chip,
                    *game_result,
                    idx as int,
                    log.len() - 1,
                ));
                assert(weights@ =~= m1[k].update(col, nv));
                assert(self.mem_view() =~= Self::learn_board_step(
                    prev,
                    ch,
                    bot_chip,
                    *game_result,
                    idx as int,
                    log.len() - 1,
                ));
            }
            idx += 1;
        }
    }

    /// A board's packed value, the form memory keys take.
    fn board_key(&self, board: Board) -> (k: u128)
        ensures
            k == board.bits(),
    {
        let p = board.as_pair();
        ((p.0 as u128) << 32u128) | (p.1 as u128)
    }
}

/// Facts about the best available weight: it exists exactly when a column
/// is available, bounds every available column's weight, and is achieved.
pub proof fn lemma_best_weight_props(board: Board, w: Seq<i16>, swapped: bool, n: int)
    requires
        0 <= n,
    ensures
        ({
            let best = Bot::best_weight_upto(board, w, swapped, n);
            &&& ((exists|c: int| 0 <= c < n && #[trigger] board.available_spec(c)) <==> best
                >= i16::MIN as int)
            &&& (!(exists|c: int| 0 <= c < n && #[trigger] board.available_spec(c)) ==> best
                == i16::MIN as int - 1)
            &&& forall|c: int|
                0 <= c < n && #[trigger] board.available_spec(c) ==> Bot::effective_weight(
                    w,
                    swapped,
                    c,
                ) <= best
            &&& ((exists|c: int| 0 <= c < n && #[trigger] board.available_spec(c)) ==> exists|
                c: int,
            |
                0 <= c < n && #[trigger] board.available_spec(c) && Bot::effective_weight(
                    w,
                    swapped,
                    c,
                ) == best)
        }),
    decreases n,
{
    if n > 0 {
        lemma_best_weight_props(board, w, swapped, n - 1);
    }
}

/// Every admissible column is available and close enough to the best, and
/// every such column is admissible.
proof fn lemma_admissible_props(board: Board, w: Seq<i16>, swapped: bool, threshold: int, n: int)
    requires
        0 <= n,
    ensures
        ({
            let adm = Bot::admissible_upto(board, w, swapped, threshold, n);
            &&& forall|i: int|
                0 <= i < adm.len() ==> 0 <= #[trigger] adm[i] < n && board.available_spec(adm[i])
                    && Bot::effective_weight(w, swapped, adm[i]) >= threshold
            &&& forall|c: int|
                0 <= c < n && #[trigger] board.available_spec(c) && Bot::effective_weight(
                    w,
                    swapped,
                    c,
                ) >= threshold ==> adm.contains(c)
        }),
    decreases n,
{
    if n > 0 {
        lemma_admissible_props(board, w, swapped, threshold, n - 1);
        let rest = Bot::admissible_upto(board, w, swapped, threshold, n - 1);
        let adm = Bot::admissible_upto(board, w, swapped, threshold, n);
        if board.available_spec(n - 1) && Bot::effective_weight(w, swapped, n - 1) >= threshold {
            assert(adm[rest.len() as int] == n - 1);
            assert forall|c: int|
                0 <= c < n && #[trigger] board.available_spec(c) && Bot::effective_weight(
                    w,
                    swapped,
                    c,
                ) >= threshold implies adm.contains(c) by {
                if c < n - 1 {
                    assert(rest.contains(c));
                    let i = choose|i: int| 0 <= i < rest.len() && rest[i] == c;
                    assert(adm[i] == c);
                } else {
                    assert(adm[rest.len() as int] == c);
                }
            }
        }
    }
}

/// When a column is available at all, the admissible set is not empty: the
/// best-weighted available column always qualifies.
pub proof fn lemma_admissible_nonempty(board: Board, w: Seq<i16>, swapped: bool, threshold: int)
    requires
        exists|c: int| 0 <= c < 7 && #[trigger] board.available_spec(c),
        threshold <= Bot::best_weight_upto(board, w, swapped, 7),
    ensures
        Bot::admissible_upto(board, w, swapped, threshold, 7).len() > 0,
        forall|i: int|
            0 <= i < Bot::admissible_upto(board, w, swapped, threshold, 7).len() ==> 0
                <= #[trigger] Bot::admissible_upto(board, w, swapped, threshold, 7)[i] < 7
                && board.available_spec(Bot::admissible_upto(board, w, swapped, threshold, 7)[i]),
{
    lemma_best_weight_props(board, w, swapped, 7);
    lemma_admissible_props(board, w, swapped, threshold, 7);
    let best = Bot::best_weight_upto(board, w, swapped, 7);
    let c = choose|c: int|
        0 <= c < 7 && #[trigger] board.available_spec(c) && Bot::effective_weight(w, swapped, c)
            == best;
    assert(Bot::admissible_upto(board, w, swapped, threshold, 7).contains(c));
}

/// A wide sum clamped into i16's range.
fn clamp_i16(x: i64) -> (r: i16)
    ensures
        r as int == Bot::sat16(x as int),
{
    if x > 32767 {
        32767
    } else if x < -32768 {
        -32768
    } else {
        x as i16
    }
}

} // verus!
