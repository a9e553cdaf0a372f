use vstd::prelude::*;
use crate::board::{Board, after_move, has_valid_move, is_won, moves_of, valid_move};
use crate::display::{anchor_of, arrow_step, first_piece, mark_of, nearest_in_direction};
use crate::session::PuzzleSession;
use crate::text::{clock_text, decimal_text, fmt_clock, push_decimal_text, push_str_text};

verus! {

/// The phases of one attempt at a puzzle.
#[derive(Clone, Copy, PartialEq, Eq, Structural, Debug)]
pub enum Phase {
    /// The board is shown and the clock runs while the player plans.
    Inspect,
    /// The player captures; the solving clock runs.
    Solve,
    /// One piece is left.
    Done,
    /// No capture is possible and more than one piece is left.
    Stuck,
}

/// Whether the squares that the selected piece attacks are marked.
#[derive(Clone, Copy, PartialEq, Eq, Structural, Debug)]
pub enum Hints {
    Full,
    Off,
}

/// A key that the game reacts to.
#[derive(Clone, Copy, PartialEq, Eq, Structural, Debug)]
pub enum Key {
    Up,
    Down,
    Left,
    Right,
    Enter,
    Esc,
    Char(char),
    Other,
}

/// What a key press asks of the screen.
#[derive(Clone, Copy, PartialEq, Eq, Structural, Debug)]
pub enum Outcome {
    /// Nothing changed.
    Ignored,
    /// Draw the board again.
    Changed,
    /// A capture was made: draw the board again and play the capture sound.
    Captured,
}

/// Whole seconds from `start` to `now`, both clock readings in
/// milliseconds; zero if the clock went back.
pub open spec fn elapsed_secs(start: u64, now: u64) -> u64 {
    if now >= start { ((now - start) / 1000) as u64 } else { 0 }
}

/// Whole seconds from `start` to `now` (milliseconds); zero if the clock went back.
pub fn elapsed(start: u64, now: u64) -> (s: u64)
    ensures
        s == elapsed_secs(start, now),
{
    if now >= start { (now - start) / 1000 } else { 0 }
}

/// One attempt at a puzzle: its phase and its clocks (readings of a
/// monotonic clock, in milliseconds).
#[derive(Clone, Copy)]
pub struct Attempt {
    pub phase: Phase,
    pub inspect_start: u64,
    pub solve_start: u64,
    pub inspect_secs: u64,
    pub solve_secs: u64,
    pub moves: u32,
    /// No dead end was reached in this attempt.
    pub clean: bool,
}

/// A fresh attempt started at `now`.
pub open spec fn fresh_attempt(now: u64) -> Attempt {
    Attempt {
        phase: Phase::Inspect,
        inspect_start: now,
        solve_start: now,
        inspect_secs: 0,
        solve_secs: 0,
        moves: 0,
        clean: true,
    }
}

/// The clock shown above the board in each phase.
pub open spec fn clock_words(phase: Phase, secs: nat) -> Seq<char> {
    match phase {
        Phase::Inspect => "inspecao "@ + clock_text(secs),
        Phase::Solve => "resolvendo "@ + clock_text(secs),
        Phase::Done => "resolvido "@ + clock_text(secs),
        Phase::Stuck => "sem saida"@,
    }
}

/// The line above the board: the level, the puzzle among the level's
/// puzzles, and the clock.
pub open spec fn info_text(level: nat, puzzle: nat, total: nat, phase: Phase, secs: nat) -> Seq<char> {
    "Nivel "@ + decimal_text(level) + "  Puzzle "@ + decimal_text(puzzle) + "/"@ + decimal_text(total) + "   "@
        + clock_words(phase, secs)
}

/// The line under the board: what to do while inspecting or when stuck,
/// nothing while solving, and the record of a solved puzzle.
pub open spec fn status_text(phase: Phase, inspect_secs: nat, solve_secs: nat, moves: nat, streak: nat) -> Seq<char> {
    match phase {
        Phase::Inspect => "Inspecione e planeje a sequencia \u{2014} Enter para comecar"@,
        Phase::Solve => Seq::empty(),
        Phase::Stuck => "Sem saida \u{2014} r para tentar de novo"@,
        Phase::Done => "Resolvido! inspecao "@ + decimal_text(inspect_secs) + "s \u{00b7} execucao "@ + decimal_text(
            solve_secs,
        ) + "s \u{00b7} "@ + decimal_text(moves) + " lances \u{00b7} streak "@ + decimal_text(streak)
            + " \u{2014} n proximo"@,
    }
}

impl Attempt {
    /// A fresh attempt, inspecting, started at `now`.
    pub fn new(now: u64) -> (a: Attempt)
        ensures
            a == fresh_attempt(now),
    {
        Attempt {
            phase: Phase::Inspect,
            inspect_start: now,
            solve_start: now,
            inspect_secs: 0,
            solve_secs: 0,
            moves: 0,
            clean: true,
        }
    }

    /// The seconds that the clock shows at `now` (see `shown_secs`).
    pub open spec fn clock_at(&self, now: u64) -> u64 {
        match self.phase {
            Phase::Inspect => elapsed_secs(self.inspect_start, now),
            Phase::Solve => elapsed_secs(self.solve_start, now),
            Phase::Done => self.solve_secs,
            Phase::Stuck => 0,
        }
    }

    /// The seconds that the clock shows at `now`: the running inspection or
    /// solving time, the final solving time once done, zero when stuck.
    pub fn shown_secs(&self, now: u64) -> (s: u64)
        ensures
            s == match self.phase {
                Phase::Inspect => elapsed_secs(self.inspect_start, now),
                Phase::Solve => elapsed_secs(self.solve_start, now),
                Phase::Done => self.solve_secs,
                Phase::Stuck => 0,
            },
    {
        match self.phase {
            Phase::Inspect => elapsed(self.inspect_start, now),
            Phase::Solve => elapsed(self.solve_start, now),
            Phase::Done => self.solve_secs,
            Phase::Stuck => 0,
        }
    }
}

/// The square where the cursor starts on `board`: the first piece, or
/// square 28 on an empty board.
pub open spec fn start_cursor(board: Board, c: usize) -> bool {
    ||| (forall|i: int| 0 <= i < 64 ==> #[trigger] board@.pieces[i] is None) && c == 28
    ||| c < 64 && board@.pieces[c as int] is Some && forall|j: int| 0 <= j < c ==> #[trigger] board@.pieces[j] is None
}

/// The level (counted from zero) that digit key `c` jumps to: `1` to `9`
/// for the first nine, `0` for the tenth.
pub open spec fn digit_level(c: char) -> int {
    if c == '0' { 9 } else { c as int - '1' as int }
}

/// The state of the training game.
pub struct Game {
    pub session: PuzzleSession,
    pub cursor: usize,
    pub selected: Option<usize>,
    pub attempt: Attempt,
    pub streak: u32,
    pub hints: Hints,
    pub running: bool,
}

/// The cursor moved as the arrow key `(dr, dc)` takes it (`arrow_step`):
/// to the piece that the key picks, or nowhere when none lies ahead;
/// nothing else changed.
pub open spec fn cursor_moved(old: Game, new: Game, dr: int, dc: int) -> bool {
    &&& new == Game { cursor: new.cursor, ..old }
    &&& new.cursor == arrow_step(old.session.board, old.cursor as int, (dr, dc))
}

/// After a capture from `from` to the cursor: the board changed by the
/// move, the selection is cleared, the move is counted, and the attempt is
/// done (with the streak raised when it was clean) when one piece is left,
/// or stuck (and no longer clean) when no capture remains.
pub open spec fn captured_effect(old: Game, new: Game, from: int, now: u64) -> bool {
    let b = after_move(old.session.board@, from, old.cursor as int);
    let moves = if old.attempt.moves < u32::MAX { (old.attempt.moves + 1) as u32 } else { old.attempt.moves };
    &&& new.session.board@ == b
    &&& new.session.levels == old.session.levels
    &&& new.session.current_level == old.session.current_level
    &&& new.session.current_puzzle == old.session.current_puzzle
    &&& new.cursor == old.cursor
    &&& new.selected is None
    &&& new.hints == old.hints
    &&& new.running == old.running
    &&& new.attempt.moves == moves
    &&& new.attempt.inspect_start == old.attempt.inspect_start
    &&& new.attempt.solve_start == old.attempt.solve_start
    &&& new.attempt.inspect_secs == old.attempt.inspect_secs
    &&& if is_won(b) {
        &&& new.attempt.phase == Phase::Done
        &&& new.attempt.solve_secs == elapsed_secs(old.attempt.solve_start, now)
        &&& new.attempt.clean == old.attempt.clean
        &&& new.streak == if old.attempt.clean && old.streak < u32::MAX { (old.streak + 1) as u32 } else { old.streak }
    } else if !has_valid_move(b) {
        &&& new.attempt.phase == Phase::Stuck
        &&& new.attempt.solve_secs == old.attempt.solve_secs
        &&& !new.attempt.clean
        &&& new.streak == old.streak
    } else {
        &&& new.attempt.phase == Phase::Solve
        &&& new.attempt.solve_secs == old.attempt.solve_secs
        &&& new.attempt.clean == old.attempt.clean
        &&& new.streak == old.streak
    }
}

/// What Enter does: in inspection, starts solving (recording the
/// inspection time); while solving, selects the piece under the cursor,
/// drops the selection when the cursor is on the selected piece, captures
/// when the selected piece may take the piece under the cursor, and
/// otherwise selects the piece under the cursor or drops the selection;
/// when done or stuck, nothing.
pub open spec fn enter_effect(old: Game, new: Game, now: u64, captured: bool) -> bool {
    let board = old.session.board@;
    let under = board.pieces[old.cursor as int] is Some;
    match old.attempt.phase {
        Phase::Inspect => !captured && new == Game {
            attempt: Attempt {
                phase: Phase::Solve,
                inspect_secs: elapsed_secs(old.attempt.inspect_start, now),
                solve_start: now,
                ..old.attempt
            },
            ..old
        },
        Phase::Solve => match old.selected {
            None => !captured && new == Game { selected: if under { Some(old.cursor) } else { None }, ..old },
            Some(from) => if from == old.cursor {
                !captured && new == Game { selected: None, ..old }
            } else if valid_move(board, from as int, old.cursor as int) {
                captured && captured_effect(old, new, from as int, now)
            } else {
                !captured && new == Game { selected: if under { Some(old.cursor) } else { None }, ..old }
            },
        },
        _ => !captured && new == old,
    }
}

/// The streak counts clean solves: a press of Enter whose capture solves
/// the puzzle raises the streak by exactly one when the attempt was clean
/// (below the counter's ceiling) and leaves it as it was otherwise; a
/// capture that does not solve the puzzle, and any press that captures
/// nothing, leaves it unchanged.
pub proof fn law_streak_counts_clean_solves(old: Game, new: Game, now: u64, captured: bool)
    requires
        enter_effect(old, new, now, captured),
    ensures
        captured && new.attempt.phase == Phase::Done && old.attempt.clean && old.streak < u32::MAX
            ==> new.streak == old.streak + 1,
        captured && new.attempt.phase == Phase::Done && !old.attempt.clean ==> new.streak == old.streak,
        captured && new.attempt.phase != Phase::Done ==> new.streak == old.streak,
        !captured ==> new.streak == old.streak,
        captured ==> (new.attempt.phase == Phase::Done <==> is_won(new.session.board@)),
{
}

/// A new attempt after the session moved to another board: cursor on the
/// first piece, no selection, a fresh attempt; the streak is kept or
/// cleared as `streak` says.
pub open spec fn switched(old: Game, new: Game, now: u64, streak: u32) -> bool {
    &&& start_cursor(new.session.board, new.cursor)
    &&& new.selected is None
    &&& new.attempt == fresh_attempt(now)
    &&& new.streak == streak
    &&& new.hints == old.hints
    &&& new.running == old.running
    &&& new.session.wf()
    &&& new.session.levels == old.session.levels
}

/// The session moved on (`n`) or back (`p`) and a new attempt started,
/// the streak kept.
pub open spec fn stepped(old: Game, new: Game, now: u64, spot: (int, int)) -> bool {
    &&& switched(old, new, now, old.streak)
    &&& (new.session.current_level as int, new.session.current_puzzle as int) == spot
    &&& new.session.board == new.session.puzzle(spot.0, spot.1)
}

/// The current puzzle was put back (`r`), a new attempt started and the
/// streak cleared.
pub open spec fn restarted(old: Game, new: Game, now: u64) -> bool {
    &&& switched(old, new, now, 0)
    &&& new.session.current_level == old.session.current_level
    &&& new.session.current_puzzle == old.session.current_puzzle
    &&& new.session.board == old.session.puzzle(old.session.current_level as int, old.session.current_puzzle as int)
}

/// The game jumped to the first puzzle of `level` (a digit key), if that
/// level exists, a new attempt started and the streak cleared.
pub open spec fn jumped(old: Game, new: Game, now: u64, level: int) -> bool {
    &&& switched(old, new, now, 0)
    &&& level < old.session.levels@.len() ==> {
        &&& new.session.current_level == level
        &&& new.session.current_puzzle == 0
        &&& new.session.board == new.session.puzzle(level, 0)
    }
    &&& level >= old.session.levels@.len() ==> new.session == old.session
}

/// A digit key.
pub open spec fn is_digit(c: char) -> bool {
    '0' <= c <= '9'
}

/// What each key does. Arrows move the cursor (up, down, left, right);
/// Enter acts as `enter_effect` says; Esc drops the selection; `h`
/// toggles the hints; `n` and `p` go to the next and previous puzzle;
/// `r` restarts the puzzle; a digit jumps to a level; `q` quits. Any other
/// key changes nothing and asks for no redraw; all of these ask for one.
pub open spec fn key_effect(old: Game, new: Game, key: Key, now: u64, outcome: Outcome) -> bool {
    match key {
        Key::Up => cursor_moved(old, new, -1, 0) && outcome == Outcome::Changed,
        Key::Down => cursor_moved(old, new, 1, 0) && outcome == Outcome::Changed,
        Key::Left => cursor_moved(old, new, 0, -1) && outcome == Outcome::Changed,
        Key::Right => cursor_moved(old, new, 0, 1) && outcome == Outcome::Changed,
        Key::Enter => enter_effect(old, new, now, outcome == Outcome::Captured) && outcome != Outcome::Ignored,
        Key::Esc => new == (Game { selected: None, ..old }) && outcome == Outcome::Changed,
        Key::Char(c) => if c == 'h' {
            new == (Game { hints: if old.hints == Hints::Full { Hints::Off } else { Hints::Full }, ..old })
                && outcome == Outcome::Changed
        } else if c == 'n' {
            stepped(old, new, now, crate::session::next_spot(old.session.sizes(), old.session.current_level as int, old.session.current_puzzle as int))
                && outcome == Outcome::Changed
        } else if c == 'p' {
            stepped(old, new, now, crate::session::prev_spot(old.session.sizes(), old.session.current_level as int, old.session.current_puzzle as int))
                && outcome == Outcome::Changed
        } else if c == 'r' {
            restarted(old, new, now) && outcome == Outcome::Changed
        } else if is_digit(c) {
            jumped(old, new, now, digit_level(c)) && outcome == Outcome::Changed
        } else if c == 'q' {
            new == (Game { running: false, ..old }) && outcome == Outcome::Changed
        } else {
            new == old && outcome == Outcome::Ignored
        },
        Key::Other => new == old && outcome == Outcome::Ignored,
    }
}

/// The squares marked as hints: while solving with hints on, those that
/// the selected piece attacks, if it may still capture; else none.
pub open spec fn hint_squares(g: Game) -> Seq<usize> {
    match g.selected {
        Some(i) => if g.attempt.phase == Phase::Solve && g.hints == Hints::Full && g.session.board@.used[i as int] < 2 {
            moves_of(g.session.board@.pieces, i as int)
        } else {
            Seq::empty()
        },
        None => Seq::empty(),
    }
}

/// While solving with hints on, exactly the squares that the selected
/// piece may capture show the capture dot, on the top line of the square,
/// which the piece's picture or glyph (drawn from the second line down)
/// leaves free.
pub proof fn law_capture_squares_marked(g: Game, t: int, kitty: bool, h_pad: int, v_pad: int)
    requires
        g.wf(),
        g.attempt.phase == Phase::Solve,
        g.hints == Hints::Full,
        g.selected is Some,
        0 <= t < 64,
    ensures
        valid_move(g.session.board@, g.selected->0 as int, t) <==> (mark_of(g.session.board, t, 0, hint_squares(g)) is Capture
            || mark_of(g.session.board, t, 0, hint_squares(g)) is RankCapture),
        anchor_of(t, kitty, h_pad, v_pad).1 > v_pad + 2 + (t / 8) * 5,
{
    let s = g.selected->0 as int;
    if g.session.board@.pieces[s] is None {
        assert(moves_of(g.session.board@.pieces, s) =~= Seq::<usize>::empty());
    }
}

impl Game {
    /// The cursor and the selection lie on the board, and the session is well formed.
    pub open spec fn wf(&self) -> bool {
        &&& self.session.wf()
        &&& self.cursor < 64
        &&& self.selected matches Some(i) ==> i < 64
    }

    /// The line shown above the board at `now`: the level and the puzzle,
    /// both counted from one, the number of puzzles of the level, and the
    /// clock of the current phase.
    pub fn info_line(&self, now: u64) -> (line: String)
        requires
            self.session.wf(),
        ensures
            line@ == info_text(
                (self.session.current_level + 1) as nat,
                (self.session.current_puzzle + 1) as nat,
                self.session.levels@[self.session.current_level as int]@.len(),
                self.attempt.phase,
                self.attempt.clock_at(now) as nat,
            ),
    {
        let levels = self.session.levels.len();
        let total = self.session.levels[self.session.current_level].len();
        assert(self.session.sizes()[self.session.current_level as int] == total);
        let mut line = String::new();
        push_str_text(&mut line, "Nivel ");
        push_decimal_text(&mut line, (self.session.current_level + 1) as u64);
        push_str_text(&mut line, "  Puzzle ");
        push_decimal_text(&mut line, (self.session.current_puzzle + 1) as u64);
        push_str_text(&mut line, "/");
        push_decimal_text(&mut line, total as u64);
        push_str_text(&mut line, "   ");
        let secs = self.attempt.shown_secs(now);
        match self.attempt.phase {
            Phase::Inspect => {
                push_str_text(&mut line, "inspecao ");
                let clock = fmt_clock(secs);
                push_str_text(&mut line, clock.as_str());
            },
            Phase::Solve => {
                push_str_text(&mut line, "resolvendo ");
                let clock = fmt_clock(secs);
                push_str_text(&mut line, clock.as_str());
            },
            Phase::Done => {
                push_str_text(&mut line, "resolvido ");
                let clock = fmt_clock(secs);
                push_str_text(&mut line, clock.as_str());
            },
            Phase::Stuck => {
                push_str_text(&mut line, "sem saida");
            },
        }
        assert(line@ =~= info_text(
            (self.session.current_level + 1) as nat,
            (self.session.current_puzzle + 1) as nat,
            self.session.levels@[self.session.current_level as int]@.len(),
            self.attempt.phase,
            self.attempt.clock_at(now) as nat,
        ));
        line
    }

    /// The line shown under the board: what to do while inspecting or when
    /// stuck, nothing while solving, and, once solved, the inspection and
    /// solving seconds, the number of captures and the streak.
    pub fn status_line(&self) -> (line: String)
        ensures
            line@ == status_text(
                self.attempt.phase,
                self.attempt.inspect_secs as nat,
                self.attempt.solve_secs as nat,
                self.attempt.moves as nat,
                self.streak as nat,
            ),
    {
        let mut line = String::new();
        match self.attempt.phase {
            Phase::Inspect => {
                push_str_text(&mut line, "Inspecione e planeje a sequencia \u{2014} Enter para comecar");
            },
            Phase::Solve => {},
            Phase::Stuck => {
                push_str_text(&mut line, "Sem saida \u{2014} r para tentar de novo");
            },
            Phase::Done => {
                push_str_text(&mut line, "Resolvido! inspecao ");
                push_decimal_text(&mut line, self.attempt.inspect_secs);
                push_str_text(&mut line, "s \u{00b7} execucao ");
                push_decimal_text(&mut line, self.attempt.solve_secs);
                push_str_text(&mut line, "s \u{00b7} ");
                push_decimal_text(&mut line, self.attempt.moves as u64);
                push_str_text(&mut line, " lances \u{00b7} streak ");
                push_decimal_text(&mut line, self.streak as u64);
                push_str_text(&mut line, " \u{2014} n proximo");
            },
        }
        assert(line@ =~= status_text(
            self.attempt.phase,
            self.attempt.inspect_secs as nat,
            self.attempt.solve_secs as nat,
            self.attempt.moves as nat,
            self.streak as nat,
        ));
        line
    }

    /// A game on `session` whose first attempt starts at `now`.
    pub fn new(session: PuzzleSession, now: u64) -> (g: Game)
        requires
            session.wf(),
        ensures
            g.wf(),
            g.session == session,
            start_cursor(session.board, g.cursor),
            g.selected is None,
            g.attempt == fresh_attempt(now),
            g.streak == 0,
            g.hints == Hints::Full,
            g.running,
    {
        let cursor = Game::start_square(&session.board);
        Game {
            session,
            cursor,
            selected: None,
            attempt: Attempt::new(now),
            streak: 0,
            hints: Hints::Full,
            running: true,
        }
    }

    /// The first piece of `board`, or square 28 on an empty board.
    fn start_square(board: &Board) -> (c: usize)
        ensures
            start_cursor(*board, c),
            c < 64,
    {
        match first_piece(board) {
            Some(i) => i,
            None => 28,
        }
    }

    /// Moves the cursor to the nearest piece in direction `(dr, dc)`, if any.
    pub fn move_cursor(&mut self, dr: i32, dc: i32)
        requires
            old(self).wf(),
            -1 <= dr <= 1,
            -1 <= dc <= 1,
        ensures
            final(self).wf(),
            cursor_moved(*old(self), *final(self), dr as int, dc as int),
    {
        if let Some(next) = nearest_in_direction(&self.session.board, self.cursor, dr, dc) {
            self.cursor = next;
        }
    }

    /// Reacts to Enter (see `enter_effect`); true when a capture was made.
    pub fn press_enter(&mut self, now: u64) -> (captured: bool)
        requires
            old(self).wf(),
        ensures
            final(self).wf(),
            enter_effect(*old(self), *final(self), now, captured),
    {
        match self.attempt.phase {
            Phase::Inspect => {
                self.attempt.inspect_secs = elapsed(self.attempt.inspect_start, now);
                self.attempt.solve_start = now;
                self.attempt.phase = Phase::Solve;
                false
            },
            Phase::Solve => match self.selected {
                None => {
                    if self.session.board.pieces[self.cursor].is_some() {
                        self.selected = Some(self.cursor);
                    }
                    false
                },
                Some(from) => {
                    if from == self.cursor {
                        self.selected = None;
                        false
                    } else if self.session.board.is_valid_move(from, self.cursor) {
                        self.session.board.make_move(from, self.cursor);
                        if self.attempt.moves < u32::MAX {
                            self.attempt.moves = self.attempt.moves + 1;
                        }
                        self.selected = None;
                        if self.session.board.is_won() {
                            self.attempt.solve_secs = elapsed(self.attempt.solve_start, now);
                            self.attempt.phase = Phase::Done;
                            if self.attempt.clean && self.streak < u32::MAX {
                                self.streak = self.streak + 1;
                            }
                        } else if !self.session.board.has_any_valid_move() {
                            self.attempt.clean = false;
                            self.attempt.phase = Phase::Stuck;
                        }
                        true
                    } else if self.session.board.pieces[self.cursor].is_some() {
                        self.selected = Some(self.cursor);
                        false
                    } else {
                        self.selected = None;
                        false
                    }
                },
            },
            _ => false,
        }
    }

    /// Starts a new attempt on the session's current board at `now`,
    /// keeping the streak or clearing it.
    fn start_attempt(&mut self, now: u64, clear_streak: bool)
        requires
            old(self).wf(),
        ensures
            final(self).wf(),
            final(self).session == old(self).session,
            switched(*old(self), *final(self), now, if clear_streak { 0 } else { old(self).streak }),
    {
        self.cursor = Game::start_square(&self.session.board);
        self.selected = None;
        self.attempt = Attempt::new(now);
        if clear_streak {
            self.streak = 0;
        }
    }

    /// Reacts to a key pressed at `now` (a clock reading in milliseconds);
    /// see `key_effect`.
    pub fn handle_key(&mut self, key: Key, now: u64) -> (outcome: Outcome)
        requires
            old(self).wf(),
        ensures
            final(self).wf(),
            key_effect(*old(self), *final(self), key, now, outcome),
    {
        match key {
            Key::Up => {
                self.move_cursor(-1, 0);
                Outcome::Changed
            },
            Key::Down => {
                self.move_cursor(1, 0);
                Outcome::Changed
            },
            Key::Left => {
                self.move_cursor(0, -1);
                Outcome::Changed
            },
            Key::Right => {
                self.move_cursor(0, 1);
                Outcome::Changed
            },
            Key::Enter => {
                if self.press_enter(now) {
                    Outcome::Captured
                } else {
                    Outcome::Changed
                }
            },
            Key::Esc => {
                self.selected = None;
                Outcome::Changed
            },
            Key::Char('h') => {
                self.hints = if self.hints == Hints::Full { Hints::Off } else { Hints::Full };
                Outcome::Changed
            },
            Key::Char('n') => {
                self.session.next();
                self.start_attempt(now, false);
                Outcome::Changed
            },
            Key::Char('p') => {
                self.session.prev();
                self.start_attempt(now, false);
                Outcome::Changed
            },
            Key::Char('r') => {
                self.session.reset();
                self.start_attempt(now, true);
                Outcome::Changed
            },
            Key::Char(c) if '0' <= c && c <= '9' => {
                let level: usize = if c == '0' { 9 } else { (c as u32 - '1' as u32) as usize };
                self.session.goto_level(level);
                self.start_attempt(now, true);
                Outcome::Changed
            },
            Key::Char('q') => {
                self.running = false;
                Outcome::Changed
            },
            _ => Outcome::Ignored,
        }
    }

    /// The squares to mark as capture hints (see `hint_squares`).
    pub fn hint_targets(&self) -> (targets: Vec<usize>)
        requires
            self.wf(),
        ensures
            targets@ == hint_squares(*self),
    {
        let show = self.attempt.phase == Phase::Solve && self.hints == Hints::Full;
        match self.selected {
            Some(i) => {
                if show && self.session.board.moves_used[i] < 2 {
                    self.session.board.moves(i)
                } else {
                    Vec::new()
                }
            },
            None => Vec::new(),
        }
    }
}

} // verus!
