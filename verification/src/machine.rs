//! The machine engine: a tape, a pointer, a control state, a step counter,
//! and a transition table, driven one step at a time.
//!
//! The tape is conceptually infinite but materialized lazily: when a move
//! would take the pointer off either end, one blank cell is grown at that
//! end, and the pointer lands on it. The only halting condition is the
//! absence of a transition for the current (state, symbol) pair.
//!
//! A single step can ask for an index at most one past an end, and the
//! pointer-bounds law below proves that every step keeps the pointer on a
//! materialized cell, so no other arithmetic outcome exists to fail on.

use vstd::prelude::*;

use crate::table::ACCEPT_STATE;
use crate::table::EMPTY_WORD;
use crate::table::INIT_STATE;
use crate::table::QState;
use crate::table::Symbol;
use crate::table::TableModel;
use crate::table::MoveDir;
use crate::table::TransTable;

verus! {

/// The mathematical state of a machine: tape contents, pointer, control
/// state, and step counter.
#[verifier::ext_equal]
pub ghost struct Config {
    /// The materialized tape cells.
    pub tape: Seq<nat>,
    /// The index of the cell under the head.
    pub ptr: nat,
    /// The current control state.
    pub state: nat,
    /// How many transitions have been applied so far.
    pub steps: nat,
}

/// The tape contents a vector of symbols stands for.
pub open spec fn tape_model(t: Seq<Symbol>) -> Seq<nat> {
    t.map_values(|s: Symbol| s as nat)
}

/// A configuration whose pointer rests on a materialized cell.
pub open spec fn config_wf(c: Config) -> bool {
    c.ptr < c.tape.len()
}

/// The pair the table is looked up by in configuration `c`.
pub open spec fn current_key(c: Config) -> (nat, nat) {
    (c.state, c.tape[c.ptr as int])
}

/// Whether no transition applies to configuration `c`.
pub open spec fn is_halted(t: TableModel, c: Config) -> bool {
    !t.contains_key(current_key(c))
}

/// The configuration one step later: unchanged when halted; otherwise the
/// symbol is written, the state is set, the pointer moves, the tape grows
/// by one blank cell when the pointer would fall off an end, and the step
/// counter increases by one.
pub open spec fn step_config(t: TableModel, c: Config) -> Config {
    if is_halted(t, c) {
        c
    } else {
        let st = t[current_key(c)];
        let written = c.tape.update(c.ptr as int, st.1);
        match st.2 {
            MoveDir::Left => if c.ptr == 0 {
                Config {
                    tape: seq![EMPTY_WORD as nat] + written,
                    ptr: 0,
                    state: st.0,
                    steps: c.steps + 1,
                }
            } else {
                Config { tape: written, ptr: (c.ptr - 1) as nat, state: st.0, steps: c.steps + 1 }
            },
            MoveDir::Right => if c.ptr + 1 == written.len() {
                Config {
                    tape: written.push(EMPTY_WORD as nat),
                    ptr: c.ptr + 1,
                    state: st.0,
                    steps: c.steps + 1,
                }
            } else {
                Config { tape: written, ptr: c.ptr + 1, state: st.0, steps: c.steps + 1 }
            },
        }
    }
}

/// The configuration `n` steps later.
pub open spec fn run_n(t: TableModel, c: Config, n: nat) -> Config
    decreases n,
{
    if n == 0 {
        c
    } else {
        run_n(t, step_config(t, c), (n - 1) as nat)
    }
}

/// Running one step more is stepping once after running.
pub proof fn lemma_run_n_snoc(t: TableModel, c: Config, n: nat)
    ensures
        run_n(t, c, n + 1) == step_config(t, run_n(t, c, n)),
    decreases n,
{
    if n == 0 {
        assert(run_n(t, step_config(t, c), 0) == step_config(t, c));
    } else {
        lemma_run_n_snoc(t, step_config(t, c), (n - 1) as nat);
    }
}

/// Law: a halted machine stays exactly as it is; stepping it changes
/// neither tape, pointer, state nor step counter.
pub proof fn lemma_halted_step_is_identity(t: TableModel, c: Config)
    requires
        is_halted(t, c),
    ensures
        step_config(t, c) == c,
{
}

/// Law: stepping keeps the pointer on a materialized cell.
pub proof fn lemma_step_pointer_in_bounds(t: TableModel, c: Config)
    requires
        config_wf(c),
    ensures
        config_wf(step_config(t, c)),
{
}

/// Law: one step leaves the tape length unchanged or grows it by exactly
/// one cell.
pub proof fn lemma_step_tape_growth(t: TableModel, c: Config)
    requires
        config_wf(c),
    ensures
        step_config(t, c).tape.len() == c.tape.len()
            || step_config(t, c).tape.len() == c.tape.len() + 1,
{
}

/// Law: the step counter increases by exactly one on an applied step and
/// never otherwise.
pub proof fn lemma_step_counter(t: TableModel, c: Config)
    ensures
        !is_halted(t, c) ==> step_config(t, c).steps == c.steps + 1,
        is_halted(t, c) ==> step_config(t, c).steps == c.steps,
{
}

/// Law: over a run whose every step is applied, the step counter equals
/// the old counter plus the number of applied steps.
pub proof fn lemma_run_n_counts(t: TableModel, c: Config, n: nat)
    requires
        forall|k: nat| k < n ==> !is_halted(t, #[trigger] run_n(t, c, k)),
    ensures
        run_n(t, c, n).steps == c.steps + n,
    decreases n,
{
    if n > 0 {
        assert(!is_halted(t, run_n(t, c, 0)));
        assert forall|k: nat| k < n - 1
            implies !is_halted(t, #[trigger] run_n(t, step_config(t, c), k)) by {
            assert(run_n(t, c, k + 1) == run_n(t, step_config(t, c), k));
        }
        lemma_run_n_counts(t, step_config(t, c), (n - 1) as nat);
    }
}

/// What a run reports after halting: final state, step count, acceptance,
/// and a snapshot of the tape.
#[derive(Debug)]
pub struct RunOutcome {
    /// The final control state.
    pub state: QState,
    /// How many transitions were applied in all.
    pub steps: usize,
    /// Whether the final state is the accepting state.
    pub accepting: bool,
    /// The final tape contents.
    pub tape: Vec<Symbol>,
}

/// A machine in the middle of a run. Created over an initial tape and a
/// table, and mutated only by `step`.
pub struct TuringM {
    tape: Vec<Symbol>,
    ptr: usize,
    state: QState,
    transitions: TransTable,
    step_cnt: usize,
}

impl View for TuringM {
    type V = Config;

    closed spec fn view(&self) -> Config {
        Config {
            tape: tape_model(self.tape@),
            ptr: self.ptr as nat,
            state: self.state as nat,
            steps: self.step_cnt as nat,
        }
    }
}

impl TuringM {
    /// The model of the table this machine runs under; it never changes.
    pub closed spec fn table(&self) -> TableModel {
        self.transitions@
    }

    /// A machine whose pointer rests on a materialized cell.
    pub open spec fn wf(&self) -> bool {
        config_wf(self@)
    }

    /// A machine over `tape` in the initial state, pointer at cell zero,
    /// no steps taken. An empty tape is materialized as one blank cell, so
    /// that the pointer rests on a cell from the start.
    pub fn new(tape: Vec<Symbol>, transitions: TransTable) -> (m: TuringM)
        ensures
            m.wf(),
            m.table() == transitions@,
            m@.state == INIT_STATE,
            m@.ptr == 0,
            m@.steps == 0,
            tape@.len() > 0 ==> m@.tape == tape_model(tape@),
            tape@.len() == 0 ==> m@.tape == seq![EMPTY_WORD as nat],
    {
        let cells = if tape.len() == 0 {
            let mut one_blank: Vec<Symbol> = Vec::new();
            one_blank.push(EMPTY_WORD);
            proof {
                assert(tape_model(one_blank@) =~= seq![EMPTY_WORD as nat]);
            }
            one_blank
        } else {
            tape
        };
        TuringM { tape: cells, ptr: 0, state: INIT_STATE, transitions, step_cnt: 0 }
    }

    /// The current control state.
    pub fn current_state(&self) -> (r: QState)
        ensures
            r == self@.state,
    {
        self.state
    }

    /// The current pointer index.
    pub fn pointer(&self) -> (r: usize)
        ensures
            r == self@.ptr,
    {
        self.ptr
    }

    /// How many transitions have been applied so far.
    pub fn step_count(&self) -> (r: usize)
        ensures
            r == self@.steps,
    {
        self.step_cnt
    }

    /// The number of materialized tape cells.
    pub fn tape_len(&self) -> (r: usize)
        ensures
            r == self@.tape.len(),
    {
        self.tape.len()
    }

    /// The symbol in cell `i`.
    pub fn tape_at(&self, i: usize) -> (r: Symbol)
        requires
            i < self@.tape.len(),
        ensures
            r == self@.tape[i as int],
    {
        self.tape[i]
    }

    /// A snapshot of the tape contents.
    pub fn tape_contents(&self) -> (r: Vec<Symbol>)
        ensures
            tape_model(r@) == self@.tape,
            r@.len() == self@.tape.len(),
            forall|i: int| 0 <= i < r@.len() ==> #[trigger] r@[i] == self@.tape[i],
    {
        let n = self.tape.len();
        let mut out: Vec<Symbol> = Vec::new();
        let mut i: usize = 0;
        while i < n
            invariant
                n == self.tape@.len(),
                i <= n,
                out@ == self.tape@.take(i as int),
            decreases n - i,
        {
            out.push(self.tape[i]);
            proof {
                assert(out@ =~= self.tape@.take(i + 1));
            }
            i = i + 1;
        }
        proof {
            assert(out@ =~= self.tape@);
        }
        out
    }

    /// Whether the final state is the accepting state.
    pub fn is_accepting(&self) -> (r: bool)
        ensures
            r == (self@.state == ACCEPT_STATE),
    {
        self.state == ACCEPT_STATE
    }

    /// Whether no transition applies to the current configuration.
    pub fn halted(&self) -> (r: bool)
        requires
            self.wf(),
        ensures
            r == is_halted(self.table(), self@),
    {
        let sym = self.tape[self.ptr];
        self.transitions.lookup(self.state, sym).is_none()
    }

    /// Applies one transition if one matches the current (state, symbol)
    /// pair, and reports whether one did; a machine with no matching
    /// transition halts, wholly unchanged.
    pub fn step(&mut self) -> (applied: bool)
        requires
            old(self).wf(),
            old(self)@.steps < usize::MAX,
        ensures
            final(self).wf(),
            final(self).table() == old(self).table(),
            final(self)@ == step_config(old(self).table(), old(self)@),
            applied == !is_halted(old(self).table(), old(self)@),
    {
        let sym = self.tape[self.ptr];
        match self.transitions.lookup(self.state, sym) {
            None => {
                proof {
                    assert(current_key(old(self)@) == (self.state as nat, sym as nat));
                }
                false
            },
            Some(st) => {
                let (q, w, dir) = st;
                proof {
                    assert(current_key(old(self)@) == (self.state as nat, sym as nat));
                }
                self.state = q;
                self.tape[self.ptr] = w;
                let ghost written = old(self)@.tape.update(old(self).ptr as int, w as nat);
                proof {
                    assert(tape_model(self.tape@) =~= written);
                    assert(self.tape@.len() == old(self).tape@.len());
                    assert(self.ptr < self.tape@.len());
                }
                match dir {
                    MoveDir::Left => {
                        if self.ptr == 0 {
                            self.tape.insert(0, EMPTY_WORD);
                            proof {
                                assert(tape_model(self.tape@)
                                    =~= seq![EMPTY_WORD as nat] + written);
                            }
                        } else {
                            self.ptr = self.ptr - 1;
                        }
                    },
                    MoveDir::Right => {
                        let len = self.tape.len();
                        self.ptr = self.ptr + 1;
                        if self.ptr == len {
                            self.tape.push(EMPTY_WORD);
                            proof {
                                assert(tape_model(self.tape@) =~= written.push(EMPTY_WORD as nat));
                            }
                        }
                    },
                }
                self.step_cnt = self.step_cnt + 1;
                proof {
                    assert(self@ =~= step_config(old(self).table(), old(self)@));
                }
                true
            },
        }
    }

    /// Runs until no transition applies. A machine whose program never
    /// halts runs forever, as the model demands; the one concession to the
    /// step counter's finite width is that the driver stops once the
    /// counter reaches its maximum, which no feasible run attains.
    pub fn run_to_halt(&mut self)
        requires
            old(self).wf(),
        ensures
            final(self).wf(),
            final(self).table() == old(self).table(),
            exists|n: nat|
                final(self)@ == run_n(old(self).table(), old(self)@, n)
                    && final(self)@.steps == old(self)@.steps + n,
            is_halted(final(self).table(), final(self)@) || final(self)@.steps == usize::MAX,
    {
        let ghost t = self.table();
        let ghost c0 = self@;
        let ghost mut i: nat = 0;
        loop
            invariant
                self.wf(),
                self.table() == t,
                self@ == run_n(t, c0, i),
                self@.steps == c0.steps + i,
            ensures
                self.wf(),
                self.table() == t,
                self@ == run_n(t, c0, i),
                self@.steps == c0.steps + i,
                is_halted(t, self@) || self@.steps == usize::MAX,
            decreases usize::MAX - self@.steps,
        {
            if self.step_count() == usize::MAX {
                break;
            }
            let applied = self.step();
            proof {
                lemma_run_n_snoc(t, c0, i);
                if applied {
                    i = i + 1;
                }
            }
            if !applied {
                break;
            }
        }
        proof {
            assert(self@ == run_n(t, c0, i) && self@.steps == c0.steps + i);
        }
    }

    /// The structured result of a run: final state, step count, acceptance
    /// flag, and the final tape.
    pub fn outcome(&self) -> (r: RunOutcome)
        ensures
            r.state == self@.state,
            r.steps == self@.steps,
            r.accepting == (self@.state == ACCEPT_STATE),
            tape_model(r.tape@) == self@.tape,
            r.tape@.len() == self@.tape.len(),
            forall|i: int| 0 <= i < r.tape@.len() ==> #[trigger] r.tape@[i] == self@.tape[i],
    {
        RunOutcome {
            state: self.state,
            steps: self.step_cnt,
            accepting: self.state == ACCEPT_STATE,
            tape: self.tape_contents(),
        }
    }
}

} // verus!
