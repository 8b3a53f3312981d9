//! Symbols, states, move directions, and the transition table.
//!
//! The table maps a (state, symbol) pair to the action taken when that pair
//! is seen: a target state, a symbol to write, and a pointer direction.
//! Its mathematical view is a `Map` from pairs of naturals to actions; when
//! the same key is inserted twice, the later insertion wins.

use vstd::prelude::*;

verus! {

/// A tape symbol: a non-negative integer naming an alphabet member.
pub type Symbol = usize;

/// A control state: a non-negative integer.
pub type QState = usize;

/// The blank symbol used to extend the tape at either end.
pub const EMPTY_WORD: Symbol = 3;

/// The fixed initial control state.
pub const INIT_STATE: QState = 1;

/// The fixed accepting control state.
pub const ACCEPT_STATE: QState = 2;

/// A direction the tape pointer moves after a transition is applied.
#[derive(Clone, Copy, Debug, PartialEq, Eq, Structural)]
pub enum MoveDir {
    Left,
    Right,
}

impl MoveDir {
    /// The pointer delta this direction stands for.
    pub fn tape_ptr_move(&self) -> (delta: i32)
        ensures
            *self == MoveDir::Left ==> delta == -1,
            *self == MoveDir::Right ==> delta == 1,
    {
        match self {
            MoveDir::Left => -1,
            MoveDir::Right => 1,
        }
    }

    /// The direction encoded by a run of `n` zeros: one zero is left, two
    /// zeros is right, and any other run length encodes no direction.
    pub fn from_zero_run(n: usize) -> (r: Option<MoveDir>)
        ensures
            n == 1 ==> r == Some(MoveDir::Left),
            n == 2 ==> r == Some(MoveDir::Right),
            n != 1 && n != 2 ==> r is None,
    {
        if n == 1 {
            Some(MoveDir::Left)
        } else if n == 2 {
            Some(MoveDir::Right)
        } else {
            None
        }
    }

    /// A one-letter name for the direction.
    pub fn label(&self) -> (r: &'static str)
        ensures
            *self == MoveDir::Left ==> r@ == "L"@,
            *self == MoveDir::Right ==> r@ == "R"@,
    {
        match self {
            MoveDir::Left => "L",
            MoveDir::Right => "R",
        }
    }
}

/// The pair the engine looks up on each step.
pub type TransitionKey = (QState, Symbol);

/// The action taken when a key matches: target state, symbol to write,
/// pointer direction.
pub type TransitionStep = (QState, Symbol, MoveDir);

/// The model of a key: the pair as naturals.
pub open spec fn key_model(k: TransitionKey) -> (nat, nat) {
    (k.0 as nat, k.1 as nat)
}

/// The model of an action: state and symbol as naturals.
pub open spec fn step_model(s: TransitionStep) -> (nat, nat, MoveDir) {
    (s.0 as nat, s.1 as nat, s.2)
}

/// The mathematical content of a transition table.
pub type TableModel = Map<(nat, nat), (nat, nat, MoveDir)>;

/// The map a sequence of keyed entries folds into, later entries
/// overwriting earlier ones with the same key.
pub open spec fn entries_table(s: Seq<(TransitionKey, TransitionStep)>) -> TableModel
    decreases s.len(),
{
    if s.len() == 0 {
        Map::empty()
    } else {
        entries_table(s.drop_last()).insert(key_model(s.last().0), step_model(s.last().1))
    }
}

/// A transition table: immutable after construction, read by the engine on
/// every step. Viewed as a map from (state, symbol) to actions; the entry
/// list may hold an overwritten key twice, and the later entry governs.
#[derive(Debug)]
pub struct TransTable {
    pub entries: Vec<(TransitionKey, TransitionStep)>,
}

impl View for TransTable {
    type V = TableModel;

    open spec fn view(&self) -> TableModel {
        entries_table(self.entries@)
    }
}

impl TransTable {
    /// An empty table: no transition applies to any pair.
    pub fn new() -> (t: TransTable)
        ensures
            t@ == TableModel::empty(),
    {
        TransTable { entries: Vec::new() }
    }

    /// Adds a transition; a transition already present under the same key is
    /// silently replaced.
    pub fn insert(&mut self, key: TransitionKey, step: TransitionStep)
        ensures
            final(self)@ == old(self)@.insert(key_model(key), step_model(step)),
    {
        self.entries.push((key, step));
        proof {
            assert(self.entries@.drop_last() =~= old(self).entries@);
        }
    }

    /// Looks a (state, symbol) pair up, returning the action the table maps
    /// it to, or nothing when no transition applies to the pair.
    pub fn lookup(&self, state: QState, symbol: Symbol) -> (r: Option<TransitionStep>)
        ensures
            match r {
                Some(step) => self@.contains_key((state as nat, symbol as nat))
                    && step_model(step) == self@[(state as nat, symbol as nat)],
                None => !self@.contains_key((state as nat, symbol as nat)),
            },
    {
        let ghost k = (state as nat, symbol as nat);
        let mut i: usize = self.entries.len();
        proof {
            assert(self.entries@.take(i as int) =~= self.entries@);
        }
        while i > 0
            invariant
                i <= self.entries@.len(),
                table_lookup(entries_table(self.entries@.take(i as int)), k)
                    == table_lookup(self@, k),
                k == (state as nat, symbol as nat),
            decreases i,
        {
            let (key, step) = self.entries[i - 1];
            proof {
                assert(self.entries@.take(i as int).last() == self.entries@[i - 1]);
                assert(self.entries@.take(i as int).drop_last()
                    =~= self.entries@.take(i - 1));
            }
            if key.0 == state && key.1 == symbol {
                return Some(step);
            }
            i = i - 1;
        }
        proof {
            assert(self.entries@.take(0) =~= Seq::<(TransitionKey, TransitionStep)>::empty());
        }
        None
    }
}

/// What a table maps a key to, or nothing when the key is absent.
pub open spec fn table_lookup(t: TableModel, k: (nat, nat)) -> Option<(nat, nat, MoveDir)> {
    if t.contains_key(k) {
        Some(t[k])
    } else {
        None
    }
}

/// Every mapping of `a` also stands in `b`.
pub open spec fn table_covers(a: TableModel, b: TableModel) -> bool {
    forall|k: (nat, nat)|
        #[trigger] a.contains_key(k) ==> b.contains_key(k) && b[k] == a[k]
}

/// A key is in the folded map exactly when some entry carries it.
pub proof fn lemma_entries_table_dom(s: Seq<(TransitionKey, TransitionStep)>, k: (nat, nat))
    ensures
        entries_table(s).contains_key(k)
            <==> exists|i: int| 0 <= i < s.len() && key_model(#[trigger] s[i].0) == k,
    decreases s.len(),
{
    if s.len() > 0 {
        lemma_entries_table_dom(s.drop_last(), k);
        if key_model(s.last().0) == k {
            assert(key_model(s[s.len() - 1].0) == k);
        } else if entries_table(s).contains_key(k) {
            let i = choose|i: int| 0 <= i < s.drop_last().len()
                && key_model(#[trigger] s.drop_last()[i].0) == k;
            assert(key_model(s[i].0) == k);
        } else {
            assert forall|i: int| 0 <= i < s.len() implies key_model(#[trigger] s[i].0) != k by {
                if i < s.len() - 1 {
                    assert(s.drop_last()[i] == s[i]);
                }
            }
        }
    }
}

impl TransTable {
    /// Whether every mapping of `self` stands in `other` too.
    fn covered_by(&self, other: &TransTable) -> (r: bool)
        ensures
            r == table_covers(self@, other@),
    {
        let n = self.entries.len();
        let mut i: usize = 0;
        while i < n
            invariant
                n == self.entries@.len(),
                i <= n,
                forall|j: int| 0 <= j < i
                    ==> table_lookup(other@, key_model(#[trigger] self.entries@[j].0))
                        == table_lookup(self@, key_model(self.entries@[j].0)),
            decreases n - i,
        {
            let (key, _) = self.entries[i];
            proof {
                lemma_entries_table_dom(self.entries@, key_model(key));
            }
            let mine = self.lookup(key.0, key.1);
            let theirs = other.lookup(key.0, key.1);
            let same = match (mine, theirs) {
                (Some(a), Some(b)) => a.0 == b.0 && a.1 == b.1 && a.2 == b.2,
                _ => false,
            };
            if !same {
                proof {
                    let k = key_model(key);
                    assert(self@.contains_key(k));
                    assert(!(other@.contains_key(k) && other@[k] == self@[k]));
                }
                return false;
            }
            i = i + 1;
        }
        proof {
            assert forall|k: (nat, nat)| #[trigger] self@.contains_key(k)
                implies other@.contains_key(k) && other@[k] == self@[k] by {
                lemma_entries_table_dom(self.entries@, k);
                let j = choose|j: int| 0 <= j < self.entries@.len()
                    && key_model(#[trigger] self.entries@[j].0) == k;
                assert(table_lookup(other@, key_model(self.entries@[j].0))
                    == table_lookup(self@, key_model(self.entries@[j].0)));
            }
        }
        true
    }

    /// Whether the two tables map exactly the same keys to the same actions.
    pub fn table_eq(&self, other: &TransTable) -> (r: bool)
        ensures
            r == (self@ == other@),
    {
        let forward = self.covered_by(other);
        let backward = other.covered_by(self);
        proof {
            if table_covers(self@, other@) && table_covers(other@, self@) {
                assert forall|k: (nat, nat)| self@.dom().contains(k)
                    == other@.dom().contains(k) by {
                    assert(self@.contains_key(k) ==> other@.contains_key(k));
                    assert(other@.contains_key(k) ==> self@.contains_key(k));
                }
                assert(self@.dom() =~= other@.dom());
                assert(self@ =~= other@);
            }
        }
        forward && backward
    }
}

} // verus!
