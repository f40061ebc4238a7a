//! A small finite-state machine: a fixed table of transitions, the current
//! state, and a log of past transitions that may be capped in length.
use vstd::prelude::*;

pub mod laws;

verus! {

/// A label as the contracts see it: the characters of the string.
pub type Label = Seq<char>;

/// A transition as the contracts see it: its source labels and its target.
pub type TransitionModel = (Seq<Label>, Label);

/// A log entry as the contracts see it: the state left and the state entered.
pub type EntryModel = (Label, Label);

/// A rule that leads from any state among `from` to the state `to`.
pub struct KFSMTransition {
    pub from: Box<[String]>,
    pub to: String,
}

impl View for KFSMTransition {
    type V = TransitionModel;

    open spec fn view(&self) -> TransitionModel {
        (self.from@.map_values(|s: String| s@), self.to@)
    }
}

/// One transition that was carried out.
pub struct KFSMHistory {
    pub from: String,
    pub to: String,
}

impl View for KFSMHistory {
    type V = EntryModel;

    open spec fn view(&self) -> EntryModel {
        (self.from@, self.to@)
    }
}

/// Settings of a machine. A negative `max_history` leaves the log uncapped.
pub struct KFSMOptions {
    pub max_history: i64,
}

/// The machine: its first state, its current state, its table of
/// transitions, the log of what it did, and its settings.
pub struct KFSM {
    pub initial: String,
    pub current: String,
    pub transitions: Box<[KFSMTransition]>,
    pub history: Vec<KFSMHistory>,
    pub options: KFSMOptions,
}

/// What a machine is, as the contracts see it.
pub struct KFSMModel {
    pub initial: Label,
    pub current: Label,
    pub transitions: Seq<TransitionModel>,
    pub history: Seq<EntryModel>,
    pub max_history: int,
}

impl View for KFSM {
    type V = KFSMModel;

    open spec fn view(&self) -> KFSMModel {
        KFSMModel {
            initial: self.initial@,
            current: self.current@,
            transitions: self.transitions@.map_values(|t: KFSMTransition| t@),
            history: self.history@.map_values(|h: KFSMHistory| h@),
            max_history: self.options.max_history as int,
        }
    }
}

/// The value of `max_history` that leaves the log uncapped.
pub const UNBOUNDED: i64 = -1;

/// Why an update was refused.
#[derive(PartialEq, Eq, Structural, Debug, Clone, Copy)]
pub enum KFSMError {
    /// No transition of the table leads from the current state to the one asked for.
    NoMatchingTransition,
}

/// Transition `t` leads from `state` to `next`.
pub open spec fn fires(t: TransitionModel, state: Label, next: Label) -> bool {
    t.0.contains(state) && t.1 == next
}

/// The log after entry `e` is added under the cap `max`: a capped log that
/// is full first loses its oldest entry.
pub open spec fn record(h: Seq<EntryModel>, max: int, e: EntryModel) -> Seq<EntryModel> {
    if 0 <= max && h.len() >= max && h.len() > 0 {
        h.drop_first().push(e)
    } else {
        h.push(e)
    }
}

/// State and log after the transitions of `table` that lead from `start`
/// to `next` are carried out one after the other, in table order, from
/// state `cur` and log `h`.
pub open spec fn replay(
    table: Seq<TransitionModel>,
    start: Label,
    next: Label,
    cur: Label,
    h: Seq<EntryModel>,
    max: int,
) -> (Label, Seq<EntryModel>)
    decreases table.len(),
{
    if table.len() == 0 {
        (cur, h)
    } else {
        let prev = replay(table.drop_last(), start, next, cur, h, max);
        if fires(table.last(), start, next) {
            (next, record(prev.1, max, (prev.0, next)))
        } else {
            prev
        }
    }
}

/// Some transition of the table leads from the current state of `m` to `next`.
pub open spec fn can_move(m: KFSMModel, next: Label) -> bool {
    exists|i: int| 0 <= i < m.transitions.len() && fires(#[trigger] m.transitions[i], m.current, next)
}

/// The machine `m` after an update towards `next`.
pub open spec fn stepped(m: KFSMModel, next: Label) -> KFSMModel {
    let r = replay(m.transitions, m.current, next, m.current, m.history, m.max_history);
    KFSMModel {
        initial: m.initial,
        current: r.0,
        transitions: m.transitions,
        history: r.1,
        max_history: m.max_history,
    }
}

/// Where no transition of `table` fires, replaying it changes nothing.
pub proof fn lemma_replay_idle(
    table: Seq<TransitionModel>,
    start: Label,
    next: Label,
    cur: Label,
    h: Seq<EntryModel>,
    max: int,
)
    requires
        forall|j: int| 0 <= j < table.len() ==> !fires(#[trigger] table[j], start, next),
    ensures
        replay(table, start, next, cur, h, max) == (cur, h),
    decreases table.len(),
{
    if table.len() > 0 {
        let rest = table.drop_last();
        assert forall|j: int| 0 <= j < rest.len() implies !fires(#[trigger] rest[j], start, next) by {
            assert(rest[j] == table[j]);
        }
        lemma_replay_idle(rest, start, next, cur, h, max);
        assert(!fires(table[table.len() - 1], start, next));
    }
}

/// Whether `s` is among `labels`.
fn contains_label(labels: &[String], s: &String) -> (r: bool)
    ensures
        r == labels@.map_values(|x: String| x@).contains(s@),
{
    let ghost ls = labels@.map_values(|x: String| x@);
    let mut i: usize = 0;
    while i < labels.len()
        invariant
            0 <= i <= labels@.len(),
            ls == labels@.map_values(|x: String| x@),
            forall|j: int| 0 <= j < i ==> ls[j] != s@,
        decreases labels@.len() - i,
    {
        if labels[i] == *s {
            assert(ls[i as int] == s@);
            return true;
        }
        i += 1;
    }
    assert forall|j: int| 0 <= j < ls.len() implies ls[j] != s@ by {}
    false
}

impl KFSM {
    /// Builds a machine that stands in `initial` with an empty log. Without
    /// options the log is uncapped.
    pub fn new(initial: String, transitions: Box<[KFSMTransition]>, opts: Option<KFSMOptions>) -> (k: KFSM)
        ensures
            k@.initial == initial@,
            k@.current == initial@,
            k@.history == Seq::<EntryModel>::empty(),
            k@.transitions == transitions@.map_values(|t: KFSMTransition| t@),
            k@.max_history == match opts {
                Some(o) => o.max_history as int,
                None => UNBOUNDED as int,
            },
    {
        let o: KFSMOptions = match opts {
            Some(o) => o,
            None => KFSMOptions { max_history: UNBOUNDED },
        };
        KFSM {
            initial: initial.clone(),
            current: initial,
            transitions,
            history: Vec::new(),
            options: o,
        }
    }

    /// Carries out every transition of the table that leads from the
    /// current state to `next_state`, in table order, logging each one.
    /// The state at the start of the call decides which transitions apply;
    /// each log entry records the state that its transition left.
    /// Where none does, the machine is left as it was and the update fails.
    pub fn update(&mut self, next_state: String) -> (r: Result<&mut KFSM, KFSMError>)
        ensures
            match r {
                Ok(k) => {
                    &&& can_move(old(self)@, next_state@)
                    &&& k@ == stepped(old(self)@, next_state@)
                    &&& *final(self) == *final(k)
                },
                Err(e) => {
                    &&& !can_move(old(self)@, next_state@)
                    &&& e == KFSMError::NoMatchingTransition
                    &&& final(self)@ == old(self)@
                },
            },
    {
        let ghost m0 = self@;
        let start = self.current.clone();
        let n = self.transitions.len();
        let mut changed = false;
        let mut i: usize = 0;
        while i < n
            invariant
                0 <= i <= n,
                n == m0.transitions.len(),
                start@ == m0.current,
                self@.initial == m0.initial,
                self@.transitions == m0.transitions,
                self@.max_history == m0.max_history,
                (self@.current, self@.history) == replay(
                    m0.transitions.take(i as int),
                    m0.current,
                    next_state@,
                    m0.current,
                    m0.history,
                    m0.max_history,
                ),
                changed == exists|j: int| 0 <= j < i && fires(#[trigger] m0.transitions[j], m0.current, next_state@),
            decreases n - i,
        {
            assert(m0.transitions.take(i + 1).drop_last() =~= m0.transitions.take(i as int));
            let fire = contains_label(&self.transitions[i].from, &start) && self.transitions[i].to == next_state;
            if fire {
                let max = self.options.max_history;
                if max >= 0 && self.history.len() as u64 >= max as u64 && self.history.len() > 0 {
                    self.history.remove(0);
                }
                self.history.push(KFSMHistory { from: self.current.clone(), to: next_state.clone() });
                self.current = next_state.clone();
                changed = true;
            }
            i += 1;
        }
        assert(m0.transitions.take(n as int) =~= m0.transitions);
        if !changed {
            proof {
                lemma_replay_idle(m0.transitions, m0.current, next_state@, m0.current, m0.history, m0.max_history);
            }
            return Err(KFSMError::NoMatchingTransition);
        }
        Ok(self)
    }
}

} // verus!
