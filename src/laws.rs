//! Facts about the machine that hold across updates.
use vstd::prelude::*;
use crate::{can_move, fires, record, replay, stepped, EntryModel, KFSMModel, Label, TransitionModel, UNBOUNDED};

verus! {

/// How many transitions of `table` lead from `start` to `next`.
pub open spec fn fire_count(table: Seq<TransitionModel>, start: Label, next: Label) -> nat
    decreases table.len(),
{
    if table.len() == 0 {
        0
    } else {
        fire_count(table.drop_last(), start, next) + if fires(table.last(), start, next) {
            1nat
        } else {
            0nat
        }
    }
}

/// The machine `m` after one update towards each label of `targets`, in
/// order. A refused update leaves the machine as it was, so this holds for
/// any mix of updates that succeed and updates that fail.
pub open spec fn run(m: KFSMModel, targets: Seq<Label>) -> KFSMModel
    decreases targets.len(),
{
    if targets.len() == 0 {
        m
    } else {
        stepped(run(m, targets.drop_last()), targets.last())
    }
}

/// Some transition of `table` fires exactly when the count of those that
/// fire is positive.
pub proof fn lemma_fire_count_positive(table: Seq<TransitionModel>, start: Label, next: Label)
    ensures
        fire_count(table, start, next) > 0 <==> exists|j: int|
            0 <= j < table.len() && fires(#[trigger] table[j], start, next),
    decreases table.len(),
{
    if table.len() > 0 {
        let rest = table.drop_last();
        lemma_fire_count_positive(rest, start, next);
        if fire_count(rest, start, next) > 0 {
            let j = choose|j: int| 0 <= j < rest.len() && fires(#[trigger] rest[j], start, next);
            assert(table[j] == rest[j]);
        }
        if exists|j: int| 0 <= j < table.len() && fires(#[trigger] table[j], start, next) {
            let j = choose|j: int| 0 <= j < table.len() && fires(#[trigger] table[j], start, next);
            if j < table.len() - 1 {
                assert(rest[j] == table[j]);
            }
        }
    }
}

/// Replaying a table ends in `next` as soon as one transition fires, and
/// changes nothing where none does.
pub proof fn lemma_replay_target(
    table: Seq<TransitionModel>,
    start: Label,
    next: Label,
    cur: Label,
    h: Seq<EntryModel>,
    max: int,
)
    ensures
        fire_count(table, start, next) > 0 ==> replay(table, start, next, cur, h, max).0 == next,
        fire_count(table, start, next) == 0 ==> replay(table, start, next, cur, h, max) == (cur, h),
    decreases table.len(),
{
    if table.len() > 0 {
        lemma_replay_target(table.drop_last(), start, next, cur, h, max);
    }
}

/// With an uncapped log, replaying a table keeps the old log as it is and
/// appends one entry for each transition that fires.
pub proof fn lemma_replay_uncapped(
    table: Seq<TransitionModel>,
    start: Label,
    next: Label,
    cur: Label,
    h: Seq<EntryModel>,
    max: int,
)
    requires
        max < 0,
    ensures
        replay(table, start, next, cur, h, max).1.len() == h.len() + fire_count(table, start, next),
        replay(table, start, next, cur, h, max).1.subrange(0, h.len() as int) == h,
    decreases table.len(),
{
    if table.len() > 0 {
        let rest = table.drop_last();
        lemma_replay_uncapped(rest, start, next, cur, h, max);
        let prev = replay(rest, start, next, cur, h, max);
        if fires(table.last(), start, next) {
            assert(prev.1.push((prev.0, next)).subrange(0, h.len() as int) =~= prev.1.subrange(0, h.len() as int));
        }
    }
}

/// Under a cap of `max` entries, replaying a table from a log that fits
/// the cap gives the newest `max` entries, in order, of the log that the
/// same replay gives without a cap, and the same state.
pub proof fn lemma_replay_capped(
    table: Seq<TransitionModel>,
    start: Label,
    next: Label,
    cur: Label,
    h: Seq<EntryModel>,
    max: int,
)
    requires
        1 <= max,
        h.len() <= max,
    ensures
        ({
            let u = replay(table, start, next, cur, h, UNBOUNDED as int);
            let c = replay(table, start, next, cur, h, max);
            &&& c.0 == u.0
            &&& c.1.len() == if u.1.len() <= max { u.1.len() as int } else { max }
            &&& c.1 == u.1.subrange(u.1.len() - c.1.len(), u.1.len() as int)
        }),
    decreases table.len(),
{
    let u = replay(table, start, next, cur, h, UNBOUNDED as int);
    let c = replay(table, start, next, cur, h, max);
    if table.len() == 0 {
        assert(u.1.subrange(0, u.1.len() as int) =~= u.1);
    } else {
        let rest = table.drop_last();
        lemma_replay_capped(rest, start, next, cur, h, max);
        let pu = replay(rest, start, next, cur, h, UNBOUNDED as int);
        let pc = replay(rest, start, next, cur, h, max);
        if fires(table.last(), start, next) {
            let e = (pc.0, next);
            assert(u.1 == pu.1.push(e));
            assert(c.1 == record(pc.1, max, e));
            if pc.1.len() >= max {
                assert(c.1 =~= u.1.subrange(u.1.len() - c.1.len(), u.1.len() as int));
            } else {
                assert(pc.1 =~= pu.1);
                assert(u.1.subrange(0, u.1.len() as int) =~= u.1);
            }
        }
    }
}

/// An update that no transition allows leaves the machine as it was.
pub proof fn lemma_refused_update_is_idle(m: KFSMModel, next: Label)
    requires
        !can_move(m, next),
    ensures
        stepped(m, next) == m,
{
    lemma_fire_count_positive(m.transitions, m.current, next);
    lemma_replay_target(m.transitions, m.current, next, m.current, m.history, m.max_history);
}

/// An update that some transition allows ends in the state asked for.
pub proof fn lemma_allowed_update_reaches_target(m: KFSMModel, next: Label)
    requires
        can_move(m, next),
    ensures
        stepped(m, next).current == next,
{
    lemma_fire_count_positive(m.transitions, m.current, next);
    lemma_replay_target(m.transitions, m.current, next, m.current, m.history, m.max_history);
}

/// With an uncapped log, an update carries out every transition that
/// allows it: the log keeps its old entries and gains one entry for each
/// such transition.
pub proof fn lemma_every_match_logged(m: KFSMModel, next: Label)
    requires
        m.max_history < 0,
    ensures
        stepped(m, next).history.len() == m.history.len() + fire_count(m.transitions, m.current, next),
        stepped(m, next).history.subrange(0, m.history.len() as int) == m.history,
{
    lemma_replay_uncapped(m.transitions, m.current, next, m.current, m.history, m.max_history);
}

/// With a cap of at least one entry and a log that fits it, an update
/// keeps the log within the cap, holding the newest entries in the order
/// they were made.
pub proof fn lemma_capped_log_keeps_newest(m: KFSMModel, next: Label)
    requires
        1 <= m.max_history,
        m.history.len() <= m.max_history,
    ensures
        ({
            let full = stepped(KFSMModel { max_history: UNBOUNDED as int, ..m }, next).history;
            let kept = stepped(m, next).history;
            &&& kept.len() <= m.max_history
            &&& kept.len() == if full.len() <= m.max_history { full.len() as int } else { m.max_history }
            &&& kept == full.subrange(full.len() - kept.len(), full.len() as int)
        }),
{
    lemma_replay_capped(m.transitions, m.current, next, m.current, m.history, m.max_history);
}

/// No number of updates changes the table of transitions, the initial
/// state or the cap.
pub proof fn lemma_run_keeps_table(m: KFSMModel, targets: Seq<Label>)
    ensures
        run(m, targets).transitions == m.transitions,
        run(m, targets).initial == m.initial,
        run(m, targets).max_history == m.max_history,
    decreases targets.len(),
{
    if targets.len() > 0 {
        lemma_run_keeps_table(m, targets.drop_last());
    }
}

/// With an uncapped log, a run of updates that each have exactly one
/// transition allowing them grows the log by one entry per update.
pub proof fn lemma_uncapped_run_length(m: KFSMModel, targets: Seq<Label>)
    requires
        m.max_history < 0,
        forall|i: int|
            0 <= i < targets.len() ==> {
                let before = #[trigger] run(m, targets.take(i));
                fire_count(before.transitions, before.current, targets[i]) == 1
            },
    ensures
        run(m, targets).history.len() == m.history.len() + targets.len(),
    decreases targets.len(),
{
    if targets.len() > 0 {
        let rest = targets.drop_last();
        assert forall|i: int| 0 <= i < rest.len() implies {
            let before = #[trigger] run(m, rest.take(i));
            fire_count(before.transitions, before.current, rest[i]) == 1
        } by {
            assert(rest.take(i) =~= targets.take(i));
            assert(run(m, targets.take(i)) == run(m, rest.take(i)));
        }
        lemma_uncapped_run_length(m, rest);
        lemma_run_keeps_table(m, rest);
        let last = targets.len() - 1;
        assert(targets.take(last) =~= rest);
        assert(run(m, targets.take(last)) == run(m, rest));
        lemma_every_match_logged(run(m, rest), targets.last());
    }
}

} // verus!
