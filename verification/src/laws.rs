//! What holds of every run of the tracker.
//!
//! A run is a startup followed by ticks; each tick is an observation, a pair
//! of the application found in the foreground and the clock reading.

use vstd::prelude::*;
use crate::table::{
    all_named, committed, contains_name, credited, distinct_names, duration_of, lemma_committed, total,
};
use crate::tracker::{elapsed, flushed, settled, started, state_wf, summary, ticked, State};

verus! {

/// The state after the ticks `obs`, in their order, starting from `s`.
pub open spec fn observed(s: State, obs: Seq<(Seq<char>, nat)>) -> State
    decreases obs.len(),
{
    if obs.len() == 0 {
        s
    } else {
        ticked(observed(s, obs.drop_last()), obs.last().0, obs.last().1)
    }
}

/// The clock readings of `obs` never run backwards.
pub open spec fn monotonic(obs: Seq<(Seq<char>, nat)>) -> bool {
    forall|i: int, j: int| 0 <= i <= j < obs.len() ==> (#[trigger] obs[i]).1 <= (#[trigger] obs[j]).1
}

/// Some observation of `obs` found `name` in the foreground.
pub open spec fn seen(obs: Seq<(Seq<char>, nat)>, name: Seq<char>) -> bool {
    exists|i: int| 0 <= i < obs.len() && (#[trigger] obs[i]).0 == name
}

/// A tick or a flush at a clock reading not before the start of the open
/// interval keeps the invariant of the state.
pub proof fn law_invariant_is_kept(s: State, name: Seq<char>, now: nat)
    requires
        state_wf(s),
        s.interval_start <= now,
    ensures
        state_wf(ticked(s, name, now)),
        state_wf(flushed(s, now)),
{
    lemma_committed(s.table, s.current, elapsed(s, now));
}

/// A run whose clock never runs backwards keeps the invariant of the state,
/// and its open interval begins no later than the last tick.
pub proof fn law_run_keeps_invariant(s: State, obs: Seq<(Seq<char>, nat)>)
    requires
        state_wf(s),
        monotonic(obs),
        obs.len() > 0 ==> s.interval_start <= obs[0].1,
    ensures
        state_wf(observed(s, obs)),
        obs.len() > 0 ==> observed(s, obs).interval_start <= obs.last().1,
        obs.len() == 0 ==> observed(s, obs) == s,
    decreases obs.len(),
{
    if obs.len() > 0 {
        let front = obs.drop_last();
        let last = obs.last();
        assert(last == obs[obs.len() - 1]);
        assert(monotonic(front)) by {
            assert forall|i: int, j: int| 0 <= i <= j < front.len() implies (#[trigger] front[i]).1
                <= (#[trigger] front[j]).1 by {
                assert(front[i] == obs[i] && front[j] == obs[j]);
            }
        }
        if front.len() > 0 {
            assert(front[0] == obs[0]);
            assert(front.last() == obs[obs.len() - 2]);
        }
        law_run_keeps_invariant(s, front);
        law_invariant_is_kept(observed(s, front), last.0, last.1);
    }
}

/// While the clock runs forward and every observation names an application,
/// the time credited so far is the time from the first observation to the
/// start of the open interval: together with the open interval it makes up
/// all the time since the first observation. The application in the
/// foreground is the one last observed.
pub proof fn law_credit_reaches_open_interval(start: nat, obs: Seq<(Seq<char>, nat)>)
    requires
        obs.len() > 0,
        all_named(obs),
        monotonic(obs),
        start <= obs[0].1,
    ensures
        state_wf(observed(started(start), obs)),
        observed(started(start), obs).current == obs.last().0,
        obs[0].1 <= observed(started(start), obs).interval_start <= obs.last().1,
        total(observed(started(start), obs).table) == observed(started(start), obs).interval_start
            - obs[0].1,
    decreases obs.len(),
{
    let front = obs.drop_last();
    let before = observed(started(start), front);
    let last = obs.last();
    assert(last == obs[obs.len() - 1]);
    if obs.len() == 1 {
        assert(before == started(start));
        assert(last.0.len() > 0);
        assert(last.0 != started(start).current);
    } else {
        assert(front[0] == obs[0]);
        assert(front.last() == obs[obs.len() - 2]);
        assert(all_named(front)) by {
            assert forall|i: int| 0 <= i < front.len() implies (#[trigger] front[i]).0.len()
                > 0 by {
                assert(front[i] == obs[i]);
            }
        }
        assert(monotonic(front)) by {
            assert forall|i: int, j: int| 0 <= i <= j < front.len() implies (#[trigger] front[i]).1
                <= (#[trigger] front[j]).1 by {
                assert(front[i] == obs[i] && front[j] == obs[j]);
            }
        }
        law_credit_reaches_open_interval(start, front);
        assert(before.current.len() > 0);
        assert(before.interval_start <= last.1);
        lemma_committed(before.table, before.current, elapsed(before, last.1));
    }
}

/// The durations of the table after shutdown add up to the time between
/// the first observation and the shutdown, whenever the clock runs forward
/// and every observation names an application. For a shutdown at the last
/// tick that is the time between the first tick and the last.
pub proof fn law_durations_add_up(start: nat, obs: Seq<(Seq<char>, nat)>, end: nat)
    requires
        obs.len() > 0,
        all_named(obs),
        monotonic(obs),
        start <= obs[0].1,
        obs.last().1 <= end,
    ensures
        total(flushed(observed(started(start), obs), end).table) == end - obs[0].1,
{
    law_credit_reaches_open_interval(start, obs);
    let s = observed(started(start), obs);
    lemma_committed(s.table, s.current, elapsed(s, end));
}

/// Leaving an application and coming back to it adds both stays to its one
/// record: with `a` in the foreground, a change to `b` at `t1`, back to `a`
/// at `t2` and a flush at `t3` raise the time of `a` by the two intervals,
/// and no name has two records.
pub proof fn law_return_visit_accumulates(
    s: State,
    a: Seq<char>,
    b: Seq<char>,
    t1: nat,
    t2: nat,
    t3: nat,
)
    requires
        state_wf(s),
        s.current == a,
        a.len() > 0,
        a != b,
        s.interval_start <= t1 <= t2 <= t3,
    ensures
        duration_of(flushed(ticked(ticked(s, b, t1), a, t2), t3).table, a) == duration_of(
            s.table,
            a,
        ) + (t1 - s.interval_start) + (t3 - t2),
        distinct_names(flushed(ticked(ticked(s, b, t1), a, t2), t3).table),
{
    let s1 = ticked(s, b, t1);
    let s2 = ticked(s1, a, t2);
    lemma_committed(s.table, a, elapsed(s, t1));
    if b.len() > 0 {
        lemma_committed(s1.table, b, elapsed(s1, t2));
    }
    lemma_committed(s2.table, a, elapsed(s2, t3));
}

/// An application that no tick has found in the foreground has no record,
/// neither during the run nor after the flush.
pub proof fn law_unobserved_has_no_record(
    start: nat,
    obs: Seq<(Seq<char>, nat)>,
    end: nat,
    name: Seq<char>,
)
    requires
        !seen(obs, name),
    ensures
        !contains_name(observed(started(start), obs).table, name),
        !contains_name(flushed(observed(started(start), obs), end).table, name),
        observed(started(start), obs).current.len() > 0 ==> observed(started(start), obs).current
            != name,
    decreases obs.len(),
{
    let s = observed(started(start), obs);
    if obs.len() == 0 {
        assert(s == started(start));
    } else {
        let front = obs.drop_last();
        let before = observed(started(start), front);
        assert(!seen(front, name)) by {
            if seen(front, name) {
                let i = choose|i: int| 0 <= i < front.len() && (#[trigger] front[i]).0 == name;
                assert(obs[i] == front[i]);
            }
        }
        assert(obs[obs.len() - 1].0 != name);
        law_unobserved_has_no_record(start, front, end, name);
        lemma_settled_names(before, obs.last().1, name);
    }
    lemma_settled_names(s, end, name);
}

/// Crediting the open interval gives a record to no application but the one
/// in the foreground.
pub proof fn lemma_settled_names(s: State, now: nat, name: Seq<char>)
    requires
        !contains_name(s.table, name),
        s.current.len() > 0 ==> s.current != name,
    ensures
        !contains_name(settled(s, now), name),
{
    if s.current.len() > 0 {
        let d = elapsed(s, now);
        let c = committed(s.table, s.current, d);
        if contains_name(c, name) {
            let i = choose|i: int| 0 <= i < c.len() && (#[trigger] c[i]).0 == name;
            if contains_name(s.table, s.current) {
                assert(s.table[i].0 == name);
            } else {
                if i < s.table.len() {
                    assert(s.table[i].0 == name);
                }
            }
        }
    }
}

/// The flush credits the open interval: the application in the foreground
/// gains exactly the time since the interval began, every other application
/// keeps its time, and the total grows by the same amount.
pub proof fn law_flush_credits_open_interval(s: State, now: nat)
    requires
        state_wf(s),
        s.current.len() > 0,
        s.interval_start <= now,
    ensures
        duration_of(flushed(s, now).table, s.current) == duration_of(s.table, s.current) + (now
            - s.interval_start),
        forall|other: Seq<char>|
            other != s.current ==> #[trigger] duration_of(flushed(s, now).table, other)
                == duration_of(s.table, other),
        total(flushed(s, now).table) == total(s.table) + (now - s.interval_start),
{
    lemma_committed(s.table, s.current, elapsed(s, now));
}

/// Producing the summary again, with no tick in between, gives the same
/// text, also where the flush is run again at the same clock reading.
pub proof fn law_summary_is_repeatable(s: State, now: nat)
    ensures
        flushed(flushed(s, now), now) == flushed(s, now),
        summary(flushed(flushed(s, now), now).table) == summary(flushed(s, now).table),
{
    let once = flushed(s, now);
    if s.current.len() > 0 {
        let t = once.table;
        assert(contains_name(t, s.current)) by {
            if contains_name(s.table, s.current) {
                let i = choose|i: int| 0 <= i < s.table.len() && (#[trigger] s.table[i]).0
                    == s.current;
                assert(t[i].0 == s.current);
            } else {
                assert(t[s.table.len() as int].0 == s.current);
            }
        }
        assert(elapsed(once, now) == 0);
        assert(credited(t, s.current, 0) =~= t);
    }
}

} // verus!
