//! The sampler and the shutdown step.
//!
//! A tracker is told, once per tick, which application holds the focus and
//! what the monotonic clock reads. When the focus has moved it credits the
//! interval that just ended to the application that held it. On shutdown the
//! interval still open is credited too, and the summary is produced.
//!
//! Clock readings and durations are counted in nanoseconds.

use vstd::prelude::*;
use vstd::string::StringExecFns;
use crate::decimal::{decimal, push_decimal};
use crate::table::{
    all_named, committed, distinct_names, lemma_committed, lemma_duration_within_total, total,
    whole_seconds, UsageTable,
};

verus! {

/// The mathematical state of a tracker.
pub struct State {
    /// The application in the foreground; empty while none has been seen.
    pub current: Seq<char>,
    /// The clock reading at which the open interval began.
    pub interval_start: nat,
    /// The records of the aggregation table, in order of first credit.
    pub table: Seq<(Seq<char>, nat)>,
}

/// The state at startup, with the clock at `now`.
pub open spec fn started(now: nat) -> State {
    State { current: Seq::empty(), interval_start: now, table: Seq::empty() }
}

/// The length of the open interval at clock reading `now`; zero for a
/// reading that lies before the interval's start.
pub open spec fn elapsed(s: State, now: nat) -> nat {
    if now >= s.interval_start {
        (now - s.interval_start) as nat
    } else {
        0
    }
}

/// The table once the open interval, taken to end at `now`, has been
/// credited to the application in the foreground. While no application has
/// been seen, nothing is credited.
pub open spec fn settled(s: State, now: nat) -> Seq<(Seq<char>, nat)> {
    if s.current.len() > 0 {
        committed(s.table, s.current, elapsed(s, now))
    } else {
        s.table
    }
}

/// The state after a tick at `now` that finds `name` in the foreground. An
/// unchanged name leaves the state as it is; a changed one closes the open
/// interval and opens the next.
pub open spec fn ticked(s: State, name: Seq<char>, now: nat) -> State {
    if name == s.current {
        s
    } else {
        State { current: name, interval_start: now, table: settled(s, now) }
    }
}

/// The state after the open interval has been flushed at `now`: the
/// interval is credited and a new one begins at `now`.
pub open spec fn flushed(s: State, now: nat) -> State {
    State { current: s.current, interval_start: now, table: settled(s, now) }
}

/// The line of the summary for one record: the name, a colon, the whole
/// seconds of its time, and the word `seconds`.
pub open spec fn summary_line(record: (Seq<char>, nat)) -> Seq<char> {
    record.0 + ": "@ + decimal(whole_seconds(record.1)) + " seconds\n"@
}

/// The lines of the summary for the records of `t`, in their order.
pub open spec fn summary_lines(t: Seq<(Seq<char>, nat)>) -> Seq<char>
    decreases t.len(),
{
    if t.len() == 0 {
        Seq::empty()
    } else {
        summary_lines(t.drop_last()) + summary_line(t.last())
    }
}

/// The summary: a header line, then one line for each record.
pub open spec fn summary(t: Seq<(Seq<char>, nat)>) -> Seq<char> {
    "\napp usage summary:\n"@ + summary_lines(t)
}

/// The invariant of a tracker's state: no application has two records,
/// every record has a name, and the time credited so far does not reach
/// beyond the start of the open interval.
pub open spec fn state_wf(s: State) -> bool {
    &&& distinct_names(s.table)
    &&& all_named(s.table)
    &&& total(s.table) <= s.interval_start
}

/// What the host reports to the tracker.
pub enum Event {
    /// The timer fired. `foreground` is the application the host names as
    /// holding the focus, or `None` where the host could not tell.
    Tick { foreground: Option<String> },
    /// The user asked to leave, by the interrupt signal or from the screen.
    Exit,
}

/// What the host is to do after an event.
pub enum Action {
    /// Keep running.
    Continue,
    /// Write the text to standard output and end the process with success.
    Report(String),
}

/// The state after `event` at clock reading `now`. A tick without a name
/// is skipped.
pub open spec fn updated(s: State, event: Event, now: nat) -> State {
    match event {
        Event::Tick { foreground: Some(name) } => ticked(s, name@, now),
        Event::Tick { foreground: None } => s,
        Event::Exit => flushed(s, now),
    }
}

/// The text shown while running: which application is in the foreground.
pub open spec fn status(s: State) -> Seq<char> {
    "current app: "@ + s.current
}

/// Sampler and aggregation table together.
pub struct Tracker {
    current: String,
    interval_start: u64,
    table: UsageTable,
}

impl View for Tracker {
    type V = State;

    closed spec fn view(&self) -> State {
        State {
            current: self.current@,
            interval_start: self.interval_start as nat,
            table: self.table@,
        }
    }
}

impl Tracker {
    /// The tracker's invariant.
    pub open spec fn wf(&self) -> bool {
        state_wf(self@)
    }

    /// A tracker that has seen no application, its first interval opening
    /// at `now`.
    pub fn new(now: u64) -> (t: Tracker)
        ensures
            t@ == started(now as nat),
            t.wf(),
    {
        Tracker { current: String::new(), interval_start: now, table: UsageTable::new() }
    }

    /// The application in the foreground; empty while none has been seen.
    pub fn current_application(&self) -> (name: &String)
        ensures
            name@ == self@.current,
    {
        &self.current
    }

    /// The clock reading at which the open interval began.
    pub fn interval_start(&self) -> (start: u64)
        ensures
            start == self@.interval_start,
    {
        self.interval_start
    }

    /// The aggregation table.
    pub fn table(&self) -> (t: &UsageTable)
        ensures
            t@ == self@.table,
            self.wf() ==> t.wf(),
    {
        &self.table
    }

    /// Credits the open interval, taken to end at `now`, to the application
    /// in the foreground, if there is one.
    fn settle(&mut self, now: u64)
        requires
            old(self).wf(),
            old(self)@.interval_start <= now,
        ensures
            final(self)@.table == settled(old(self)@, now as nat),
            final(self)@.current == old(self)@.current,
            final(self)@.interval_start == old(self)@.interval_start,
            distinct_names(final(self)@.table),
            all_named(final(self)@.table),
            total(final(self)@.table) <= now,
    {
        if self.current.as_str().unicode_len() > 0 {
            let span: u64 = now - self.interval_start;
            proof {
                lemma_duration_within_total(self.table@, self.current@);
                lemma_committed(self.table@, self.current@, span as nat);
            }
            self.table.commit(self.current.clone(), span);
        }
    }

    /// One tick of the sampler: `name` is the application found in the
    /// foreground, `now` the clock reading. Where the name differs from the
    /// one seen before, the interval that ends here is credited to the
    /// application seen before (to none on the first change), and a new
    /// interval begins at `now`. Returns whether the focus changed.
    pub fn tick(&mut self, name: String, now: u64) -> (changed: bool)
        requires
            old(self).wf(),
            old(self)@.interval_start <= now,
        ensures
            final(self)@ == ticked(old(self)@, name@, now as nat),
            final(self).wf(),
            changed == (name@ != old(self)@.current),
    {
        if name == self.current {
            false
        } else {
            self.settle(now);
            self.current = name;
            self.interval_start = now;
            true
        }
    }

    /// One tick on which the host may have failed to name the application
    /// in the foreground: such a tick is skipped and the state kept.
    /// Returns whether the focus changed.
    pub fn observe(&mut self, foreground: Option<String>, now: u64) -> (changed: bool)
        requires
            old(self).wf(),
            old(self)@.interval_start <= now,
        ensures
            final(self)@ == updated(old(self)@, (Event::Tick { foreground }), now as nat),
            final(self).wf(),
            changed == (foreground.is_some() && foreground.unwrap()@ != old(self)@.current),
    {
        match foreground {
            Some(name) => self.tick(name, now),
            None => false,
        }
    }

    /// The flush at shutdown: the interval still open at `now` is credited
    /// to the application in the foreground, so that no time is lost at the
    /// tail, and a new interval begins at `now`.
    pub fn flush(&mut self, now: u64)
        requires
            old(self).wf(),
            old(self)@.interval_start <= now,
        ensures
            final(self)@ == flushed(old(self)@, now as nat),
            final(self).wf(),
    {
        self.settle(now);
        self.interval_start = now;
    }

    /// The summary of the table as it stands: the header line, then for
    /// each record, in order of first credit, its name and whole seconds.
    /// The tracker is left untouched.
    pub fn report(&self) -> (text: String)
        ensures
            text@ == summary(self@.table),
    {
        let mut text = String::from_str("\napp usage summary:\n");
        let n = self.table.len();
        let mut i: usize = 0;
        assert(summary_lines(self.table@.take(0)) =~= Seq::<char>::empty());
        assert(text@ =~= "\napp usage summary:\n"@ + summary_lines(self.table@.take(0)));
        while i < n
            invariant
                n == self.table@.len(),
                i <= n,
                text@ == "\napp usage summary:\n"@ + summary_lines(self.table@.take(i as int)),
            decreases n - i,
        {
            let record = self.table.record(i);
            let ghost before = text@;
            text.append(record.name.as_str());
            text.append(": ");
            push_decimal(&mut text, record.seconds());
            text.append(" seconds\n");
            proof {
                let t = self.table@;
                assert(t.take(i + 1).drop_last() =~= t.take(i as int));
                assert(t.take(i + 1).last() == t[i as int]);
                assert(text@ =~= before + summary_line(t[i as int]));
                assert(text@ =~= "\napp usage summary:\n"@ + summary_lines(t.take(i + 1)));
            }
            i += 1;
        }
        assert(self.table@.take(i as int) =~= self.table@);
        text
    }

    /// The text for the screen: the application in the foreground.
    pub fn status_label(&self) -> (text: String)
        ensures
            text@ == status(self@),
    {
        let mut text = String::from_str("current app: ");
        text.append(self.current.as_str());
        text
    }

    /// The whole shutdown step: flushes the open interval at `now` and
    /// returns the summary of what has then been credited.
    pub fn shutdown(&mut self, now: u64) -> (text: String)
        requires
            old(self).wf(),
            old(self)@.interval_start <= now,
        ensures
            final(self)@ == flushed(old(self)@, now as nat),
            final(self).wf(),
            text@ == summary(settled(old(self)@, now as nat)),
    {
        self.flush(now);
        self.report()
    }

    /// Handles one event at clock reading `now` and says what the host is
    /// to do next. A tick samples the foreground application; an exit
    /// flushes the open interval and hands back the summary to print.
    pub fn update(&mut self, event: Event, now: u64) -> (action: Action)
        requires
            old(self).wf(),
            old(self)@.interval_start <= now,
        ensures
            final(self)@ == updated(old(self)@, event, now as nat),
            final(self).wf(),
            match action {
                Action::Continue => event is Tick,
                Action::Report(text) => event is Exit && text@ == summary(final(self)@.table),
            },
    {
        match event {
            Event::Tick { foreground } => {
                self.observe(foreground, now);
                Action::Continue
            },
            Event::Exit => Action::Report(self.shutdown(now)),
        }
    }
}

} // verus!
