//! The aggregation table: one record per application, holding the time that
//! application has spent in the foreground so far.
//!
//! A table is modelled as the sequence of its records in the order in which
//! the applications were first credited, each record a pair of the
//! application's name and its accumulated time in nanoseconds.

use vstd::prelude::*;
use vstd::string::StringExecFns;

verus! {

/// Whether some record of `t` is kept under `name`.
pub open spec fn contains_name(t: Seq<(Seq<char>, nat)>, name: Seq<char>) -> bool {
    exists|i: int| 0 <= i < t.len() && (#[trigger] t[i]).0 == name
}

/// No two records of `t` share a name.
pub open spec fn distinct_names(t: Seq<(Seq<char>, nat)>) -> bool {
    forall|i: int, j: int| 0 <= i < j < t.len() ==> (#[trigger] t[i]).0 != (#[trigger] t[j]).0
}

/// Every record of `t` is kept under a name that is not empty.
pub open spec fn all_named(t: Seq<(Seq<char>, nat)>) -> bool {
    forall|i: int| 0 <= i < t.len() ==> (#[trigger] t[i]).0.len() > 0
}

/// The time credited to `name` in `t`; zero where `t` has no such record.
pub open spec fn duration_of(t: Seq<(Seq<char>, nat)>, name: Seq<char>) -> nat
    decreases t.len(),
{
    if t.len() == 0 {
        0
    } else if t.last().0 == name {
        duration_of(t.drop_last(), name) + t.last().1
    } else {
        duration_of(t.drop_last(), name)
    }
}

/// The time credited to all applications together.
pub open spec fn total(t: Seq<(Seq<char>, nat)>) -> nat
    decreases t.len(),
{
    if t.len() == 0 {
        0
    } else {
        total(t.drop_last()) + t.last().1
    }
}

/// `t` with `d` added to every record kept under `name`.
pub open spec fn credited(t: Seq<(Seq<char>, nat)>, name: Seq<char>, d: nat) -> Seq<
    (Seq<char>, nat),
> {
    Seq::new(
        t.len(),
        |i: int|
            if t[i].0 == name {
                (name, t[i].1 + d)
            } else {
                t[i]
            },
    )
}

/// The table after `d` has been committed under `name`: the record of that
/// name grows by `d`, or, where there is none yet, a new record is added
/// behind the others.
pub open spec fn committed(t: Seq<(Seq<char>, nat)>, name: Seq<char>, d: nat) -> Seq<
    (Seq<char>, nat),
> {
    if contains_name(t, name) {
        credited(t, name, d)
    } else {
        t.push((name, d))
    }
}

/// The time one application has spent in the foreground.
pub struct UsageRecord {
    /// The application's name.
    pub name: String,
    /// Its accumulated foreground time, in nanoseconds.
    pub nanos: u64,
}

/// Nanoseconds in a second.
pub const NANOS_PER_SECOND: u64 = 1_000_000_000;

/// The whole seconds in a time of `nanos` nanoseconds.
pub open spec fn whole_seconds(nanos: nat) -> nat {
    nanos / 1_000_000_000
}

impl UsageRecord {
    /// The accumulated time in whole seconds.
    pub fn seconds(&self) -> (secs: u64)
        ensures
            secs == whole_seconds(self@.1),
    {
        self.nanos / NANOS_PER_SECOND
    }
}

impl View for UsageRecord {
    type V = (Seq<char>, nat);

    open spec fn view(&self) -> (Seq<char>, nat) {
        (self.name@, self.nanos as nat)
    }
}

/// The aggregation table. Records stand in the order in which their
/// applications were first credited.
pub struct UsageTable {
    records: Vec<UsageRecord>,
}

impl View for UsageTable {
    type V = Seq<(Seq<char>, nat)>;

    closed spec fn view(&self) -> Seq<(Seq<char>, nat)> {
        Seq::new(self.records@.len(), |i: int| self.records@[i]@)
    }
}

impl UsageTable {
    /// The table's invariant: no application has more than one record.
    pub open spec fn wf(&self) -> bool {
        distinct_names(self@)
    }

    /// A table without records.
    pub fn new() -> (t: UsageTable)
        ensures
            t@ == Seq::<(Seq<char>, nat)>::empty(),
            t.wf(),
    {
        let t = UsageTable { records: Vec::new() };
        assert(t@ =~= Seq::<(Seq<char>, nat)>::empty());
        t
    }

    /// The number of records.
    pub fn len(&self) -> (n: usize)
        ensures
            n == self@.len(),
    {
        self.records.len()
    }

    /// The record at position `i`, counted in order of first credit.
    pub fn record(&self, i: usize) -> (r: &UsageRecord)
        requires
            i < self@.len(),
        ensures
            r@ == self@[i as int],
    {
        &self.records[i]
    }

    /// The position of the first record kept under `name`, if there is one.
    pub fn position(&self, name: &String) -> (found: Option<usize>)
        ensures
            match found {
                Some(i) => {
                    &&& i < self@.len()
                    &&& self@[i as int].0 == name@
                    &&& forall|k: int| 0 <= k < i ==> (#[trigger] self@[k]).0 != name@
                },
                None => !contains_name(self@, name@),
            },
    {
        let mut i: usize = 0;
        while i < self.records.len()
            invariant
                i <= self.records@.len(),
                forall|k: int| 0 <= k < i ==> (#[trigger] self@[k]).0 != name@,
            decreases self.records@.len() - i,
        {
            if self.records[i].name == *name {
                return Some(i);
            }
            i += 1;
        }
        None
    }

    /// The time credited to `name` in nanoseconds, or `None` where the
    /// application has no record.
    pub fn get(&self, name: &str) -> (found: Option<u64>)
        requires
            self.wf(),
        ensures
            found.is_some() == contains_name(self@, name@),
            found.is_some() ==> found.unwrap() == duration_of(self@, name@),
    {
        let key = String::from_str(name);
        match self.position(&key) {
            Some(i) => {
                proof {
                    lemma_duration_at(self@, i as int);
                }
                Some(self.records[i].nanos)
            },
            None => None,
        }
    }

    /// The time credited to all applications together, as far as it fits.
    pub fn total_nanos(&self) -> (sum: Option<u64>)
        ensures
            sum.is_some() == (total(self@) <= u64::MAX),
            sum.is_some() ==> sum.unwrap() == total(self@),
    {
        let mut sum: u64 = 0;
        let mut i: usize = 0;
        while i < self.records.len()
            invariant
                i <= self.records@.len(),
                sum == total(self@.take(i as int)),
            decreases self.records@.len() - i,
        {
            proof {
                assert(self@.take(i + 1).drop_last() =~= self@.take(i as int));
                assert(self@.take(i + 1).last() == self@[i as int]);
                lemma_total_of_prefix(self@, i + 1);
            }
            match sum.checked_add(self.records[i].nanos) {
                Some(next) => {
                    sum = next;
                },
                None => {
                    return None;
                },
            }
            i += 1;
        }
        assert(self@.take(i as int) =~= self@);
        Some(sum)
    }

    /// Adds `nanos` to the time of `name`, in a new record behind the others
    /// where the application has none yet.
    pub fn commit(&mut self, name: String, nanos: u64)
        requires
            old(self).wf(),
            duration_of(old(self)@, name@) + nanos <= u64::MAX,
        ensures
            final(self)@ == committed(old(self)@, name@, nanos as nat),
            final(self).wf(),
    {
        proof {
            lemma_committed(self@, name@, nanos as nat);
        }
        match self.position(&name) {
            Some(i) => {
                proof {
                    lemma_duration_at(self@, i as int);
                }
                let sum: u64 = self.records[i].nanos + nanos;
                self.records.set(i, UsageRecord { name, nanos: sum });
                assert(self@ =~= committed(old(self)@, name@, nanos as nat));
            },
            None => {
                self.records.push(UsageRecord { name, nanos });
                assert(self@ =~= committed(old(self)@, name@, nanos as nat));
            },
        }
    }
}

/// A name that has no record has no time.
pub proof fn lemma_absent_has_no_time(t: Seq<(Seq<char>, nat)>, name: Seq<char>)
    requires
        !contains_name(t, name),
    ensures
        duration_of(t, name) == 0,
    decreases t.len(),
{
    if t.len() > 0 {
        let front = t.drop_last();
        assert(t.last() == t[t.len() - 1]);
        assert forall|i: int| 0 <= i < front.len() implies (#[trigger] front[i]).0 != name by {
            assert(front[i] == t[i]);
        }
        lemma_absent_has_no_time(front, name);
    }
}

/// With distinct names, the time of a name is what its one record holds.
pub proof fn lemma_duration_at(t: Seq<(Seq<char>, nat)>, i: int)
    requires
        distinct_names(t),
        0 <= i < t.len(),
    ensures
        duration_of(t, t[i].0) == t[i].1,
    decreases t.len(),
{
    let front = t.drop_last();
    let name = t[i].0;
    assert(distinct_names(front)) by {
        assert forall|a: int, b: int| 0 <= a < b < front.len() implies (#[trigger] front[a]).0
            != (#[trigger] front[b]).0 by {
            assert(front[a] == t[a] && front[b] == t[b]);
        }
    }
    if i == t.len() - 1 {
        assert(!contains_name(front, name)) by {
            if contains_name(front, name) {
                let k = choose|k: int| 0 <= k < front.len() && (#[trigger] front[k]).0 == name;
                assert(front[k] == t[k]);
                assert(t[k].0 != t[i].0);
            }
        }
        lemma_absent_has_no_time(front, name);
    } else {
        assert(t[i].0 != t[t.len() - 1].0);
        assert(front[i] == t[i]);
        lemma_duration_at(front, i);
    }
}

/// No application has more time than all of them together.
pub proof fn lemma_duration_within_total(t: Seq<(Seq<char>, nat)>, name: Seq<char>)
    ensures
        duration_of(t, name) <= total(t),
    decreases t.len(),
{
    if t.len() > 0 {
        lemma_duration_within_total(t.drop_last(), name);
    }
}

/// What a commit does to the table, seen through names, times and the total.
pub proof fn lemma_committed(t: Seq<(Seq<char>, nat)>, name: Seq<char>, d: nat)
    requires
        distinct_names(t),
    ensures
        distinct_names(committed(t, name, d)),
        total(committed(t, name, d)) == total(t) + d,
        duration_of(committed(t, name, d), name) == duration_of(t, name) + d,
        forall|other: Seq<char>|
            other != name ==> #[trigger] duration_of(committed(t, name, d), other) == duration_of(
                t,
                other,
            ),
        forall|other: Seq<char>| #[trigger]
            contains_name(committed(t, name, d), other) <==> (other == name || contains_name(
                t,
                other,
            )),
        committed(t, name, d).len() == t.len() + (if contains_name(t, name) {
            0nat
        } else {
            1nat
        }),
        all_named(t) && name.len() > 0 ==> all_named(committed(t, name, d)),
{
    let c = committed(t, name, d);
    if all_named(t) && name.len() > 0 {
        assert forall|i: int| 0 <= i < c.len() implies (#[trigger] c[i]).0.len() > 0 by {
            if i < t.len() {
                assert(t[i].0.len() > 0);
            }
        }
    }
    if contains_name(t, name) {
        let k = choose|k: int| 0 <= k < t.len() && (#[trigger] t[k]).0 == name;
        assert forall|i: int| 0 <= i < c.len() implies (#[trigger] c[i]).0 == t[i].0 by {}
        assert(distinct_names(c)) by {
            assert forall|a: int, b: int| 0 <= a < b < c.len() implies (#[trigger] c[a]).0 != (
            #[trigger] c[b]).0 by {
                assert(t[a].0 != t[b].0);
            }
        }
        assert forall|other: Seq<char>| #[trigger]
            contains_name(c, other) <==> (other == name || contains_name(t, other)) by {
            if contains_name(c, other) {
                let i = choose|i: int| 0 <= i < c.len() && (#[trigger] c[i]).0 == other;
                assert(t[i].0 == other);
            }
            if contains_name(t, other) {
                let i = choose|i: int| 0 <= i < t.len() && (#[trigger] t[i]).0 == other;
                assert(c[i].0 == other);
            }
            if other == name {
                assert(c[k].0 == name);
            }
        }
        lemma_credited(t, name, d);
        assert forall|other: Seq<char>| other != name implies #[trigger] duration_of(c, other)
            == duration_of(t, other) by {
            lemma_credited_other(t, name, d, other);
        }
    } else {
        assert(c.drop_last() =~= t);
        assert(c.last() == (name, d));
        lemma_absent_has_no_time(t, name);
        assert(distinct_names(c)) by {
            assert forall|a: int, b: int| 0 <= a < b < c.len() implies (#[trigger] c[a]).0 != (
            #[trigger] c[b]).0 by {
                if b < t.len() {
                    assert(c[a] == t[a] && c[b] == t[b]);
                } else {
                    assert(c[a] == t[a]);
                    assert(t[a].0 != name);
                }
            }
        }
        assert forall|other: Seq<char>| #[trigger]
            contains_name(c, other) <==> (other == name || contains_name(t, other)) by {
            if contains_name(c, other) {
                let i = choose|i: int| 0 <= i < c.len() && (#[trigger] c[i]).0 == other;
                if i < t.len() {
                    assert(t[i].0 == other);
                }
            }
            if contains_name(t, other) {
                let i = choose|i: int| 0 <= i < t.len() && (#[trigger] t[i]).0 == other;
                assert(c[i].0 == other);
            }
            if other == name {
                assert(c[t.len() as int].0 == name);
            }
        }
    }
}

/// Crediting a name that has exactly one record raises that record, and the
/// total, by the amount credited; crediting one that has none changes
/// nothing.
pub proof fn lemma_credited(t: Seq<(Seq<char>, nat)>, name: Seq<char>, d: nat)
    requires
        distinct_names(t),
    ensures
        total(credited(t, name, d)) == total(t) + (if contains_name(t, name) {
            d
        } else {
            0nat
        }),
        duration_of(credited(t, name, d), name) == duration_of(t, name) + (if contains_name(
            t,
            name,
        ) {
            d
        } else {
            0nat
        }),
    decreases t.len(),
{
    let c = credited(t, name, d);
    if t.len() > 0 {
        let front = t.drop_last();
        let last = t.len() - 1;
        assert(c.drop_last() =~= credited(front, name, d));
        assert(distinct_names(front)) by {
            assert forall|a: int, b: int| 0 <= a < b < front.len() implies (#[trigger] front[a]).0
                != (#[trigger] front[b]).0 by {
                assert(front[a] == t[a] && front[b] == t[b]);
            }
        }
        lemma_credited(front, name, d);
        if t[last].0 == name {
            assert(contains_name(t, name));
            assert(!contains_name(front, name)) by {
                if contains_name(front, name) {
                    let k = choose|k: int| 0 <= k < front.len() && (#[trigger] front[k]).0 == name;
                    assert(front[k] == t[k]);
                    assert(t[k].0 != t[last].0);
                }
            }
            assert(c.last() == (name, t[last].1 + d));
        } else {
            assert(c.last() == t.last());
            assert(contains_name(t, name) <==> contains_name(front, name)) by {
                if contains_name(t, name) {
                    let k = choose|k: int| 0 <= k < t.len() && (#[trigger] t[k]).0 == name;
                    assert(front[k] == t[k]);
                }
                if contains_name(front, name) {
                    let k = choose|k: int| 0 <= k < front.len() && (#[trigger] front[k]).0 == name;
                    assert(front[k] == t[k]);
                }
            }
        }
    } else {
        assert(!contains_name(t, name));
    }
}

/// Crediting one name leaves the time of every other name as it was.
pub proof fn lemma_credited_other(
    t: Seq<(Seq<char>, nat)>,
    name: Seq<char>,
    d: nat,
    other: Seq<char>,
)
    requires
        other != name,
    ensures
        duration_of(credited(t, name, d), other) == duration_of(t, other),
    decreases t.len(),
{
    let c = credited(t, name, d);
    if t.len() > 0 {
        assert(c.drop_last() =~= credited(t.drop_last(), name, d));
        lemma_credited_other(t.drop_last(), name, d, other);
        assert(c.last().0 == t.last().0);
    }
}

/// The total of a prefix never exceeds the total of the whole.
pub proof fn lemma_total_of_prefix(t: Seq<(Seq<char>, nat)>, n: int)
    requires
        0 <= n <= t.len(),
    ensures
        total(t.take(n)) <= total(t),
    decreases t.len() - n,
{
    if n < t.len() {
        assert(t.take(n + 1).drop_last() =~= t.take(n));
        lemma_total_of_prefix(t, n + 1);
    } else {
        assert(t.take(n) =~= t);
    }
}

} // verus!
