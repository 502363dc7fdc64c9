//! Where time goes: how often something was done, and how long it took in all.
use crate::clock::{Clock, Moment, LONGEST_NANOS};
use vstd::prelude::*;

verus! {

/// Calls are reported when this many milliseconds have gone by since the last report.
pub const REPORT_MILLIS: u128 = 1000;

/// The calls with one label.
#[derive(Clone, Copy, Debug)]
pub struct Calls {
    /// What was called.
    pub label: &'static str,
    /// How often.
    pub count: u16,
    /// How long the calls took in all, in milliseconds.
    pub total: u128,
}

/// The calls since the report before.
#[derive(Debug)]
pub struct Report {
    /// Whose calls they are.
    pub name: &'static str,
    /// The calls, each label once.
    pub calls: Vec<Calls>,
}

/// Counts calls, and reports them from time to time.
#[derive(Debug)]
pub struct Stats {
    /// Whose calls they are.
    name: &'static str,
    /// Tells the time.
    clock: Clock,
    /// When the last report was made.
    last_print: Moment,
    /// The calls since then.
    calls: Vec<Calls>,
    /// The reports that nobody has collected yet.
    reports: Vec<Report>,
}

/// The calls with one label, over mathematical values.
pub type CallsView = (Seq<char>, nat, nat);

/// A [`Stats`], over mathematical values.
#[verifier::ext_equal]
pub struct StatsView {
    pub name: Seq<char>,
    pub last_print: Moment,
    /// The calls since then, in the order in which their labels were first seen.
    pub calls: Seq<CallsView>,
    /// The reports that nobody has collected yet: whose calls they are, and the calls.
    pub reports: Seq<(Seq<char>, Seq<CallsView>)>,
}

/// Some calls, over mathematical values.
pub open spec fn calls_view(calls: Seq<Calls>) -> Seq<CallsView> {
    calls.map_values(|call: Calls| (call.label@, call.count as nat, call.total as nat))
}

/// Some reports, over mathematical values.
pub open spec fn reports_view(reports: Seq<Report>) -> Seq<(Seq<char>, Seq<CallsView>)> {
    reports.map_values(|report: Report| (report.name@, calls_view(report.calls@)))
}

impl View for Stats {
    type V = StatsView;

    closed spec fn view(&self) -> StatsView {
        StatsView {
            name: self.name@,
            last_print: self.last_print,
            calls: calls_view(self.calls@),
            reports: reports_view(self.reports@),
        }
    }
}

impl StatsView {
    /// Has there been a call with this label?
    pub open spec fn has(self, label: Seq<char>) -> bool {
        exists|i: int| 0 <= i < self.calls.len() && (#[trigger] self.calls[i]).0 == label
    }

    /// Holds of every count of calls: each label is there once and has been called, and no call took
    /// longer than the longest time there is.
    pub open spec fn wf(self) -> bool {
        &&& forall|i: int, j: int|
            0 <= i < j < self.calls.len() ==> (#[trigger] self.calls[i]).0 != (#[trigger] self.calls[j]).0
        &&& forall|i: int|
            0 <= i < self.calls.len() ==> {
                &&& 1 <= (#[trigger] self.calls[i]).1 <= u16::MAX
                &&& self.calls[i].2 <= self.calls[i].1 * LONGEST_NANOS
            }
    }

    /// Can one more call with this label be counted?
    pub open spec fn has_room(self, label: Seq<char>) -> bool {
        forall|i: int| 0 <= i < self.calls.len() && (#[trigger] self.calls[i]).0 == label ==> self.calls[i].1
            < u16::MAX
    }

    /// With one more call.
    pub open spec fn recorded(self, label: Seq<char>, took: nat) -> StatsView {
        StatsView {
            calls: if self.has(label) {
                self.calls.map_values(
                    |call: CallsView|
                        if call.0 == label {
                            (label, call.1 + 1, call.2 + took)
                        } else {
                            call
                        },
                )
            } else {
                self.calls.push((label, 1, took))
            },
            ..self
        }
    }

    /// At the time `now`: if it has been long enough since the last report, the calls are reported, and
    /// counting begins anew.
    pub open spec fn printed(self, now: Moment) -> StatsView {
        if now.millis_after(self.last_print) < REPORT_MILLIS {
            self
        } else {
            StatsView {
                name: self.name,
                last_print: now,
                calls: seq![],
                reports: self.reports.push((self.name, self.calls)),
            }
        }
    }
}

/// Is `label` the label of this call?
fn has_label(call: &Calls, label: &str) -> (same: bool)
    ensures
        same == (call.label@ == label@),
{
    call.label.to_owned() == label.to_owned()
}

impl Default for Stats {
    /// A count of no calls, without a name.
    fn default() -> (stats: Stats)
        ensures
            stats@.wf(),
            stats@.name == ""@,
            stats@.calls == Seq::<CallsView>::empty(),
            stats@.reports == Seq::<(Seq<char>, Seq<CallsView>)>::empty(),
    {
        let clock = Clock::start();
        let last_print = clock.now();
        let stats = Stats { name: "", clock, last_print, calls: Vec::new(), reports: Vec::new() };
        assert(stats@.calls =~= Seq::<CallsView>::empty());
        assert(stats@.reports =~= Seq::<(Seq<char>, Seq<CallsView>)>::empty());
        stats
    }
}

impl Stats {
    /// With another name.
    pub fn rename(self, name: &'static str) -> (stats: Stats)
        ensures
            stats@ == (StatsView { name: name@, ..self@ }),
    {
        let mut stats = self;
        stats.name = name;
        stats
    }

    /// Where the calls with this label stand.
    fn place(&self, label: &str) -> (place: Option<usize>)
        ensures
            match place {
                Some(i) => i < self.calls@.len() && self.calls@[i as int].label@ == label@,
                None => !self@.has(label@),
            },
    {
        let mut i: usize = 0;
        while i < self.calls.len()
            invariant
                i <= self.calls.len(),
                forall|j: int| 0 <= j < i ==> (#[trigger] self.calls@[j]).label@ != label@,
            decreases self.calls.len() - i,
        {
            if has_label(&self.calls[i], label) {
                return Some(i);
            }
            i += 1;
        }
        proof {
            if self@.has(label@) {
                let j = choose|j: int| 0 <= j < self@.calls.len() && (#[trigger] self@.calls[j]).0 == label@;
                assert(self.calls@[j].label@ == label@);
            }
        }
        None
    }

    /// Can one more call with this label be counted?
    pub fn has_room(&self, label: &str) -> (room: bool)
        requires
            self@.wf(),
        ensures
            room == self@.has_room(label@),
    {
        match self.place(label) {
            Some(i) => {
                assert(self@.calls[i as int].0 == label@);
                self.calls[i].count < 0xffff
            },
            None => true,
        }
    }

    /// Counts one more call.
    pub fn record(&mut self, label: &'static str, took: u128)
        requires
            old(self)@.wf(),
            old(self)@.has_room(label@),
            took <= LONGEST_NANOS,
        ensures
            final(self)@.wf(),
            final(self)@ == old(self)@.recorded(label@, took as nat),
    {
        let ghost before = self@;
        match self.place(label) {
            Some(i) => {
                assert(before.calls[i as int].0 == label@);
                assert(before.has(label@));
                let call = self.calls[i];
                proof {
                    assert(call.count * LONGEST_NANOS + LONGEST_NANOS == (call.count + 1) * LONGEST_NANOS)
                        by (nonlinear_arith);
                    assert((call.count + 1) * LONGEST_NANOS <= 0x1_0000 * LONGEST_NANOS) by (nonlinear_arith)
                        requires
                            call.count + 1 <= 0x1_0000,
                    ;
                }
                let more = Calls { label: call.label, count: call.count + 1, total: call.total + took };
                self.calls.set(i, more);
                assert(self@.calls =~= before.recorded(label@, took as nat).calls);
                assert forall|j: int| 0 <= j < self@.calls.len() implies {
                    &&& 1 <= (#[trigger] self@.calls[j]).1 <= u16::MAX
                    &&& self@.calls[j].2 <= self@.calls[j].1 * LONGEST_NANOS
                } by {
                    assert(before.calls[j].1 <= u16::MAX);
                }
                assert forall|j: int, k: int| 0 <= j < k < self@.calls.len() implies (
                #[trigger] self@.calls[j]).0 != (#[trigger] self@.calls[k]).0 by {
                    assert(before.calls[j].0 != before.calls[k].0);
                }
            },
            None => {
                let first = Calls { label, count: 1, total: took };
                self.calls.push(first);
                assert(self@.calls =~= before.calls.push((label@, 1, took as nat)));
                assert forall|j: int, k: int| 0 <= j < k < self@.calls.len() implies (
                #[trigger] self@.calls[j]).0 != (#[trigger] self@.calls[k]).0 by {
                    assert(self@.calls[j] == before.calls[j]);
                    if k < before.calls.len() {
                        assert(self@.calls[k] == before.calls[k]);
                    }
                }
            },
        }
    }

    /// Reports the calls, and begins anew, if it has been long enough since the last report.
    pub fn print_calls_at(&mut self, now: Moment)
        requires
            old(self)@.wf(),
        ensures
            final(self)@.wf(),
            final(self)@ == old(self)@.printed(now),
    {
        let ghost before = self@;
        if now.millis_since(self.last_print) < REPORT_MILLIS {
            return;
        }
        let mut calls: Vec<Calls> = Vec::new();
        std::mem::swap(&mut calls, &mut self.calls);
        let report = Report { name: self.name, calls };
        self.reports.push(report);
        self.last_print = now;
        assert(self@.calls =~= seq![]);
        assert(self@.reports =~= before.reports.push((before.name, before.calls)));
    }

    /// Reports the calls, and begins anew, if it has been long enough since the last report.
    fn print_calls(&mut self)
        requires
            old(self)@.wf(),
        ensures
            final(self)@.wf(),
            exists|now: Moment|
                now.nanos <= LONGEST_NANOS && final(self)@ == #[trigger] old(self)@.printed(now),
    {
        let now = self.clock.now();
        self.print_calls_at(now);
    }

    /// The reports that nobody has collected yet, the oldest first.
    pub fn collect_reports(&mut self) -> (reports: Vec<Report>)
        ensures
            reports_view(reports@) == old(self)@.reports,
            final(self)@ == (StatsView { reports: seq![], ..old(self)@ }),
    {
        let mut reports: Vec<Report> = Vec::new();
        std::mem::swap(&mut reports, &mut self.reports);
        assert(self@.reports =~= seq![]);
        reports
    }

    /// Calls a function, and counts the call, in milliseconds.
    pub fn increment<F, B>(&mut self, label: &'static str, function: F) -> (output: B) where F: FnOnce() -> B
        requires
            old(self)@.wf(),
            old(self)@.has_room(label@),
            call_requires(function, ()),
        ensures
            final(self)@.wf(),
            call_ensures(function, (), output),
            exists|before: Moment, after: Moment, now: Moment|
                #![trigger after.millis_after(before), old(self)@.printed(now)]
                {
                    &&& before.nanos <= LONGEST_NANOS
                    &&& after.nanos <= LONGEST_NANOS
                    &&& now.nanos <= LONGEST_NANOS
                    &&& final(self)@ == old(self)@.recorded(
                        label@,
                        after.millis_after(before),
                    ).printed(now)
                },
    {
        let before = self.clock.now();
        let output = function();
        let after = self.clock.now();
        self.record(label, after.millis_since(before));
        let ghost recorded = self@;
        self.print_calls();
        proof {
            let now = choose|now: Moment|
                now.nanos <= LONGEST_NANOS && self@ == #[trigger] recorded.printed(now);
            assert(after.millis_after(before) >= 0);
            assert(old(self)@.printed(now) == old(self)@.printed(now));
        }
        output
    }

    /// Begins to time something. The call is counted when the timer is told to finish.
    pub fn take(&mut self, label: &'static str) -> (timer: Timer<'_>)
        ensures
            *timer.stats == *old(self),
            *final(self) == *final(timer.stats),
            timer.label@ == label@,
            timer.start.nanos <= LONGEST_NANOS,
    {
        let start = self.clock.now();
        Timer { stats: self, label, start }
    }
}

/// Times one call.
pub struct Timer<'a> {
    /// Where the call is counted.
    pub stats: &'a mut Stats,
    /// What is called.
    pub label: &'static str,
    /// When the call began.
    pub start: Moment,
}

impl<'a> Timer<'a> {
    /// Counts the call, in milliseconds.
    pub fn finish(self)
        requires
            old(self.stats)@.wf(),
            old(self.stats)@.has_room(self.label@),
        ensures
            final(self.stats)@.wf(),
            exists|after: Moment, now: Moment|
                #![trigger after.millis_after(self.start), old(self.stats)@.printed(now)]
                {
                    &&& after.nanos <= LONGEST_NANOS
                    &&& now.nanos <= LONGEST_NANOS
                    &&& final(self.stats)@ == old(self.stats)@.recorded(
                        self.label@,
                        after.millis_after(self.start),
                    ).printed(now)
                },
    {
        let stats = self.stats;
        let ghost before = stats@;
        let after = stats.clock.now();
        stats.record(self.label, after.millis_since(self.start));
        let ghost recorded = stats@;
        stats.print_calls();
        proof {
            let now = choose|now: Moment|
                now.nanos <= LONGEST_NANOS && stats@ == #[trigger] recorded.printed(now);
            assert(after.millis_after(self.start) >= 0);
            assert(before.printed(now) == before.printed(now));
        }
    }
}

/// How many calls with this label there are among some, and how long they took in all.
pub open spec fn counted(calls: Seq<CallsView>, label: Seq<char>) -> (nat, nat)
    decreases calls.len(),
{
    if calls.len() == 0 {
        (0, 0)
    } else {
        let (count, total) = counted(calls.drop_last(), label);
        if calls.last().0 == label {
            (count + calls.last().1, total + calls.last().2)
        } else {
            (count, total)
        }
    }
}

/// The same, over all calls in some reports.
pub open spec fn counted_in_reports(reports: Seq<(Seq<char>, Seq<CallsView>)>, label: Seq<char>) -> (nat, nat)
    decreases reports.len(),
{
    if reports.len() == 0 {
        (0, 0)
    } else {
        let (count, total) = counted_in_reports(reports.drop_last(), label);
        let (more, took) = counted(reports.last().1, label);
        (count + more, total + took)
    }
}

impl StatsView {
    /// How many calls with this label there have been, reported or not, and how long they took in all.
    pub open spec fn ever_counted(self, label: Seq<char>) -> (nat, nat) {
        let (count, total) = counted_in_reports(self.reports, label);
        let (more, took) = counted(self.calls, label);
        (count + more, total + took)
    }
}

/// Changing the calls with one label changes nothing for the others.
proof fn lemma_counted_map(calls: Seq<CallsView>, changed: Seq<CallsView>, label: Seq<char>, took: nat, other: Seq<char>)
    requires
        changed.len() == calls.len(),
        forall|i: int|
            0 <= i < calls.len() ==> #[trigger] changed[i] == (if calls[i].0 == label {
                (label, calls[i].1 + 1, calls[i].2 + took)
            } else {
                calls[i]
            }),
        forall|i: int, j: int|
            0 <= i < j < calls.len() ==> (#[trigger] calls[i]).0 != (#[trigger] calls[j]).0,
    ensures
        ({
            let seen = exists|i: int| 0 <= i < calls.len() && (#[trigger] calls[i]).0 == label;
            counted(changed, other) == (if other == label && seen {
                (counted(calls, other).0 + 1, counted(calls, other).1 + took)
            } else {
                counted(calls, other)
            })
        }),
    decreases calls.len(),
{
    if calls.len() > 0 {
        let rest = calls.drop_last();
        let last = calls.len() - 1;
        assert(calls.last() == calls[last]);
        assert(changed.last() == changed[last]);
        assert forall|i: int, j: int| 0 <= i < j < rest.len() implies (#[trigger] rest[i]).0 != (
        #[trigger] rest[j]).0 by {
            assert(calls[i].0 != calls[j].0);
        }
        assert forall|i: int| 0 <= i < rest.len() implies #[trigger] changed.drop_last()[i] == (if rest[i].0
            == label {
            (label, rest[i].1 + 1, rest[i].2 + took)
        } else {
            rest[i]
        }) by {
            assert(changed[i] == changed.drop_last()[i]);
        }
        lemma_counted_map(rest, changed.drop_last(), label, took, other);
        if calls.last().0 == label {
            assert forall|i: int| 0 <= i < rest.len() implies (#[trigger] rest[i]).0 != label by {
                assert(calls[i].0 != calls[last].0);
            }
        } else {
            if exists|i: int| 0 <= i < calls.len() && (#[trigger] calls[i]).0 == label {
                let i = choose|i: int| 0 <= i < calls.len() && (#[trigger] calls[i]).0 == label;
                assert(rest[i].0 == label);
            }
            if exists|i: int| 0 <= i < rest.len() && (#[trigger] rest[i]).0 == label {
                let i = choose|i: int| 0 <= i < rest.len() && (#[trigger] rest[i]).0 == label;
                assert(calls[i].0 == label);
            }
        }
    }
}

/// Something that is done with a count of calls.
pub enum StatsStep {
    /// A call with this label was counted, and it took this long.
    Record(Seq<char>, nat),
    /// The calls were reported, if it was time to.
    Print(Moment),
}

impl StatsView {
    /// After one step.
    pub open spec fn stepped(self, step: StatsStep) -> StatsView {
        match step {
            StatsStep::Record(label, took) => self.recorded(label, took),
            StatsStep::Print(now) => self.printed(now),
        }
    }

    /// After some steps, one after the other.
    pub open spec fn ran(self, steps: Seq<StatsStep>) -> StatsView
        decreases steps.len(),
    {
        if steps.len() == 0 {
            self
        } else {
            self.ran(steps.drop_last()).stepped(steps.last())
        }
    }

    /// Does this step make a report?
    pub open spec fn reports_at(self, step: StatsStep) -> bool {
        step matches StatsStep::Print(now) && now.millis_after(self.last_print) >= REPORT_MILLIS
    }

    /// How many calls with this label were among some steps since the last of them that made a report.
    pub open spec fn calls_since_report(self, steps: Seq<StatsStep>, label: Seq<char>) -> nat
        decreases steps.len(),
    {
        if steps.len() == 0 || self.ran(steps.drop_last()).reports_at(steps.last()) {
            0
        } else {
            self.calls_since_report(steps.drop_last(), label) + if steps.last() matches StatsStep::Record(called, _)
                && called == label {
                1nat
            } else {
                0nat
            }
        }
    }
}

/// What has been counted of a label is what was called since the last report: each label that was called
/// since then stands there once, with the number of its calls, and no other label stands there.
pub proof fn law_calls_since_report(stats: StatsView, steps: Seq<StatsStep>)
    requires
        stats.calls.len() == 0,
    ensures
        ({
            let after = stats.ran(steps);
            &&& forall|i: int|
                0 <= i < after.calls.len() ==> (#[trigger] after.calls[i]).1 == stats.calls_since_report(
                    steps,
                    after.calls[i].0,
                )
            &&& forall|i: int| 0 <= i < after.calls.len() ==> (#[trigger] after.calls[i]).1 >= 1
            &&& forall|i: int, j: int|
                0 <= i < j < after.calls.len() ==> (#[trigger] after.calls[i]).0 != (#[trigger] after.calls[j]).0
            &&& forall|label: Seq<char>|
                #[trigger] after.has(label) <==> stats.calls_since_report(steps, label) > 0
        }),
    decreases steps.len(),
{
    let after = stats.ran(steps);
    if steps.len() > 0 {
        let rest = steps.drop_last();
        let before = stats.ran(rest);
        law_calls_since_report(stats, rest);
        match steps.last() {
            StatsStep::Record(called, took) => {
                if before.has(called) {
                    let at = choose|i: int| 0 <= i < before.calls.len() && (#[trigger] before.calls[i]).0 == called;
                    assert(after.calls[at].0 == called);
                    assert forall|i: int| 0 <= i < after.calls.len() implies {
                        &&& (#[trigger] after.calls[i]).0 == before.calls[i].0
                        &&& after.calls[i].1 == stats.calls_since_report(steps, after.calls[i].0)
                        &&& after.calls[i].1 >= 1
                    } by {
                        assert(before.calls[i].1 >= 1);
                    }
                    assert forall|label: Seq<char>| #[trigger] after.has(label) <==> stats.calls_since_report(
                        steps,
                        label,
                    ) > 0 by {
                        assert(before.has(label) <==> stats.calls_since_report(rest, label) > 0);
                        if before.has(label) {
                            let i = choose|i: int|
                                0 <= i < before.calls.len() && (#[trigger] before.calls[i]).0 == label;
                            assert(after.calls[i].0 == label);
                        }
                        if after.has(label) {
                            let i = choose|i: int|
                                0 <= i < after.calls.len() && (#[trigger] after.calls[i]).0 == label;
                            assert(before.calls[i].0 == label);
                        }
                    }
                } else {
                    let last = before.calls.len() as int;
                    assert(after.calls[last] == (called, 1nat, took));
                    assert(stats.calls_since_report(rest, called) == 0);
                    assert forall|i: int| 0 <= i < after.calls.len() implies {
                        &&& (#[trigger] after.calls[i]).1 == stats.calls_since_report(steps, after.calls[i].0)
                        &&& after.calls[i].1 >= 1
                    } by {
                        if i < last {
                            assert(after.calls[i] == before.calls[i]);
                            assert(before.calls[i].0 != called);
                        }
                    }
                    assert forall|i: int, j: int| 0 <= i < j < after.calls.len() implies (
                    #[trigger] after.calls[i]).0 != (#[trigger] after.calls[j]).0 by {
                        assert(after.calls[i] == before.calls[i]);
                        if j < last {
                            assert(after.calls[j] == before.calls[j]);
                        }
                    }
                    assert forall|label: Seq<char>| #[trigger] after.has(label) <==> stats.calls_since_report(
                        steps,
                        label,
                    ) > 0 by {
                        assert(before.has(label) <==> stats.calls_since_report(rest, label) > 0);
                        if before.has(label) {
                            let i = choose|i: int|
                                0 <= i < before.calls.len() && (#[trigger] before.calls[i]).0 == label;
                            assert(after.calls[i].0 == label);
                        }
                        if after.has(label) && label != called {
                            let i = choose|i: int|
                                0 <= i < after.calls.len() && (#[trigger] after.calls[i]).0 == label;
                            assert(before.calls[i].0 == label);
                        }
                    }
                }
            },
            StatsStep::Print(now) => {
                assert forall|label: Seq<char>| #[trigger] after.has(label) <==> stats.calls_since_report(
                    steps,
                    label,
                ) > 0 by {
                    assert(before.has(label) <==> stats.calls_since_report(rest, label) > 0);
                }
            },
        }
    }
}

/// The time of the last report never moves backwards, and it stays where it is until there is another.
pub proof fn law_reports_move_forward(stats: StatsView, steps: Seq<StatsStep>)
    ensures
        stats.ran(steps).last_print.nanos >= stats.last_print.nanos,
        stats.ran(steps).reports.len() >= stats.reports.len(),
        stats.ran(steps).reports.len() == stats.reports.len() ==> stats.ran(steps).last_print == stats.last_print,
    decreases steps.len(),
{
    if steps.len() > 0 {
        law_reports_move_forward(stats, steps.drop_last());
    }
}

/// No call is ever lost or counted twice: recording a call adds it to those with its label and to no others,
/// and a report changes nothing of how many there have been.
pub proof fn law_calls_are_kept(stats: StatsView, label: Seq<char>, took: nat, other: Seq<char>, now: Moment)
    requires
        stats.wf(),
    ensures
        stats.recorded(label, took).ever_counted(other) == (if other == label {
            (stats.ever_counted(other).0 + 1, stats.ever_counted(other).1 + took)
        } else {
            stats.ever_counted(other)
        }),
        stats.printed(now).ever_counted(other) == stats.ever_counted(other),
{
    let recorded = stats.recorded(label, took);
    if stats.has(label) {
        lemma_counted_map(stats.calls, recorded.calls, label, took, other);
    } else {
        assert(recorded.calls.drop_last() =~= stats.calls);
    }
    let reports = stats.reports.push((stats.name, stats.calls));
    assert(reports.drop_last() =~= stats.reports);
    assert(counted(seq![], other) == (0nat, 0nat));
}

/// Calls are reported, all of them and under the name, once at least a second has gone by since the last report;
/// then counting begins anew. Until then nothing changes.
pub proof fn law_report(before: Stats, now: Moment, after: Stats)
    requires
        exists|stats: &mut Stats|
            *stats == before && *final(stats) == after && #[trigger] call_ensures(
                Stats::print_calls_at,
                (stats, now),
                (),
            ),
    ensures
        after@.name == before@.name,
        if now.nanos - before@.last_print.nanos >= 1_000_000_000 {
            &&& after@.reports == before@.reports.push((before@.name, before@.calls))
            &&& after@.calls.len() == 0
            &&& after@.last_print.nanos == now.nanos
        } else {
            &&& after@.reports == before@.reports
            &&& after@.calls == before@.calls
            &&& after@.last_print.nanos == before@.last_print.nanos
        },
{
}

/// A call is counted under its label: the count of the label grows by one, and its total by the time that the call
/// took. Nothing else changes, and a label that was not there comes last.
pub proof fn law_record(before: Stats, label: &'static str, took: u128, after: Stats)
    requires
        before@.wf(),
        exists|stats: &mut Stats|
            *stats == before && *final(stats) == after && #[trigger] call_ensures(
                Stats::record,
                (stats, label, took),
                (),
            ),
    ensures
        after@.name == before@.name,
        after@.reports == before@.reports,
        after@.last_print.nanos == before@.last_print.nanos,
        forall|i: int|
            0 <= i < before@.calls.len() ==> (#[trigger] after@.calls[i]) == if before@.calls[i].0 == label@ {
                (label@, before@.calls[i].1 + 1, before@.calls[i].2 + took as nat)
            } else {
                before@.calls[i]
            },
        (exists|i: int| 0 <= i < before@.calls.len() && (#[trigger] before@.calls[i]).0 == label@)
            ==> after@.calls.len() == before@.calls.len(),
        !(exists|i: int| 0 <= i < before@.calls.len() && (#[trigger] before@.calls[i]).0 == label@)
            ==> after@.calls == before@.calls.push((label@, 1nat, took as nat)),
{
}

/// There is room for a call just where its label has been counted fewer than 65535 times.
pub proof fn law_room(stats: Stats, label: &str, room: bool)
    requires
        call_ensures(Stats::has_room, (&stats, label), room),
    ensures
        room <==> (forall|i: int|
            0 <= i < stats@.calls.len() && (#[trigger] stats@.calls[i]).0 == label@ ==> stats@.calls[i].1 < 65535),
{
}

/// Collecting hands out the reports, each once, and leaves the calls alone.
pub proof fn law_collect(before: Stats, reports: Vec<Report>, after: Stats)
    requires
        exists|stats: &mut Stats|
            *stats == before && *final(stats) == after && #[trigger] call_ensures(
                Stats::collect_reports,
                (stats,),
                reports,
            ),
    ensures
        reports@.len() == before@.reports.len(),
        forall|i: int|
            #![trigger reports@[i]]
            0 <= i < reports@.len() ==> {
                &&& reports@[i].name@ == before@.reports[i].0
                &&& reports@[i].calls@.len() == before@.reports[i].1.len()
                &&& forall|j: int|
                    #![trigger reports@[i].calls@[j]]
                    0 <= j < reports@[i].calls@.len() ==> {
                        &&& reports@[i].calls@[j].label@ == before@.reports[i].1[j].0
                        &&& reports@[i].calls@[j].count == before@.reports[i].1[j].1
                        &&& reports@[i].calls@[j].total == before@.reports[i].1[j].2
                    }
            },
        after@.reports.len() == 0,
        after@.calls == before@.calls,
        after@.name == before@.name,
        after@.last_print.nanos == before@.last_print.nanos,
{
    let views = reports_view(reports@);
    assert(views.len() == reports@.len());
    assert forall|i: int|
        #![trigger reports@[i]]
        0 <= i < reports@.len() implies {
        &&& reports@[i].name@ == before@.reports[i].0
        &&& reports@[i].calls@.len() == before@.reports[i].1.len()
        &&& forall|j: int|
            #![trigger reports@[i].calls@[j]]
            0 <= j < reports@[i].calls@.len() ==> {
                &&& reports@[i].calls@[j].label@ == before@.reports[i].1[j].0
                &&& reports@[i].calls@[j].count == before@.reports[i].1[j].1
                &&& reports@[i].calls@[j].total == before@.reports[i].1[j].2
            }
    } by {
        assert(views[i] == (reports@[i].name@, calls_view(reports@[i].calls@)));
        let calls = calls_view(reports@[i].calls@);
        assert(calls.len() == reports@[i].calls@.len());
        assert forall|j: int|
            #![trigger reports@[i].calls@[j]]
            0 <= j < reports@[i].calls@.len() implies {
            &&& reports@[i].calls@[j].label@ == before@.reports[i].1[j].0
            &&& reports@[i].calls@[j].count == before@.reports[i].1[j].1
            &&& reports@[i].calls@[j].total == before@.reports[i].1[j].2
        } by {
            assert(calls[j] == (
                reports@[i].calls@[j].label@,
                reports@[i].calls@[j].count as nat,
                reports@[i].calls@[j].total as nat,
            ));
        }
    }
}

/// Another name changes nothing but the name.
pub proof fn law_rename(before: Stats, name: &'static str, after: Stats)
    requires
        call_ensures(Stats::rename, (before, name), after),
    ensures
        after@.name == name@,
        after@.calls == before@.calls,
        after@.reports == before@.reports,
        after@.last_print.nanos == before@.last_print.nanos,
{
}

/// Is `after` what comes of a call that began at `start`, ended at `end`, and was looked at again at `now`? The call
/// is counted once, under its label, with the whole milliseconds between its start and its end; and the calls
/// are reported if at least a second has gone by since the last report.
pub open spec fn counts_call(
    before: StatsView,
    label: Seq<char>,
    start: Moment,
    end: Moment,
    now: Moment,
    after: StatsView,
) -> bool {
    let took = if end.nanos >= start.nanos {
        (end.nanos - start.nanos) / 1_000_000
    } else {
        0
    };
    &&& after.name == before.name
    &&& after.ever_counted(label).0 == before.ever_counted(label).0 + 1
    &&& after.ever_counted(label).1 == before.ever_counted(label).1 + took
    &&& forall|other: Seq<char>|
        other != label ==> #[trigger] after.ever_counted(other) == before.ever_counted(other)
    &&& if now.nanos - before.last_print.nanos >= 1_000_000_000 {
        &&& after.reports.len() == before.reports.len() + 1
        &&& after.reports.drop_last() == before.reports
        &&& after.reports.last().0 == before.name
        &&& after.calls.len() == 0
        &&& after.last_print == now
    } else {
        &&& after.reports == before.reports
        &&& after.last_print == before.last_print
    }
}

/// The call is counted.
proof fn lemma_counts_call(before: StatsView, label: Seq<char>, start: Moment, end: Moment, now: Moment, after: StatsView)
    requires
        before.wf(),
        after == before.recorded(label, end.millis_after(start)).printed(now),
    ensures
        counts_call(before, label, start, end, now, after),
{
    let took = end.millis_after(start);
    let counted = before.recorded(label, took);
    law_calls_are_kept(before, label, took, label, now);
    lemma_reported(counted, label, now);
    assert forall|other: Seq<char>| other != label implies #[trigger] after.ever_counted(other)
        == before.ever_counted(other) by {
        law_calls_are_kept(before, label, took, other, now);
        lemma_reported(counted, other, now);
    }
    if now.nanos - before.last_print.nanos >= 1_000_000_000 {
        assert(after.reports.drop_last() =~= before.reports);
    }
}

/// A report changes nothing of how many calls there have been.
proof fn lemma_reported(stats: StatsView, label: Seq<char>, now: Moment)
    ensures
        stats.printed(now).ever_counted(label) == stats.ever_counted(label),
{
    let reports = stats.reports.push((stats.name, stats.calls));
    assert(reports.drop_last() =~= stats.reports);
    assert(counted(seq![], label) == (0nat, 0nat));
}

/// A timer that is told to finish counts the call that began when the timer was taken.
pub proof fn law_timer(before: Stats, label: &'static str, start: Moment, after: Stats)
    requires
        before@.wf(),
        exists|timer: Timer|
            *timer.stats == before && *final(timer.stats) == after && timer.label == label && timer.start == start
                && #[trigger] call_ensures(Timer::finish, (timer,), ()),
    ensures
        exists|end: Moment, now: Moment| #[trigger] counts_call(before@, label@, start, end, now, after@),
{
    let (end, now) = choose|end: Moment, now: Moment|
        {
            &&& end.nanos <= LONGEST_NANOS
            &&& now.nanos <= LONGEST_NANOS
            &&& after@ == #[trigger] before@.recorded(label@, end.millis_after(start)).printed(now)
        };
    lemma_counts_call(before@, label@, start, end, now, after@);
}

/// A function that is called through the count is called once, gives back what it gives, and is counted.
pub proof fn law_increment<F: FnOnce() -> B, B>(before: Stats, label: &'static str, function: F, output: B, after: Stats)
    requires
        before@.wf(),
        exists|stats: &mut Stats|
            *stats == before && *final(stats) == after && #[trigger] call_ensures(
                Stats::increment::<F, B>,
                (stats, label, function),
                output,
            ),
    ensures
        call_ensures(function, (), output),
        exists|start: Moment, end: Moment, now: Moment|
            #[trigger] counts_call(before@, label@, start, end, now, after@),
{
    let (start, end, now) = choose|start: Moment, end: Moment, now: Moment|
        {
            &&& start.nanos <= LONGEST_NANOS
            &&& end.nanos <= LONGEST_NANOS
            &&& now.nanos <= LONGEST_NANOS
            &&& after@ == #[trigger] before@.recorded(label@, end.millis_after(start)).printed(now)
        };
    lemma_counts_call(before@, label@, start, end, now, after@);
    assert(counts_call(before@, label@, start, end, now, after@));
}

/// A timer that is taken times a call with the given label, for the same count.
pub proof fn law_take(before: Stats, label: &'static str, timer: Timer)
    requires
        exists|stats: &mut Stats| *stats == before && #[trigger] call_ensures(Stats::take, (stats, label), timer),
    ensures
        timer.label@ == label@,
        *old(timer.stats) == before,
{
}

/// A new count is without a name, and has neither calls nor reports.
pub proof fn law_new_stats(stats: Stats)
    requires
        call_ensures(<Stats as Default>::default, (), stats),
    ensures
        stats@.name.len() == 0,
        stats@.calls.len() == 0,
        stats@.reports.len() == 0,
{
    reveal_strlit("");
}

} // verus!
