//! The simulation state: the clock, the running processes, the stocks and the
//! history of starts; how time advances; and the comparison of outcomes.

use vstd::prelude::*;
use crate::stock_map::{StockMap, covers, consumed, produced, produce_fits, qty_of};
use crate::parser::{Config, ConfigSpec, Process, ProcessSpec};
use crate::text::{
    decimal, decimal_string, seq_less, chars_less, chars_of, lemma_seq_less_total,
    lemma_seq_less_transitive, lemma_seq_less_irreflexive,
};

verus! {

/// The model of a simulation state.
pub struct StateSpec {
    pub cycle: nat,
    /// Each running process with the cycle at which it finishes.
    pub running: Seq<(ProcessSpec, nat)>,
    pub stocks: Map<Seq<char>, nat>,
    /// One entry `"<cycle>:<name>"` per start, in order.
    pub history: Seq<Seq<char>>,
}

/// The running processes that finish at or before cycle `c`, in order.
pub open spec fn finishing(running: Seq<(ProcessSpec, nat)>, c: nat) -> Seq<(ProcessSpec, nat)>
    decreases running.len(),
{
    if running.len() == 0 {
        running
    } else {
        let rest = finishing(running.drop_last(), c);
        if running.last().1 <= c {
            rest.push(running.last())
        } else {
            rest
        }
    }
}

/// The running processes that finish after cycle `c`, in order.
pub open spec fn still_running(running: Seq<(ProcessSpec, nat)>, c: nat) -> Seq<
    (ProcessSpec, nat),
>
    decreases running.len(),
{
    if running.len() == 0 {
        running
    } else {
        let rest = still_running(running.drop_last(), c);
        if running.last().1 > c {
            rest.push(running.last())
        } else {
            rest
        }
    }
}

/// `stocks` after the results of every process in `done`, added in order.
pub open spec fn produce_each(stocks: Map<Seq<char>, nat>, done: Seq<(ProcessSpec, nat)>) -> Map<
    Seq<char>,
    nat,
>
    decreases done.len(),
{
    if done.len() == 0 {
        stocks
    } else {
        produced(produce_each(stocks, done.drop_last()), done.last().0.results)
    }
}

/// Adding the results of `done` in order keeps every quantity within `usize`.
pub open spec fn produce_each_fits(stocks: Map<Seq<char>, nat>, done: Seq<(ProcessSpec, nat)>) -> bool
    decreases done.len(),
{
    if done.len() == 0 {
        true
    } else {
        produce_each_fits(stocks, done.drop_last()) && produce_fits(
            produce_each(stocks, done.drop_last()),
            done.last().0.results,
        )
    }
}

/// One cycle later: the processes that finish at or before the new cycle
/// leave the running list and add their results.
pub open spec fn tick(s: StateSpec) -> StateSpec {
    let c = s.cycle + 1;
    StateSpec {
        cycle: c,
        running: still_running(s.running, c),
        stocks: produce_each(s.stocks, finishing(s.running, c)),
        history: s.history,
    }
}

/// The next cycle keeps every quantity within `usize`.
pub open spec fn tick_fits(s: StateSpec) -> bool {
    produce_each_fits(s.stocks, finishing(s.running, s.cycle + 1))
}

/// `s` with the processes that finish at or before its current cycle
/// collected: they leave the running list and add their results.
pub open spec fn collect_due(s: StateSpec) -> StateSpec {
    StateSpec {
        running: still_running(s.running, s.cycle),
        stocks: produce_each(s.stocks, finishing(s.running, s.cycle)),
        ..s
    }
}

/// Collecting the due processes keeps every quantity within `usize`.
pub open spec fn collect_fits(s: StateSpec) -> bool {
    produce_each_fits(s.stocks, finishing(s.running, s.cycle))
}

/// `s` advanced cycle by cycle up to cycle `c`, every process that finishes at
/// or before `c` collected (unchanged where `c` lies before the current cycle).
pub open spec fn advanced(s: StateSpec, c: nat) -> StateSpec
    decreases c - s.cycle,
{
    if s.cycle < c {
        advanced(tick(s), c)
    } else if s.cycle == c {
        collect_due(s)
    } else {
        s
    }
}

/// Advancing preserves the history and reaches the requested cycle.
pub proof fn lemma_advanced_basics(s: StateSpec, c: nat)
    ensures
        advanced(s, c).history == s.history,
        s.cycle <= c ==> advanced(s, c).cycle == c,
        c < s.cycle ==> advanced(s, c) == s,
        c == s.cycle ==> advanced(s, c) == collect_due(s),
    decreases c - s.cycle,
{
    if s.cycle < c {
        lemma_advanced_basics(tick(s), c);
    }
}

/// Advancing `s` to cycle `c` keeps every quantity within `usize` throughout.
pub open spec fn advance_fits(s: StateSpec, c: nat) -> bool
    decreases c - s.cycle,
{
    if s.cycle < c {
        tick_fits(s) && advance_fits(tick(s), c)
    } else if s.cycle == c {
        collect_fits(s)
    } else {
        true
    }
}

/// Nothing is due in a settled state: collecting changes nothing.
pub proof fn lemma_collect_settled(s: StateSpec)
    requires
        settled(s),
    ensures
        collect_due(s) == s,
        collect_fits(s),
{
    lemma_none_finishing(s.running, s.cycle);
}

/// Every process left running after collecting at cycle `c` finishes after `c`.
pub proof fn lemma_still_running_later(running: Seq<(ProcessSpec, nat)>, c: nat)
    ensures
        forall|j: int| 0 <= j < still_running(running, c).len() ==> #[trigger] still_running(
            running,
            c,
        )[j].1 > c,
        still_running(running, c).len() <= running.len(),
    decreases running.len(),
{
    if running.len() > 0 {
        lemma_still_running_later(running.drop_last(), c);
    }
}

/// A cycle later, the state is settled.
pub proof fn lemma_tick_settled(s: StateSpec)
    ensures
        settled(tick(s)),
{
    lemma_still_running_later(s.running, s.cycle + 1);
}

/// Collecting the due processes leaves a settled state.
pub proof fn lemma_collect_due_settled(s: StateSpec)
    ensures
        settled(collect_due(s)),
{
    lemma_still_running_later(s.running, s.cycle);
}

/// A running process and the cycle at which it finishes.
pub struct RunningProcess {
    pub process: Process,
    pub finish_cycle: usize,
}

impl View for RunningProcess {
    type V = (ProcessSpec, nat);

    open spec fn view(&self) -> (ProcessSpec, nat) {
        (self.process@, self.finish_cycle as nat)
    }
}

/// The simulation state.
pub struct State {
    pub curr_cycle: usize,
    pub running: Vec<RunningProcess>,
    pub stocks: StockMap,
    pub history: Vec<String>,
}

impl View for State {
    type V = StateSpec;

    open spec fn view(&self) -> StateSpec {
        StateSpec {
            cycle: self.curr_cycle as nat,
            running: self.running@.map_values(|r: RunningProcess| r@),
            stocks: self.stocks@,
            history: self.history@.map_values(|h: String| h@),
        }
    }
}

/// Why an advance of the clock was refused.
pub enum AdvanceError {
    /// The requested cycle lies before the current one.
    Backwards,
    /// Some stock would exceed `usize::MAX`.
    Overflow,
}

impl State {
    /// The stocks and every running process are well formed.
    pub open spec fn wf(&self) -> bool {
        &&& self.stocks.wf()
        &&& forall|i: int| 0 <= i < self.running@.len() ==> #[trigger] self.running@[i].process.wf()
    }

    /// A state at cycle 0 with the given stocks, nothing running and no history.
    pub fn new(stocks: StockMap) -> (s: State)
        requires
            stocks.wf(),
        ensures
            s.wf(),
            s@ == (StateSpec {
                cycle: 0,
                running: Seq::empty(),
                stocks: stocks@,
                history: Seq::empty(),
            }),
    {
        let s = State { curr_cycle: 0, running: Vec::new(), stocks, history: Vec::new() };
        assert(s@.running =~= Seq::<(ProcessSpec, nat)>::empty());
        assert(s@.history =~= Seq::<Seq<char>>::empty());
        s
    }

    /// Moves the processes that finish at or before the current cycle out of
    /// the running list and adds their results; `false` where a quantity would exceed `usize`.
    fn finish_processes(&mut self) -> (ok: bool)
        requires
            old(self).wf(),
        ensures
            final(self).wf(),
            ok == produce_each_fits(
                old(self)@.stocks,
                finishing(old(self)@.running, old(self).curr_cycle as nat),
            ),
            ok ==> final(self)@ == (StateSpec {
                stocks: produce_each(
                    old(self)@.stocks,
                    finishing(old(self)@.running, old(self).curr_cycle as nat),
                ),
                running: still_running(old(self)@.running, old(self).curr_cycle as nat),
                ..old(self)@
            }),
    {
        let c = self.curr_cycle;
        let ghost orig = self@;
        let mut pending: Vec<RunningProcess> = Vec::new();
        std::mem::swap(&mut pending, &mut self.running);
        let mut done: Vec<RunningProcess> = Vec::new();
        let n = pending.len();
        let mut i: usize = 0;
        while pending.len() > 0
            invariant
                self.stocks.wf(),
                self.stocks@ == orig.stocks,
                self.history@ == old(self).history@,
                self.curr_cycle == c,
                c == orig.cycle,
                i + pending@.len() == n,
                n == orig.running.len(),
                forall|j: int| 0 <= j < pending@.len() ==> #[trigger] pending@[j].process.wf(),
                forall|j: int| 0 <= j < pending@.len() ==> #[trigger] pending@[j]@ == orig.running[i + j],
                forall|j: int| 0 <= j < done@.len() ==> #[trigger] done@[j].process.wf(),
                forall|j: int| 0 <= j < self.running@.len() ==> #[trigger] self.running@[j].process.wf(),
                done@.map_values(|r: RunningProcess| r@) == finishing(orig.running.take(i as int), c as nat),
                self@.running == still_running(orig.running.take(i as int), c as nat),
            decreases pending@.len(),
        {
            let ghost before_done = done@;
            let ghost before_running = self.running@;
            let ghost before_pending = pending@;
            let r = pending.remove(0);
            assert(r@ == orig.running[i as int]);
            assert(orig.running.take(i + 1).drop_last() =~= orig.running.take(i as int));
            assert(orig.running.take(i + 1).last() == orig.running[i as int]);
            if r.finish_cycle <= c {
                done.push(r);
                assert(done@.map_values(|r: RunningProcess| r@) =~= before_done.map_values(
                    |r: RunningProcess| r@,
                ).push(orig.running[i as int]));
            } else {
                self.running.push(r);
                assert(self@.running =~= before_running.map_values(|r: RunningProcess| r@).push(
                    orig.running[i as int],
                ));
            }
            assert forall|j: int| 0 <= j < pending@.len() implies #[trigger] pending@[j]@
                == orig.running[i + 1 + j] by {
                assert(pending@[j] == before_pending[j + 1]);
            }
            i = i + 1;
        }
        assert(orig.running.take(n as int) =~= orig.running);
        let ghost dv = done@.map_values(|r: RunningProcess| r@);
        let m = done.len();
        for k in 0..m
            invariant
                m == done@.len(),
                dv == done@.map_values(|r: RunningProcess| r@),
                forall|j: int| 0 <= j < done@.len() ==> #[trigger] done@[j].process.wf(),
                self.stocks.wf(),
                self.curr_cycle == c,
                c == orig.cycle,
                self.history@ == old(self).history@,
                forall|j: int| 0 <= j < self.running@.len() ==> #[trigger] self.running@[j].process.wf(),
                self@.running == still_running(orig.running, c as nat),
                dv == finishing(orig.running, c as nat),
                orig == old(self)@,
                produce_each_fits(orig.stocks, dv.take(k as int)),
                self.stocks@ == produce_each(orig.stocks, dv.take(k as int)),
        {
            assert(dv.take(k + 1).drop_last() =~= dv.take(k as int));
            assert(dv.take(k + 1).last() == done@[k as int]@);
            assert(done@[k as int].process.wf());
            if !self.stocks.fits_after(&done[k].process.results) {
                proof {
                    if produce_each_fits(orig.stocks, dv) {
                        lemma_produce_each_fits_prefix(orig.stocks, dv, k + 1);
                        let t = dv.take(k + 1);
                        assert(produce_fits(produce_each(orig.stocks, t.drop_last()), t.last().0.results));
                        assert(false);
                    }
                }
                assert(!produce_each_fits(orig.stocks, dv));
                return false;
            }
            done[k].process.finish(&mut self.stocks);
        }
        assert(dv.take(m as int) =~= dv);
        true
    }

    /// A copy of the state.
    pub fn duplicate(&self) -> (r: State)
        requires
            self.wf(),
        ensures
            r.wf(),
            r@ == self@,
    {
        let mut running: Vec<RunningProcess> = Vec::new();
        let n = self.running.len();
        for i in 0..n
            invariant
                n == self.running@.len(),
                self.wf(),
                running@.len() == i,
                forall|j: int| 0 <= j < i ==> #[trigger] running@[j].process.wf(),
                forall|j: int| 0 <= j < i ==> #[trigger] running@[j]@ == self.running@[j]@,
        {
            assert(self.running@[i as int].process.wf());
            let r = RunningProcess {
                process: self.running[i].process.duplicate(),
                finish_cycle: self.running[i].finish_cycle,
            };
            running.push(r);
        }
        let mut history: Vec<String> = Vec::new();
        let h = self.history.len();
        for i in 0..h
            invariant
                h == self.history@.len(),
                history@.len() == i,
                forall|j: int| 0 <= j < i ==> #[trigger] history@[j]@ == self.history@[j]@,
        {
            history.push(self.history[i].clone());
        }
        let r = State {
            curr_cycle: self.curr_cycle,
            running,
            stocks: self.stocks.duplicate(),
            history,
        };
        assert(r@.running =~= self@.running);
        assert(r@.history =~= self@.history);
        r
    }

    /// The earliest cycle at which a running process finishes.
    pub fn get_next_cycle(&self) -> (r: Option<usize>)
        ensures
            match r {
                Some(c) => min_finish(self@.running) == Some(c as nat),
                None => min_finish(self@.running) is None,
            },
    {
        let n = self.running.len();
        let mut best: Option<usize> = None;
        for i in 0..n
            invariant
                n == self.running@.len(),
                match best {
                    Some(c) => min_finish(self@.running.take(i as int)) == Some(c as nat),
                    None => min_finish(self@.running.take(i as int)) is None,
                },
        {
            assert(self@.running.take(i + 1).drop_last() =~= self@.running.take(i as int));
            let f = self.running[i].finish_cycle;
            best = match best {
                None => Some(f),
                Some(c) => Some(
                    if f < c {
                        f
                    } else {
                        c
                    },
                ),
            };
        }
        assert(self@.running.take(n as int) =~= self@.running);
        best
    }

    /// Advances the clock to `cycle`, one cycle at a time, collecting every
    /// process that finishes at or before `cycle` (also one already due at the
    /// current cycle). The state is unchanged when the advance is refused.
    pub fn try_advance_to(&mut self, cycle: usize) -> (r: Result<(), AdvanceError>)
        requires
            old(self).wf(),
        ensures
            final(self).wf(),
            match r {
                Err(AdvanceError::Backwards) => cycle < old(self).curr_cycle && final(self)@ == old(
                    self,
                )@,
                Err(AdvanceError::Overflow) => cycle >= old(self).curr_cycle && !advance_fits(
                    old(self)@,
                    cycle as nat,
                ) && final(self)@ == old(self)@,
                Ok(()) => cycle >= old(self).curr_cycle && advance_fits(old(self)@, cycle as nat)
                    && final(self)@ == advanced(old(self)@, cycle as nat),
            },
    {
        if cycle < self.curr_cycle {
            return Err(AdvanceError::Backwards);
        }
        let mut next = self.duplicate();
        while next.curr_cycle < cycle
            invariant
                next.wf(),
                old(self)@ == self@,
                self.wf(),
                next.curr_cycle <= cycle,
                advanced(next@, cycle as nat) == advanced(self@, cycle as nat),
                advance_fits(next@, cycle as nat) == advance_fits(self@, cycle as nat),
            decreases cycle - next.curr_cycle,
        {
            let ghost before = next@;
            next.curr_cycle = next.curr_cycle + 1;
            if !next.finish_processes() {
                assert(!tick_fits(before));
                return Err(AdvanceError::Overflow);
            }
            assert(next@ == tick(before));
            proof {
                lemma_tick_settled(before);
            }
        }
        let ghost last = next@;
        if !next.finish_processes() {
            assert(!collect_fits(last));
            return Err(AdvanceError::Overflow);
        }
        assert(next@ == collect_due(last));
        *self = next;
        Ok(())
    }

    /// Advances the clock to `cycle`, finishing every running process that
    /// completes at or before `cycle`; refuses to go backwards.
    pub fn advance_to(&mut self, cycle: usize) -> (r: Result<(), String>)
        requires
            old(self).wf(),
            cycle >= old(self).curr_cycle ==> advance_fits(old(self)@, cycle as nat),
        ensures
            final(self).wf(),
            r is Err <==> cycle < old(self).curr_cycle,
            r matches Err(m) ==> m@ == backwards_message(old(self).curr_cycle as nat, cycle as nat)
                && final(self)@ == old(self)@,
            r is Ok ==> final(self)@ == advanced(old(self)@, cycle as nat),
    {
        match self.try_advance_to(cycle) {
            Ok(()) => Ok(()),
            Err(_) => {
                let mut m = String::new();
                m.append("Invalid timestamp: cannot go backwards from cycle ");
                let from = decimal_string(self.curr_cycle);
                m.append(from.as_str());
                m.append(" to ");
                let to = decimal_string(cycle);
                m.append(to.as_str());
                Err(m)
            },
        }
    }

    /// Advances to the earliest finishing cycle until nothing runs; `false`
    /// (with the state unchanged) where a quantity would exceed `usize`.
    pub fn try_finish_all(&mut self) -> (ok: bool)
        requires
            old(self).wf(),
            settled(old(self)@),
        ensures
            final(self).wf(),
            ok == finish_all_fits(old(self)@),
            ok ==> final(self)@ == finished_all(old(self)@),
            !ok ==> final(self)@ == old(self)@,
    {
        let ghost orig = self@;
        let mut next = self.duplicate();
        proof {
            lemma_drain_enough(orig, orig.running.len());
        }
        loop
            invariant
                next.wf(),
                self.wf(),
                self@ == orig,
                orig == old(self)@,
                settled(next@),
                finished_all(next@) == finished_all(orig),
                finish_all_fits(next@) == finish_all_fits(orig),
            decreases next.running@.len(),
        {
            match next.get_next_cycle() {
                None => {
                    proof {
                        lemma_min_finish(next@.running);
                    }
                    assert(finished_all(next@) == next@);
                    assert(finish_all_fits(next@));
                    *self = next;
                    return true;
                },
                Some(c) => {
                    let ghost before = next@;
                    proof {
                        lemma_min_finish(before.running);
                        lemma_advance_to_min(before, c as nat);
                        let j = choose|j: int| 0 <= j < before.running.len() && #[trigger] before.running[j].1 == c;
                        assert(before.running[j].1 > before.cycle);
                    }
                    match next.try_advance_to(c) {
                        Ok(()) => {
                            proof {
                                lemma_drain_enough(next@, (before.running.len() - 1) as nat);
                            }
                        },
                        Err(_) => {
                            return false;
                        },
                    }
                },
            }
        }
    }

    /// Starts the first process named `name`: takes its needs from the stocks,
    /// adds it to the running list and records the start in the history.
    pub fn start_by_name(&mut self, name: &str, processes: &[Process]) -> (r: Result<(), String>)
        requires
            old(self).wf(),
            all_wf(processes@),
            find_named(procs_view(processes@), name@) matches Some(i) ==> i < processes@.len()
                && (covers(old(self)@.stocks, processes@[i as int].needs@) ==> old(self).curr_cycle
                + processes@[i as int].delay <= usize::MAX),
        ensures
            final(self).wf(),
            match find_named(procs_view(processes@), name@) {
                None => r matches Err(m) && m@ == "unknown process: "@ + name@ && final(self)@
                    == old(self)@,
                Some(i) => if covers(old(self)@.stocks, processes@[i as int].needs@) {
                    r is Ok && final(self)@ == started(old(self)@, processes@[i as int]@)
                } else {
                    r matches Err(m) && m@ == "stock insufficient"@ && final(self)@ == old(self)@
                },
            },
    {
        let ghost pv = procs_view(processes@);
        proof {
            lemma_find_named(pv, name@);
        }
        let found = find_process(processes, name);
        match found {
            None => {
                let mut m = String::new();
                m.append("unknown process: ");
                m.append(name);
                Err(m)
            },
            Some(i) => {
                let process = &processes[i];
                assert(process.wf());
                if !process.can_start(&self.stocks) {
                    return Err(String::from_str("stock insufficient"));
                }
                let ghost before = self@;
                process.start(&mut self.stocks);
                let finish_cycle = self.curr_cycle + process.delay;
                self.running.push(RunningProcess { process: process.duplicate(), finish_cycle });
                let mut entry = decimal_string(self.curr_cycle);
                entry.append(":");
                entry.append(name);
                self.history.push(entry);
                assert(self@.running =~= before.running.push((pv[i as int], before.cycle + pv[i as int].delay)));
                assert(self@.history =~= before.history.push(history_entry(before.cycle, pv[i as int].name)));
                Ok(())
            },
        }
    }

    /// Whether this outcome is strictly better than `state` for the targets.
    pub fn better_then(&self, state: &Self, optimize: &[String]) -> (b: bool)
        requires
            self.wf(),
            state.wf(),
        ensures
            b == better(self@, state@, targets_view(optimize@)),
    {
        let ghost tv = targets_view(optimize@);
        let time = "time".to_owned();
        let n = optimize.len();
        for i in 0..n
            invariant
                n == optimize@.len(),
                tv == targets_view(optimize@),
                time@ == time_target(),
                self.wf(),
                state.wf(),
                compare_targets(self@.stocks, state@.stocks, tv, 0) == compare_targets(
                    self@.stocks,
                    state@.stocks,
                    tv,
                    i as int,
                ),
        {
            let op = &optimize[i];
            assert(tv[i as int] == op@);
            if *op != time {
                let my_score = self.stocks.get_or_zero(op);
                let other_score = state.stocks.get_or_zero(op);
                if my_score < other_score {
                    return false;
                }
                if my_score > other_score {
                    return true;
                }
            }
        }
        let mut has_time = false;
        for i in 0..n
            invariant
                n == optimize@.len(),
                tv == targets_view(optimize@),
                time@ == time_target(),
                has_time == exists|j: int| 0 <= j < i && #[trigger] tv[j] == time_target(),
        {
            if optimize[i] == time {
                assert(tv[i as int] == time_target());
                has_time = true;
            }
        }
        assert(has_time == tv.contains(time_target()));
        if has_time {
            if self.curr_cycle < state.curr_cycle {
                return true;
            }
            if self.curr_cycle > state.curr_cycle {
                return false;
            }
        }
        false
    }

    /// The text of the schedule log: the history entries, one per line, each
    /// followed by a newline (a single newline for an empty history).
    pub fn log_content(&self) -> (r: String)
        ensures
            r@ == log_text(self@.history),
    {
        let ghost h = self@.history;
        let mut r = String::new();
        let n = self.history.len();
        if n == 0 {
            r.append("\n");
            proof {
                reveal_strlit("\n");
            }
            assert(r@ =~= seq!['\n']);
            return r;
        }
        for i in 0..n
            invariant
                n == self.history@.len(),
                h == self@.history,
                r@ == joined_lines(h.take(i as int)),
        {
            let ghost before = r@;
            r.append(self.history[i].as_str());
            r.append("\n");
            proof {
                reveal_strlit("\n");
                assert(h.take(i + 1).drop_last() =~= h.take(i as int));
                assert(h.take(i + 1).last() == h[i as int]);
                assert(h[i as int] == self.history@[i as int]@);
            }
            assert(r@ =~= joined_lines(h.take(i as int)) + h[i as int] + seq!['\n']);
        }
        assert(h.take(n as int) =~= h);
        r
    }

    /// Advances to the earliest finishing cycle until nothing runs.
    pub fn finish_all(&mut self)
        requires
            old(self).wf(),
            settled(old(self)@),
            finish_all_fits(old(self)@),
        ensures
            final(self).wf(),
            final(self)@ == finished_all(old(self)@),
    {
        self.try_finish_all();
    }
}

/// The lines of `h`, each followed by a newline.
pub open spec fn joined_lines(h: Seq<Seq<char>>) -> Seq<char>
    decreases h.len(),
{
    if h.len() == 0 {
        Seq::empty()
    } else {
        joined_lines(h.drop_last()) + h.last() + seq!['\n']
    }
}

/// The log text of a history, as `history.join("\n") + "\n"` builds it.
pub open spec fn log_text(h: Seq<Seq<char>>) -> Seq<char> {
    if h.len() == 0 {
        seq!['\n']
    } else {
        joined_lines(h)
    }
}

/// The earliest finishing cycle among `running`, if any runs.
pub open spec fn min_finish(running: Seq<(ProcessSpec, nat)>) -> Option<nat>
    decreases running.len(),
{
    if running.len() == 0 {
        None
    } else {
        match min_finish(running.drop_last()) {
            None => Some(running.last().1),
            Some(m) => Some(
                if running.last().1 < m {
                    running.last().1
                } else {
                    m
                },
            ),
        }
    }
}

/// Every running process finishes after the current cycle (a process with
/// delay 0 would otherwise never be collected).
pub open spec fn settled(s: StateSpec) -> bool {
    forall|i: int| 0 <= i < s.running.len() ==> #[trigger] s.running[i].1 > s.cycle
}

/// At most `n` rounds of advancing to the earliest finishing cycle.
pub open spec fn drain(s: StateSpec, n: nat) -> StateSpec
    decreases n,
{
    if n == 0 {
        s
    } else {
        match min_finish(s.running) {
            None => s,
            Some(m) => drain(advanced(s, m), (n - 1) as nat),
        }
    }
}

/// The rounds of `drain(s, n)` keep every quantity within `usize`.
pub open spec fn drain_fits(s: StateSpec, n: nat) -> bool
    decreases n,
{
    if n == 0 {
        true
    } else {
        match min_finish(s.running) {
            None => true,
            Some(m) => advance_fits(s, m) && drain_fits(advanced(s, m), (n - 1) as nat),
        }
    }
}

/// `s` once every running process has finished.
pub open spec fn finished_all(s: StateSpec) -> StateSpec {
    drain(s, s.running.len())
}

/// Finishing every running process of `s` keeps every quantity within `usize`.
pub open spec fn finish_all_fits(s: StateSpec) -> bool {
    drain_fits(s, s.running.len())
}

/// Finishing running processes keeps the history.
pub proof fn lemma_drain_history(s: StateSpec, n: nat)
    ensures
        drain(s, n).history == s.history,
    decreases n,
{
    if n > 0 {
        match min_finish(s.running) {
            None => {},
            Some(m) => {
                lemma_advanced_basics(s, m);
                lemma_drain_history(advanced(s, m), (n - 1) as nat);
            },
        }
    }
}

/// The message of a refused backwards advance.
pub open spec fn backwards_message(from: nat, to: nat) -> Seq<char> {
    "Invalid timestamp: cannot go backwards from cycle "@ + decimal(from) + " to "@ + decimal(to)
}

pub proof fn lemma_min_finish(running: Seq<(ProcessSpec, nat)>)
    ensures
        min_finish(running) is None <==> running.len() == 0,
        min_finish(running) matches Some(m) ==> (exists|j: int|
            0 <= j < running.len() && #[trigger] running[j].1 == m) && forall|j: int|
            0 <= j < running.len() ==> #[trigger] running[j].1 >= m,
    decreases running.len(),
{
    if running.len() > 0 {
        let d = running.drop_last();
        lemma_min_finish(d);
        assert forall|j: int| 0 <= j < d.len() implies d[j] == running[j] by {}
        match min_finish(d) {
            None => {
                assert(running[running.len() - 1].1 == running.last().1);
            },
            Some(m0) => {
                let j0 = choose|j: int| 0 <= j < d.len() && #[trigger] d[j].1 == m0;
                assert(running[j0].1 == m0);
                assert(running[running.len() - 1].1 == running.last().1);
            },
        }
    }
}

proof fn lemma_none_finishing(running: Seq<(ProcessSpec, nat)>, c: nat)
    requires
        forall|j: int| 0 <= j < running.len() ==> #[trigger] running[j].1 > c,
    ensures
        still_running(running, c) == running,
        finishing(running, c) == Seq::<(ProcessSpec, nat)>::empty(),
    decreases running.len(),
{
    if running.len() > 0 {
        let d = running.drop_last();
        assert forall|j: int| 0 <= j < d.len() implies #[trigger] d[j].1 > c by {
            assert(d[j] == running[j]);
        }
        lemma_none_finishing(d, c);
        assert(running.last() == running[running.len() - 1]);
        assert(d.push(running.last()) =~= running);
    }
}

proof fn lemma_still_running_after(running: Seq<(ProcessSpec, nat)>, c: nat)
    requires
        forall|j: int| 0 <= j < running.len() ==> #[trigger] running[j].1 >= c,
    ensures
        forall|j: int| 0 <= j < still_running(running, c).len() ==> #[trigger] still_running(
            running,
            c,
        )[j].1 > c,
        (exists|j: int| 0 <= j < running.len() && #[trigger] running[j].1 == c) ==> still_running(
            running,
            c,
        ).len() < running.len(),
        still_running(running, c).len() <= running.len(),
    decreases running.len(),
{
    if running.len() > 0 {
        let d = running.drop_last();
        assert forall|j: int| 0 <= j < d.len() implies #[trigger] d[j].1 >= c by {
            assert(d[j] == running[j]);
        }
        lemma_still_running_after(d, c);
        assert(running.last() == running[running.len() - 1]);
        if exists|j: int| 0 <= j < running.len() && #[trigger] running[j].1 == c {
            let j = choose|j: int| 0 <= j < running.len() && #[trigger] running[j].1 == c;
            if j < d.len() {
                assert(d[j] == running[j]);
            }
        }
    }
}

/// Every process left running was running before.
pub proof fn lemma_still_running_subset(running: Seq<(ProcessSpec, nat)>, c: nat)
    ensures
        forall|i: int|
            0 <= i < still_running(running, c).len() ==> exists|j: int|
                0 <= j < running.len() && running[j] == #[trigger] still_running(running, c)[i],
    decreases running.len(),
{
    if running.len() > 0 {
        let d = running.drop_last();
        lemma_still_running_subset(d, c);
        let sr = still_running(running, c);
        let sd = still_running(d, c);
        assert forall|i: int| 0 <= i < sr.len() implies exists|j: int|
            0 <= j < running.len() && running[j] == #[trigger] sr[i] by {
            if i < sd.len() {
                assert(sr[i] == sd[i]);
                let j = choose|j: int| 0 <= j < d.len() && d[j] == #[trigger] sd[i];
                assert(running[j] == d[j]);
            } else {
                assert(running[running.len() - 1] == sr[i]);
            }
        }
    }
}

/// Advancing a settled state to its earliest finishing cycle `m` collects at
/// least one process and leaves a settled state.
pub proof fn lemma_advance_to_min(s: StateSpec, m: nat)
    requires
        settled(s),
        min_finish(s.running) == Some(m),
    ensures
        advanced(s, m).running.len() < s.running.len(),
        settled(advanced(s, m)),
        advanced(s, m).cycle == m,
    decreases m - s.cycle,
{
    lemma_min_finish(s.running);
    let j0 = choose|j: int| 0 <= j < s.running.len() && #[trigger] s.running[j].1 == m;
    assert(s.running[j0].1 > s.cycle);
    let t = tick(s);
    if s.cycle + 1 < m {
        assert forall|j: int| 0 <= j < s.running.len() implies #[trigger] s.running[j].1 > s.cycle
            + 1 by {}
        lemma_none_finishing(s.running, s.cycle + 1);
        assert(t.running == s.running);
        lemma_advance_to_min(t, m);
    } else {
        lemma_still_running_after(s.running, m);
        lemma_tick_settled(s);
        lemma_collect_settled(t);
        assert(advanced(t, m) == t);
    }
}

/// Law: advancing a state to a cycle `c` no earlier than its own collects
/// every process that finishes at or before `c`; the processes left all
/// finish later.
pub proof fn lemma_advance_collects(s: StateSpec, c: nat)
    requires
        s.cycle <= c,
    ensures
        settled(advanced(s, c)),
        advanced(s, c).cycle == c,
        forall|i: int|
            0 <= i < advanced(s, c).running.len() ==> #[trigger] advanced(s, c).running[i].1 > c,
    decreases c - s.cycle,
{
    if s.cycle < c {
        lemma_advance_collects(tick(s), c);
    } else {
        lemma_collect_due_settled(s);
        lemma_still_running_later(s.running, s.cycle);
    }
}

/// Draining with more rounds than there are running processes changes nothing.
pub proof fn lemma_drain_enough(s: StateSpec, n: nat)
    requires
        settled(s),
        n >= s.running.len(),
    ensures
        drain(s, n) == finished_all(s),
        drain_fits(s, n) == finish_all_fits(s),
        finished_all(s).running.len() == 0,
    decreases s.running.len(),
{
    lemma_min_finish(s.running);
    if s.running.len() > 0 {
        let m = min_finish(s.running)->0;
        lemma_advance_to_min(s, m);
        let t = advanced(s, m);
        lemma_drain_enough(t, (n - 1) as nat);
        lemma_drain_enough(t, (s.running.len() - 1) as nat);
    }
}

/// The index of the first process named `name`, if any.
pub open spec fn find_named(procs: Seq<ProcessSpec>, name: Seq<char>) -> Option<nat>
    decreases procs.len(),
{
    if procs.len() == 0 {
        None
    } else {
        match find_named(procs.drop_last(), name) {
            Some(i) => Some(i),
            None => if procs.last().name == name {
                Some((procs.len() - 1) as nat)
            } else {
                None
            },
        }
    }
}

pub proof fn lemma_find_named(procs: Seq<ProcessSpec>, name: Seq<char>)
    ensures
        match find_named(procs, name) {
            Some(i) => i < procs.len() && procs[i as int].name == name && forall|j: int|
                0 <= j < i ==> #[trigger] procs[j].name != name,
            None => forall|j: int| 0 <= j < procs.len() ==> #[trigger] procs[j].name != name,
        },
    decreases procs.len(),
{
    if procs.len() > 0 {
        let d = procs.drop_last();
        lemma_find_named(d, name);
        assert forall|j: int| 0 <= j < d.len() implies d[j] == procs[j] by {}
    }
}

/// The history entry of a start: `"<cycle>:<name>"`.
pub open spec fn history_entry(cycle: nat, name: Seq<char>) -> Seq<char> {
    decimal(cycle) + ":"@ + name
}

/// `s` after starting `p` at the current cycle.
pub open spec fn started(s: StateSpec, p: ProcessSpec) -> StateSpec {
    StateSpec {
        cycle: s.cycle,
        running: s.running.push((p, s.cycle + p.delay)),
        stocks: consumed(s.stocks, p.needs),
        history: s.history.push(history_entry(s.cycle, p.name)),
    }
}

/// The models of a list of processes.
pub open spec fn procs_view(processes: Seq<Process>) -> Seq<ProcessSpec> {
    processes.map_values(|p: Process| p@)
}

/// Every process of the list is well formed.
pub open spec fn all_wf(processes: Seq<Process>) -> bool {
    forall|i: int| 0 <= i < processes.len() ==> #[trigger] processes[i].wf()
}

/// The index of the first process named `name`, if any.
pub fn find_process(processes: &[Process], name: &str) -> (r: Option<usize>)
    ensures
        match r {
            Some(i) => find_named(procs_view(processes@), name@) == Some(i as nat),
            None => find_named(procs_view(processes@), name@) is None,
        },
{
    let ghost pv = procs_view(processes@);
    proof {
        lemma_find_named(pv, name@);
    }
    let key = name.to_owned();
    let n = processes.len();
    for i in 0..n
        invariant
            n == processes@.len(),
            pv == procs_view(processes@),
            key@ == name@,
            forall|j: int| 0 <= j < i ==> #[trigger] pv[j].name != name@,
    {
        if processes[i].name == key {
            assert(pv[i as int].name == name@);
            proof {
                lemma_find_named(pv, name@);
                match find_named(pv, name@) {
                    Some(k) => {
                        if k < i {
                            assert(pv[k as int].name == name@);
                        }
                        if i < k {
                            assert(pv[i as int].name == name@);
                        }
                    },
                    None => {
                        assert(pv[i as int].name == name@);
                    },
                }
            }
            return Some(i);
        }
    }
    proof {
        if find_named(pv, name@) is Some {
            let k = find_named(pv, name@)->0;
            assert(pv[k as int].name == name@);
        }
    }
    None
}

/// The optimization target that stands for the completion time.
pub open spec fn time_target() -> Seq<char> {
    "time"@
}

/// Compares the stocks `a` and `b` over the stock targets from position `i`
/// on: the first target with a different quantity decides (`Some(true)`
/// where `a` holds more); `None` where all are equal. `time` is skipped.
pub open spec fn compare_targets(
    a: Map<Seq<char>, nat>,
    b: Map<Seq<char>, nat>,
    targets: Seq<Seq<char>>,
    i: int,
) -> Option<bool>
    decreases targets.len() - i,
{
    if i < 0 || i >= targets.len() {
        None
    } else if targets[i] == time_target() {
        compare_targets(a, b, targets, i + 1)
    } else if qty_of(a, targets[i]) < qty_of(b, targets[i]) {
        Some(false)
    } else if qty_of(a, targets[i]) > qty_of(b, targets[i]) {
        Some(true)
    } else {
        compare_targets(a, b, targets, i + 1)
    }
}

/// `a` is a strictly better outcome than `b` for the targets: more of the
/// first stock target that differs, or, where they all tie and `time` is a
/// target, an earlier completion cycle.
pub open spec fn better(a: StateSpec, b: StateSpec, targets: Seq<Seq<char>>) -> bool {
    match compare_targets(a.stocks, b.stocks, targets, 0) {
        Some(x) => x,
        None => targets.contains(time_target()) && a.cycle < b.cycle,
    }
}

/// The models of a list of target names.
pub open spec fn targets_view(optimize: Seq<String>) -> Seq<Seq<char>> {
    optimize.map_values(|t: String| t@)
}

proof fn lemma_compare_swap(
    a: Map<Seq<char>, nat>,
    b: Map<Seq<char>, nat>,
    targets: Seq<Seq<char>>,
    i: int,
)
    ensures
        compare_targets(b, a, targets, i) == match compare_targets(a, b, targets, i) {
            Some(x) => Some(!x),
            None => None::<bool>,
        },
    decreases targets.len() - i,
{
    if 0 <= i < targets.len() {
        lemma_compare_swap(a, b, targets, i + 1);
    }
}

proof fn lemma_compare_trans(
    a: Map<Seq<char>, nat>,
    b: Map<Seq<char>, nat>,
    c: Map<Seq<char>, nat>,
    targets: Seq<Seq<char>>,
    i: int,
)
    ensures
        compare_targets(a, b, targets, i) is None ==> compare_targets(a, c, targets, i)
            == compare_targets(b, c, targets, i),
        compare_targets(b, c, targets, i) is None ==> compare_targets(a, c, targets, i)
            == compare_targets(a, b, targets, i),
        compare_targets(a, b, targets, i) == Some(true) && compare_targets(b, c, targets, i) == Some(
            true,
        ) ==> compare_targets(a, c, targets, i) == Some(true),
    decreases targets.len() - i,
{
    if 0 <= i < targets.len() {
        lemma_compare_trans(a, b, c, targets, i + 1);
    }
}

proof fn lemma_compare_split(
    a: Map<Seq<char>, nat>,
    b: Map<Seq<char>, nat>,
    c: Map<Seq<char>, nat>,
    targets: Seq<Seq<char>>,
    i: int,
)
    requires
        compare_targets(a, c, targets, i) == Some(true),
    ensures
        compare_targets(a, b, targets, i) == Some(true) || compare_targets(b, c, targets, i) == Some(
            true,
        ),
    decreases targets.len() - i,
{
    if 0 <= i < targets.len() {
        if targets[i] == time_target() || qty_of(a, targets[i]) == qty_of(c, targets[i]) {
            if !(targets[i] != time_target() && qty_of(a, targets[i]) != qty_of(b, targets[i])) {
                lemma_compare_split(a, b, c, targets, i + 1);
            }
        }
    }
}

/// If `a` is better than `c`, then for any `b`, `a` is better than `b` or `b`
/// is better than `c`: an outcome that is not better than `c` is beaten by
/// whatever beats `c`.
pub proof fn lemma_better_split(a: StateSpec, b: StateSpec, c: StateSpec, targets: Seq<Seq<char>>)
    requires
        better(a, c, targets),
    ensures
        better(a, b, targets) || better(b, c, targets),
{
    match compare_targets(a.stocks, c.stocks, targets, 0) {
        Some(x) => {
            lemma_compare_split(a.stocks, b.stocks, c.stocks, targets, 0);
        },
        None => {
            lemma_compare_trans(a.stocks, b.stocks, c.stocks, targets, 0);
            lemma_compare_swap(a.stocks, b.stocks, targets, 0);
            lemma_compare_trans(b.stocks, a.stocks, c.stocks, targets, 0);
        },
    }
}

/// No outcome is better than itself.
pub proof fn lemma_better_irreflexive(a: StateSpec, targets: Seq<Seq<char>>)
    ensures
        !better(a, a, targets),
{
    lemma_compare_swap(a.stocks, a.stocks, targets, 0);
}

/// Of two outcomes, at most one is better than the other.
pub proof fn lemma_better_asymmetric(a: StateSpec, b: StateSpec, targets: Seq<Seq<char>>)
    requires
        better(a, b, targets),
    ensures
        !better(b, a, targets),
{
    lemma_compare_swap(a.stocks, b.stocks, targets, 0);
}

/// If `a` is better than `b` and `b` better than `c`, then `a` is better than `c`.
pub proof fn lemma_better_transitive(
    a: StateSpec,
    b: StateSpec,
    c: StateSpec,
    targets: Seq<Seq<char>>,
)
    requires
        better(a, b, targets),
        better(b, c, targets),
    ensures
        better(a, c, targets),
{
    lemma_compare_trans(a.stocks, b.stocks, c.stocks, targets, 0);
}

/// Every stock target (every target but `time`) at a position from `i` up
/// to `j` (excluded) has the same quantity in `a` and in `b`.
pub open spec fn stock_targets_tie_from(
    a: Map<Seq<char>, nat>,
    b: Map<Seq<char>, nat>,
    targets: Seq<Seq<char>>,
    i: int,
    j: int,
) -> bool {
    forall|m: int|
        i <= m < j && #[trigger] targets[m] != time_target() ==> qty_of(a, targets[m]) == qty_of(b, targets[m])
}

proof fn lemma_compare_tied_span(
    a: Map<Seq<char>, nat>,
    b: Map<Seq<char>, nat>,
    targets: Seq<Seq<char>>,
    i: int,
    j: int,
)
    requires
        0 <= i <= j <= targets.len(),
        stock_targets_tie_from(a, b, targets, i, j),
    ensures
        compare_targets(a, b, targets, i) == compare_targets(a, b, targets, j),
    decreases j - i,
{
    if i < j {
        lemma_compare_tied_span(a, b, targets, i + 1, j);
    }
}

/// Law: where every stock target ties, `a` is better than `b` exactly when
/// `time` is among the targets, wherever it stands, and `a` completes at an
/// earlier cycle.
pub proof fn lemma_better_on_tied_stocks(a: StateSpec, b: StateSpec, targets: Seq<Seq<char>>)
    requires
        stock_targets_tie_from(a.stocks, b.stocks, targets, 0, targets.len() as int),
    ensures
        better(a, b, targets) == (targets.contains(time_target()) && a.cycle < b.cycle),
{
    lemma_compare_tied_span(a.stocks, b.stocks, targets, 0, targets.len() as int);
}

/// Law: the first stock target on which `a` and `b` hold different
/// quantities decides: `a` is better than `b` exactly when it holds more of
/// it, whatever the later targets and the cycles.
pub proof fn lemma_better_first_difference(
    a: StateSpec,
    b: StateSpec,
    targets: Seq<Seq<char>>,
    i: int,
)
    requires
        0 <= i < targets.len(),
        targets[i] != time_target(),
        qty_of(a.stocks, targets[i]) != qty_of(b.stocks, targets[i]),
        stock_targets_tie_from(a.stocks, b.stocks, targets, 0, i),
    ensures
        better(a, b, targets) == (qty_of(a.stocks, targets[i]) > qty_of(b.stocks, targets[i])),
{
    lemma_compare_tied_span(a.stocks, b.stocks, targets, 0, i);
}

/// Fitting for a sequence of results implies fitting for each of its prefixes.
proof fn lemma_produce_each_fits_prefix(
    stocks: Map<Seq<char>, nat>,
    done: Seq<(ProcessSpec, nat)>,
    k: int,
)
    requires
        0 <= k <= done.len(),
        produce_each_fits(stocks, done),
    ensures
        produce_each_fits(stocks, done.take(k)),
    decreases done.len() - k,
{
    if k < done.len() {
        assert(done.take(done.len() as int) =~= done);
        let d2 = done.drop_last();
        lemma_produce_each_fits_prefix(stocks, d2, if k <= d2.len() { k } else { d2.len() as int });
        assert(d2.take(k) =~= done.take(k));
    } else {
        assert(done.take(k) =~= done);
    }
}

proof fn lemma_qty_produced(m: Map<Seq<char>, nat>, x: Map<Seq<char>, nat>, k: Seq<char>)
    ensures
        qty_of(produced(m, x), k) == qty_of(m, k) + qty_of(x, k),
{
}

/// Adding two maps of results in either order gives the same stocks.
proof fn lemma_produced_commute(m: Map<Seq<char>, nat>, x: Map<Seq<char>, nat>, y: Map<Seq<char>, nat>)
    ensures
        produced(produced(m, x), y) == produced(produced(m, y), x),
{
    assert forall|k: Seq<char>| #[trigger] produced(produced(m, x), y).dom().contains(k) implies produced(
        produced(m, x),
        y,
    )[k] == produced(produced(m, y), x)[k] by {
        lemma_qty_produced(m, x, k);
        lemma_qty_produced(m, y, k);
    }
    assert(produced(produced(m, x), y) =~= produced(produced(m, y), x));
}

/// Results added before a run of finishing processes may as well be added after.
proof fn lemma_produce_each_pull(m: Map<Seq<char>, nat>, x: Map<Seq<char>, nat>, g: Seq<(ProcessSpec, nat)>)
    ensures
        produce_each(produced(m, x), g) == produced(produce_each(m, g), x),
    decreases g.len(),
{
    if g.len() > 0 {
        lemma_produce_each_pull(m, x, g.drop_last());
        lemma_produced_commute(produce_each(m, g.drop_last()), x, g.last().0.results);
    }
}

/// A run of pieces of `done` that names `k` among its results.
pub open spec fn touches(done: Seq<(ProcessSpec, nat)>, k: Seq<char>) -> bool {
    exists|i: int| 0 <= i < done.len() && #[trigger] done[i].0.results.dom().contains(k)
}

/// Finishing everything due at the next cycle is finishing what is due now,
/// then what is due at the next cycle among the rest: the same processes leave
/// the running list, the same stocks result, and the same stocks are named.
proof fn lemma_finishing_split(m: Map<Seq<char>, nat>, r: Seq<(ProcessSpec, nat)>, c: nat)
    ensures
        still_running(still_running(r, c), c + 1) == still_running(r, c + 1),
        produce_each(m, finishing(r, c + 1)) == produce_each(
            produce_each(m, finishing(r, c)),
            finishing(still_running(r, c), c + 1),
        ),
        forall|k: Seq<char>|
            #[trigger] touches(finishing(r, c + 1), k) <==> touches(finishing(r, c), k) || touches(
                finishing(still_running(r, c), c + 1),
                k,
            ),
    decreases r.len(),
{
    if r.len() == 0 {
        assert(finishing(r, c + 1).len() == 0);
    } else {
        let d = r.drop_last();
        let l = r.last();
        lemma_finishing_split(m, d, c);
        let fd1 = finishing(d, c + 1);
        let fd = finishing(d, c);
        let sd = still_running(d, c);
        let gd = finishing(sd, c + 1);
        if l.1 <= c {
            assert(finishing(r, c + 1) == fd1.push(l));
            assert(finishing(r, c) == fd.push(l));
            assert(still_running(r, c) == sd);
            assert(fd1.push(l).drop_last() =~= fd1);
            assert(fd.push(l).drop_last() =~= fd);
            lemma_produce_each_pull(produce_each(m, fd), l.0.results, gd);
            assert forall|k: Seq<char>|
                #[trigger] touches(finishing(r, c + 1), k) <==> touches(finishing(r, c), k) || touches(
                    finishing(still_running(r, c), c + 1),
                    k,
                ) by {
                if touches(fd1.push(l), k) {
                    let i = choose|i: int| 0 <= i < fd1.push(l).len() && #[trigger] fd1.push(l)[i].0.results.dom().contains(k);
                    if i < fd1.len() {
                        assert(fd1[i] == fd1.push(l)[i]);
                        assert(touches(fd1, k));
                        if touches(fd, k) {
                            let j = choose|j: int| 0 <= j < fd.len() && #[trigger] fd[j].0.results.dom().contains(k);
                            assert(fd.push(l)[j] == fd[j]);
                        }
                    } else {
                        assert(fd.push(l)[fd.len() as int] == l);
                    }
                }
                if touches(fd.push(l), k) {
                    let i = choose|i: int| 0 <= i < fd.push(l).len() && #[trigger] fd.push(l)[i].0.results.dom().contains(k);
                    if i < fd.len() {
                        assert(fd[i] == fd.push(l)[i]);
                        assert(touches(fd, k));
                        assert(touches(fd1, k));
                        let j = choose|j: int| 0 <= j < fd1.len() && #[trigger] fd1[j].0.results.dom().contains(k);
                        assert(fd1.push(l)[j] == fd1[j]);
                    } else {
                        assert(fd1.push(l)[fd1.len() as int] == l);
                    }
                }
                if touches(gd, k) {
                    assert(touches(fd1, k));
                    let j = choose|j: int| 0 <= j < fd1.len() && #[trigger] fd1[j].0.results.dom().contains(k);
                    assert(fd1.push(l)[j] == fd1[j]);
                }
            }
        } else if l.1 <= c + 1 {
            assert(finishing(r, c + 1) == fd1.push(l));
            assert(finishing(r, c) == fd);
            assert(still_running(r, c) == sd.push(l));
            assert(sd.push(l).drop_last() =~= sd);
            assert(sd.push(l).last() == l);
            assert(finishing(sd.push(l), c + 1) == gd.push(l));
            assert(fd1.push(l).drop_last() =~= fd1);
            assert(gd.push(l).drop_last() =~= gd);
            assert(still_running(sd.push(l), c + 1) == still_running(sd, c + 1));
            assert forall|k: Seq<char>|
                #[trigger] touches(finishing(r, c + 1), k) <==> touches(finishing(r, c), k) || touches(
                    finishing(still_running(r, c), c + 1),
                    k,
                ) by {
                if touches(fd1.push(l), k) {
                    let i = choose|i: int| 0 <= i < fd1.push(l).len() && #[trigger] fd1.push(l)[i].0.results.dom().contains(k);
                    if i < fd1.len() {
                        assert(fd1[i] == fd1.push(l)[i]);
                        assert(touches(fd1, k));
                        if touches(gd, k) {
                            let j = choose|j: int| 0 <= j < gd.len() && #[trigger] gd[j].0.results.dom().contains(k);
                            assert(gd.push(l)[j] == gd[j]);
                        }
                    } else {
                        assert(gd.push(l)[gd.len() as int] == l);
                    }
                }
                if touches(gd.push(l), k) {
                    let i = choose|i: int| 0 <= i < gd.push(l).len() && #[trigger] gd.push(l)[i].0.results.dom().contains(k);
                    if i < gd.len() {
                        assert(gd[i] == gd.push(l)[i]);
                        assert(touches(gd, k));
                        assert(touches(fd1, k));
                        let j = choose|j: int| 0 <= j < fd1.len() && #[trigger] fd1[j].0.results.dom().contains(k);
                        assert(fd1.push(l)[j] == fd1[j]);
                    } else {
                        assert(fd1.push(l)[fd1.len() as int] == l);
                    }
                }
                if touches(fd, k) {
                    assert(touches(fd1, k));
                    let j = choose|j: int| 0 <= j < fd1.len() && #[trigger] fd1[j].0.results.dom().contains(k);
                    assert(fd1.push(l)[j] == fd1[j]);
                }
            }
        } else {
            assert(finishing(r, c + 1) == fd1);
            assert(finishing(r, c) == fd);
            assert(still_running(r, c) == sd.push(l));
            assert(sd.push(l).drop_last() =~= sd);
            assert(sd.push(l).last() == l);
            assert(finishing(sd.push(l), c + 1) == gd);
            assert(still_running(sd.push(l), c + 1) == still_running(sd, c + 1).push(l));
        }
    }
}

/// Adding results never lowers a quantity.
proof fn lemma_produce_each_grows(m: Map<Seq<char>, nat>, done: Seq<(ProcessSpec, nat)>, k: Seq<char>)
    ensures
        qty_of(m, k) <= qty_of(produce_each(m, done), k),
    decreases done.len(),
{
    if done.len() > 0 {
        lemma_produce_each_grows(m, done.drop_last(), k);
        lemma_qty_produced(produce_each(m, done.drop_last()), done.last().0.results, k);
    }
}

/// Adding results in order stays within `usize` exactly when every stock they
/// name ends within `usize`.
proof fn lemma_fits_final(m: Map<Seq<char>, nat>, done: Seq<(ProcessSpec, nat)>)
    ensures
        produce_each_fits(m, done) <==> forall|k: Seq<char>|
            #[trigger] touches(done, k) ==> qty_of(produce_each(m, done), k) <= usize::MAX,
    decreases done.len(),
{
    if done.len() > 0 {
        let d = done.drop_last();
        let x = done.last().0.results;
        let pd = produce_each(m, d);
        lemma_fits_final(m, d);
        assert forall|k: Seq<char>| #[trigger] touches(done, k) <==> touches(d, k) || x.dom().contains(k) by {
            if touches(done, k) {
                let i = choose|i: int| 0 <= i < done.len() && #[trigger] done[i].0.results.dom().contains(k);
                if i < d.len() {
                    assert(d[i] == done[i]);
                }
            }
            if touches(d, k) {
                let i = choose|i: int| 0 <= i < d.len() && #[trigger] d[i].0.results.dom().contains(k);
                assert(done[i] == d[i]);
            }
            if x.dom().contains(k) {
                assert(done[done.len() - 1] == done.last());
            }
        }
        if produce_each_fits(m, done) {
            assert forall|k: Seq<char>| #[trigger] touches(done, k) implies qty_of(produce_each(m, done), k)
                <= usize::MAX by {
                lemma_qty_produced(pd, x, k);
                if !x.dom().contains(k) {
                    assert(touches(d, k));
                }
            }
        }
        if forall|k: Seq<char>| #[trigger] touches(done, k) ==> qty_of(produce_each(m, done), k) <= usize::MAX {
            assert forall|k: Seq<char>| #[trigger] touches(d, k) implies qty_of(pd, k) <= usize::MAX by {
                lemma_qty_produced(pd, x, k);
                assert(touches(done, k));
            }
            assert forall|k: Seq<char>| #[trigger] x.dom().contains(k) implies qty_of(pd, k) + x[k]
                <= usize::MAX by {
                lemma_qty_produced(pd, x, k);
                assert(touches(done, k));
            }
        }
    }
}

/// A cycle later, whether or not what was due now was collected first: the
/// same state, and it fits exactly when both legs fit.
pub proof fn lemma_tick_after_collect(s: StateSpec)
    ensures
        tick(collect_due(s)) == tick(s),
        tick_fits(s) == (collect_fits(s) && tick_fits(collect_due(s))),
{
    let m = s.stocks;
    let r = s.running;
    let c = s.cycle;
    lemma_finishing_split(m, r, c);
    let f = finishing(r, c);
    let g = finishing(still_running(r, c), c + 1);
    let ff = finishing(r, c + 1);
    let pf = produce_each(m, f);
    lemma_fits_final(m, ff);
    lemma_fits_final(m, f);
    lemma_fits_final(pf, g);
    let fin = produce_each(pf, g);
    assert(fin == produce_each(m, ff));
    assert(collect_due(s).stocks == pf);
    assert(finishing(collect_due(s).running, collect_due(s).cycle + 1) == g);
    if produce_each_fits(m, ff) {
        assert forall|k: Seq<char>| #[trigger] touches(f, k) implies qty_of(pf, k) <= usize::MAX by {
            lemma_produce_each_grows(pf, g, k);
            assert(touches(ff, k));
        }
        assert forall|k: Seq<char>| #[trigger] touches(g, k) implies qty_of(fin, k) <= usize::MAX by {
            assert(touches(ff, k));
        }
    }
    if produce_each_fits(m, f) && produce_each_fits(pf, g) {
        assert forall|k: Seq<char>| #[trigger] touches(ff, k) implies qty_of(fin, k) <= usize::MAX by {
            if touches(g, k) {
            } else {
                assert(touches(f, k));
                assert(qty_of(fin, k) == qty_of(pf, k)) by {
                    lemma_untouched_same(pf, g, k);
                }
            }
        }
    }
}

/// A stock that no result of `done` names keeps its quantity.
proof fn lemma_untouched_same(m: Map<Seq<char>, nat>, done: Seq<(ProcessSpec, nat)>, k: Seq<char>)
    requires
        !touches(done, k),
    ensures
        qty_of(produce_each(m, done), k) == qty_of(m, k),
    decreases done.len(),
{
    if done.len() > 0 {
        let d = done.drop_last();
        assert forall|i: int| 0 <= i < d.len() implies !(#[trigger] d[i].0.results.dom().contains(k)) by {
            assert(done[i] == d[i]);
        }
        assert(!done[done.len() - 1].0.results.dom().contains(k));
        lemma_untouched_same(m, d, k);
        lemma_qty_produced(produce_each(m, d), done.last().0.results, k);
    }
}

/// `k` names a stock of the configuration: an initial stock, a need or a result.
pub open spec fn names_stock(c: ConfigSpec, k: Seq<char>) -> bool {
    ||| c.stocks.dom().contains(k)
    ||| exists|j: int| 0 <= j < c.processes.len() && #[trigger] mentions(c.processes[j], k)
}

/// `k` is a need or a result of `p`.
pub open spec fn mentions(p: ProcessSpec, k: Seq<char>) -> bool {
    p.needs.dom().contains(k) || p.results.dom().contains(k)
}

/// Some string of `names` is `k`.
pub open spec fn lists_name(names: Seq<String>, k: Seq<char>) -> bool {
    exists|i: int| 0 <= i < names.len() && #[trigger] names[i]@ == k
}

/// The strings of `names`, as a set.
pub open spec fn name_set(names: Seq<String>) -> Set<Seq<char>> {
    Set::new(|k: Seq<char>| lists_name(names, k))
}

/// No string occurs twice in `names`.
pub open spec fn distinct_names(names: Seq<String>) -> bool {
    forall|i: int, j: int|
        #![trigger names[i], names[j]]
        0 <= i < names.len() && 0 <= j < names.len() && i != j ==> names[i]@ != names[j]@
}

/// The needs and results of the first `j` processes.
pub open spec fn process_stock_names(procs: Seq<ProcessSpec>, j: int) -> Set<Seq<char>>
    decreases j,
{
    if j <= 0 {
        Set::empty()
    } else {
        process_stock_names(procs, j - 1).union(procs[j - 1].needs.dom()).union(
            procs[j - 1].results.dom(),
        )
    }
}

proof fn lemma_process_stock_names(procs: Seq<ProcessSpec>, j: int, k: Seq<char>)
    requires
        0 <= j <= procs.len(),
    ensures
        process_stock_names(procs, j).contains(k) <==> exists|i: int|
            0 <= i < j && #[trigger] mentions(procs[i], k),
    decreases j,
{
    if j > 0 {
        lemma_process_stock_names(procs, j - 1, k);
        if exists|i: int| 0 <= i < j && #[trigger] mentions(procs[i], k) {
            let i = choose|i: int| 0 <= i < j && #[trigger] mentions(procs[i], k);
            if i < j - 1 {
                assert(mentions(procs[i], k));
            }
        }
        if mentions(procs[j - 1], k) {
            assert(exists|i: int| 0 <= i < j && #[trigger] mentions(procs[i], k));
        }
    }
}

/// Adds `name` to `names` unless it is there already.
fn add_name(names: &mut Vec<String>, name: &String)
    requires
        distinct_names(old(names)@),
    ensures
        distinct_names(final(names)@),
        name_set(final(names)@) == name_set(old(names)@).insert(name@),
{
    let n = names.len();
    for i in 0..n
        invariant
            n == names@.len(),
            names@ == old(names)@,
            distinct_names(names@),
            forall|j: int| 0 <= j < i ==> #[trigger] names@[j]@ != name@,
    {
        if names[i] == *name {
            assert(lists_name(names@, name@));
            assert(name_set(names@) =~= name_set(names@).insert(name@));
            return;
        }
    }
    let ghost before = names@;
    names.push(name.clone());
    assert forall|k: Seq<char>| lists_name(names@, k) <==> (lists_name(before, k) || k == name@) by {
        if lists_name(before, k) {
            let i = choose|i: int| 0 <= i < before.len() && #[trigger] before[i]@ == k;
            assert(names@[i] == before[i]);
        }
        if k == name@ {
            assert(names@[n as int]@ == k);
        }
        if lists_name(names@, k) {
            let i = choose|i: int| 0 <= i < names@.len() && #[trigger] names@[i]@ == k;
            if i < n {
                assert(names@[i] == before[i]);
            }
        }
    }
    assert forall|k: Seq<char>| #[trigger] name_set(names@).contains(k) == name_set(before).insert(name@).contains(k) by {
        assert(name_set(names@).contains(k) == lists_name(names@, k));
        assert(name_set(before).contains(k) == lists_name(before, k));
    }
    assert(name_set(names@) =~= name_set(before).insert(name@));
    assert forall|i: int, j: int|
        0 <= i < names@.len() && 0 <= j < names@.len() && i != j implies #[trigger] names@[i]@
        != #[trigger] names@[j]@ by {
        if i < n && j < n {
            assert(names@[i] == before[i] && names@[j] == before[j]);
        } else if i < n {
            assert(names@[i] == before[i]);
        } else {
            assert(names@[j] == before[j]);
        }
    }
}

/// Adds every name of `map` to `names`.
fn add_keys(names: &mut Vec<String>, map: &StockMap)
    requires
        distinct_names(old(names)@),
        map.wf(),
    ensures
        distinct_names(final(names)@),
        name_set(final(names)@) == name_set(old(names)@).union(map@.dom()),
{
    proof {
        map.lemma_keys();
    }
    let ghost ks = map.keys();
    let n = map.len();
    assert(ks.take(0).to_set() =~= Set::<Seq<char>>::empty());
    assert(name_set(names@).union(Set::<Seq<char>>::empty()) =~= name_set(names@));
    for i in 0..n
        invariant
            n == ks.len(),
            ks == map.keys(),
            map.wf(),
            distinct_names(names@),
            name_set(names@) == name_set(old(names)@).union(ks.take(i as int).to_set()),
    {
        let (name, _) = map.entry(i);
        add_name(names, name);
        assert(ks.take(i + 1) =~= ks.take(i as int).push(ks[i as int]));
        assert(ks.take(i + 1).to_set() =~= ks.take(i as int).to_set().insert(ks[i as int])) by {
            assert forall|k: Seq<char>| #[trigger] ks.take(i + 1).to_set().contains(k) == ks.take(i as int).to_set().insert(ks[i as int]).contains(k) by {
                if ks.take(i + 1).contains(k) {
                    let j = choose|j: int| 0 <= j < i + 1 && #[trigger] ks.take(i + 1)[j] == k;
                    if j < i {
                        assert(ks.take(i as int)[j] == k);
                    }
                }
                if ks.take(i as int).contains(k) {
                    let j = choose|j: int| 0 <= j < i && #[trigger] ks.take(i as int)[j] == k;
                    assert(ks.take(i + 1)[j] == k);
                }
                if k == ks[i as int] {
                    assert(ks.take(i + 1)[i as int] == k);
                }
                assert(ks.take(i + 1).to_set().contains(k) == ks.take(i + 1).contains(k));
                assert(ks.take(i as int).to_set().contains(k) == ks.take(i as int).contains(k));
            }
        }
        assert(name_set(names@) =~= name_set(old(names)@).union(ks.take(i + 1).to_set()));
    }
    proof {
        map.lemma_keys();
        assert(ks.take(n as int) =~= ks);
        assert(ks.to_set() =~= map@.dom());
    }
}

/// Every stock name of the configuration, once each: the initial stocks and
/// the needs and results of every process.
pub fn get_all_stock_names(config: &Config) -> (names: Vec<String>)
    requires
        config.wf(),
    ensures
        distinct_names(names@),
        forall|k: Seq<char>| lists_name(names@, k) <==> names_stock(config@, k),
{
    let mut names: Vec<String> = Vec::new();
    assert(name_set(names@) =~= Set::<Seq<char>>::empty());
    add_keys(&mut names, &config.stocks);
    let ghost pv = config@.processes;
    let n = config.processes.len();
    assert(config@.stocks.dom().union(process_stock_names(pv, 0)) =~= config@.stocks.dom());
    assert(Set::<Seq<char>>::empty().union(config@.stocks.dom()) =~= config@.stocks.dom());
    for j in 0..n
        invariant
            n == config.processes@.len(),
            pv == config@.processes,
            config.wf(),
            distinct_names(names@),
            name_set(names@) == config@.stocks.dom().union(process_stock_names(pv, j as int)),
    {
        assert(config.processes@[j as int].wf());
        assert(pv[j as int] == config.processes@[j as int]@);
        add_keys(&mut names, &config.processes[j].needs);
        add_keys(&mut names, &config.processes[j].results);
        assert(name_set(names@) =~= config@.stocks.dom().union(process_stock_names(pv, j + 1)));
    }
    assert forall|k: Seq<char>| lists_name(names@, k) <==> names_stock(config@, k) by {
        lemma_process_stock_names(pv, n as int, k);
        assert(name_set(names@).contains(k) == lists_name(names@, k));
    }
    names
}

/// The strings of `names` are in strictly increasing order.
pub open spec fn strictly_sorted(names: Seq<String>) -> bool {
    forall|i: int, j: int|
        #![trigger names[i], names[j]]
        0 <= i < j < names.len() ==> seq_less(names[i]@, names[j]@)
}

/// The distinct `names` in increasing order, as `sort` on a `Vec<String>`
/// orders them.
fn sort_names(names: &[String]) -> (out: Vec<String>)
    requires
        distinct_names(names@),
    ensures
        out@.len() == names@.len(),
        strictly_sorted(out@),
        name_set(out@) == name_set(names@),
{
    let mut out: Vec<String> = Vec::new();
    let mut keys: Vec<Vec<char>> = Vec::new();
    let n = names.len();
    assert(name_set(out@) =~= name_set(names@.take(0)));
    for i in 0..n
        invariant
            n == names@.len(),
            distinct_names(names@),
            out@.len() == i,
            keys@.len() == i,
            forall|j: int| 0 <= j < i ==> #[trigger] keys@[j]@ == out@[j]@,
            strictly_sorted(out@),
            name_set(out@) == name_set(names@.take(i as int)),
    {
        let x = names[i].clone();
        let xk = chars_of(x.as_str());
        assert(!lists_name(out@, x@)) by {
            if lists_name(out@, x@) {
                assert(name_set(out@).contains(x@));
                assert(name_set(names@.take(i as int)).contains(x@));
                assert(lists_name(names@.take(i as int), x@));
                let j = choose|j: int| 0 <= j < i && #[trigger] names@.take(i as int)[j]@ == x@;
                assert(names@[j] == names@.take(i as int)[j]);
                assert(names@[i as int]@ == x@);
            }
        }
        let mut p: usize = 0;
        while p < out.len() && !chars_less(xk.as_slice(), keys[p].as_slice())
            invariant
                p <= out@.len(),
                out@.len() == keys@.len(),
                forall|j: int| 0 <= j < out@.len() ==> #[trigger] keys@[j]@ == out@[j]@,
                xk@ == x@,
                !lists_name(out@, x@),
                strictly_sorted(out@),
                forall|j: int| 0 <= j < p ==> seq_less(#[trigger] out@[j]@, x@),
            decreases out@.len() - p,
        {
            assert(keys@[p as int]@ == out@[p as int]@);
            assert(out@[p as int]@ != x@);
            proof {
                lemma_seq_less_total(x@, out@[p as int]@);
            }
            p = p + 1;
        }
        proof {
            if p < out@.len() {
                assert(keys@[p as int]@ == out@[p as int]@);
                assert forall|j: int| p <= j < out@.len() implies seq_less(x@, #[trigger] out@[j]@) by {
                    if j > p {
                        lemma_seq_less_transitive(x@, out@[p as int]@, out@[j]@);
                    }
                }
            }
        }
        let ghost before = out@;
        let ghost before_keys = keys@;
        out.insert(p, x);
        keys.insert(p, xk);
        assert(out@ == before.insert(p as int, names@[i as int]));
        assert forall|j: int| 0 <= j < i + 1 implies #[trigger] keys@[j]@ == out@[j]@ by {
            if j < p {
                assert(keys@[j] == before_keys[j] && out@[j] == before[j]);
            } else if j > p {
                assert(keys@[j] == before_keys[j - 1] && out@[j] == before[j - 1]);
            }
        }
        assert forall|a: int, b: int| 0 <= a < b < out@.len() implies seq_less(#[trigger] out@[a]@, #[trigger] out@[b]@) by {
            let a2 = if a < p { a } else { a - 1 };
            let b2 = if b < p { b } else { b - 1 };
            if a != p && b != p {
                assert(out@[a] == before[a2] && out@[b] == before[b2]);
            } else if a == p {
                assert(out@[b] == before[b2]);
            } else {
                assert(out@[a] == before[a2]);
            }
        }
        assert forall|k: Seq<char>| #[trigger] name_set(out@).contains(k) == name_set(names@.take(i + 1)).contains(k) by {
            assert(names@.take(i + 1) =~= names@.take(i as int).push(names@[i as int]));
            assert(name_set(out@).contains(k) == lists_name(out@, k));
            assert(name_set(before).contains(k) == lists_name(before, k));
            assert(name_set(names@.take(i as int)).contains(k) == lists_name(names@.take(i as int), k));
            assert(name_set(names@.take(i + 1)).contains(k) == lists_name(names@.take(i + 1), k));
            if lists_name(out@, k) {
                let j = choose|j: int| 0 <= j < out@.len() && #[trigger] out@[j]@ == k;
                if j < p {
                    assert(out@[j] == before[j]);
                    assert(lists_name(before, k));
                    let j2 = choose|j2: int| 0 <= j2 < i && #[trigger] names@.take(i as int)[j2]@ == k;
                    assert(names@.take(i + 1)[j2] == names@.take(i as int)[j2]);
                } else if j > p {
                    assert(out@[j] == before[j - 1]);
                    assert(lists_name(before, k));
                    let j2 = choose|j2: int| 0 <= j2 < i && #[trigger] names@.take(i as int)[j2]@ == k;
                    assert(names@.take(i + 1)[j2] == names@.take(i as int)[j2]);
                } else {
                    assert(names@.take(i + 1)[i as int]@ == k);
                }
            }
            if lists_name(names@.take(i + 1), k) {
                let j = choose|j: int| 0 <= j < i + 1 && #[trigger] names@.take(i + 1)[j]@ == k;
                if j < i {
                    assert(names@.take(i as int)[j] == names@.take(i + 1)[j]);
                    assert(lists_name(names@.take(i as int), k));
                    let j2 = choose|j2: int| 0 <= j2 < before.len() && #[trigger] before[j2]@ == k;
                    if j2 < p {
                        assert(out@[j2] == before[j2]);
                    } else {
                        assert(out@[j2 + 1] == before[j2]);
                    }
                } else {
                    assert(out@[p as int]@ == k);
                }
            }
        }
        assert(name_set(out@) =~= name_set(names@.take(i + 1)));
    }
    assert(names@.take(n as int) =~= names@);
    out
}

/// `x` placed into `s` just before the first entry that it comes before by
/// code points (at the end where there is none).
pub open spec fn insert_sorted(x: Seq<char>, s: Seq<Seq<char>>) -> Seq<Seq<char>>
    decreases s.len(),
{
    if s.len() == 0 {
        seq![x]
    } else if seq_less(x, s[0]) {
        seq![x] + s
    } else {
        seq![s[0]] + insert_sorted(x, s.skip(1))
    }
}

/// `names` in increasing order of code points, equal names kept, as `sort` on
/// a `Vec<String>` orders them.
pub open spec fn sorted_names(names: Seq<Seq<char>>) -> Seq<Seq<char>>
    decreases names.len(),
{
    if names.len() == 0 {
        Seq::empty()
    } else {
        insert_sorted(names.last(), sorted_names(names.drop_last()))
    }
}

/// Placing `x` at position `p`, after every entry it does not come before and
/// before the first one it does, is `insert_sorted`.
proof fn lemma_insert_sorted_at(x: Seq<char>, s: Seq<Seq<char>>, p: int)
    requires
        0 <= p <= s.len(),
        forall|j: int| 0 <= j < p ==> !seq_less(x, #[trigger] s[j]),
        p < s.len() ==> seq_less(x, s[p]),
    ensures
        insert_sorted(x, s) == s.insert(p, x),
    decreases s.len(),
{
    if s.len() == 0 {
        assert(s.insert(p, x) =~= seq![x]);
    } else if p == 0 {
        assert(s.insert(p, x) =~= seq![x] + s);
    } else {
        let t = s.skip(1);
        assert forall|j: int| 0 <= j < p - 1 implies !seq_less(x, #[trigger] t[j]) by {
            assert(t[j] == s[j + 1]);
        }
        if p < s.len() {
            assert(t[p - 1] == s[p]);
        }
        lemma_insert_sorted_at(x, t, p - 1);
        assert(!seq_less(x, s[0]));
        assert(s.insert(p, x) =~= seq![s[0]] + t.insert(p - 1, x));
    }
}

/// No entry of `s` comes before an earlier one.
pub open spec fn nondecreasing(s: Seq<Seq<char>>) -> bool {
    forall|i: int, j: int| #![trigger s[i], s[j]] 0 <= i < j < s.len() ==> !seq_less(s[j], s[i])
}

proof fn lemma_insert_sorted_members(x: Seq<char>, s: Seq<Seq<char>>)
    ensures
        insert_sorted(x, s).len() == s.len() + 1,
        forall|i: int|
            0 <= i < insert_sorted(x, s).len() ==> #[trigger] insert_sorted(x, s)[i] == x
                || s.contains(insert_sorted(x, s)[i]),
    decreases s.len(),
{
    if s.len() > 0 && !seq_less(x, s[0]) {
        let t = s.skip(1);
        lemma_insert_sorted_members(x, t);
        assert forall|i: int| 0 <= i < insert_sorted(x, s).len() implies #[trigger] insert_sorted(x, s)[i]
            == x || s.contains(insert_sorted(x, s)[i]) by {
            if i == 0 {
                assert(s[0] == insert_sorted(x, s)[0]);
            } else {
                assert(insert_sorted(x, s)[i] == insert_sorted(x, t)[i - 1]);
                if insert_sorted(x, t)[i - 1] != x {
                    let j = choose|j: int| 0 <= j < t.len() && t[j] == insert_sorted(x, t)[i - 1];
                    assert(s[j + 1] == t[j]);
                }
            }
        }
    } else if s.len() > 0 {
        assert forall|i: int| 0 <= i < insert_sorted(x, s).len() implies #[trigger] insert_sorted(x, s)[i]
            == x || s.contains(insert_sorted(x, s)[i]) by {
            if i > 0 {
                assert(insert_sorted(x, s)[i] == s[i - 1]);
            }
        }
    }
}

proof fn lemma_insert_sorted_sorted(x: Seq<char>, s: Seq<Seq<char>>)
    requires
        nondecreasing(s),
    ensures
        nondecreasing(insert_sorted(x, s)),
    decreases s.len(),
{
    lemma_insert_sorted_members(x, s);
    let r = insert_sorted(x, s);
    if s.len() == 0 {
    } else if seq_less(x, s[0]) {
        assert forall|i: int, j: int| 0 <= i < j < r.len() implies !seq_less(#[trigger] r[j], #[trigger] r[i]) by {
            assert(r[j] == s[j - 1]);
            if i == 0 {
                if seq_less(s[j - 1], x) {
                    lemma_seq_less_transitive(s[j - 1], x, s[0]);
                    if j - 1 > 0 {
                        assert(!seq_less(s[j - 1], s[0]));
                    } else {
                        lemma_seq_less_irreflexive(s[0]);
                    }
                }
            } else {
                assert(r[i] == s[i - 1]);
            }
        }
    } else {
        let t = s.skip(1);
        assert forall|i: int, j: int| 0 <= i < j < t.len() implies !seq_less(#[trigger] t[j], #[trigger] t[i]) by {
            assert(t[i] == s[i + 1] && t[j] == s[j + 1]);
        }
        lemma_insert_sorted_sorted(x, t);
        lemma_insert_sorted_members(x, t);
        assert forall|i: int, j: int| 0 <= i < j < r.len() implies !seq_less(#[trigger] r[j], #[trigger] r[i]) by {
            assert(r[j] == insert_sorted(x, t)[j - 1]);
            if i == 0 {
                assert(r[0] == s[0]);
                if insert_sorted(x, t)[j - 1] != x {
                    let m = choose|m: int| 0 <= m < t.len() && t[m] == insert_sorted(x, t)[j - 1];
                    assert(s[m + 1] == t[m]);
                }
            } else {
                assert(r[i] == insert_sorted(x, t)[i - 1]);
            }
        }
    }
}

proof fn lemma_insert_sorted_multiset(x: Seq<char>, s: Seq<Seq<char>>)
    ensures
        insert_sorted(x, s).to_multiset() =~= s.to_multiset().insert(x),
    decreases s.len(),
{
    broadcast use vstd::seq_lib::group_to_multiset_ensures;
    broadcast use vstd::multiset::group_multiset_axioms;

    if s.len() == 0 {
        assert(seq![x] =~= Seq::<Seq<char>>::empty().push(x));
        assert(s =~= Seq::<Seq<char>>::empty());
    } else if seq_less(x, s[0]) {
        vstd::seq_lib::lemma_multiset_commutative(seq![x], s);
        assert(seq![x] =~= Seq::<Seq<char>>::empty().push(x));
    } else {
        let t = s.skip(1);
        lemma_insert_sorted_multiset(x, t);
        let h = seq![s[0]];
        assert(h =~= Seq::<Seq<char>>::empty().push(s[0]));
        assert(s =~= h + t);
        vstd::seq_lib::lemma_multiset_commutative(h, t);
        vstd::seq_lib::lemma_multiset_commutative(h, insert_sorted(x, t));
    }
}

/// Law: sorting keeps every name exactly as often as it occurs.
pub proof fn lemma_sorted_names_permutation(names: Seq<Seq<char>>)
    ensures
        sorted_names(names).to_multiset() =~= names.to_multiset(),
    decreases names.len(),
{
    broadcast use vstd::seq_lib::group_to_multiset_ensures;

    if names.len() == 0 {
        assert(names =~= Seq::<Seq<char>>::empty());
    } else {
        lemma_sorted_names_permutation(names.drop_last());
        lemma_insert_sorted_multiset(names.last(), sorted_names(names.drop_last()));
        assert(names =~= names.drop_last().push(names.last()));
    }
}

/// Law: `sorted_names` lists the names in increasing order of code points
/// (equal names side by side), as many as there are.
pub proof fn lemma_sorted_names_sorted(names: Seq<Seq<char>>)
    ensures
        nondecreasing(sorted_names(names)),
        sorted_names(names).len() == names.len(),
    decreases names.len(),
{
    if names.len() > 0 {
        lemma_sorted_names_sorted(names.drop_last());
        lemma_insert_sorted_sorted(names.last(), sorted_names(names.drop_last()));
        lemma_insert_sorted_members(names.last(), sorted_names(names.drop_last()));
    }
}

/// A copy of `names` in increasing order of code points, equal names kept.
pub fn sort_all_names(names: &[String]) -> (out: Vec<String>)
    ensures
        lines_view(out@) == sorted_names(lines_view(names@)),
{
    let mut out: Vec<String> = Vec::new();
    let mut keys: Vec<Vec<char>> = Vec::new();
    let n = names.len();
    let ghost nv = lines_view(names@);
    assert(lines_view(out@) =~= sorted_names(nv.take(0)));
    for i in 0..n
        invariant
            n == names@.len(),
            nv == lines_view(names@),
            out@.len() == keys@.len(),
            forall|j: int| 0 <= j < out@.len() ==> #[trigger] keys@[j]@ == out@[j]@,
            lines_view(out@) == sorted_names(nv.take(i as int)),
    {
        let x = names[i].clone();
        let xk = chars_of(x.as_str());
        let mut p: usize = 0;
        while p < out.len() && !chars_less(xk.as_slice(), keys[p].as_slice())
            invariant
                p <= out@.len(),
                out@.len() == keys@.len(),
                forall|j: int| 0 <= j < out@.len() ==> #[trigger] keys@[j]@ == out@[j]@,
                xk@ == x@,
                forall|j: int| 0 <= j < p ==> !seq_less(x@, #[trigger] out@[j]@),
            decreases out@.len() - p,
        {
            assert(keys@[p as int]@ == out@[p as int]@);
            p = p + 1;
        }
        let ghost before = out@;
        let ghost before_keys = keys@;
        let ghost bv = lines_view(before);
        proof {
            if p < out@.len() {
                assert(keys@[p as int]@ == out@[p as int]@);
            }
            assert forall|j: int| 0 <= j < p implies !seq_less(x@, #[trigger] bv[j]) by {
                assert(bv[j] == before[j]@);
            }
            lemma_insert_sorted_at(x@, bv, p as int);
            assert(x@ == nv[i as int]);
            assert(nv.take(i + 1).drop_last() =~= nv.take(i as int));
            assert(nv.take(i + 1).last() == nv[i as int]);
        }
        out.insert(p, x);
        keys.insert(p, xk);
        assert forall|j: int| 0 <= j < out@.len() implies #[trigger] keys@[j]@ == out@[j]@ by {
            if j < p {
                assert(keys@[j] == before_keys[j] && out@[j] == before[j]);
            } else if j > p {
                assert(keys@[j] == before_keys[j - 1] && out@[j] == before[j - 1]);
            }
        }
        assert(lines_view(out@) =~= bv.insert(p as int, x@));
    }
    assert(nv.take(n as int) =~= nv);
    out
}

/// The report of a final state: the history under a heading, the cycle after
/// the last one, and the quantity of each of `names` (0 where absent).
pub open spec fn report_spec(s: StateSpec, names: Seq<Seq<char>>) -> Seq<Seq<char>> {
    seq!["Main Processes :"@] + s.history.map_values(|l: Seq<char>| " "@ + l) + seq![
        "No more process doable at cycle "@ + decimal(s.cycle + 1),
        "Stock :"@,
    ] + names.map_values(|nm: Seq<char>| " "@ + nm + " => "@ + decimal(qty_of(s.stocks, nm)))
}

/// Law: the report is, line by line, the heading, the history entries in the
/// order in which the processes started (each after a space), the line of
/// the cycle after the last one, the stock heading, and one line per name of
/// `names`, in the order given, with its quantity (0 where absent).
pub proof fn lemma_report_lines(s: StateSpec, names: Seq<Seq<char>>)
    ensures
        report_spec(s, names).len() == s.history.len() + 3 + names.len(),
        report_spec(s, names)[0] == "Main Processes :"@,
        forall|k: int|
            0 <= k < s.history.len() ==> report_spec(s, names)[k + 1] == " "@ + #[trigger] s.history[k],
        report_spec(s, names)[s.history.len() as int + 1] == "No more process doable at cycle "@ + decimal(
            s.cycle + 1,
        ),
        report_spec(s, names)[s.history.len() as int + 2] == "Stock :"@,
        forall|i: int|
            0 <= i < names.len() ==> report_spec(s, names)[s.history.len() as int + 3 + i] == " "@
                + #[trigger] names[i] + " => "@ + decimal(qty_of(s.stocks, names[i])),
{
    let r = report_spec(s, names);
    let h = s.history.len() as int;
    let a = seq!["Main Processes :"@];
    let b = s.history.map_values(|l: Seq<char>| " "@ + l);
    let c = seq!["No more process doable at cycle "@ + decimal(s.cycle + 1), "Stock :"@];
    let d = names.map_values(|nm: Seq<char>| " "@ + nm + " => "@ + decimal(qty_of(s.stocks, nm)));
    assert(r == a + b + c + d);
    assert forall|k: int| 0 <= k < h implies r[k + 1] == " "@ + #[trigger] s.history[k] by {
        assert(r[k + 1] == b[k]);
    }
    assert(r[h + 1] == c[0]);
    assert(r[h + 2] == c[1]);
    assert forall|i: int| 0 <= i < names.len() implies r[h + 3 + i] == " "@ + #[trigger] names[i] + " => "@
        + decimal(qty_of(s.stocks, names[i])) by {
        assert(r[h + 3 + i] == d[i]);
    }
}

/// The models of a list of strings.
pub open spec fn lines_view(v: Seq<String>) -> Seq<Seq<char>> {
    v.map_values(|l: String| l@)
}

impl State {
    /// The lines of the final report, with the stocks of `names` listed in
    /// increasing order of code points.
    pub fn report(&self, names: &[String]) -> (lines: Vec<String>)
        requires
            self.wf(),
            self.curr_cycle < usize::MAX,
        ensures
            lines_view(lines@) == report_spec(self@, sorted_names(lines_view(names@))),
            lines@.len() == self.history@.len() + 3 + names@.len(),
            lines@[0]@ == "Main Processes :"@,
            forall|k: int|
                0 <= k < self.history@.len() ==> lines@[k + 1]@ == " "@ + (#[trigger] self.history@[k])@,
            lines@[self.history@.len() as int + 1]@ == "No more process doable at cycle "@ + decimal(
                (self.curr_cycle + 1) as nat,
            ),
            lines@[self.history@.len() as int + 2]@ == "Stock :"@,
            forall|i: int|
                0 <= i < names@.len() ==> lines@[self.history@.len() + 3 + i]@ == " "@ + #[trigger] sorted_names(
                    lines_view(names@),
                )[i] + " => "@ + decimal(qty_of(self@.stocks, sorted_names(lines_view(names@))[i])),
    {
        let ghost spec = report_spec(self@, sorted_names(lines_view(names@)));
        let mut lines: Vec<String> = Vec::new();
        lines.push(String::from_str("Main Processes :"));
        let h = self.history.len();
        for i in 0..h
            invariant
                h == self.history@.len(),
                lines_view(lines@) == seq!["Main Processes :"@] + self@.history.take(i as int).map_values(
                    |l: Seq<char>| " "@ + l,
                ),
        {
            let mut l = String::from_str(" ");
            l.append(self.history[i].as_str());
            let ghost before = lines_view(lines@);
            lines.push(l);
            assert(self@.history.take(i + 1) =~= self@.history.take(i as int).push(self.history@[i as int]@));
            assert(lines_view(lines@) =~= before.push(" "@ + self.history@[i as int]@));
            assert(seq!["Main Processes :"@] + self@.history.take(i + 1).map_values(|l: Seq<char>| " "@ + l)
                =~= before.push(" "@ + self.history@[i as int]@));
        }
        assert(self@.history.take(h as int) =~= self@.history);
        let mut cycle_line = String::from_str("No more process doable at cycle ");
        let next = decimal_string(self.curr_cycle + 1);
        cycle_line.append(next.as_str());
        lines.push(cycle_line);
        lines.push(String::from_str("Stock :"));
        let sorted = sort_all_names(names);
        let ghost head = lines_view(lines@);
        let n = sorted.len();
        for i in 0..n
            invariant
                n == sorted@.len(),
                self.wf(),
                lines_view(lines@) == head + lines_view(sorted@).take(i as int).map_values(
                    |nm: Seq<char>| " "@ + nm + " => "@ + decimal(qty_of(self@.stocks, nm)),
                ),
        {
            let qty = self.stocks.get_or_zero(&sorted[i]);
            let mut l = String::from_str(" ");
            l.append(sorted[i].as_str());
            l.append(" => ");
            let q = decimal_string(qty);
            l.append(q.as_str());
            let ghost before = lines_view(lines@);
            lines.push(l);
            assert(lines_view(sorted@).take(i + 1) =~= lines_view(sorted@).take(i as int).push(sorted@[i as int]@));
            assert(lines_view(lines@) =~= before.push(
                " "@ + sorted@[i as int]@ + " => "@ + decimal(qty_of(self@.stocks, sorted@[i as int]@)),
            ));
        }
        assert(lines_view(sorted@).take(n as int) =~= lines_view(sorted@));
        assert(lines_view(lines@) =~= spec);
        proof {
            lemma_report_lines(self@, sorted_names(lines_view(names@)));
            lemma_sorted_names_sorted(lines_view(names@));
            assert forall|k: int| 0 <= k < self.history@.len() implies lines@[k + 1]@ == " "@ + (
            #[trigger] self.history@[k])@ by {
                assert(lines_view(lines@)[k + 1] == lines@[k + 1]@);
                assert(self@.history[k] == self.history@[k]@);
            }
            assert(lines_view(lines@)[0] == lines@[0]@);
            assert(lines_view(lines@)[self.history@.len() as int + 1] == lines@[self.history@.len() as int + 1]@);
            assert(lines_view(lines@)[self.history@.len() as int + 2] == lines@[self.history@.len() as int + 2]@);
            assert forall|i: int| 0 <= i < names@.len() implies lines@[self.history@.len() + 3 + i]@ == " "@
                + #[trigger] sorted_names(lines_view(names@))[i] + " => "@ + decimal(
                qty_of(self@.stocks, sorted_names(lines_view(names@))[i]),
            ) by {
                assert(lines_view(lines@)[self.history@.len() + 3 + i] == lines@[self.history@.len() + 3 + i]@);
            }
        }
        lines
    }
}

/// Every stock name of the configuration, once each, in increasing order.
pub fn sorted_stock_names(config: &Config) -> (names: Vec<String>)
    requires
        config.wf(),
    ensures
        strictly_sorted(names@),
        forall|k: Seq<char>| lists_name(names@, k) <==> names_stock(config@, k),
{
    let all = get_all_stock_names(config);
    let sorted = sort_names(all.as_slice());
    assert forall|k: Seq<char>| lists_name(sorted@, k) <==> names_stock(config@, k) by {
        assert(name_set(sorted@).contains(k) == lists_name(sorted@, k));
        assert(name_set(all@).contains(k) == lists_name(all@, k));
    }
    sorted
}

} // verus!
