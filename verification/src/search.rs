//! Legal moves of a simulation, the states they reach, and the deadline-bounded
//! search for the best complete schedule.

use vstd::prelude::*;
use crate::stock_map::{covers, StockMap};
use crate::parser::{Config, ConfigSpec, Process, ProcessSpec};
use crate::simulator::{
    State, find_process, lemma_find_named, tick, lemma_still_running_subset, StateSpec, find_named, started, advance_fits, advanced, settled, finish_all_fits,
    finished_all, lemma_drain_enough, lemma_min_finish, lemma_advance_to_min, min_finish, better,
    lemma_better_transitive, lemma_better_irreflexive, lemma_better_asymmetric, lemma_better_split, procs_view, all_wf, targets_view, history_entry, lemma_advanced_basics,
    lemma_drain_history, lemma_advance_collects, lemma_collect_settled,
};
use crate::clock::{Deadline, DURATION_MAX_NANOS};
use crate::replay::{
    replay, history_of, replays_to, tight_from, lemma_advance_compose, lemma_advanced_subset,
    lemma_tight_finish, lemma_finish_as_advance, lemma_replays_chain,
};

verus! {

/// One legal step of a simulation.
pub enum Move {
    /// Start the first process with this name at the current cycle.
    Start(Seq<char>),
    /// Advance the clock to this cycle.
    Advance(nat),
}

/// The state after move `m`, or `None` where `m` is refused, would exceed
/// `usize` (a finish cycle or a stock quantity), or starts a process that runs
/// for zero cycles (it would never finish).
pub open spec fn apply_move(s: StateSpec, procs: Seq<ProcessSpec>, m: Move) -> Option<StateSpec> {
    match m {
        Move::Start(name) => match find_named(procs, name) {
            Some(i) => if i < procs.len() && covers(s.stocks, procs[i as int].needs) && procs[i as int].delay
                >= 1 && s.cycle + procs[i as int].delay <= usize::MAX {
                Some(started(s, procs[i as int]))
            } else {
                None
            },
            None => None,
        },
        Move::Advance(c) => if s.cycle <= c && c <= usize::MAX && advance_fits(s, c) {
            Some(advanced(s, c))
        } else {
            None
        },
    }
}

/// A legal move from a settled state leaves a settled state.
pub proof fn lemma_apply_move_settled(s: StateSpec, procs: Seq<ProcessSpec>, m: Move)
    requires
        settled(s),
        apply_move(s, procs, m) is Some,
    ensures
        settled(apply_move(s, procs, m)->0),
{
    match m {
        Move::Start(name) => {
            let i = find_named(procs, name)->0;
            let t = started(s, procs[i as int]);
            assert forall|k: int| 0 <= k < t.running.len() implies #[trigger] t.running[k].1 > t.cycle by {
                if k < s.running.len() {
                    assert(t.running[k] == s.running[k]);
                }
            }
        },
        Move::Advance(c) => {
            lemma_advance_collects(s, c);
        },
    }
}

/// The state after the moves `ms` in order, `None` where one is refused.
pub open spec fn run_moves(s: StateSpec, procs: Seq<ProcessSpec>, ms: Seq<Move>) -> Option<
    StateSpec,
>
    decreases ms.len(),
{
    if ms.len() == 0 {
        Some(s)
    } else {
        match run_moves(s, procs, ms.drop_last()) {
            Some(t) => apply_move(t, procs, ms.last()),
            None => None,
        }
    }
}

/// `t` is reached from `s` by legal moves.
pub open spec fn reachable(s: StateSpec, procs: Seq<ProcessSpec>, t: StateSpec) -> bool {
    exists|ms: Seq<Move>| run_moves(s, procs, ms) == Some(t)
}

/// `t` is a complete schedule from `s`: reached by legal moves, nothing running.
pub open spec fn complete_outcome(s: StateSpec, procs: Seq<ProcessSpec>, t: StateSpec) -> bool {
    reachable(s, procs, t) && t.running.len() == 0
}

/// The clock and every finish cycle fit in `usize`.
pub open spec fn cycles_fit(s: StateSpec) -> bool {
    &&& s.cycle <= usize::MAX
    &&& forall|i: int| 0 <= i < s.running.len() ==> #[trigger] s.running[i].1 <= usize::MAX
}

/// The model of an executable state has its cycles within `usize`.
pub proof fn lemma_state_cycles_fit(st: &State)
    ensures
        cycles_fit(st@),
{
    assert forall|i: int| 0 <= i < st@.running.len() implies #[trigger] st@.running[i].1 <= usize::MAX by {
        assert(st@.running[i] == st.running@[i]@);
    }
}

pub proof fn lemma_reachable_refl(s: StateSpec, procs: Seq<ProcessSpec>)
    ensures
        reachable(s, procs, s),
{
    assert(run_moves(s, procs, Seq::<Move>::empty()) == Some(s));
}

pub proof fn lemma_reachable_step(
    s: StateSpec,
    procs: Seq<ProcessSpec>,
    t: StateSpec,
    m: Move,
    u: StateSpec,
)
    requires
        reachable(s, procs, t),
        apply_move(t, procs, m) == Some(u),
    ensures
        reachable(s, procs, u),
{
    let ms = choose|ms: Seq<Move>| run_moves(s, procs, ms) == Some(t);
    assert(ms.push(m).drop_last() =~= ms);
    assert(run_moves(s, procs, ms.push(m)) == Some(u));
}

proof fn lemma_run_moves_append(
    s: StateSpec,
    procs: Seq<ProcessSpec>,
    ms1: Seq<Move>,
    t: StateSpec,
    ms2: Seq<Move>,
)
    requires
        run_moves(s, procs, ms1) == Some(t),
    ensures
        run_moves(s, procs, ms1 + ms2) == run_moves(t, procs, ms2),
    decreases ms2.len(),
{
    if ms2.len() == 0 {
        assert(ms1 + ms2 =~= ms1);
    } else {
        lemma_run_moves_append(s, procs, ms1, t, ms2.drop_last());
        assert((ms1 + ms2).drop_last() =~= ms1 + ms2.drop_last());
        assert((ms1 + ms2).last() == ms2.last());
    }
}

/// Reachability composes.
pub proof fn lemma_reachable_trans(
    a: StateSpec,
    procs: Seq<ProcessSpec>,
    b: StateSpec,
    c: StateSpec,
)
    requires
        reachable(a, procs, b),
        reachable(b, procs, c),
    ensures
        reachable(a, procs, c),
{
    let ms1 = choose|ms: Seq<Move>| run_moves(a, procs, ms) == Some(b);
    let ms2 = choose|ms: Seq<Move>| run_moves(b, procs, ms) == Some(c);
    lemma_run_moves_append(a, procs, ms1, b, ms2);
}

/// Advancing to a cycle within `usize` keeps the cycles within `usize`.
pub proof fn lemma_advance_cycles_fit(s: StateSpec, c: nat)
    requires
        cycles_fit(s),
        c <= usize::MAX,
    ensures
        cycles_fit(advanced(s, c)),
    decreases c - s.cycle,
{
    if s.cycle < c {
        let t = tick(s);
        lemma_still_running_subset(s.running, s.cycle + 1);
        assert forall|i: int| 0 <= i < t.running.len() implies #[trigger] t.running[i].1 <= usize::MAX by {
            let j = choose|j: int| 0 <= j < s.running.len() && s.running[j] == t.running[i];
            assert(s.running[j].1 <= usize::MAX);
        }
        lemma_advance_cycles_fit(t, c);
    } else if s.cycle == c {
        lemma_still_running_subset(s.running, s.cycle);
        let t = advanced(s, c);
        assert forall|i: int| 0 <= i < t.running.len() implies #[trigger] t.running[i].1 <= usize::MAX by {
            let j = choose|j: int| 0 <= j < s.running.len() && s.running[j] == t.running[i];
            assert(s.running[j].1 <= usize::MAX);
        }
    }
}

/// Finishing every running process of a settled state is a sequence of legal
/// advances, and leaves nothing running.
pub proof fn lemma_finish_all_reachable(s: StateSpec, procs: Seq<ProcessSpec>)
    requires
        settled(s),
        cycles_fit(s),
        finish_all_fits(s),
    ensures
        reachable(s, procs, finished_all(s)),
        finished_all(s).running.len() == 0,
    decreases s.running.len(),
{
    lemma_drain_enough(s, s.running.len());
    lemma_min_finish(s.running);
    lemma_reachable_refl(s, procs);
    if s.running.len() > 0 {
        let m = min_finish(s.running)->0;
        lemma_advance_to_min(s, m);
        let t = advanced(s, m);
        let j = choose|j: int| 0 <= j < s.running.len() && #[trigger] s.running[j].1 == m;
        assert(s.running[j].1 > s.cycle);
        assert(apply_move(s, procs, Move::Advance(m)) == Some(t));
        lemma_advance_cycles_fit(s, m);
        lemma_reachable_step(s, procs, s, Move::Advance(m), t);
        lemma_drain_enough(t, (s.running.len() - 1) as nat);
        lemma_finish_all_reachable(t, procs);
        lemma_reachable_trans(s, procs, t, finished_all(t));
    }
}

/// The model of an optional state.
pub open spec fn opt_view(o: Option<State>) -> Option<StateSpec> {
    match o {
        Some(b) => Some(b@),
        None => None,
    }
}

/// Going from best-so-far `before` to `after` in a search from `s` keeps or
/// strictly improves it: a new best is a complete schedule from `s` and better
/// than the one it replaces.
pub open spec fn improves(
    before: Option<StateSpec>,
    after: Option<StateSpec>,
    s: StateSpec,
    procs: Seq<ProcessSpec>,
    targets: Seq<Seq<char>>,
) -> bool {
    &&& before is Some ==> after is Some
    &&& after matches Some(b) ==> (before == Some(b) || (complete_outcome(s, procs, b) && (
    before matches Some(o) ==> better(b, o, targets))))
}

/// A step that the search needs is impossible at `t`: finishing every
/// running process, or the advance to the next finishing cycle, would exceed
/// `usize`; or a process that can start cannot be started by its name (it runs
/// for zero cycles, its finish cycle would exceed `usize`, or an earlier
/// process of the same name is started in its place and cannot start).
pub open spec fn blocked(t: StateSpec, procs: Seq<ProcessSpec>) -> bool {
    ||| settled(t) && !finish_all_fits(t)
    ||| (min_finish(t.running) matches Some(m) && !advance_fits(t, m))
    ||| exists|i: int|
        0 <= i < procs.len() && covers(t.stocks, procs[i].needs) && #[trigger] apply_move(
            t,
            procs,
            Move::Start(procs[i].name),
        ) is None
}

/// Some state reached from `s` by legal moves is blocked.
pub open spec fn blocked_from(s: StateSpec, procs: Seq<ProcessSpec>) -> bool {
    exists|t: StateSpec| reachable(s, procs, t) && #[trigger] blocked(t, procs)
}

/// No two processes share a name.
pub open spec fn distinct_process_names(procs: Seq<ProcessSpec>) -> bool {
    forall|i: int, j: int|
        #![trigger procs[i], procs[j]]
        0 <= i < procs.len() && 0 <= j < procs.len() && i != j ==> procs[i].name != procs[j].name
}

/// Where process names are distinct, a blocked state is one where some
/// quantity or finish cycle would exceed `usize`, or where a process that can
/// start would run for zero cycles (and so never finish).
pub proof fn lemma_blocked_is_overflow(t: StateSpec, procs: Seq<ProcessSpec>)
    requires
        distinct_process_names(procs),
        blocked(t, procs),
    ensures
        (settled(t) && !finish_all_fits(t)) || (min_finish(t.running) matches Some(m)
            && !advance_fits(t, m)) || exists|i: int|
            0 <= i < procs.len() && covers(t.stocks, procs[i].needs) && (#[trigger] procs[i].delay
                == 0 || t.cycle + procs[i].delay > usize::MAX),
{
    if exists|i: int|
        0 <= i < procs.len() && covers(t.stocks, procs[i].needs) && #[trigger] apply_move(
            t,
            procs,
            Move::Start(procs[i].name),
        ) is None {
        let i = choose|i: int|
            0 <= i < procs.len() && covers(t.stocks, procs[i].needs) && #[trigger] apply_move(
                t,
                procs,
                Move::Start(procs[i].name),
            ) is None;
        lemma_find_named(procs, procs[i].name);
        match find_named(procs, procs[i].name) {
            Some(k) => {
                if k != i {
                    assert(procs[k as int].name != procs[i].name);
                }
                assert(procs[i].delay == 0 || t.cycle + procs[i].delay > usize::MAX);
            },
            None => {
                assert(procs[i].name == procs[i].name);
            },
        }
    }
}

proof fn lemma_blocked_from_trans(s: StateSpec, procs: Seq<ProcessSpec>, t: StateSpec)
    requires
        reachable(s, procs, t),
        blocked_from(t, procs),
    ensures
        blocked_from(s, procs),
{
    let u = choose|u: StateSpec| reachable(t, procs, u) && #[trigger] blocked(u, procs);
    lemma_reachable_trans(s, procs, t, u);
}

proof fn lemma_improves_chain(
    b0: Option<StateSpec>,
    b1: Option<StateSpec>,
    b2: Option<StateSpec>,
    s: StateSpec,
    t: StateSpec,
    procs: Seq<ProcessSpec>,
    targets: Seq<Seq<char>>,
)
    requires
        improves(b0, b1, s, procs, targets),
        improves(b1, b2, t, procs, targets),
        reachable(s, procs, t),
    ensures
        improves(b0, b2, s, procs, targets),
{
    if b2 is Some {
        let b = b2->0;
        if b1 != Some(b) {
            lemma_reachable_trans(s, procs, t, b);
            if b1 is Some && b0 is Some && b0 != b1 {
                lemma_better_transitive(b, b1->0, b0->0, targets);
            }
        }
    }
}

/// Start `x` comes no later than start `y`, each given by its cycle and the
/// position of its process in the list: an earlier cycle, or the same cycle
/// and a process no later in the list.
pub open spec fn start_le(x: (nat, nat), y: (nat, nat)) -> bool {
    x.0 < y.0 || (x.0 == y.0 && x.1 <= y.1)
}

/// The history entries of `plan`, a list of starts each given by its cycle and
/// the position of its process in `procs`.
pub open spec fn plan_log(plan: Seq<(nat, nat)>, procs: Seq<ProcessSpec>) -> Seq<Seq<char>> {
    Seq::new(plan.len(), |k: int| history_entry(plan[k].0, procs[plan[k].1 as int].name))
}

/// `plan` names processes of `procs`, none earlier than `from`, in order:
/// by cycle, and within a cycle by position in `procs`.
pub open spec fn ordered_plan(plan: Seq<(nat, nat)>, procs: Seq<ProcessSpec>, from: (nat, nat)) -> bool {
    &&& forall|k: int| #![trigger plan[k]] 0 <= k < plan.len() ==> plan[k].1 < procs.len() && start_le(from, plan[k])
    &&& forall|k: int, l: int| 0 <= k < l < plan.len() ==> start_le(#[trigger] plan[k], #[trigger] plan[l])
}

/// The history of `b` is that of `s` followed by the entries of an ordered
/// plan whose starts come no earlier than process `idx` at the cycle of `s`.
pub open spec fn ordered_after(b: StateSpec, s: StateSpec, procs: Seq<ProcessSpec>, idx: nat) -> bool {
    exists|plan: Seq<(nat, nat)>|
        ordered_plan(plan, procs, (s.cycle, idx)) && b.history == s.history + #[trigger] plan_log(plan, procs)
}

/// Two ordered plans, the second starting where the first leaves off, make
/// one ordered plan, whose entries are those of the first and then the second.
proof fn lemma_plan_concat(
    p1: Seq<(nat, nat)>,
    p2: Seq<(nat, nat)>,
    procs: Seq<ProcessSpec>,
    from: (nat, nat),
    mid: (nat, nat),
)
    requires
        ordered_plan(p1, procs, from),
        forall|k: int| 0 <= k < p1.len() ==> start_le(#[trigger] p1[k], mid),
        ordered_plan(p2, procs, mid),
        start_le(from, mid),
    ensures
        ordered_plan(p1 + p2, procs, from),
        plan_log(p1 + p2, procs) == plan_log(p1, procs) + plan_log(p2, procs),
{
    let p = p1 + p2;
    assert forall|k: int| 0 <= k < p.len() implies #[trigger] start_le(from, p[k]) && p[k].1 < procs.len() by {
        if k >= p1.len() {
            assert(p[k] == p2[k - p1.len()]);
        } else {
            assert(p[k] == p1[k]);
        }
    }
    assert forall|k: int, l: int| 0 <= k < l < p.len() implies start_le(#[trigger] p[k], #[trigger] p[l]) by {
        if l < p1.len() {
            assert(p[k] == p1[k] && p[l] == p1[l]);
        } else if k >= p1.len() {
            assert(p[k] == p2[k - p1.len()] && p[l] == p2[l - p1.len()]);
        } else {
            assert(p[k] == p1[k] && p[l] == p2[l - p1.len()]);
            assert(start_le(p1[k], mid));
            assert(start_le(mid, p2[l - p1.len()]));
        }
    }
    assert(plan_log(p, procs) =~= plan_log(p1, procs) + plan_log(p2, procs));
}

/// Appending a start no earlier than every start of an ordered plan keeps it
/// ordered, and appends its entry to the plan's entries.
proof fn lemma_plan_push(
    p: Seq<(nat, nat)>,
    procs: Seq<ProcessSpec>,
    from: (nat, nat),
    x: (nat, nat),
)
    requires
        ordered_plan(p, procs, from),
        forall|k: int| 0 <= k < p.len() ==> start_le(#[trigger] p[k], x),
        start_le(from, x),
        x.1 < procs.len(),
    ensures
        ordered_plan(p.push(x), procs, from),
        forall|k: int| 0 <= k < p.push(x).len() ==> start_le(#[trigger] p.push(x)[k], x),
        plan_log(p.push(x), procs) == plan_log(p, procs).push(history_entry(x.0, procs[x.1 as int].name)),
{
    let q = p.push(x);
    assert forall|k: int| 0 <= k < q.len() implies #[trigger] start_le(from, q[k]) && q[k].1 < procs.len() by {
        if k < p.len() {
            assert(q[k] == p[k]);
        }
    }
    assert forall|k: int, l: int| 0 <= k < l < q.len() implies start_le(#[trigger] q[k], #[trigger] q[l]) by {
        assert(q[k] == p[k]);
        if l < p.len() {
            assert(q[l] == p[l]);
        }
    }
    assert forall|k: int| 0 <= k < q.len() implies start_le(#[trigger] q[k], x) by {
        if k < p.len() {
            assert(q[k] == p[k]);
        }
    }
    assert(plan_log(q, procs) =~= plan_log(p, procs).push(history_entry(x.0, procs[x.1 as int].name)));
}

/// `best` after `candidate` is offered to it: the candidate where there is
/// no best yet or the candidate is better, the old best otherwise.
pub open spec fn offered(best: Option<StateSpec>, candidate: StateSpec, targets: Seq<Seq<char>>) -> Option<
    StateSpec,
> {
    match best {
        None => Some(candidate),
        Some(o) => if better(candidate, o, targets) {
            Some(candidate)
        } else {
            Some(o)
        },
    }
}

/// What a search cut short at once leaves in `best`: the offer of `s` with
/// every running process finished, where that fits in `usize`.
pub open spec fn cut_outcome(best: Option<StateSpec>, s: StateSpec, targets: Seq<Seq<char>>) -> Option<
    StateSpec,
> {
    if finish_all_fits(s) {
        offered(best, finished_all(s), targets)
    } else {
        best
    }
}

/// One choice of the search at `s`, where processes before position `lo` may
/// not start: choice `k` below the number of processes starts process `k`
/// (where `k >= lo` and its needs are covered), and then only processes from
/// `k` on may start; choice `procs.len()` advances to the earliest finishing
/// cycle, after which every process may start again. `None` where the choice
/// is not available or its move is refused.
pub open spec fn search_step(s: StateSpec, procs: Seq<ProcessSpec>, lo: nat, k: nat) -> Option<
    (StateSpec, nat),
> {
    if k < procs.len() {
        if lo <= k && covers(s.stocks, procs[k as int].needs) {
            match apply_move(s, procs, Move::Start(procs[k as int].name)) {
                Some(t) => Some((t, k)),
                None => None,
            }
        } else {
            None
        }
    } else if k == procs.len() {
        match min_finish(s.running) {
            Some(m) => match apply_move(s, procs, Move::Advance(m)) {
                Some(t) => Some((t, 0nat)),
                None => None,
            },
            None => None,
        }
    } else {
        None
    }
}

/// The search ends at `s`: nothing runs and no process from position `lo` on
/// can start.
pub open spec fn search_end(s: StateSpec, procs: Seq<ProcessSpec>, lo: nat) -> bool {
    &&& s.running.len() == 0
    &&& forall|k: int| lo <= k < procs.len() ==> !covers(s.stocks, #[trigger] procs[k].needs)
}

/// The state and the first admissible position after the choices `path`.
pub open spec fn search_walk(s: StateSpec, procs: Seq<ProcessSpec>, lo: nat, path: Seq<nat>) -> Option<
    (StateSpec, nat),
>
    decreases path.len(),
{
    if path.len() == 0 {
        Some((s, lo))
    } else {
        match search_step(s, procs, lo, path[0]) {
            Some((t, l)) => search_walk(t, procs, l, path.skip(1)),
            None => None,
        }
    }
}

/// The end state of the search along the choices `path`, if they lead to an
/// end: the candidates that a search without a cut compares.
pub open spec fn search_leaf(s: StateSpec, procs: Seq<ProcessSpec>, lo: nat, path: Seq<nat>) -> Option<
    StateSpec,
>
    decreases path.len(),
{
    if path.len() == 0 {
        if search_end(s, procs, lo) {
            Some(s)
        } else {
            None
        }
    } else {
        match search_step(s, procs, lo, path[0]) {
            Some((t, l)) => search_leaf(t, procs, l, path.skip(1)),
            None => None,
        }
    }
}

/// `best` holds a state that `t` is not better than.
pub open spec fn dominates(best: Option<StateSpec>, t: StateSpec, targets: Seq<Seq<char>>) -> bool {
    best matches Some(b) && !better(t, b, targets)
}

proof fn lemma_walk_leaf(
    s: StateSpec,
    procs: Seq<ProcessSpec>,
    lo: nat,
    trail: Seq<nat>,
    rest: Seq<nat>,
)
    requires
        search_walk(s, procs, lo, trail) is Some,
    ensures
        search_leaf(s, procs, lo, trail + rest) == search_leaf(
            search_walk(s, procs, lo, trail).unwrap().0,
            procs,
            search_walk(s, procs, lo, trail).unwrap().1,
            rest,
        ),
    decreases trail.len(),
{
    if trail.len() == 0 {
        assert(trail + rest =~= rest);
    } else {
        let p = trail + rest;
        assert(p[0] == trail[0]);
        assert(p.skip(1) =~= trail.skip(1) + rest);
        let (t, l) = search_step(s, procs, lo, trail[0])->0;
        lemma_walk_leaf(t, procs, l, trail.skip(1), rest);
    }
}

proof fn lemma_walk_push(s: StateSpec, procs: Seq<ProcessSpec>, lo: nat, trail: Seq<nat>, k: nat)
    requires
        search_walk(s, procs, lo, trail) is Some,
    ensures
        search_walk(s, procs, lo, trail.push(k)) == search_step(
            search_walk(s, procs, lo, trail).unwrap().0,
            procs,
            search_walk(s, procs, lo, trail).unwrap().1,
            k,
        ),
    decreases trail.len(),
{
    let p = trail.push(k);
    if trail.len() == 0 {
        assert(p.skip(1) =~= Seq::<nat>::empty());
        assert(p[0] == k);
        match search_step(s, procs, lo, k) {
            Some((t, l)) => {
                assert(search_walk(t, procs, l, p.skip(1)) == Some((t, l)));
            },
            None => {},
        }
    } else {
        assert(p[0] == trail[0]);
        assert(p.skip(1) =~= trail.skip(1).push(k));
        let (t, l) = search_step(s, procs, lo, trail[0])->0;
        lemma_walk_push(t, procs, l, trail.skip(1), k);
    }
}

/// A leaf of `s0` whose choices begin with `trail` is a leaf of the state the
/// trail leads to.
proof fn lemma_leaf_through(
    s0: StateSpec,
    procs: Seq<ProcessSpec>,
    lo0: nat,
    trail: Seq<nat>,
    path: Seq<nat>,
)
    requires
        search_walk(s0, procs, lo0, trail) is Some,
        path.len() >= trail.len(),
        path.take(trail.len() as int) == trail,
    ensures
        search_leaf(s0, procs, lo0, path) == search_leaf(
            search_walk(s0, procs, lo0, trail).unwrap().0,
            procs,
            search_walk(s0, procs, lo0, trail).unwrap().1,
            path.skip(trail.len() as int),
        ),
{
    assert(path =~= trail + path.skip(trail.len() as int));
    lemma_walk_leaf(s0, procs, lo0, trail, path.skip(trail.len() as int));
}

/// Once `best` holds a state that `t` is not better than, a best that only
/// improves keeps doing so.
proof fn lemma_dominates_mono(
    before: Option<StateSpec>,
    after: Option<StateSpec>,
    s: StateSpec,
    procs: Seq<ProcessSpec>,
    targets: Seq<Seq<char>>,
    t: StateSpec,
)
    requires
        improves(before, after, s, procs, targets),
        dominates(before, t, targets),
    ensures
        dominates(after, t, targets),
{
    let b = after->0;
    if before != after && better(t, b, targets) {
        lemma_better_transitive(t, b, before->0, targets);
    }
}

/// Replaces `best` by `candidate` where there is none yet or `candidate` is better.
fn offer(best: &mut Option<State>, candidate: State, optimize: &[String])
    requires
        candidate.wf(),
        *old(best) matches Some(b) ==> b.wf(),
    ensures
        *final(best) matches Some(b) ==> b.wf(),
        opt_view(*final(best)) == offered(opt_view(*old(best)), candidate@, targets_view(optimize@)),
{
    let replace = match &*best {
        None => true,
        Some(b) => candidate.better_then(b, optimize),
    };
    if replace {
        *best = Some(candidate);
    }
}

/// Starts `processes[i]` by name where its finish cycle fits in `usize`;
/// says whether the start happened (the state is unchanged otherwise).
fn try_start(state: &mut State, i: usize, processes: &[Process]) -> (ok: bool)
    requires
        old(state).wf(),
        settled(old(state)@),
        i < processes@.len(),
        all_wf(processes@),
    ensures
        final(state).wf(),
        settled(final(state)@),
        ok ==> apply_move(
            old(state)@,
            procs_view(processes@),
            Move::Start(processes@[i as int].name@),
        ) == Some(final(state)@),
        !ok ==> final(state)@ == old(state)@ && apply_move(
            old(state)@,
            procs_view(processes@),
            Move::Start(processes@[i as int].name@),
        ) is None,
{
    let ghost pv = procs_view(processes@);
    let name = processes[i].name.as_str();
    match find_process(processes, name) {
        None => false,
        Some(j) => {
            proof {
                lemma_find_named(pv, name@);
            }
            assert(pv[j as int] == processes@[j as int]@);
            if processes[j].delay == 0 || processes[j].delay > usize::MAX - state.curr_cycle {
                return false;
            }
            let r = state.start_by_name(name, processes);
            match r {
                Ok(()) => {
                    assert forall|k: int| 0 <= k < final(state)@.running.len() implies #[trigger] final(state)@.running[k].1 > final(state)@.cycle by {
                        if k < old(state)@.running.len() {
                            assert(final(state)@.running[k] == old(state)@.running[k]);
                        }
                    }
                    true
                },
                Err(_) => false,
            }
        },
    }
}

/// A new best in `after` (one that is not the `before` it replaced) has a
/// history that continues that of `s` in order from process `idx` on.
pub open spec fn new_best_ordered(
    before: Option<StateSpec>,
    after: Option<StateSpec>,
    s: StateSpec,
    procs: Seq<ProcessSpec>,
    idx: nat,
) -> bool {
    after matches Some(b) ==> (before == Some(b) || ordered_after(b, s, procs, idx))
}

/// A history that continues, in order, that of a state reached by an ordered
/// plan from `s0` continues that of `s0` in order.
proof fn lemma_ordered_after_chain(
    b: StateSpec,
    s0: StateSpec,
    procs: Seq<ProcessSpec>,
    idx0: nat,
    plan: Seq<(nat, nat)>,
    c: StateSpec,
    i: nat,
)
    requires
        ordered_plan(plan, procs, (s0.cycle, idx0)),
        c.history == s0.history + plan_log(plan, procs),
        forall|k: int| 0 <= k < plan.len() ==> start_le(#[trigger] plan[k], (c.cycle, i)),
        start_le((s0.cycle, idx0), (c.cycle, i)),
        ordered_after(b, c, procs, i),
    ensures
        ordered_after(b, s0, procs, idx0),
{
    let p2 = choose|p2: Seq<(nat, nat)>|
        ordered_plan(p2, procs, (c.cycle, i)) && b.history == c.history + #[trigger] plan_log(
            p2,
            procs,
        );
    lemma_plan_concat(plan, p2, procs, (s0.cycle, idx0), (c.cycle, i));
    assert(b.history =~= s0.history + plan_log(plan + p2, procs));
}

/// Through a choice that is open at the end of `trail`, the leaves of `s0`
/// along `trail`, the choice and `rest` are those of the state it leads to.
proof fn lemma_leaf_via_step(
    s0: StateSpec,
    procs: Seq<ProcessSpec>,
    lo0: nat,
    trail: Seq<nat>,
    k: nat,
    rest: Seq<nat>,
)
    requires
        search_walk(s0, procs, lo0, trail) is Some,
        search_step(
            search_walk(s0, procs, lo0, trail).unwrap().0,
            procs,
            search_walk(s0, procs, lo0, trail).unwrap().1,
            k,
        ) is Some,
    ensures
        search_walk(s0, procs, lo0, trail.push(k)) is Some,
        search_leaf(s0, procs, lo0, trail.push(k) + rest) == search_leaf(
            search_walk(s0, procs, lo0, trail.push(k)).unwrap().0,
            procs,
            search_walk(s0, procs, lo0, trail.push(k)).unwrap().1,
            rest,
        ),
{
    lemma_walk_push(s0, procs, lo0, trail, k);
    lemma_walk_leaf(s0, procs, lo0, trail.push(k), rest);
}

/// Where `k` is the only open choice at a state that is no end, every leaf
/// path from it begins with `k`.
proof fn lemma_only_choice(c: StateSpec, procs: Seq<ProcessSpec>, lo: nat, k: nat, path: Seq<nat>)
    requires
        search_leaf(c, procs, lo, path) is Some,
        !search_end(c, procs, lo),
        forall|k2: nat| #[trigger] search_step(c, procs, lo, k2) is Some ==> k2 == k,
    ensures
        path.len() > 0,
        path[0] == k,
        search_step(c, procs, lo, k) is Some,
{
    if path.len() > 0 {
        assert(search_step(c, procs, lo, path[0]) is Some);
    }
}

proof fn lemma_prefix_push(path: Seq<nat>, trail: Seq<nat>, k: nat)
    requires
        path.len() > trail.len(),
        path.take(trail.len() as int) == trail,
        path.skip(trail.len() as int)[0] == k,
    ensures
        path.take(trail.len() + 1int) == trail.push(k),
{
    assert(path.take(trail.len() + 1int) =~= trail.push(k));
}

/// Some state that the search reaches from `s` has its clock at `usize::MAX`.
pub open spec fn reaches_cycle_cap(s: StateSpec, procs: Seq<ProcessSpec>, lo: nat) -> bool {
    exists|path: Seq<nat>|
        #[trigger] search_walk(s, procs, lo, path) matches Some(p) && p.0.cycle == usize::MAX
}

/// Walking two runs of choices is walking the first, then the second.
proof fn lemma_walk_append(s: StateSpec, procs: Seq<ProcessSpec>, lo: nat, x: Seq<nat>, y: Seq<nat>)
    requires
        search_walk(s, procs, lo, x) is Some,
    ensures
        search_walk(s, procs, lo, x + y) == search_walk(
            search_walk(s, procs, lo, x).unwrap().0,
            procs,
            search_walk(s, procs, lo, x).unwrap().1,
            y,
        ),
    decreases x.len(),
{
    if x.len() == 0 {
        assert(x + y =~= y);
    } else {
        let p = x + y;
        assert(p[0] == x[0]);
        assert(p.skip(1) =~= x.skip(1) + y);
        let (t, l) = search_step(s, procs, lo, x[0])->0;
        lemma_walk_append(t, procs, l, x.skip(1), y);
    }
}

/// What the search reaches from a state that `trail` leads to, it reaches
/// from the start of the trail.
proof fn lemma_cap_through(s0: StateSpec, procs: Seq<ProcessSpec>, lo0: nat, trail: Seq<nat>)
    requires
        search_walk(s0, procs, lo0, trail) is Some,
        reaches_cycle_cap(
            search_walk(s0, procs, lo0, trail).unwrap().0,
            procs,
            search_walk(s0, procs, lo0, trail).unwrap().1,
        ),
    ensures
        reaches_cycle_cap(s0, procs, lo0),
{
    let c = search_walk(s0, procs, lo0, trail).unwrap();
    let p = choose|p: Seq<nat>| #[trigger] search_walk(c.0, procs, c.1, p) matches Some(q) && q.0.cycle == usize::MAX;
    lemma_walk_append(s0, procs, lo0, trail, p);
    assert(search_walk(s0, procs, lo0, trail + p) == search_walk(c.0, procs, c.1, p));
}

/// Choices `q` come before choices `p` in the order the search follows them:
/// at the first place where they differ, `q` takes the lower choice.
pub open spec fn path_before(q: Seq<nat>, p: Seq<nat>) -> bool {
    exists|i: int| 0 <= i < q.len() && i < p.len() && q.take(i) == p.take(i) && #[trigger] q[i] < p[i]
}

/// After the choices `p`, which come before no other choices whose end state is
/// better than `b`: every end state along choices before `p` is worse than `b`.
pub open spec fn earlier_worse(
    b: StateSpec,
    s: StateSpec,
    procs: Seq<ProcessSpec>,
    lo: nat,
    p: Seq<nat>,
    targets: Seq<Seq<char>>,
) -> bool {
    forall|q: Seq<nat>|
        path_before(q, p) && #[trigger] search_leaf(s, procs, lo, q) is Some ==> better(
            b,
            search_leaf(s, procs, lo, q)->0,
            targets,
        )
}

/// `b` is the end state of the search from `s` along some choices, and is
/// better than every end state that the search meets before it: of equally
/// good end states, the first one met is kept.
pub open spec fn first_among(
    b: StateSpec,
    s: StateSpec,
    procs: Seq<ProcessSpec>,
    lo: nat,
    targets: Seq<Seq<char>>,
) -> bool {
    exists|p: Seq<nat>|
        #[trigger] search_leaf(s, procs, lo, p) == Some(b) && earlier_worse(b, s, procs, lo, p, targets)
}

/// An end state of the search from a state where every process may start
/// (or along at least one choice) follows an advance, so no process at all can
/// start in it.
proof fn lemma_leaf_no_start(s: StateSpec, procs: Seq<ProcessSpec>, lo: nat, path: Seq<nat>)
    requires
        search_leaf(s, procs, lo, path) is Some,
        path.len() > 0 || lo == 0,
    ensures
        search_end(search_leaf(s, procs, lo, path)->0, procs, 0),
    decreases path.len(),
{
    if path.len() > 0 {
        let (t, l) = search_step(s, procs, lo, path[0])->0;
        if path.skip(1).len() == 0 {
            if path[0] < procs.len() {
                assert(t.running.len() > 0);
            }
        } else {
            lemma_leaf_no_start(t, procs, l, path.skip(1));
        }
    }
}

/// A first best among the end states after choice `k` is a first best at
/// `cur` too, where it beats the best kept before and that best is not beaten
/// by the end states after lower choices.
proof fn lemma_first_via_child(
    b: StateSpec,
    cur: StateSpec,
    procs: Seq<ProcessSpec>,
    lo: nat,
    k: nat,
    c: StateSpec,
    l: nat,
    before: Option<StateSpec>,
    targets: Seq<Seq<char>>,
)
    requires
        search_step(cur, procs, lo, k) == Some((c, l)),
        first_among(b, c, procs, l, targets),
        before matches Some(o) ==> better(b, o, targets),
        forall|q: Seq<nat>|
            #![trigger search_leaf(cur, procs, lo, q)]
            q.len() > 0 && q[0] < k && search_leaf(cur, procs, lo, q) is Some ==> dominates(
                before,
                search_leaf(cur, procs, lo, q)->0,
                targets,
            ),
    ensures
        first_among(b, cur, procs, lo, targets),
{
    let pc = choose|pc: Seq<nat>|
        #[trigger] search_leaf(c, procs, l, pc) == Some(b) && earlier_worse(b, c, procs, l, pc, targets);
    let p = seq![k] + pc;
    assert(p[0] == k);
    assert(p.skip(1) =~= pc);
    assert(search_leaf(cur, procs, lo, p) == Some(b));
    assert forall|q: Seq<nat>|
        path_before(q, p) && #[trigger] search_leaf(cur, procs, lo, q) is Some implies better(
            b,
            search_leaf(cur, procs, lo, q)->0,
            targets,
        ) by {
        let i = choose|i: int|
            0 <= i < q.len() && i < p.len() && q.take(i) == p.take(i) && #[trigger] q[i] < p[i];
        let t = search_leaf(cur, procs, lo, q)->0;
        if i == 0 {
            lemma_better_split(b, t, before->0, targets);
        } else {
            assert(q.take(i)[0] == q[0]);
            assert(p.take(i)[0] == p[0]);
            assert(q[0] == k);
            assert(search_leaf(cur, procs, lo, q) == search_leaf(c, procs, l, q.skip(1)));
            let q1 = q.skip(1);
            assert(q1.take(i - 1) =~= q.take(i).skip(1));
            assert(pc.take(i - 1) =~= p.take(i).skip(1));
            assert(q1[i - 1] == q[i]);
            assert(pc[i - 1] == p[i]);
            assert(path_before(q1, pc));
        }
    }
}

/// A first best at the state that `trail` leads to, where every end state
/// from `s0` lies past `trail`, is a first best from `s0`.
proof fn lemma_first_through(
    b: StateSpec,
    s0: StateSpec,
    procs: Seq<ProcessSpec>,
    lo0: nat,
    trail: Seq<nat>,
    targets: Seq<Seq<char>>,
)
    requires
        search_walk(s0, procs, lo0, trail) is Some,
        first_among(
            b,
            search_walk(s0, procs, lo0, trail).unwrap().0,
            procs,
            search_walk(s0, procs, lo0, trail).unwrap().1,
            targets,
        ),
        forall|q: Seq<nat>|
            #[trigger] search_leaf(s0, procs, lo0, q) is Some ==> q.len() >= trail.len() && q.take(
                trail.len() as int,
            ) == trail,
    ensures
        first_among(b, s0, procs, lo0, targets),
{
    let w = search_walk(s0, procs, lo0, trail).unwrap();
    let c = w.0;
    let l = w.1;
    let p = choose|p: Seq<nat>|
        #[trigger] search_leaf(c, procs, l, p) == Some(b) && earlier_worse(b, c, procs, l, p, targets);
    let pp = trail + p;
    lemma_walk_leaf(s0, procs, lo0, trail, p);
    assert(search_leaf(s0, procs, lo0, pp) == Some(b));
    assert forall|q: Seq<nat>|
        path_before(q, pp) && #[trigger] search_leaf(s0, procs, lo0, q) is Some implies better(
            b,
            search_leaf(s0, procs, lo0, q)->0,
            targets,
        ) by {
        let i = choose|i: int|
            0 <= i < q.len() && i < pp.len() && q.take(i) == pp.take(i) && #[trigger] q[i] < pp[i];
        lemma_leaf_through(s0, procs, lo0, trail, q);
        let n = trail.len() as int;
        if i < n {
            assert(q.take(n)[i] == q[i]);
            assert(pp[i] == trail[i]);
        }
        assert(i >= n);
        let q1 = q.skip(n);
        let j = i - n;
        assert(q1.take(j) =~= q.take(i).skip(n));
        assert(p.take(j) =~= pp.take(i).skip(n));
        assert(q1[j] == q[i]);
        assert(p[j] == pp[i]);
        assert(path_before(q1, p));
    }
}

/// A new best in `after` (one that is not the `before` it replaced) continues
/// the history of `s` by actions that replay from `a`, after which finishing
/// every running process gives the new best.
pub open spec fn new_best_replays(
    before: Option<StateSpec>,
    after: Option<StateSpec>,
    s: StateSpec,
    a: StateSpec,
    procs: Seq<ProcessSpec>,
) -> bool {
    after matches Some(b) ==> (before == Some(b) || replays_to(b, s, a, procs))
}

/// `s` is `a` advanced to the cycle of `s`, which is that of `a` or one at
/// which a process running in `a` finishes.
pub open spec fn anchored(a: StateSpec, s: StateSpec) -> bool {
    &&& settled(a)
    &&& a.cycle <= s.cycle
    &&& advance_fits(a, s.cycle)
    &&& advanced(a, s.cycle) == s
    &&& tight_from(a, s.cycle)
}

/// A settled state is anchored at itself.
pub proof fn lemma_anchored_self(s: StateSpec)
    requires
        settled(s),
    ensures
        anchored(s, s),
{
    lemma_collect_settled(s);
}

/// Advancing an anchored state to its earliest finishing cycle keeps it
/// anchored at the same state.
proof fn lemma_anchored_advance(a: StateSpec, cur: StateSpec, m: nat)
    requires
        anchored(a, cur),
        settled(cur),
        min_finish(cur.running) == Some(m),
        advance_fits(cur, m),
    ensures
        anchored(a, advanced(cur, m)),
{
    lemma_min_finish(cur.running);
    let j = choose|j: int| 0 <= j < cur.running.len() && #[trigger] cur.running[j].1 == m;
    assert(cur.running[j].1 > cur.cycle);
    lemma_advance_compose(a, cur.cycle, m);
    lemma_advanced_subset(a, cur.cycle);
    let k = choose|k: int| 0 <= k < a.running.len() && a.running[k] == #[trigger] cur.running[j];
    assert(a.running[k].1 == m);
    lemma_advanced_basics(cur, m);
}

/// A start at an anchored state extends the replayed actions by that start.
proof fn lemma_anchored_start(
    anchor: StateSpec,
    procs: Seq<ProcessSpec>,
    acts: Seq<(usize, Seq<char>)>,
    a: StateSpec,
    cur: StateSpec,
    name: Seq<char>,
    child: StateSpec,
)
    requires
        replay(anchor, procs, acts) == Some(a),
        anchored(a, cur),
        cur.cycle <= usize::MAX,
        apply_move(cur, procs, Move::Start(name)) == Some(child),
    ensures
        replay(anchor, procs, acts.push((cur.cycle as usize, name))) == Some(child),
        history_of(acts.push((cur.cycle as usize, name))) == history_of(acts).push(
            history_entry(cur.cycle, name),
        ),
        child.history == cur.history.push(history_entry(cur.cycle, name)),
{
    let x = (cur.cycle as usize, name);
    let acts2 = acts.push(x);
    assert(acts2.drop_last() =~= acts);
    assert(acts2.last() == x);
    assert(apply_move(a, procs, Move::Advance(cur.cycle)) == Some(cur));
    lemma_find_named(procs, name);
    assert(history_of(acts2) =~= history_of(acts).push(history_entry(cur.cycle, name)));
}

/// The best a search cut short offers, `cur` with every running process
/// finished, replays from the anchor of `cur`.
proof fn lemma_anchored_finish(
    anchor: StateSpec,
    s0: StateSpec,
    procs: Seq<ProcessSpec>,
    acts: Seq<(usize, Seq<char>)>,
    a: StateSpec,
    cur: StateSpec,
)
    requires
        replay(anchor, procs, acts) == Some(a),
        anchored(a, cur),
        settled(cur),
        cur.history == s0.history + history_of(acts),
        finish_all_fits(cur),
    ensures
        replays_to(finished_all(cur), s0, anchor, procs),
{
    lemma_finish_as_advance(cur);
    let f = finished_all(cur);
    let x = f.cycle;
    lemma_advance_compose(a, cur.cycle, x);
    if x != cur.cycle {
        let j = choose|j: int| 0 <= j < cur.running.len() && #[trigger] cur.running[j].1 == x;
        lemma_advanced_subset(a, cur.cycle);
        let k = choose|k: int| 0 <= k < a.running.len() && a.running[k] == #[trigger] cur.running[j];
        assert(a.running[k].1 == x);
    }
    lemma_tight_finish(a, x);
    lemma_drain_history(cur, cur.running.len());
    assert(f.history == s0.history + history_of(acts));
}

/// An end state of the search replays from its anchor.
proof fn lemma_anchored_leaf(
    anchor: StateSpec,
    s0: StateSpec,
    procs: Seq<ProcessSpec>,
    acts: Seq<(usize, Seq<char>)>,
    a: StateSpec,
    cur: StateSpec,
)
    requires
        replay(anchor, procs, acts) == Some(a),
        anchored(a, cur),
        cur.running.len() == 0,
        cur.history == s0.history + history_of(acts),
    ensures
        replays_to(cur, s0, anchor, procs),
{
    lemma_tight_finish(a, cur.cycle);
}

/// The positions from `lo` on and below `n` of the processes whose needs
/// `stocks` cover, in increasing order.
pub open spec fn startable_list(stocks: Map<Seq<char>, nat>, procs: Seq<ProcessSpec>, lo: nat, n: nat) -> Seq<
    nat,
>
    decreases n,
{
    if n == 0 {
        Seq::empty()
    } else {
        let prev = startable_list(stocks, procs, lo, (n - 1) as nat);
        if lo <= n - 1 && covers(stocks, procs[n - 1].needs) {
            prev.push((n - 1) as nat)
        } else {
            prev
        }
    }
}

/// What the search from `s` (processes before position `lo` may not start)
/// leaves: the best kept, whether no branch was cut short, the steps left,
/// and how many more deadline checks find time left. `best` is the best kept
/// so far, `k` how many deadline checks still find time left (every later one
/// finds the budget used up), and `steps` the step budget. Each round of the
/// search checks the step budget, then the deadline, then the clock limit;
/// where one of them ends the round, the state with every running process
/// finished is offered. Otherwise the round spends a step and ends the branch
/// where nothing can start or finish (offering the state), takes the only
/// choice in place where there is one, and otherwise searches each startable
/// process in list order and then the advance to the next finishing cycle.
pub open spec fn search_cut(
    s: StateSpec,
    procs: Seq<ProcessSpec>,
    lo: nat,
    best: Option<StateSpec>,
    targets: Seq<Seq<char>>,
    k: nat,
    steps: nat,
) -> (Option<StateSpec>, bool, nat, nat)
    decreases steps, 0nat,
{
    if steps == 0 {
        (cut_outcome(best, s, targets), false, 0, k)
    } else if k == 0 {
        (cut_outcome(best, s, targets), false, steps, 0)
    } else if s.cycle == usize::MAX {
        (cut_outcome(best, s, targets), false, steps, (k - 1) as nat)
    } else {
        let st = (steps - 1) as nat;
        let k1 = (k - 1) as nat;
        let sl = startable_list(s.stocks, procs, lo, procs.len());
        let adv = min_finish(s.running) is Some;
        if sl.len() == 0 && !adv {
            (offered(best, s, targets), true, st, k1)
        } else if sl.len() > 1 || (sl.len() == 1 && adv) {
            search_children(s, procs, targets, sl, 0, best, true, k1, st, st)
        } else if sl.len() == 1 {
            match apply_move(s, procs, Move::Start(procs[sl[0] as int].name)) {
                Some(t) => search_cut(t, procs, sl[0], best, targets, k1, st),
                None => (best, true, st, k1),
            }
        } else {
            match apply_move(s, procs, Move::Advance(min_finish(s.running)->0)) {
                Some(t) => search_cut(t, procs, 0, best, targets, k1, st),
                None => (best, true, st, k1),
            }
        }
    }
}

/// The branches of the search at `s` from the `j`-th startable position of
/// `sl` on, and then the advance to the next finishing cycle, each searched
/// with what the ones before left (`best`, whether all were exhaustive so far
/// `exh`, the clock answers `k` and the steps `st`, never more than `fuel`).
pub open spec fn search_children(
    s: StateSpec,
    procs: Seq<ProcessSpec>,
    targets: Seq<Seq<char>>,
    sl: Seq<nat>,
    j: nat,
    best: Option<StateSpec>,
    exh: bool,
    k: nat,
    st: nat,
    fuel: nat,
) -> (Option<StateSpec>, bool, nat, nat)
    decreases fuel, (sl.len() + 1 - j) as nat,
{
    if j < sl.len() {
        let i = sl[j as int];
        match apply_move(s, procs, Move::Start(procs[i as int].name)) {
            Some(c) => if st <= fuel {
                let r = search_cut(c, procs, i, best, targets, k, st);
                if r.2 <= fuel {
                    search_children(s, procs, targets, sl, j + 1, r.0, exh && r.1, r.3, r.2, fuel)
                } else {
                    r
                }
            } else {
                (best, exh, st, k)
            },
            None => search_children(s, procs, targets, sl, j + 1, best, exh, k, st, fuel),
        }
    } else if j > sl.len() {
        (best, exh, st, k)
    } else {
        match min_finish(s.running) {
            Some(m) => match apply_move(s, procs, Move::Advance(m)) {
                Some(c) => if st <= fuel {
                    let r = search_cut(c, procs, 0, best, targets, k, st);
                    (r.0, exh && r.1, r.2, r.3)
                } else {
                    (best, exh, st, k)
                },
                None => (best, exh, st, k),
            },
            None => (best, exh, st, k),
        }
    }
}

/// Offering a candidate gives a best that neither the old best nor the
/// candidate beats, and that is one of the two.
proof fn lemma_offered_keeps_better(best: Option<StateSpec>, cand: StateSpec, targets: Seq<Seq<char>>)
    ensures
        offered(best, cand, targets) matches Some(b) && (b == cand || best == Some(b)) && !better(
            cand,
            b,
            targets,
        ) && (best matches Some(o) ==> !better(o, b, targets)),
{
    lemma_better_irreflexive(cand, targets);
    if let Some(o) = best {
        lemma_better_irreflexive(o, targets);
        if better(cand, o, targets) {
            lemma_better_asymmetric(cand, o, targets);
        }
    }
}

/// Law: a round of the search that is cut short (no step left, the deadline
/// found passed, or the cycle counter at its limit) finishes every running
/// process and keeps the better of that state and the best so far: the kept
/// best is one of the two, and neither of them is better than it.
pub proof fn lemma_cut_round_keeps_better(
    s: StateSpec,
    procs: Seq<ProcessSpec>,
    lo: nat,
    best: Option<StateSpec>,
    targets: Seq<Seq<char>>,
    k: nat,
    steps: nat,
)
    requires
        steps == 0 || k == 0 || s.cycle == usize::MAX,
        finish_all_fits(s),
    ensures
        search_cut(s, procs, lo, best, targets, k, steps).0 matches Some(b) && (b == finished_all(s)
            || best == Some(b)) && !better(finished_all(s), b, targets) && (best matches Some(o)
            ==> !better(o, b, targets)),
{
    lemma_offered_keeps_better(best, finished_all(s), targets);
}

proof fn lemma_startable_list_empty(stocks: Map<Seq<char>, nat>, procs: Seq<ProcessSpec>, lo: nat, n: nat)
    requires
        n <= procs.len(),
        forall|k: int| lo <= k < n ==> !covers(stocks, #[trigger] procs[k].needs),
    ensures
        startable_list(stocks, procs, lo, n).len() == 0,
    decreases n,
{
    if n > 0 {
        lemma_startable_list_empty(stocks, procs, lo, (n - 1) as nat);
    }
}

/// Law: a round of the search at a state where it ends (nothing runs and
/// nothing may start), with a step and time left, keeps the better of that
/// state and the best so far, and counts as exhaustive.
pub proof fn lemma_end_round_keeps_better(
    s: StateSpec,
    procs: Seq<ProcessSpec>,
    lo: nat,
    best: Option<StateSpec>,
    targets: Seq<Seq<char>>,
    k: nat,
    steps: nat,
)
    requires
        steps > 0,
        k > 0,
        s.cycle < usize::MAX,
        search_end(s, procs, lo),
    ensures
        search_cut(s, procs, lo, best, targets, k, steps).0 matches Some(b) && (b == s || best == Some(b))
            && !better(s, b, targets) && (best matches Some(o) ==> !better(o, b, targets)),
        search_cut(s, procs, lo, best, targets, k, steps).1,
{
    lemma_startable_list_empty(s.stocks, procs, lo, procs.len());
    assert(min_finish(s.running) is None);
    lemma_offered_keeps_better(best, s, targets);
}

/// Law: the search never gives up a best for a worse one: where a best is
/// kept before, one is kept after, and the earlier one is not better.
pub proof fn lemma_search_never_worse(
    s: StateSpec,
    procs: Seq<ProcessSpec>,
    lo: nat,
    best: Option<StateSpec>,
    targets: Seq<Seq<char>>,
    k: nat,
    steps: nat,
)
    ensures
        best matches Some(o) ==> search_cut(s, procs, lo, best, targets, k, steps).0 matches Some(b)
            && !better(o, b, targets),
    decreases steps, 0nat,
{
    if let Some(o) = best {
        if steps == 0 || k == 0 || s.cycle == usize::MAX {
            if finish_all_fits(s) {
                lemma_offered_keeps_better(best, finished_all(s), targets);
            } else {
                lemma_better_irreflexive(o, targets);
            }
        } else {
            let st = (steps - 1) as nat;
            let k1 = (k - 1) as nat;
            let sl = startable_list(s.stocks, procs, lo, procs.len());
            let adv = min_finish(s.running) is Some;
            if sl.len() == 0 && !adv {
                lemma_offered_keeps_better(best, s, targets);
            } else if sl.len() > 1 || (sl.len() == 1 && adv) {
                lemma_children_never_worse(s, procs, targets, sl, 0, best, true, k1, st, st);
            } else if sl.len() == 1 {
                match apply_move(s, procs, Move::Start(procs[sl[0] as int].name)) {
                    Some(t) => lemma_search_never_worse(t, procs, sl[0], best, targets, k1, st),
                    None => lemma_better_irreflexive(o, targets),
                }
            } else {
                match apply_move(s, procs, Move::Advance(min_finish(s.running)->0)) {
                    Some(t) => lemma_search_never_worse(t, procs, 0, best, targets, k1, st),
                    None => lemma_better_irreflexive(o, targets),
                }
            }
        }
    }
}

/// The branches searched one after another never give up a best for a worse
/// one.
proof fn lemma_children_never_worse(
    s: StateSpec,
    procs: Seq<ProcessSpec>,
    targets: Seq<Seq<char>>,
    sl: Seq<nat>,
    j: nat,
    best: Option<StateSpec>,
    exh: bool,
    k: nat,
    st: nat,
    fuel: nat,
)
    ensures
        best matches Some(o) ==> search_children(s, procs, targets, sl, j, best, exh, k, st, fuel).0 matches Some(
            b,
        ) && !better(o, b, targets),
    decreases fuel, (sl.len() + 1 - j) as nat,
{
    if let Some(o) = best {
        lemma_better_irreflexive(o, targets);
        if j < sl.len() {
            let i = sl[j as int];
            match apply_move(s, procs, Move::Start(procs[i as int].name)) {
                Some(c) => if st <= fuel {
                    let r = search_cut(c, procs, i, best, targets, k, st);
                    lemma_search_never_worse(c, procs, i, best, targets, k, st);
                    if r.2 <= fuel {
                        lemma_children_never_worse(s, procs, targets, sl, j + 1, r.0, exh && r.1, r.3, r.2, fuel);
                        let b1 = r.0->Some_0;
                        let b2 = search_children(s, procs, targets, sl, j + 1, r.0, exh && r.1, r.3, r.2, fuel).0->Some_0;
                        if better(o, b2, targets) {
                            lemma_better_split(o, b1, b2, targets);
                        }
                    }
                },
                None => lemma_children_never_worse(s, procs, targets, sl, j + 1, best, exh, k, st, fuel),
            }
        } else if j == sl.len() {
            match min_finish(s.running) {
                Some(m) => match apply_move(s, procs, Move::Advance(m)) {
                    Some(c) => if st <= fuel {
                        lemma_search_never_worse(c, procs, 0, best, targets, k, st);
                    },
                    None => {},
                },
                None => {},
            }
        }
    }
}

/// The outcome of a search in model terms: the best kept, whether it was
/// exhaustive, the steps left and the clock answers left.
pub open spec fn outcome(best: Option<StateSpec>, exh: bool, steps: nat, k: nat) -> (
    Option<StateSpec>,
    bool,
    nat,
    nat,
) {
    (best, exh, steps, k)
}

/// `k` clock answers finding time left are consistent with what a run saw
/// between the deadline states `before` and `after`: exactly the answers that
/// found time left where the run ended by finding the budget used up, and at
/// least those otherwise.
pub open spec fn clock_fits(before: Deadline, after: Deadline, k: nat) -> bool {
    let used = after.time_left_count() - before.time_left_count();
    if after.is_passed() {
        k == used
    } else {
        k >= used
    }
}

/// The deadline `b` follows `a`: no fewer answers finding time left, and once
/// found used up, the budget stays so with no further answers.
pub open spec fn clock_later(a: Deadline, b: Deadline) -> bool {
    &&& b.time_left_count() >= a.time_left_count()
    &&& a.is_passed() ==> b.is_passed() && b.time_left_count() == a.time_left_count()
}

/// A search from `s` that left `after_best`, `exh`, `steps_after` and the
/// deadline `d_after` did what `search_cut` says for every count of clock
/// answers consistent with what it saw.
pub open spec fn follows_model(
    s: StateSpec,
    procs: Seq<ProcessSpec>,
    lo: nat,
    before_best: Option<StateSpec>,
    targets: Seq<Seq<char>>,
    steps_before: nat,
    d_before: Deadline,
    after_best: Option<StateSpec>,
    exh: bool,
    steps_after: nat,
    d_after: Deadline,
) -> bool {
    forall|kk: nat|
        #[trigger] clock_fits(d_before, d_after, kk) ==> search_cut(
            s,
            procs,
            lo,
            before_best,
            targets,
            kk,
            steps_before,
        ) == outcome(
            after_best,
            exh,
            steps_after,
            (kk - (d_after.time_left_count() - d_before.time_left_count())) as nat,
        )
}

proof fn lemma_fits_earlier(d0: Deadline, d1: Deadline, d2: Deadline, kk: nat)
    requires
        clock_later(d0, d1),
        clock_later(d1, d2),
        clock_fits(d0, d2, kk),
    ensures
        clock_fits(d0, d1, kk),
        clock_later(d0, d2),
{
}

proof fn lemma_fits_split(d0: Deadline, d1: Deadline, d2: Deadline, kk: nat)
    requires
        clock_later(d0, d1),
        clock_later(d1, d2),
        clock_fits(d0, d2, kk),
    ensures
        kk >= d1.time_left_count() - d0.time_left_count(),
        clock_fits(d1, d2, (kk - (d1.time_left_count() - d0.time_left_count())) as nat),
{
}

/// The numbers of `v`, as natural numbers.
pub open spec fn nat_seq(v: Seq<usize>) -> Seq<nat> {
    v.map_values(|x: usize| x as nat)
}

/// The positions from `lo` on of the processes whose needs `stocks` cover,
/// in increasing order.
fn startable_processes(processes: &[Process], stocks: &StockMap, lo: usize) -> (startable: Vec<usize>)
    requires
        all_wf(processes@),
        stocks.wf(),
    ensures
        nat_seq(startable@) == startable_list(stocks@, procs_view(processes@), lo as nat, processes@.len() as nat),
        forall|j: int|
            0 <= j < startable@.len() ==> lo <= #[trigger] startable@[j] && startable@[j] < processes@.len(),
        forall|j: int|
            0 <= j < startable@.len() ==> covers(
                stocks@,
                #[trigger] procs_view(processes@)[startable@[j] as int].needs,
            ),
        forall|k: int|
            lo <= k < processes@.len() && covers(stocks@, #[trigger] procs_view(processes@)[k].needs) ==> exists|j: int|
                0 <= j < startable@.len() && startable@[j] == k,
        forall|j1: int, j2: int|
            0 <= j1 < j2 < startable@.len() ==> #[trigger] startable@[j1] < #[trigger] startable@[j2],
{
    let ghost pv = procs_view(processes@);
    let n = processes.len();
    let mut startable: Vec<usize> = Vec::new();
    for i in 0..n
        invariant
            n == processes@.len(),
            all_wf(processes@),
            stocks.wf(),
            pv == procs_view(processes@),
            forall|j: int|
                0 <= j < startable@.len() ==> lo <= #[trigger] startable@[j] && startable@[j]
                    < n,
            forall|j: int|
                0 <= j < startable@.len() ==> covers(
                    stocks@,
                    #[trigger] pv[startable@[j] as int].needs,
                ),
            forall|k: int|
                lo <= k < i && covers(stocks@, #[trigger] pv[k].needs) ==> exists|j: int|
                    0 <= j < startable@.len() && startable@[j] == k,
            forall|j: int| 0 <= j < startable@.len() ==> #[trigger] startable@[j] < i,
            nat_seq(startable@) == startable_list(stocks@, pv, lo as nat, i as nat),
            forall|j1: int, j2: int|
                0 <= j1 < j2 < startable@.len() ==> #[trigger] startable@[j1] < #[trigger] startable@[j2],
    {
        assert(processes@[i as int].wf());
        assert(pv[i as int] == processes@[i as int]@);
        let ghost before = startable@;
        let ghost slb = startable_list(stocks@, pv, lo as nat, i as nat);
        let cs = processes[i].can_start(stocks);
        assert(cs == covers(stocks@, pv[i as int].needs));
        if cs && i >= lo {
            startable.push(i);
            assert forall|j: int| 0 <= j < startable@.len() implies covers(
                stocks@,
                #[trigger] pv[startable@[j] as int].needs,
            ) by {
                if j < before.len() {
                    assert(startable@[j] == before[j]);
                }
            }
            assert forall|j: int| 0 <= j < startable@.len() implies lo <= #[trigger] startable@[j]
                && startable@[j] < n by {
                if j < before.len() {
                    assert(startable@[j] == before[j]);
                }
            }
            assert(startable@[before.len() as int] == i);
            assert forall|j: int| 0 <= j < startable@.len() implies #[trigger] startable@[j] < i + 1 by {
                if j < before.len() {
                    assert(startable@[j] == before[j]);
                }
            }
            assert forall|j1: int, j2: int|
                0 <= j1 < j2 < startable@.len() implies #[trigger] startable@[j1] < #[trigger] startable@[j2] by {
                assert(startable@[j1] == before[j1]);
                if j2 < before.len() {
                    assert(startable@[j2] == before[j2]);
                }
            }
        }
        assert(startable_list(stocks@, pv, lo as nat, (i + 1) as nat) == if lo <= i && covers(
            stocks@,
            pv[i as int].needs,
        ) {
            slb.push(i as nat)
        } else {
            slb
        });
        if cs && i >= lo {
            assert(nat_seq(startable@) =~= nat_seq(before).push(i as nat));
        }
        assert forall|k: int| lo <= k < i + 1 && covers(stocks@, #[trigger] pv[k].needs) implies exists|j: int|
            0 <= j < startable@.len() && startable@[j] == k by {
            if k < i {
                let j = choose|j: int| 0 <= j < before.len() && before[j] == k;
                assert(startable@[j] == before[j]);
            } else {
                assert(startable@[before.len() as int] == i);
            }
        }
    }
    assert(n as nat == processes@.len());
    startable
}

/// Depth-first search over schedules from `state`, keeping in `best` the best
/// complete schedule found. At a choice point every startable process (from
/// index `idx` on, so that starts within a cycle keep the order of the list)
/// and the advance to the next finishing cycle are explored in turn; where
/// there is a single choice it is taken in place. A branch ends when nothing
/// can start or finish (its state is a candidate), or when the deadline has
/// passed, the step budget is spent, or the clock has reached `usize::MAX` (the
/// state with every running process finished is then a candidate, and the
/// branch is cut short). A start or an advance that is refused or would exceed
/// `usize` is not taken; where it was the only choice, the branch ends there.
/// Returns whether no branch was cut short; then `best` is the best of the old
/// best and every end state of the search (see `search_leaf`), the first one
/// found among equals. A search whose budget exceeds what a `Duration` can
/// hold, that has steps left at the end and that meets no state at cycle
/// `usize::MAX` is not cut short. Whatever the clock answers, the search does
/// what `search_cut` says for the number of deadline checks that found time
/// left (`follows_model`); once a check finds the budget used up, `deadline`
/// keeps that answer.
#[verifier::spinoff_prover]
#[verifier::rlimit(100)]
pub fn search(
    deadline: &mut Deadline,
    steps: &mut u64,
    state: State,
    processes: &[Process],
    idx: usize,
    optimize: &[String],
    best: &mut Option<State>,
    anchor: Ghost<StateSpec>,
) -> (exhaustive: bool)
    requires
        old(deadline).wf(),
        state.wf(),
        anchored(anchor@, state@),
        settled(state@),
        all_wf(processes@),
        *old(best) matches Some(b) ==> b.wf(),
    ensures
        final(deadline).wf(),
        final(deadline).budget() == old(deadline).budget(),
        clock_later(*old(deadline), *final(deadline)),
        follows_model(
            state@,
            procs_view(processes@),
            idx as nat,
            opt_view(*old(best)),
            targets_view(optimize@),
            *old(steps) as nat,
            *old(deadline),
            opt_view(*final(best)),
            exhaustive,
            *final(steps) as nat,
            *final(deadline),
        ),
        *final(steps) <= *old(steps),
        *final(best) matches Some(b) ==> b.wf(),
        improves(
            opt_view(*old(best)),
            opt_view(*final(best)),
            state@,
            procs_view(processes@),
            targets_view(optimize@),
        ),
        new_best_ordered(
            opt_view(*old(best)),
            opt_view(*final(best)),
            state@,
            procs_view(processes@),
            idx as nat,
        ),
        new_best_replays(
            opt_view(*old(best)),
            opt_view(*final(best)),
            state@,
            anchor@,
            procs_view(processes@),
        ),
        *final(best) is None ==> blocked_from(state@, procs_view(processes@)),
        exhaustive ==> forall|path: Seq<nat>|
            #[trigger] search_leaf(state@, procs_view(processes@), idx as nat, path) matches Some(t)
                ==> dominates(opt_view(*final(best)), t, targets_view(optimize@)),
        exhaustive ==> (opt_view(*final(best)) == opt_view(*old(best)) || exists|path: Seq<nat>|
            #[trigger] search_leaf(state@, procs_view(processes@), idx as nat, path) == opt_view(
                *final(best),
            )),
        exhaustive ==> (opt_view(*final(best)) == opt_view(*old(best)) || (opt_view(*final(best)) matches Some(b)
            && first_among(b, state@, procs_view(processes@), idx as nat, targets_view(optimize@)))),
        !exhaustive ==> (*final(steps) == 0 || old(deadline).budget() <= DURATION_MAX_NANOS
            || reaches_cycle_cap(state@, procs_view(processes@), idx as nat)),
        (*old(steps) == 0 || old(deadline).budget() == 0) ==> !exhaustive && opt_view(*final(best))
            == cut_outcome(opt_view(*old(best)), state@, targets_view(optimize@)),
    decreases *old(steps),
{
    let ghost budget = deadline.budget();
    let ghost d0 = *deadline;
    let ghost steps0 = *steps as nat;
    let ghost s0 = state@;
    let ghost pv = procs_view(processes@);
    let ghost tv = targets_view(optimize@);
    let ghost b0 = opt_view(*best);
    let ghost idx0 = idx as nat;
    let ghost mut plan: Seq<(nat, nat)> = Seq::empty();
    let ghost mut trail: Seq<nat> = Seq::empty();
    let ghost mut acts: Seq<(usize, Seq<char>)> = Seq::empty();
    let ghost mut anc: StateSpec = anchor@;
    let mut cur = state;
    let mut lo = idx;
    proof {
        lemma_reachable_refl(s0, pv);
        assert(s0.history + plan_log(plan, pv) =~= s0.history);
        assert(s0.history + history_of(acts) =~= s0.history);
        assert forall|path: Seq<nat>| #[trigger] search_leaf(s0, pv, idx0, path) is Some implies path.len()
            >= trail.len() && path.take(trail.len() as int) == trail by {
            assert(path.take(0) =~= trail);
        }
    }
    loop
        invariant
            cur.wf(),
            s0 == state@,
            deadline.wf(),
            deadline.budget() == budget,
            budget == old(deadline).budget(),
            d0 == *old(deadline),
            steps0 == *old(steps) as nat,
            clock_later(d0, *deadline),
            forall|kk: nat|
                #[trigger] clock_fits(d0, *deadline, kk) ==> search_cut(s0, pv, idx0, b0, tv, kk, steps0)
                    == search_cut(cur@, pv, lo as nat, b0, tv, (kk - (deadline.time_left_count() - d0.time_left_count())) as nat, *steps as nat),
            settled(cur@),
            all_wf(processes@),
            pv == procs_view(processes@),
            tv == targets_view(optimize@),
            reachable(s0, pv, cur@),
            *steps <= *old(steps),
            *best matches Some(b) ==> b.wf(),
            b0 == opt_view(*old(best)),
            opt_view(*best) == b0,
            b0 is None ==> *best is None,
            idx0 == idx as nat,
            ordered_plan(plan, pv, (s0.cycle, idx0)),
            cur@.history == s0.history + plan_log(plan, pv),
            forall|k: int| 0 <= k < plan.len() ==> start_le(#[trigger] plan[k], (cur@.cycle, lo as nat)),
            start_le((s0.cycle, idx0), (cur@.cycle, lo as nat)),
            search_walk(s0, pv, idx0, trail) == Some((cur@, lo as nat)),
            forall|path: Seq<nat>| #[trigger] search_leaf(s0, pv, idx0, path) is Some ==> path.len()
                >= trail.len() && path.take(trail.len() as int) == trail,
            (*old(steps) == 0 || budget == 0) ==> cur@ == s0,
            replay(anchor@, pv, acts) == Some(anc),
            anchored(anc, cur@),
            cur@.history == s0.history + history_of(acts),
        decreases *steps,
    {
        let ghost d1 = *deadline;
        let ghost steps1 = *steps;
        let cut = if *steps == 0 {
            true
        } else if deadline.check() {
            true
        } else {
            cur.curr_cycle == usize::MAX
        };
        if cut {
            let mut final_state = cur.duplicate();
            let finished = final_state.try_finish_all();
            proof {
                if !finished {
                    assert(blocked(cur@, pv));
                    lemma_reachable_refl(cur@, pv);
                    assert(blocked_from(cur@, pv));
                    lemma_blocked_from_trans(s0, pv, cur@);
                }
            }
            if finished {
                let ghost before = opt_view(*best);
                proof {
                    lemma_state_cycles_fit(&cur);
                    lemma_finish_all_reachable(cur@, pv);
                    lemma_reachable_trans(s0, pv, cur@, final_state@);
                    lemma_drain_history(cur@, cur@.running.len());
                    assert(ordered_after(final_state@, s0, pv, idx0));
                    lemma_anchored_finish(anchor@, s0, pv, acts, anc, cur@);
                }
                offer(best, final_state, optimize);
                proof {
                    lemma_reachable_refl(s0, pv);
                    lemma_improves_chain(b0, before, opt_view(*best), s0, s0, pv, tv);
                }
            }
            proof {
                if *steps != 0 && budget > DURATION_MAX_NANOS {
                    assert(cur@.cycle == usize::MAX);
                    assert(search_walk(s0, pv, idx0, trail) matches Some(p) && p.0.cycle == usize::MAX);
                }
                assert(opt_view(*best) == cut_outcome(b0, cur@, tv));
                assert forall|kk: nat| #[trigger] clock_fits(d0, *deadline, kk) implies search_cut(
                    s0,
                    pv,
                    idx0,
                    b0,
                    tv,
                    kk,
                    steps0,
                ) == outcome(opt_view(*best), false, *steps as nat, (kk - (deadline.time_left_count() - d0.time_left_count())) as nat) by {
                    lemma_fits_earlier(d0, d1, *deadline, kk);
                }
            }
            return false;
        }
        *steps = *steps - 1;
        let ghost d2 = *deadline;
        let ghost st0 = *steps as nat;
        proof {
            assert forall|kk: nat| #[trigger] clock_fits(d0, d2, kk) implies search_cut(
                s0,
                pv,
                idx0,
                b0,
                tv,
                kk,
                steps0,
            ) == search_cut(cur@, pv, lo as nat, b0, tv, (kk - (d1.time_left_count() - d0.time_left_count())) as nat, steps1 as nat)
                && (kk - (d1.time_left_count() - d0.time_left_count())) as nat > 0 by {
                lemma_fits_earlier(d0, d1, d2, kk);
            }
        }
        let n = processes.len();
        let startable = startable_processes(processes, &cur.stocks, lo);
        let next = cur.get_next_cycle();
        let can_advance = next.is_some();
        let startable_amount = startable.len();
        let ghost sl = startable_list(cur@.stocks, pv, lo as nat, n as nat);
        proof {
            lemma_min_finish(cur@.running);
            assert(n as nat == pv.len());
        }
        if startable_amount == 0 && !can_advance {
            let ghost before = opt_view(*best);
            let ghost c = cur@;
            proof {
                assert(ordered_after(cur@, s0, pv, idx0));
                assert(search_end(c, pv, lo as nat)) by {
                    assert forall|k: int| lo <= k < pv.len() implies !covers(c.stocks, #[trigger] pv[k].needs) by {
                        if covers(c.stocks, pv[k].needs) {
                            let j = choose|j: int| 0 <= j < startable@.len() && startable@[j] == k;
                        }
                    }
                }
                lemma_better_irreflexive(c, tv);
                lemma_anchored_leaf(anchor@, s0, pv, acts, anc, c);
            }
            offer(best, cur, optimize);
            proof {
                lemma_reachable_refl(s0, pv);
                lemma_improves_chain(b0, before, opt_view(*best), s0, s0, pv, tv);
                assert forall|path: Seq<nat>| #[trigger] search_leaf(s0, pv, idx0, path) is Some implies dominates(
                    opt_view(*best),
                    search_leaf(s0, pv, idx0, path)->0,
                    tv,
                ) by {
                    lemma_leaf_through(s0, pv, idx0, trail, path);
                    let rest = path.skip(trail.len() as int);
                    if rest.len() > 0 {
                        let k0 = rest[0];
                        if k0 < pv.len() && lo <= k0 && covers(c.stocks, pv[k0 as int].needs) {
                            let j = choose|j: int| 0 <= j < startable@.len() && startable@[j] == k0;
                        }
                        assert(search_step(c, pv, lo as nat, k0) is None);
                    }
                }
                lemma_walk_leaf(s0, pv, idx0, trail, Seq::<nat>::empty());
                assert(trail + Seq::<nat>::empty() =~= trail);
                assert(search_leaf(s0, pv, idx0, trail) == Some(c));
                assert(search_leaf(c, pv, lo as nat, Seq::<nat>::empty()) == Some(c));
                assert(earlier_worse(c, c, pv, lo as nat, Seq::<nat>::empty(), tv));
                assert(first_among(c, c, pv, lo as nat, tv));
                lemma_first_through(c, s0, pv, idx0, trail, tv);
                assert forall|kk: nat| #[trigger] clock_fits(d0, *deadline, kk) implies search_cut(
                    s0,
                    pv,
                    idx0,
                    b0,
                    tv,
                    kk,
                    steps0,
                ) == outcome(opt_view(*best), true, *steps as nat, (kk - (deadline.time_left_count() - d0.time_left_count())) as nat) by {
                    assert(clock_fits(d0, d2, kk));
                }
            }
            return true;
        }
        if startable_amount > 1 || (startable_amount == 1 && can_advance) {
            let mut exhaustive = true;
            for k in 0..startable_amount
                invariant
                    startable_amount == startable@.len(),
                    startable_amount >= 1,
                    n == processes@.len(),
                    forall|j: int|
                        0 <= j < startable@.len() ==> lo <= #[trigger] startable@[j]
                            && startable@[j] < n,
                    cur.wf(),
                    deadline.wf(),
                    deadline.budget() == budget,
                    budget == old(deadline).budget(),
                    clock_later(d0, *deadline),
                    settled(cur@),
                    all_wf(processes@),
                    pv == procs_view(processes@),
                    tv == targets_view(optimize@),
                    reachable(s0, pv, cur@),
                    *steps < *old(steps),
                    *best matches Some(b) ==> b.wf(),
                    b0 == opt_view(*old(best)),
                    improves(b0, opt_view(*best), s0, pv, tv),
                    idx0 == idx as nat,
                    new_best_ordered(b0, opt_view(*best), s0, pv, idx0),
                    ordered_plan(plan, pv, (s0.cycle, idx0)),
                    cur@.history == s0.history + plan_log(plan, pv),
                    forall|j: int|
                        0 <= j < plan.len() ==> start_le(
                            #[trigger] plan[j],
                            (cur@.cycle, lo as nat),
                        ),
                    start_le((s0.cycle, idx0), (cur@.cycle, lo as nat)),
                    forall|j: int|
                        0 <= j < startable@.len() ==> covers(
                            cur@.stocks,
                            #[trigger] pv[startable@[j] as int].needs,
                        ),
                    opt_view(*best) is None ==> (k == 0 || blocked_from(s0, pv)),
                    search_walk(s0, pv, idx0, trail) == Some((cur@, lo as nat)),
                    exhaustive ==> forall|path: Seq<nat>|
                        #![trigger search_leaf(cur@, pv, lo as nat, path)]
                        path.len() > 0 && (exists|j: int| 0 <= j < k && startable@[j] == path[0])
                            && search_leaf(cur@, pv, lo as nat, path) is Some ==> dominates(
                            opt_view(*best),
                            search_leaf(cur@, pv, lo as nat, path)->0,
                            tv,
                        ),
                    exhaustive ==> (opt_view(*best) == b0 || exists|path: Seq<nat>|
                        #[trigger] search_leaf(s0, pv, idx0, path) == opt_view(*best)),
                    replay(anchor@, pv, acts) == Some(anc),
                    anchored(anc, cur@),
                    cur@.history == s0.history + history_of(acts),
                    new_best_replays(b0, opt_view(*best), s0, anchor@, pv),
                    !exhaustive ==> (*steps == 0 || budget <= DURATION_MAX_NANOS
                        || reaches_cycle_cap(s0, pv, idx0)),
                    exhaustive ==> (opt_view(*best) == b0 || (opt_view(*best) matches Some(b)
                        && first_among(b, cur@, pv, lo as nat, tv))),
                    forall|k2: int|
                        lo <= k2 < n && covers(cur@.stocks, #[trigger] pv[k2].needs) ==> exists|j: int|
                            0 <= j < startable@.len() && startable@[j] == k2,
                    forall|j1: int, j2: int|
                        0 <= j1 < j2 < startable@.len() ==> #[trigger] startable@[j1]
                            < #[trigger] startable@[j2],
                    clock_later(d2, *deadline),
                    *steps as nat <= st0,
                    nat_seq(startable@) == sl,
                    forall|kk: nat|
                        #[trigger] clock_fits(d0, *deadline, kk) ==> search_children(
                            cur@,
                            pv,
                            tv,
                            sl,
                            0,
                            b0,
                            true,
                            (kk - (d2.time_left_count() - d0.time_left_count())) as nat,
                            st0,
                            st0,
                        ) == search_children(
                            cur@,
                            pv,
                            tv,
                            sl,
                            k as nat,
                            opt_view(*best),
                            exhaustive,
                            (kk - (deadline.time_left_count() - d0.time_left_count())) as nat,
                            *steps as nat,
                            st0,
                        ),
            {
                let i = startable[k];
                assert(lo <= startable@[k as int] && startable@[k as int] < n);
                let mut child = cur.duplicate();
                let started_child = try_start(&mut child, i, processes);
                let ghost before = opt_view(*best);
                let ghost dbc = *deadline;
                let ghost sbc = *steps as nat;
                let ghost ebc = exhaustive;
                proof {
                    assert(sl[k as int] == nat_seq(startable@)[k as int]);
                    assert(sl[k as int] == i as nat);
                }
                proof {
                    assert(pv[i as int].name == processes@[i as int].name@);
                    assert(covers(cur@.stocks, pv[i as int].needs));
                    if !started_child {
                        assert(blocked(cur@, pv));
                        lemma_reachable_refl(cur@, pv);
                        lemma_blocked_from_trans(s0, pv, cur@);
                        assert(search_step(cur@, pv, lo as nat, i as nat) is None);
                    }
                }
                if started_child {
                    let ghost x = (cur@.cycle, i as nat);
                    let ghost c = child@;
                    proof {
                        lemma_reachable_step(
                            s0,
                            pv,
                            cur@,
                            Move::Start(processes@[i as int].name@),
                            child@,
                        );
                        lemma_find_named(pv, pv[i as int].name);
                        lemma_plan_push(plan, pv, (s0.cycle, idx0), x);
                        assert(child@.history == s0.history + plan_log(plan.push(x), pv));
                        assert(search_step(cur@, pv, lo as nat, i as nat) == Some((c, i as nat)));
                        lemma_anchored_start(anchor@, pv, acts, anc, cur@, pv[i as int].name, c);
                        lemma_anchored_self(c);
                    }
                    let ghost xa = (cur@.cycle as usize, pv[i as int].name);
                    let child_exh = search(
                        deadline,
                        steps,
                        child,
                        processes,
                        i,
                        optimize,
                        best,
                        Ghost(c),
                    );
                    proof {
                        lemma_improves_chain(b0, before, opt_view(*best), s0, c, pv, tv);
                        if opt_view(*best) is None {
                            lemma_blocked_from_trans(s0, pv, c);
                        }
                        if opt_view(*best) is Some && before != opt_view(*best) {
                            lemma_ordered_after_chain(
                                opt_view(*best)->0,
                                s0,
                                pv,
                                idx0,
                                plan.push(x),
                                c,
                                i as nat,
                            );
                            lemma_replays_chain(opt_view(*best)->0, s0, anchor@, pv, acts.push(xa), c, c);
                        }
                        if !child_exh && *steps != 0 && budget > DURATION_MAX_NANOS {
                            lemma_walk_push(s0, pv, idx0, trail, i as nat);
                            lemma_cap_through(s0, pv, idx0, trail.push(i as nat));
                        }
                        if exhaustive && child_exh && opt_view(*best) != before {
                            assert forall|q: Seq<nat>|
                                #![trigger search_leaf(cur@, pv, lo as nat, q)]
                                q.len() > 0 && q[0] < i && search_leaf(cur@, pv, lo as nat, q) is Some implies dominates(
                                    before,
                                    search_leaf(cur@, pv, lo as nat, q)->0,
                                    tv,
                                ) by {
                                assert(search_step(cur@, pv, lo as nat, q[0]) is Some);
                                let j = choose|j: int| 0 <= j < startable@.len() && startable@[j] == q[0];
                                if j >= k {
                                    if j > k {
                                        assert(startable@[k as int] < startable@[j]);
                                    }
                                }
                                assert(j < k);
                            }
                            lemma_first_via_child(
                                opt_view(*best)->0,
                                cur@,
                                pv,
                                lo as nat,
                                i as nat,
                                c,
                                i as nat,
                                before,
                                tv,
                            );
                        }
                        if exhaustive && child_exh {
                            assert forall|path: Seq<nat>|
                                #![trigger search_leaf(cur@, pv, lo as nat, path)]
                                path.len() > 0 && (exists|j: int| 0 <= j < k + 1 && startable@[j] == path[0])
                                    && search_leaf(cur@, pv, lo as nat, path) is Some implies dominates(
                                    opt_view(*best),
                                    search_leaf(cur@, pv, lo as nat, path)->0,
                                    tv,
                                ) by {
                                let t = search_leaf(cur@, pv, lo as nat, path)->0;
                                if path[0] == i {
                                    assert(search_leaf(cur@, pv, lo as nat, path) == search_leaf(
                                        c,
                                        pv,
                                        i as nat,
                                        path.skip(1),
                                    ));
                                } else {
                                    let j = choose|j: int| 0 <= j < k + 1 && startable@[j] == path[0];
                                    assert(j < k);
                                    lemma_dominates_mono(before, opt_view(*best), c, pv, tv, t);
                                }
                            }
                            if opt_view(*best) != before {
                                let rest = choose|rest: Seq<nat>|
                                    #[trigger] search_leaf(c, pv, i as nat, rest) == opt_view(*best);
                                lemma_walk_push(s0, pv, idx0, trail, i as nat);
                                lemma_leaf_via_step(s0, pv, idx0, trail, i as nat, rest);
                                assert(search_leaf(s0, pv, idx0, trail.push(i as nat) + rest) == opt_view(
                                    *best,
                                ));
                            }
                        }
                    }
                    exhaustive = exhaustive && child_exh;
                    proof {
                        assert forall|kk: nat| #[trigger] clock_fits(d0, *deadline, kk) implies search_children(
                            cur@,
                            pv,
                            tv,
                            sl,
                            0,
                            b0,
                            true,
                            (kk - (d2.time_left_count() - d0.time_left_count())) as nat,
                            st0,
                            st0,
                        ) == search_children(
                            cur@,
                            pv,
                            tv,
                            sl,
                            (k + 1) as nat,
                            opt_view(*best),
                            exhaustive,
                            (kk - (deadline.time_left_count() - d0.time_left_count())) as nat,
                            *steps as nat,
                            st0,
                        ) by {
                            lemma_fits_earlier(d0, dbc, *deadline, kk);
                            lemma_fits_split(d0, dbc, *deadline, kk);
                            let kb = (kk - (dbc.time_left_count() - d0.time_left_count())) as nat;
                            assert(clock_fits(dbc, *deadline, kb));
                        }
                    }
                } else {
                    proof {
                        assert forall|kk: nat| #[trigger] clock_fits(d0, *deadline, kk) implies search_children(
                            cur@,
                            pv,
                            tv,
                            sl,
                            0,
                            b0,
                            true,
                            (kk - (d2.time_left_count() - d0.time_left_count())) as nat,
                            st0,
                            st0,
                        ) == search_children(
                            cur@,
                            pv,
                            tv,
                            sl,
                            (k + 1) as nat,
                            opt_view(*best),
                            exhaustive,
                            (kk - (deadline.time_left_count() - d0.time_left_count())) as nat,
                            *steps as nat,
                            st0,
                        ) by {
                        }
                        if exhaustive {
                            assert forall|path: Seq<nat>|
                                #![trigger search_leaf(cur@, pv, lo as nat, path)]
                                path.len() > 0 && (exists|j: int| 0 <= j < k + 1 && startable@[j] == path[0])
                                    && search_leaf(cur@, pv, lo as nat, path) is Some implies dominates(
                                    opt_view(*best),
                                    search_leaf(cur@, pv, lo as nat, path)->0,
                                    tv,
                                ) by {
                                if path[0] == i {
                                    assert(search_step(cur@, pv, lo as nat, path[0]) is None);
                                } else {
                                    let j = choose|j: int| 0 <= j < k + 1 && startable@[j] == path[0];
                                    assert(j < k);
                                }
                            }
                        }
                    }
                }
            }
            let ghost before_adv = opt_view(*best);
            let ghost dl = *deadline;
            let ghost sll = *steps as nat;
            let ghost el = exhaustive;
            proof {
                assert(startable@[0] < n && lo <= startable@[0]);
                assert(covers(cur@.stocks, pv[startable@[0] as int].needs));
                assert(!search_end(cur@, pv, lo as nat));
            }
            match next {
                Some(nc) => {
                    let mut child = cur.duplicate();
                    let ghost cs = cur@;
                    proof {
                        lemma_advance_to_min(cur@, nc as nat);
                        let j = choose|j: int|
                            0 <= j < cur@.running.len() && #[trigger] cur@.running[j].1 == nc;
                        assert(cur@.running[j].1 > cur@.cycle);
                    }
                    match child.try_advance_to(nc) {
                        Ok(()) => {
                            proof {
                                lemma_reachable_step(s0, pv, cur@, Move::Advance(nc as nat), child@);
                                lemma_advanced_basics(cur@, nc as nat);
                            }
                            let ghost c = child@;
                            proof {
                                assert(search_step(cs, pv, lo as nat, n as nat) == Some((c, 0nat)));
                                lemma_anchored_advance(anc, cs, nc as nat);
                            }
                            let child_exh = search(
                        deadline,
                        steps,
                                child,
                                processes,
                                0,
                                optimize,
                                best,
                                Ghost(anc),
                            );
                            proof {
                                lemma_improves_chain(b0, before_adv, opt_view(*best), s0, c, pv, tv);
                                if opt_view(*best) is None {
                                    lemma_blocked_from_trans(s0, pv, c);
                                }
                                if opt_view(*best) is Some && before_adv != opt_view(*best) {
                                    lemma_ordered_after_chain(
                                        opt_view(*best)->0,
                                        s0,
                                        pv,
                                        idx0,
                                        plan,
                                        c,
                                        0,
                                    );
                                    lemma_replays_chain(opt_view(*best)->0, s0, anchor@, pv, acts, c, anc);
                                }
                                if !child_exh && *steps != 0 && budget > DURATION_MAX_NANOS {
                                    lemma_walk_push(s0, pv, idx0, trail, n as nat);
                                    lemma_cap_through(s0, pv, idx0, trail.push(n as nat));
                                }
                                if exhaustive && child_exh && opt_view(*best) != before_adv {
                                    assert forall|q: Seq<nat>|
                                        #![trigger search_leaf(cs, pv, lo as nat, q)]
                                        q.len() > 0 && q[0] < n && search_leaf(cs, pv, lo as nat, q) is Some implies dominates(
                                            before_adv,
                                            search_leaf(cs, pv, lo as nat, q)->0,
                                            tv,
                                        ) by {
                                        assert(search_step(cs, pv, lo as nat, q[0]) is Some);
                                        let j = choose|j: int| 0 <= j < startable@.len() && startable@[j] == q[0];
                                    }
                                    lemma_first_via_child(
                                        opt_view(*best)->0,
                                        cs,
                                        pv,
                                        lo as nat,
                                        n as nat,
                                        c,
                                        0,
                                        before_adv,
                                        tv,
                                    );
                                }
                                if exhaustive && child_exh {
                                    assert forall|path: Seq<nat>|
                                        #![trigger search_leaf(cs, pv, lo as nat, path)]
                                        path.len() > 0 && search_leaf(cs, pv, lo as nat, path) is Some implies dominates(
                                            opt_view(*best),
                                            search_leaf(cs, pv, lo as nat, path)->0,
                                            tv,
                                        ) by {
                                        let t = search_leaf(cs, pv, lo as nat, path)->0;
                                        let k0 = path[0];
                                        assert(search_step(cs, pv, lo as nat, k0) is Some);
                                        if k0 == n {
                                            assert(search_leaf(cs, pv, lo as nat, path) == search_leaf(
                                                c,
                                                pv,
                                                0,
                                                path.skip(1),
                                            ));
                                        } else {
                                            let j = choose|j: int| 0 <= j < startable@.len() && startable@[j] == k0;
                                            lemma_dominates_mono(before_adv, opt_view(*best), c, pv, tv, t);
                                        }
                                    }
                                    if opt_view(*best) != before_adv {
                                        let rest = choose|rest: Seq<nat>|
                                            #[trigger] search_leaf(c, pv, 0, rest) == opt_view(*best);
                                        lemma_walk_push(s0, pv, idx0, trail, n as nat);
                                        lemma_leaf_via_step(s0, pv, idx0, trail, n as nat, rest);
                                        assert(search_leaf(s0, pv, idx0, trail.push(n as nat) + rest)
                                            == opt_view(*best));
                                    }
                                }
                            }
                            exhaustive = exhaustive && child_exh;
                            proof {
                                assert forall|kk: nat| #[trigger] clock_fits(d0, *deadline, kk) implies search_children(
                                    cs,
                                    pv,
                                    tv,
                                    sl,
                                    sl.len(),
                                    before_adv,
                                    el,
                                    (kk - (dl.time_left_count() - d0.time_left_count())) as nat,
                                    sll,
                                    st0,
                                ) == outcome(opt_view(*best), exhaustive, *steps as nat, (kk - (deadline.time_left_count() - d0.time_left_count())) as nat) by {
                                    lemma_fits_split(d0, dl, *deadline, kk);
                                    let kb = (kk - (dl.time_left_count() - d0.time_left_count())) as nat;
                                    assert(clock_fits(dl, *deadline, kb));
                                }
                            }
                        },
                        Err(_) => {
                            proof {
                                assert(search_step(cs, pv, lo as nat, n as nat) is None);
                            }
                        },
                    }
                },
                None => {
                    proof {
                        assert(search_step(cur@, pv, lo as nat, n as nat) is None);
                    }
                },
            }
            proof {
                assert(sl.len() == nat_seq(startable@).len());
                assert forall|kk: nat| #[trigger] clock_fits(d0, *deadline, kk) implies search_cut(
                    s0,
                    pv,
                    idx0,
                    b0,
                    tv,
                    kk,
                    steps0,
                ) == outcome(opt_view(*best), exhaustive, *steps as nat, (kk - (deadline.time_left_count() - d0.time_left_count())) as nat) by {
                    lemma_fits_earlier(d0, dl, *deadline, kk);
                    lemma_fits_earlier(d0, d2, dl, kk);
                    assert(clock_fits(d0, d2, kk));
                    assert(clock_fits(d0, dl, kk));
                    if next is None || *deadline == dl {
                        assert(search_children(cur@, pv, tv, sl, sl.len(), before_adv, el, (kk - (dl.time_left_count() - d0.time_left_count())) as nat, sll, st0)
                            == outcome(opt_view(*best), exhaustive, *steps as nat, (kk - (deadline.time_left_count() - d0.time_left_count())) as nat));
                    }
                }
            }
            proof {
                if exhaustive {
                    assert forall|path: Seq<nat>|
                        #![trigger search_leaf(cur@, pv, lo as nat, path)]
                        path.len() > 0 && search_leaf(cur@, pv, lo as nat, path) is Some implies dominates(
                            opt_view(*best),
                            search_leaf(cur@, pv, lo as nat, path)->0,
                            tv,
                        ) by {
                        let k0 = path[0];
                        assert(search_step(cur@, pv, lo as nat, k0) is Some);
                        if k0 < n {
                            let j = choose|j: int| 0 <= j < startable@.len() && startable@[j] == k0;
                        }
                    }
                    assert forall|path: Seq<nat>| #[trigger] search_leaf(s0, pv, idx0, path) is Some implies dominates(
                        opt_view(*best),
                        search_leaf(s0, pv, idx0, path)->0,
                        tv,
                    ) by {
                        lemma_leaf_through(s0, pv, idx0, trail, path);
                        let rest = path.skip(trail.len() as int);
                        assert(search_leaf(cur@, pv, lo as nat, rest) is Some);
                    }
                    if opt_view(*best) != b0 {
                        lemma_first_through(opt_view(*best)->0, s0, pv, idx0, trail, tv);
                    }
                }
            }
            return exhaustive;
        }
        if startable_amount == 1 {
            let i = startable[0];
            assert(lo <= startable@[0] && startable@[0] < n);
            assert(covers(cur@.stocks, pv[startable@[0] as int].needs));
            let ghost prev = cur@;
            let ghost lo_prev = lo as nat;
            let ghost x = (prev.cycle, i as nat);
            proof {
                assert(sl[0] == nat_seq(startable@)[0]);
                assert(sl.len() == 1 && sl[0] == i as nat);
                assert(pv[i as int].name == processes@[i as int].name@);
                assert(!search_end(prev, pv, lo_prev));
                assert forall|k2: nat| #[trigger] search_step(prev, pv, lo_prev, k2) is Some implies k2 == i as nat by {
                    if k2 < n {
                        let j = choose|j: int| 0 <= j < startable@.len() && startable@[j] == k2;
                    }
                }
            }
            if try_start(&mut cur, i, processes) {
                proof {
                    lemma_reachable_step(s0, pv, prev, Move::Start(processes@[i as int].name@), cur@);
                    lemma_find_named(pv, pv[i as int].name);
                    lemma_plan_push(plan, pv, (s0.cycle, idx0), x);
                    plan = plan.push(x);
                    assert(search_step(prev, pv, lo_prev, i as nat) == Some((cur@, i as nat)));
                    lemma_anchored_start(anchor@, pv, acts, anc, prev, pv[i as int].name, cur@);
                    lemma_anchored_self(cur@);
                    acts = acts.push((prev.cycle as usize, pv[i as int].name));
                    anc = cur@;
                    lemma_walk_push(s0, pv, idx0, trail, i as nat);
                    assert forall|path: Seq<nat>| #[trigger] search_leaf(s0, pv, idx0, path) is Some implies path.len()
                        >= trail.len() + 1 && path.take(trail.len() + 1int) == trail.push(i as nat) by {
                        lemma_leaf_through(s0, pv, idx0, trail, path);
                        let rest = path.skip(trail.len() as int);
                        lemma_only_choice(prev, pv, lo_prev, i as nat, rest);
                        lemma_prefix_push(path, trail, i as nat);
                    }
                    trail = trail.push(i as nat);
                    assert forall|kk: nat| #[trigger] clock_fits(d0, *deadline, kk) implies search_cut(
                        s0,
                        pv,
                        idx0,
                        b0,
                        tv,
                        kk,
                        steps0,
                    ) == search_cut(cur@, pv, i as nat, b0, tv, (kk - (deadline.time_left_count() - d0.time_left_count())) as nat, *steps as nat) by {
                        assert(clock_fits(d0, d2, kk));
                    }
                }
            } else {
                proof {
                    assert(blocked(prev, pv));
                    lemma_reachable_refl(prev, pv);
                    lemma_blocked_from_trans(s0, pv, prev);
                    assert(search_step(prev, pv, lo_prev, i as nat) is None);
                    assert forall|path: Seq<nat>| #[trigger] search_leaf(s0, pv, idx0, path) is Some implies dominates(
                        opt_view(*best),
                        search_leaf(s0, pv, idx0, path)->0,
                        tv,
                    ) by {
                        lemma_leaf_through(s0, pv, idx0, trail, path);
                        let rest = path.skip(trail.len() as int);
                        lemma_only_choice(prev, pv, lo_prev, i as nat, rest);
                    }
                    assert forall|kk: nat| #[trigger] clock_fits(d0, *deadline, kk) implies search_cut(
                        s0,
                        pv,
                        idx0,
                        b0,
                        tv,
                        kk,
                        steps0,
                    ) == outcome(opt_view(*best), true, *steps as nat, (kk - (deadline.time_left_count() - d0.time_left_count())) as nat) by {
                        assert(clock_fits(d0, d2, kk));
                    }
                }
                return true;
            }
            lo = i;
        } else {
            match next {
                Some(nc) => {
                    let ghost prev = cur@;
                    let ghost lo_prev = lo as nat;
                    proof {
                        lemma_advance_to_min(prev, nc as nat);
                        let j = choose|j: int|
                            0 <= j < prev.running.len() && #[trigger] prev.running[j].1 == nc;
                        assert(prev.running[j].1 > prev.cycle);
                        assert(!search_end(prev, pv, lo_prev));
                        assert(sl.len() == nat_seq(startable@).len());
                        assert forall|k2: nat| #[trigger] search_step(prev, pv, lo_prev, k2) is Some implies k2 == n as nat by {
                            if k2 < n {
                                let j = choose|j: int| 0 <= j < startable@.len() && startable@[j] == k2;
                            }
                        }
                    }
                    match cur.try_advance_to(nc) {
                        Ok(()) => {
                            proof {
                                lemma_reachable_step(s0, pv, prev, Move::Advance(nc as nat), cur@);
                                lemma_advanced_basics(prev, nc as nat);
                                assert(search_step(prev, pv, lo_prev, n as nat) == Some((cur@, 0nat)));
                                lemma_anchored_advance(anc, prev, nc as nat);
                                lemma_walk_push(s0, pv, idx0, trail, n as nat);
                                assert forall|path: Seq<nat>| #[trigger] search_leaf(s0, pv, idx0, path) is Some implies path.len()
                                    >= trail.len() + 1 && path.take(trail.len() + 1int) == trail.push(n as nat) by {
                                    lemma_leaf_through(s0, pv, idx0, trail, path);
                                    let rest = path.skip(trail.len() as int);
                                    lemma_only_choice(prev, pv, lo_prev, n as nat, rest);
                                    lemma_prefix_push(path, trail, n as nat);
                                }
                                trail = trail.push(n as nat);
                                assert forall|kk: nat| #[trigger] clock_fits(d0, *deadline, kk) implies search_cut(
                                    s0,
                                    pv,
                                    idx0,
                                    b0,
                                    tv,
                                    kk,
                                    steps0,
                                ) == search_cut(cur@, pv, 0, b0, tv, (kk - (deadline.time_left_count() - d0.time_left_count())) as nat, *steps as nat) by {
                                    assert(clock_fits(d0, d2, kk));
                                }
                            }
                        },
                        Err(_) => {
                            proof {
                                assert(blocked(prev, pv));
                                lemma_reachable_refl(prev, pv);
                                lemma_blocked_from_trans(s0, pv, prev);
                                assert(search_step(prev, pv, lo_prev, n as nat) is None);
                                assert forall|path: Seq<nat>| #[trigger] search_leaf(s0, pv, idx0, path) is Some implies dominates(
                                    opt_view(*best),
                                    search_leaf(s0, pv, idx0, path)->0,
                                    tv,
                                ) by {
                                    lemma_leaf_through(s0, pv, idx0, trail, path);
                                    let rest = path.skip(trail.len() as int);
                                    lemma_only_choice(prev, pv, lo_prev, n as nat, rest);
                                }
                                assert forall|kk: nat| #[trigger] clock_fits(d0, *deadline, kk) implies search_cut(
                                    s0,
                                    pv,
                                    idx0,
                                    b0,
                                    tv,
                                    kk,
                                    steps0,
                                ) == outcome(opt_view(*best), true, *steps as nat, (kk - (deadline.time_left_count() - d0.time_left_count())) as nat) by {
                                    assert(clock_fits(d0, d2, kk));
                                }
                            }
                            return true;
                        },
                    }
                },
                None => {},
            }
            lo = 0;
        }
    }
}

/// The search from `s` with `steps` steps leaves `best`, `exh` and
/// `steps_left` whatever the clock answers beyond the first `used` checks
/// that find time left: no deadline check ever cuts it short.
pub open spec fn clock_never_cuts(
    s: StateSpec,
    procs: Seq<ProcessSpec>,
    targets: Seq<Seq<char>>,
    steps: nat,
    best: Option<StateSpec>,
    exh: bool,
    steps_left: nat,
    used: nat,
) -> bool {
    forall|kk: nat|
        kk >= used ==> #[trigger] search_cut(s, procs, 0, None, targets, kk, steps) == outcome(
            best,
            exh,
            steps_left,
            (kk - used) as nat,
        )
}

/// The state a simulation of `c` starts from: cycle 0, the initial stocks,
/// nothing running, no history.
pub open spec fn initial_state(c: ConfigSpec) -> StateSpec {
    StateSpec { cycle: 0, running: Seq::empty(), stocks: c.stocks, history: Seq::empty() }
}

/// The history of `b` records an ordered plan of starts of `procs`: the
/// cycles never go back, and within a cycle processes start in list order.
pub open spec fn ordered_schedule(b: StateSpec, procs: Seq<ProcessSpec>) -> bool {
    exists|plan: Seq<(nat, nat)>|
        ordered_plan(plan, procs, (0, 0)) && b.history == #[trigger] plan_log(plan, procs)
}

/// Searches for the best complete schedule of `config` within `budget_nanos`
/// nanoseconds of wall-clock time and at most `max_steps` search steps, and
/// says whether the search was exhaustive (no branch cut short by the deadline,
/// the step budget or the clock limit) and how many steps were left. A search
/// with a budget beyond what a `Duration` holds, steps left over and no state
/// at cycle `usize::MAX` on its way is exhaustive. A schedule that comes back is
/// complete (nothing left running), reached from the initial state by legal
/// starts and advances, and its starts come in order: by cycle, and within a
/// cycle by position in the process list. Replaying its starts from the
/// initial state and then finishing every running process gives it back. After
/// an exhaustive search it is an end state of the search that no other end
/// state is better than, and better than every end state the search meets
/// before it (of equally good end states, the first one met is kept). With no
/// time or no steps at all, the initial state itself comes back. Whatever the
/// clock answers, the result is what `search_cut` gives from the initial state
/// for some number of deadline checks that find time left; with a budget
/// beyond what a `Duration` holds, no deadline check cuts it short.
pub fn best_schedule(config: &Config, budget_nanos: u128, max_steps: u64) -> (r: (
    Option<State>,
    bool,
    u64,
))
    requires
        config.wf(),
    ensures
        r.0 matches Some(b) ==> b.wf() && complete_outcome(
            initial_state(config@),
            config@.processes,
            b@,
        ) && ordered_schedule(b@, config@.processes),
        r.0 matches Some(b) ==> replays_to(
            b@,
            initial_state(config@),
            initial_state(config@),
            config@.processes,
        ),
        r.0 is None ==> blocked_from(initial_state(config@), config@.processes),
        r.1 ==> forall|path: Seq<nat>|
            #[trigger] search_leaf(initial_state(config@), config@.processes, 0, path) matches Some(t)
                ==> dominates(opt_view(r.0), t, config@.optimize),
        r.1 ==> (r.0 matches Some(b) ==> first_among(
            b@,
            initial_state(config@),
            config@.processes,
            0,
            config@.optimize,
        )),
        r.1 ==> (r.0 matches Some(b) ==> search_end(b@, config@.processes, 0)),
        r.2 <= max_steps,
        exists|kk: nat|
            #[trigger] search_cut(
                initial_state(config@),
                config@.processes,
                0,
                None,
                config@.optimize,
                kk,
                max_steps as nat,
            ) == outcome(opt_view(r.0), r.1, r.2 as nat, 0),
        budget_nanos > DURATION_MAX_NANOS ==> exists|used: nat|
            #[trigger] clock_never_cuts(
                initial_state(config@),
                config@.processes,
                config@.optimize,
                max_steps as nat,
                opt_view(r.0),
                r.1,
                r.2 as nat,
                used,
            ),
        !r.1 ==> (r.2 == 0 || budget_nanos <= DURATION_MAX_NANOS || reaches_cycle_cap(
            initial_state(config@),
            config@.processes,
            0,
        )),
        (budget_nanos == 0 || max_steps == 0) ==> !r.1 && (r.0 matches Some(b) && b@ == initial_state(
            config@,
        )),
{
    let mut deadline = Deadline::start(budget_nanos);
    let ghost dstart = deadline;
    let initial = State::new(config.stocks.duplicate());
    let ghost s0 = initial@;
    assert(s0 == initial_state(config@));
    let mut best: Option<State> = None;
    let mut steps = max_steps;
    assert(procs_view(config.processes@) == config@.processes);
    assert(targets_view(config.optimize@) == config@.optimize);
    proof {
        lemma_anchored_self(s0);
    }
    let exhaustive = search(
        &mut deadline,
        &mut steps,
        initial,
        config.processes.as_slice(),
        0,
        config.optimize.as_slice(),
        &mut best,
        Ghost(s0),
    );
    proof {
        if best is Some {
            let b = best->0@;
            let plan = choose|plan: Seq<(nat, nat)>|
                ordered_plan(plan, config@.processes, (s0.cycle, 0nat)) && b.history == s0.history
                    + #[trigger] plan_log(plan, config@.processes);
            assert(b.history =~= plan_log(plan, config@.processes));
        }
        if budget_nanos == 0 || max_steps == 0 {
            assert(s0.running.len() == 0);
            lemma_drain_enough(s0, 0);
            assert(finished_all(s0) == s0);
        }
    }
    proof {
        let used = deadline.time_left_count();
        assert(clock_fits(dstart, deadline, used));
        assert(search_cut(s0, config@.processes, 0, None, config@.optimize, used, max_steps as nat)
            == outcome(opt_view(best), exhaustive, steps as nat, 0));
        if budget_nanos > DURATION_MAX_NANOS {
            assert forall|kk: nat| kk >= used implies #[trigger] search_cut(
                s0,
                config@.processes,
                0,
                None,
                config@.optimize,
                kk,
                max_steps as nat,
            ) == outcome(opt_view(best), exhaustive, steps as nat, (kk - used) as nat) by {
                assert(clock_fits(dstart, deadline, kk));
            }
            assert(clock_never_cuts(s0, config@.processes, config@.optimize, max_steps as nat, opt_view(best), exhaustive, steps as nat, used));
        }
        if exhaustive && best is Some {
            let b = best->0@;
            let p = choose|p: Seq<nat>|
                #[trigger] search_leaf(s0, config@.processes, 0, p) == Some(b) && earlier_worse(
                    b,
                    s0,
                    config@.processes,
                    0,
                    p,
                    config@.optimize,
                );
            lemma_leaf_no_start(s0, config@.processes, 0, p);
        }
    }
    (best, exhaustive, steps)
}

} // verus!
