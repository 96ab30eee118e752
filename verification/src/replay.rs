//! Replaying a schedule log against a configuration, and the laws that tie
//! the simulator's history, its log text, the log parser and the replay
//! together: every schedule the simulator can produce is accepted on replay.

use vstd::prelude::*;
use crate::parser::{ConfigSpec, Process, ProcessSpec, log_line_spec, log_from, parse_log_spec};
use crate::simulator::{
    StateSpec, State, advanced, joined_lines, log_text, advance_fits, tick, history_entry, started, find_named,
    lemma_find_named, procs_view, all_wf, lemma_advanced_basics, settled, lemma_tick_settled,
    lemma_collect_settled, lemma_collect_due_settled, lemma_tick_after_collect, still_running, collect_due, lemma_still_running_subset,
    min_finish, lemma_min_finish, lemma_advance_to_min, finished_all, finish_all_fits, lemma_drain_enough,
};
use crate::search::{Move, apply_move, run_moves, reachable, initial_state, lemma_apply_move_settled};
use crate::stock_map::covers;
use crate::simulator::{AdvanceError, find_process, backwards_message};
use crate::text::{
    decimal, positive_digits, digit_char, digit_value, digits_value, parse_usize_spec,
    unsigned_body, all_ascii_digits, is_ascii_digit, is_ws, trim, trim_start, trim_end,
    split_on, kept_lines, keep_line, text_lines, lemma_first_index_unique,
};

verus! {

/// Replays `actions` from `s`: for each `(cycle, name)`, advance the clock to
/// `cycle`, then start `name`. `None` where an action is refused.
pub open spec fn replay(s: StateSpec, procs: Seq<ProcessSpec>, actions: Seq<(usize, Seq<char>)>) -> Option<
    StateSpec,
>
    decreases actions.len(),
{
    if actions.len() == 0 {
        Some(s)
    } else {
        match replay(s, procs, actions.drop_last()) {
            None => None,
            Some(t) => match apply_move(t, procs, Move::Advance(actions.last().0 as nat)) {
                None => None,
                Some(u) => apply_move(u, procs, Move::Start(actions.last().1)),
            },
        }
    }
}

/// The history entries that record `actions`.
pub open spec fn history_of(actions: Seq<(usize, Seq<char>)>) -> Seq<Seq<char>> {
    actions.map_values(|a: (usize, Seq<char>)| history_entry(a.0 as nat, a.1))
}

/// Every action names one of the processes.
pub open spec fn names_from(actions: Seq<(usize, Seq<char>)>, procs: Seq<ProcessSpec>) -> bool {
    forall|k: int|
        #![trigger actions[k]]
        0 <= k < actions.len() ==> exists|j: int|
            0 <= j < procs.len() && #[trigger] procs[j].name == actions[k].1
}

/// Law: advancing to `a` and then to `b` is advancing to `b`, and fits
/// exactly when both legs fit (also where some process is already due).
pub proof fn lemma_advance_compose(s: StateSpec, a: nat, b: nat)
    requires
        s.cycle <= a <= b,
    ensures
        advanced(advanced(s, a), b) == advanced(s, b),
        advance_fits(s, b) == (advance_fits(s, a) && advance_fits(advanced(s, a), b)),
    decreases a - s.cycle,
{
    if s.cycle < a {
        lemma_advance_compose(tick(s), a, b);
    } else {
        let u = collect_due(s);
        lemma_collect_due_settled(s);
        lemma_collect_settled(u);
        if a < b {
            lemma_tick_after_collect(s);
        }
    }
}

/// The moves from `s0` to `s` leave a history that extends that of `s0` by the
/// starts made, and replaying those starts reproduces `s` up to a final advance.
proof fn lemma_moves_replay(s0: StateSpec, procs: Seq<ProcessSpec>, ms: Seq<Move>, s: StateSpec)
    requires
        s0.cycle <= usize::MAX,
        settled(s0),
        run_moves(s0, procs, ms) == Some(s),
    ensures
        s.cycle <= usize::MAX,
        s0.cycle <= s.cycle,
        settled(s),
        exists|actions: Seq<(usize, Seq<char>)>| {
            &&& s.history == s0.history + history_of(actions)
            &&& names_from(actions, procs)
            &&& replay(s0, procs, actions) matches Some(t) && t.cycle <= s.cycle && advance_fits(
                t,
                s.cycle,
            ) && advanced(t, s.cycle) == s && settled(t)
        },
    decreases ms.len(),
{
    if ms.len() == 0 {
        let actions = Seq::<(usize, Seq<char>)>::empty();
        assert(s == s0);
        assert(s.history =~= s0.history + history_of(actions));
        assert(replay(s0, procs, actions) == Some(s0));
        assert(names_from(actions, procs));
        lemma_advanced_basics(s, s.cycle);
        lemma_collect_settled(s);
    } else {
        let u = run_moves(s0, procs, ms.drop_last())->0;
        lemma_moves_replay(s0, procs, ms.drop_last(), u);
        let acts = choose|actions: Seq<(usize, Seq<char>)>| {
            &&& u.history == s0.history + history_of(actions)
            &&& names_from(actions, procs)
            &&& replay(s0, procs, actions) matches Some(t) && t.cycle <= u.cycle && advance_fits(
                t,
                u.cycle,
            ) && advanced(t, u.cycle) == u && settled(t)
        };
        let t = replay(s0, procs, acts)->0;
        lemma_apply_move_settled(u, procs, ms.last());
        match ms.last() {
            Move::Start(name) => {
                lemma_find_named(procs, name);
                let i = find_named(procs, name)->0;
                let p = procs[i as int];
                assert(s == started(u, p));
                let acts2 = acts.push((u.cycle as usize, name));
                assert(acts2.drop_last() =~= acts);
                lemma_advanced_basics(t, u.cycle);
                assert(apply_move(t, procs, Move::Advance(u.cycle)) == Some(u));
                assert(replay(s0, procs, acts2) == Some(s));
                assert(history_of(acts2) =~= history_of(acts).push(history_entry(u.cycle, name)));
                assert(s.history =~= s0.history + history_of(acts2));
                assert forall|k: int| #![trigger acts2[k]] 0 <= k < acts2.len() implies exists|j: int|
                    0 <= j < procs.len() && #[trigger] procs[j].name == acts2[k].1 by {
                    if k < acts.len() {
                        assert(acts2[k] == acts[k]);
                    } else {
                        assert(procs[i as int].name == acts2[k].1);
                    }
                }
                lemma_advanced_basics(s, s.cycle);
                lemma_collect_settled(s);
                assert(names_from(acts2, procs));
            },
            Move::Advance(c) => {
                assert(s == advanced(u, c));
                lemma_advanced_basics(u, c);
                lemma_advanced_basics(t, u.cycle);
                lemma_advance_compose(t, u.cycle, c);
                assert(s.history == s0.history + history_of(acts));
                assert(names_from(acts, procs));
                assert(advanced(t, s.cycle) == s);
            },
        }
    }
}

/// Law: every state reached by legal moves from a settled state (one where no
/// running process is overdue) is reproduced by replaying the starts its
/// history records. Replaying (advance to each recorded cycle, then
/// start the recorded process) succeeds at every step and, once advanced to
/// the final cycle, gives back the same state.
pub proof fn lemma_history_replays(s0: StateSpec, procs: Seq<ProcessSpec>, s: StateSpec)
    requires
        s0.cycle <= usize::MAX,
        settled(s0),
        reachable(s0, procs, s),
    ensures
        exists|actions: Seq<(usize, Seq<char>)>| {
            &&& s.history == s0.history + history_of(actions)
            &&& replay(s0, procs, actions) matches Some(t) && t.cycle <= s.cycle && advance_fits(
                t,
                s.cycle,
            ) && advanced(t, s.cycle) == s
        },
{
    let ms = choose|ms: Seq<Move>| run_moves(s0, procs, ms) == Some(s);
    lemma_moves_replay(s0, procs, ms, s);
}

/// `s` holds no newline.
pub open spec fn no_newline(s: Seq<char>) -> bool {
    forall|i: int| 0 <= i < s.len() ==> #[trigger] s[i] != '\n'
}

/// A name that survives a log line: no newline, and no trailing whitespace
/// (the log reader trims its lines).
pub open spec fn loggable_name(name: Seq<char>) -> bool {
    no_newline(name) && (name.len() > 0 ==> !is_ws(name.last()))
}

proof fn lemma_split_append_plain(x: Seq<char>, y: Seq<char>, sep: char)
    requires
        forall|i: int| 0 <= i < y.len() ==> #[trigger] y[i] != sep,
    ensures
        split_on(x + y, sep) == split_on(x, sep).update(
            split_on(x, sep).len() - 1,
            split_on(x, sep).last() + y,
        ),
    decreases y.len(),
{
    crate::text::lemma_split_on_nonempty(x, sep);
    if y.len() == 0 {
        assert(x + y =~= x);
        assert(split_on(x, sep).last() + y =~= split_on(x, sep).last());
        assert(split_on(x, sep).update(split_on(x, sep).len() - 1, split_on(x, sep).last())
            =~= split_on(x, sep));
    } else {
        let y2 = y.drop_last();
        lemma_split_append_plain(x, y2, sep);
        assert((x + y).drop_last() =~= x + y2);
        assert((x + y).last() == y.last());
        assert(y[y.len() - 1] != sep);
        let prev = split_on(x + y2, sep);
        assert((split_on(x, sep).last() + y2).push(y.last()) =~= split_on(x, sep).last() + y);
        assert(prev.update(prev.len() - 1, prev.last().push(y.last())) =~= split_on(x, sep).update(
            split_on(x, sep).len() - 1,
            split_on(x, sep).last() + y,
        ));
    }
}

/// Splitting lines that each end in a newline, and a last piece, on newlines
/// gives back the lines and the last piece.
pub proof fn lemma_split_joined(h: Seq<Seq<char>>, tail: Seq<char>)
    requires
        forall|i: int| 0 <= i < h.len() ==> #[trigger] no_newline(h[i]),
        no_newline(tail),
    ensures
        split_on(joined_lines(h) + tail, '\n') == h.push(tail),
    decreases h.len(),
{
    if h.len() == 0 {
        lemma_split_append_plain(Seq::empty(), tail, '\n');
        assert(Seq::<char>::empty() + tail =~= tail);
        assert(Seq::<char>::empty() + tail =~= tail);
        assert(seq![Seq::<char>::empty()].update(0, Seq::<char>::empty() + tail) =~= h.push(tail));
    } else {
        let h2 = h.drop_last();
        let l = h.last();
        assert forall|i: int| 0 <= i < h2.len() implies #[trigger] no_newline(h2[i]) by {
            assert(h2[i] == h[i]);
        }
        assert(no_newline(h[h.len() - 1]));
        lemma_split_joined(h2, l);
        let x = joined_lines(h2) + l;
        let xn = x.push('\n');
        assert(joined_lines(h) =~= xn);
        assert(xn.drop_last() =~= x);
        assert(split_on(xn, '\n') == split_on(x, '\n').push(Seq::<char>::empty()));
        lemma_split_append_plain(xn, tail, '\n');
        assert(split_on(x, '\n') == h2.push(l));
        assert(h2.push(l) =~= h);
        assert(Seq::<char>::empty() + tail =~= tail);
        assert(h.push(Seq::<char>::empty()).update(h.len() as int, Seq::<char>::empty() + tail)
            =~= h.push(tail));
        assert(joined_lines(h) + tail =~= xn + tail);
    }
}

proof fn lemma_kept_lines_identity(h: Seq<Seq<char>>)
    requires
        forall|i: int| 0 <= i < h.len() ==> trim(#[trigger] h[i]) == h[i] && keep_line(h[i]),
    ensures
        kept_lines(h) == h,
        kept_lines(h.push(Seq::<char>::empty())) == h,
    decreases h.len(),
{
    let e = Seq::<char>::empty();
    assert(trim(e) == e);
    assert(h.push(e).drop_last() =~= h);
    if h.len() > 0 {
        let h2 = h.drop_last();
        assert forall|i: int| 0 <= i < h2.len() implies trim(#[trigger] h2[i]) == h2[i] && keep_line(
            h2[i],
        ) by {
            assert(h2[i] == h[i]);
        }
        lemma_kept_lines_identity(h2);
        assert(trim(h[h.len() - 1]) == h[h.len() - 1]);
        assert(h2.push(h.last()) =~= h);
    }
}

proof fn lemma_positive_digits(n: nat)
    ensures
        all_ascii_digits(positive_digits(n)),
        digits_value(positive_digits(n)) == n,
        n > 0 ==> positive_digits(n).len() > 0,
    decreases n,
{
    if n > 0 {
        lemma_positive_digits(n / 10);
        let d = digit_char(n % 10);
        assert(is_ascii_digit(d));
        assert(digit_value(d) == n % 10);
        let p = positive_digits(n);
        assert(p.drop_last() =~= positive_digits(n / 10));
        assert forall|i: int| 0 <= i < p.len() implies #[trigger] is_ascii_digit(p[i]) by {
            if i < p.len() - 1 {
                assert(p[i] == positive_digits(n / 10)[i]);
            }
        }
    }
}

/// The decimal representation is digits only, and reads back as the number.
pub proof fn lemma_decimal_reads_back(n: nat)
    requires
        n <= usize::MAX,
    ensures
        all_ascii_digits(decimal(n)),
        decimal(n).len() > 0,
        parse_usize_spec(decimal(n)) == Some(n as usize),
{
    if n == 0 {
        let z = decimal(0);
        assert(z =~= seq!['0']);
        assert(is_ascii_digit(z[0]));
        assert(z.drop_last() =~= Seq::<char>::empty());
        assert(digits_value(Seq::<char>::empty()) == 0);
        assert('0' as int == 48);
        assert(digit_value('0') == 0);
        assert(digits_value(z) == 0);
        assert forall|i: int| 0 <= i < z.len() implies #[trigger] is_ascii_digit(z[i]) by {}
    } else {
        lemma_positive_digits(n);
    }
    assert(digits_value(decimal(n)) == n);
    assert(is_ascii_digit(decimal(n)[0]));
    assert(unsigned_body(decimal(n)) == decimal(n));
}

proof fn lemma_entry_shape(c: nat, name: Seq<char>)
    requires
        c <= usize::MAX,
        loggable_name(name),
    ensures
        trim(history_entry(c, name)) == history_entry(c, name),
        keep_line(history_entry(c, name)),
        no_newline(history_entry(c, name)),
        log_line_spec(history_entry(c, name)) == Ok::<(usize, Seq<char>), Seq<char>>(
            (c as usize, name),
        ),
{
    lemma_decimal_reads_back(c);
    let d = decimal(c);
    let e = history_entry(c, name);
    reveal_strlit(":");
    assert(e =~= d + seq![':'] + name);
    assert(e[0] == d[0]);
    assert(is_ascii_digit(d[0]));
    assert(!is_ws(e[0]));
    assert(trim_start(e) == e);
    if name.len() > 0 {
        assert(e.last() == name.last());
    } else {
        assert(e.last() == ':');
    }
    assert(trim_end(e) == e);
    assert forall|i: int| 0 <= i < e.len() implies #[trigger] e[i] != '\n' by {
        if i < d.len() {
            assert(is_ascii_digit(d[i]));
        } else if i > d.len() {
            assert(e[i] == name[i - d.len() - 1]);
        }
    }
    assert forall|j: int| 0 <= j < d.len() implies #[trigger] e[j] != ':' by {
        assert(e[j] == d[j]);
        assert(is_ascii_digit(d[j]));
    }
    lemma_first_index_unique(e, ':', d.len() as int);
    assert(e.take(d.len() as int) =~= d);
    assert(e.skip(d.len() as int + 1) =~= name);
}

proof fn lemma_log_from_entries(actions: Seq<(usize, Seq<char>)>, n: nat)
    requires
        n <= actions.len(),
        forall|k: int| 0 <= k < actions.len() ==> loggable_name(#[trigger] actions[k].1),
    ensures
        log_from(history_of(actions), n) == Ok::<Seq<(usize, Seq<char>)>, Seq<char>>(actions.take(n as int)),
    decreases n,
{
    if n == 0 {
        assert(actions.take(0) =~= Seq::<(usize, Seq<char>)>::empty());
    } else {
        lemma_log_from_entries(actions, (n - 1) as nat);
        let a = actions[n - 1];
        assert(loggable_name(a.1));
        lemma_entry_shape(a.0 as nat, a.1);
        assert(history_of(actions)[n - 1] == history_entry(a.0 as nat, a.1));
        assert(actions.take(n as int) =~= actions.take(n - 1).push(a));
    }
}

/// Law: the log text of the history of `actions` reads back as `actions`,
/// provided the names have no newline and no trailing whitespace.
pub proof fn lemma_log_round_trip(actions: Seq<(usize, Seq<char>)>)
    requires
        forall|k: int| 0 <= k < actions.len() ==> loggable_name(#[trigger] actions[k].1),
    ensures
        parse_log_spec(log_text(history_of(actions))) == Ok::<Seq<(usize, Seq<char>)>, Seq<char>>(actions),
{
    let h = history_of(actions);
    assert forall|i: int| 0 <= i < h.len() implies no_newline(#[trigger] h[i]) && trim(h[i]) == h[i] && keep_line(h[i]) by {
        assert(loggable_name(actions[i].1));
        lemma_entry_shape(actions[i].0 as nat, actions[i].1);
    }
    let e = Seq::<char>::empty();
    assert(no_newline(e));
    if h.len() == 0 {
        assert(log_text(h) =~= seq!['\n']);
        lemma_split_joined(seq![e], e);
        assert(seq![e].drop_last() =~= Seq::<Seq<char>>::empty());
        assert(joined_lines(Seq::<Seq<char>>::empty()) == Seq::<char>::empty());
        assert(seq![e].last() == e);
        assert(joined_lines(seq![e]) =~= seq!['\n']);
        assert(joined_lines(seq![e]) + e =~= seq!['\n']);
        assert(trim(e) == e);
        assert(seq![e].push(e).drop_last() =~= seq![e]);
        assert(seq![e].drop_last() =~= Seq::<Seq<char>>::empty());
        let two = seq![e].push(e);
        assert(two.drop_last() =~= seq![e]);
        assert(!keep_line(trim(e)));
        assert(kept_lines(Seq::<Seq<char>>::empty()) == Seq::<Seq<char>>::empty());
        assert(kept_lines(seq![e]) == Seq::<Seq<char>>::empty());
        assert(kept_lines(two) == Seq::<Seq<char>>::empty());
        assert(text_lines(log_text(h)) =~= Seq::<Seq<char>>::empty());
        assert(actions =~= Seq::<(usize, Seq<char>)>::empty());
    } else {
        lemma_split_joined(h, e);
        assert(joined_lines(h) + e =~= joined_lines(h));
        lemma_kept_lines_identity(h);
        assert(text_lines(log_text(h)) == h);
        lemma_log_from_entries(actions, actions.len());
        assert(actions.take(actions.len() as int) =~= actions);
    }
}

/// One replayed action from `t`: advance to its cycle, then start its
/// process. `Err(Some(message))` where the action is refused, with the message
/// a validator reports; `Err(None)` where a cycle or a stock would exceed `usize`.
pub open spec fn replay_step(t: StateSpec, procs: Seq<ProcessSpec>, a: (usize, Seq<char>)) -> Result<
    StateSpec,
    Option<Seq<char>>,
> {
    if (a.0 as nat) < t.cycle {
        Err(Some(backwards_message(t.cycle, a.0 as nat)))
    } else if !advance_fits(t, a.0 as nat) {
        Err(None)
    } else {
        let u = advanced(t, a.0 as nat);
        match find_named(procs, a.1) {
            None => Err(Some("unknown process: "@ + a.1)),
            Some(i) => if !covers(u.stocks, procs[i as int].needs) {
                Err(Some("stock insufficient"@))
            } else if u.cycle + procs[i as int].delay > usize::MAX {
                Err(None)
            } else {
                Ok(started(u, procs[i as int]))
            },
        }
    }
}

/// The first `n` actions replayed from `s`; on failure, the index of the
/// failing action and the reason.
pub open spec fn replay_from(
    s: StateSpec,
    procs: Seq<ProcessSpec>,
    actions: Seq<(usize, Seq<char>)>,
    n: nat,
) -> Result<StateSpec, (nat, Option<Seq<char>>)>
    decreases n,
{
    if n == 0 {
        Ok(s)
    } else {
        match replay_from(s, procs, actions, (n - 1) as nat) {
            Err(e) => Err(e),
            Ok(t) => match replay_step(t, procs, actions[n - 1]) {
                Err(m) => Err(((n - 1) as nat, m)),
                Ok(u) => Ok(u),
            },
        }
    }
}

/// Why a replay stopped.
pub enum ReplayError {
    /// The action at `index` was refused, with the reason.
    Refused { index: usize, message: String },
    /// At the action at `index` a cycle or a stock would exceed `usize`.
    Overflow { index: usize },
}

proof fn lemma_replay_from_error(
    s: StateSpec,
    procs: Seq<ProcessSpec>,
    actions: Seq<(usize, Seq<char>)>,
    i: nat,
    n: nat,
    e: (nat, Option<Seq<char>>),
)
    requires
        i <= n,
        replay_from(s, procs, actions, i) == Err::<StateSpec, (nat, Option<Seq<char>>)>(e),
    ensures
        replay_from(s, procs, actions, n) == Err::<StateSpec, (nat, Option<Seq<char>>)>(e),
    decreases n - i,
{
    if i < n {
        lemma_replay_from_error(s, procs, actions, i, (n - 1) as nat, e);
    }
}

/// The models of a list of actions.
pub open spec fn actions_model(v: Seq<(usize, String)>) -> Seq<(usize, Seq<char>)> {
    v.map_values(|a: (usize, String)| (a.0, a.1@))
}

/// Replays `actions` on `state` to validate a schedule: for each
/// `(cycle, name)`, advance the clock to `cycle`, then start `name`.
pub fn replay_actions(state: State, processes: &[Process], actions: &[(usize, String)]) -> (r: Result<
    State,
    ReplayError,
>)
    requires
        state.wf(),
        all_wf(processes@),
    ensures
        match r {
            Ok(t) => t.wf() && replay_from(
                state@,
                procs_view(processes@),
                actions_model(actions@),
                actions@.len() as nat,
            ) == Ok::<StateSpec, (nat, Option<Seq<char>>)>(t@),
            Err(ReplayError::Refused { index, message }) => replay_from(
                state@,
                procs_view(processes@),
                actions_model(actions@),
                actions@.len() as nat,
            ) == Err::<StateSpec, (nat, Option<Seq<char>>)>((index as nat, Some(message@))),
            Err(ReplayError::Overflow { index }) => replay_from(
                state@,
                procs_view(processes@),
                actions_model(actions@),
                actions@.len() as nat,
            ) == Err::<StateSpec, (nat, Option<Seq<char>>)>((index as nat, None)),
        },
{
    let ghost s0 = state@;
    let ghost pv = procs_view(processes@);
    let ghost am = actions_model(actions@);
    let mut cur = state;
    let n = actions.len();
    for k in 0..n
        invariant
            n == actions@.len(),
            am == actions_model(actions@),
            pv == procs_view(processes@),
            s0 == state@,
            all_wf(processes@),
            cur.wf(),
            replay_from(s0, pv, am, k as nat) == Ok::<StateSpec, (nat, Option<Seq<char>>)>(cur@),
    {
        let cycle = actions[k].0;
        let name = actions[k].1.as_str();
        let ghost t = cur@;
        assert(am[k as int] == (cycle, name@));
        match cur.try_advance_to(cycle) {
            Err(AdvanceError::Backwards) => {
                let r = cur.advance_to(cycle);
                match r {
                    Err(message) => {
                        proof {
                            lemma_replay_from_error(s0, pv, am, (k + 1) as nat, n as nat, (k as nat, Some(message@)));
                        }
                        return Err(ReplayError::Refused { index: k, message });
                    },
                    Ok(()) => {
                        assert(false);
                        return Err(ReplayError::Overflow { index: k });
                    },
                }
            },
            Err(AdvanceError::Overflow) => {
                proof {
                    lemma_replay_from_error(s0, pv, am, (k + 1) as nat, n as nat, (k as nat, None));
                }
                return Err(ReplayError::Overflow { index: k });
            },
            Ok(()) => {},
        }
        proof {
            lemma_find_named(pv, name@);
        }
        match find_process(processes, name) {
            Some(j) => {
                assert(processes@[j as int].wf());
                if processes[j].can_start(&cur.stocks) && processes[j].delay > usize::MAX
                    - cur.curr_cycle {
                    proof {
                        lemma_replay_from_error(s0, pv, am, (k + 1) as nat, n as nat, (k as nat, None));
                    }
                    return Err(ReplayError::Overflow { index: k });
                }
            },
            None => {},
        }
        match cur.start_by_name(name, processes) {
            Ok(()) => {},
            Err(message) => {
                proof {
                    lemma_replay_from_error(s0, pv, am, (k + 1) as nat, n as nat, (k as nat, Some(message@)));
                }
                return Err(ReplayError::Refused { index: k, message });
            },
        }
    }
    Ok(cur)
}

/// A replay that succeeds move by move succeeds step by step too, with
/// the same state.
proof fn lemma_replay_agrees(s: StateSpec, procs: Seq<ProcessSpec>, actions: Seq<(usize, Seq<char>)>, n: nat)
    requires
        n <= actions.len(),
        replay(s, procs, actions.take(n as int)) is Some,
    ensures
        replay_from(s, procs, actions, n) == Ok::<StateSpec, (nat, Option<Seq<char>>)>(
            replay(s, procs, actions.take(n as int))->0,
        ),
    decreases n,
{
    if n > 0 {
        let pre = actions.take(n as int);
        assert(pre.drop_last() =~= actions.take(n - 1));
        assert(pre.last() == actions[n - 1]);
        lemma_replay_agrees(s, procs, actions, (n - 1) as nat);
        let t = replay(s, procs, actions.take(n - 1))->0;
        let a = actions[n - 1];
        lemma_advanced_basics(t, a.0 as nat);
        lemma_find_named(procs, a.1);
    }
}

/// Law: every schedule that the simulator can reach from the initial state of
/// a configuration is accepted on replay. Its log text reads back as the recorded
/// starts, and replaying them from the initial state succeeds at every action
/// and, once advanced to the schedule's final cycle, gives back the schedule.
/// (Process names must not hold a newline nor end in whitespace: the log
/// reader splits and trims lines.)
pub proof fn lemma_schedule_replays(c: ConfigSpec, s: StateSpec)
    requires
        reachable(initial_state(c), c.processes, s),
        forall|j: int| 0 <= j < c.processes.len() ==> loggable_name(#[trigger] c.processes[j].name),
    ensures
        parse_log_spec(log_text(s.history)) matches Ok(actions) && replay_from(
            initial_state(c),
            c.processes,
            actions,
            actions.len() as nat,
        ) matches Ok(t) && t.cycle <= s.cycle && advance_fits(t, s.cycle) && advanced(t, s.cycle)
            == s,
{
    let s0 = initial_state(c);
    let procs = c.processes;
    let ms = choose|ms: Seq<Move>| run_moves(s0, procs, ms) == Some(s);
    lemma_moves_replay(s0, procs, ms, s);
    let acts = choose|actions: Seq<(usize, Seq<char>)>| {
        &&& s.history == s0.history + history_of(actions)
        &&& names_from(actions, procs)
        &&& replay(s0, procs, actions) matches Some(t) && t.cycle <= s.cycle && advance_fits(
            t,
            s.cycle,
        ) && advanced(t, s.cycle) == s
    };
    assert(s.history =~= history_of(acts));
    assert forall|k: int| 0 <= k < acts.len() implies loggable_name(#[trigger] acts[k].1) by {
        let j = choose|j: int| 0 <= j < procs.len() && #[trigger] procs[j].name == acts[k].1;
        assert(loggable_name(procs[j].name));
    }
    lemma_log_round_trip(acts);
    assert(acts.take(acts.len() as int) =~= acts);
    lemma_replay_agrees(s0, procs, acts, acts.len() as nat);
}

/// `c` is the cycle of `a` or the cycle at which a process running in `a`
/// finishes.
pub open spec fn tight_from(a: StateSpec, c: nat) -> bool {
    c == a.cycle || exists|j: int| 0 <= j < a.running.len() && #[trigger] a.running[j].1 == c
}

proof fn lemma_still_running_keeps(running: Seq<(ProcessSpec, nat)>, c: nat, j: int)
    requires
        0 <= j < running.len(),
        running[j].1 > c,
    ensures
        exists|k: int|
            0 <= k < still_running(running, c).len() && #[trigger] still_running(running, c)[k]
                == running[j],
    decreases running.len(),
{
    let d = running.drop_last();
    let sd = still_running(d, c);
    if j < d.len() {
        assert(d[j] == running[j]);
        lemma_still_running_keeps(d, c, j);
        let k = choose|k: int| 0 <= k < sd.len() && #[trigger] sd[k] == d[j];
        assert(still_running(running, c)[k] == sd[k]);
    } else {
        assert(running.last() == running[j]);
        assert(still_running(running, c)[sd.len() as int] == running[j]);
    }
}

/// A process that finishes after `x` is still running once advanced to `x`.
proof fn lemma_advanced_keeps(a: StateSpec, x: nat, j: int)
    requires
        a.cycle <= x,
        0 <= j < a.running.len(),
        a.running[j].1 > x,
    ensures
        exists|k: int|
            0 <= k < advanced(a, x).running.len() && #[trigger] advanced(a, x).running[k]
                == a.running[j],
    decreases x - a.cycle,
{
    if a.cycle < x {
        lemma_still_running_keeps(a.running, a.cycle + 1, j);
        let t = tick(a);
        let k = choose|k: int| 0 <= k < t.running.len() && #[trigger] t.running[k] == a.running[j];
        lemma_advanced_keeps(t, x, k);
        assert(advanced(a, x) == advanced(t, x));
        let k2 = choose|k2: int|
            0 <= k2 < advanced(t, x).running.len() && #[trigger] advanced(t, x).running[k2]
                == t.running[k];
        assert(advanced(a, x).running[k2] == a.running[j]);
    } else {
        lemma_still_running_keeps(a.running, a.cycle, j);
        assert(advanced(a, x) == collect_due(a));
        let k = choose|k: int|
            0 <= k < still_running(a.running, a.cycle).len() && #[trigger] still_running(
                a.running,
                a.cycle,
            )[k] == a.running[j];
        assert(advanced(a, x).running[k] == a.running[j]);
    }
}

/// Every process running once advanced was running before.
pub proof fn lemma_advanced_subset(a: StateSpec, x: nat)
    requires
        a.cycle <= x,
    ensures
        forall|i: int|
            0 <= i < advanced(a, x).running.len() ==> exists|j: int|
                0 <= j < a.running.len() && a.running[j] == #[trigger] advanced(a, x).running[i],
    decreases x - a.cycle,
{
    let r = advanced(a, x).running;
    if a.cycle < x {
        let t = tick(a);
        lemma_still_running_subset(a.running, a.cycle + 1);
        lemma_advanced_subset(t, x);
        assert(r == advanced(t, x).running);
        assert forall|i: int| 0 <= i < r.len() implies exists|j: int|
            0 <= j < a.running.len() && a.running[j] == #[trigger] r[i] by {
            let k = choose|k: int| 0 <= k < t.running.len() && t.running[k] == #[trigger] advanced(t, x).running[i];
            let j = choose|j: int| 0 <= j < a.running.len() && a.running[j] == #[trigger] still_running(a.running, a.cycle + 1)[k];
            assert(a.running[j] == r[i]);
        }
    } else if a.cycle == x {
        lemma_still_running_subset(a.running, a.cycle);
        assert(r == still_running(a.running, a.cycle));
        assert forall|i: int| 0 <= i < r.len() implies exists|j: int|
            0 <= j < a.running.len() && a.running[j] == #[trigger] r[i] by {
            let j = choose|j: int| 0 <= j < a.running.len() && a.running[j] == #[trigger] still_running(a.running, a.cycle)[i];
            assert(a.running[j] == r[i]);
        }
    }
}

/// From a settled state, finishing every running process is advancing to a
/// cycle at which nothing runs any more, where that cycle is the state's own
/// or one at which one of its processes finishes.
pub proof fn lemma_tight_finish(a: StateSpec, x: nat)
    requires
        settled(a),
        a.cycle <= x,
        tight_from(a, x),
        advanced(a, x).running.len() == 0,
    ensures
        finished_all(a) == advanced(a, x),
        finish_all_fits(a) == advance_fits(a, x),
    decreases a.running.len(),
{
    lemma_min_finish(a.running);
    lemma_collect_settled(a);
    if a.running.len() == 0 {
        assert(x == a.cycle);
    } else {
        let m = min_finish(a.running)->0;
        let j0 = choose|j: int| 0 <= j < a.running.len() && #[trigger] a.running[j].1 == m;
        if m > x {
            lemma_advanced_keeps(a, x, j0);
        }
        assert(m <= x);
        lemma_advance_to_min(a, m);
        let a1 = advanced(a, m);
        lemma_advance_compose(a, m, x);
        if x != m {
            let j = choose|j: int| 0 <= j < a.running.len() && #[trigger] a.running[j].1 == x;
            lemma_advanced_keeps(a, m, j);
            let k = choose|k: int| 0 <= k < a1.running.len() && #[trigger] a1.running[k] == a.running[j];
            assert(a1.running[k].1 == x);
        }
        lemma_tight_finish(a1, x);
        lemma_drain_enough(a1, (a.running.len() - 1) as nat);
    }
}

/// From a settled state, finishing every running process is advancing to the
/// cycle at which the last of them finishes (or staying, where none runs).
pub proof fn lemma_finish_as_advance(s: StateSpec)
    requires
        settled(s),
    ensures
        s.cycle <= finished_all(s).cycle,
        tight_from(s, finished_all(s).cycle),
        advanced(s, finished_all(s).cycle) == finished_all(s),
        finished_all(s).running.len() == 0,
        finish_all_fits(s) == advance_fits(s, finished_all(s).cycle),
    decreases s.running.len(),
{
    lemma_min_finish(s.running);
    lemma_collect_settled(s);
    lemma_drain_enough(s, s.running.len());
    if s.running.len() > 0 {
        let m = min_finish(s.running)->0;
        let j0 = choose|j: int| 0 <= j < s.running.len() && #[trigger] s.running[j].1 == m;
        lemma_advance_to_min(s, m);
        let a1 = advanced(s, m);
        lemma_drain_enough(a1, (s.running.len() - 1) as nat);
        lemma_finish_as_advance(a1);
        let f = finished_all(s);
        assert(f == finished_all(a1));
        lemma_advance_compose(s, m, f.cycle);
        if f.cycle != m {
            lemma_advanced_subset(s, m);
            let k = choose|k: int| 0 <= k < a1.running.len() && #[trigger] a1.running[k].1 == f.cycle;
            let j = choose|j: int| 0 <= j < s.running.len() && s.running[j] == #[trigger] a1.running[k];
            assert(s.running[j].1 == f.cycle);
        }
    }
}

/// Replaying two runs of actions is replaying the first, then the second.
proof fn lemma_replay_append(
    s: StateSpec,
    procs: Seq<ProcessSpec>,
    x: Seq<(usize, Seq<char>)>,
    y: Seq<(usize, Seq<char>)>,
)
    ensures
        replay(s, procs, x + y) == match replay(s, procs, x) {
            Some(u) => replay(u, procs, y),
            None => None,
        },
    decreases y.len(),
{
    if y.len() == 0 {
        assert(x + y =~= x);
    } else {
        lemma_replay_append(s, procs, x, y.drop_last());
        assert((x + y).drop_last() =~= x + y.drop_last());
        assert((x + y).last() == y.last());
    }
}

/// A replay that succeeds names processes of the list only.
proof fn lemma_replay_names(s: StateSpec, procs: Seq<ProcessSpec>, acts: Seq<(usize, Seq<char>)>)
    requires
        replay(s, procs, acts) is Some,
    ensures
        names_from(acts, procs),
    decreases acts.len(),
{
    if acts.len() > 0 {
        let d = acts.drop_last();
        lemma_replay_names(s, procs, d);
        lemma_find_named(procs, acts.last().1);
        assert forall|k: int| #![trigger acts[k]] 0 <= k < acts.len() implies exists|j: int|
            0 <= j < procs.len() && #[trigger] procs[j].name == acts[k].1 by {
            if k < d.len() {
                assert(acts[k] == d[k]);
            } else {
                let i = find_named(procs, acts.last().1)->0;
                assert(procs[i as int].name == acts[k].1);
            }
        }
    }
}

/// The history of `b` continues that of `s` by the entries of actions whose
/// replay from `a` succeeds, and finishing every process still running after
/// the replay gives `b`.
pub open spec fn replays_to(b: StateSpec, s: StateSpec, a: StateSpec, procs: Seq<ProcessSpec>) -> bool {
    exists|acts: Seq<(usize, Seq<char>)>|
        b.history == s.history + #[trigger] history_of(acts) && (replay(a, procs, acts) matches Some(
            t,
        ) && settled(t) && finish_all_fits(t) && finished_all(t) == b)
}

/// Where `c` is reached from `a0` by replaying `acts` up to `ac` (its own
/// history continuing that of `s0` by those actions), what replays from `ac`
/// after `c` replays from `a0` after `s0`.
pub proof fn lemma_replays_chain(
    b: StateSpec,
    s0: StateSpec,
    a0: StateSpec,
    procs: Seq<ProcessSpec>,
    acts: Seq<(usize, Seq<char>)>,
    c: StateSpec,
    ac: StateSpec,
)
    requires
        replay(a0, procs, acts) == Some(ac),
        c.history == s0.history + history_of(acts),
        replays_to(b, c, ac, procs),
    ensures
        replays_to(b, s0, a0, procs),
{
    let acts2 = choose|acts2: Seq<(usize, Seq<char>)>|
        b.history == c.history + #[trigger] history_of(acts2) && (replay(ac, procs, acts2) matches Some(
            t,
        ) && settled(t) && finish_all_fits(t) && finished_all(t) == b);
    lemma_replay_append(a0, procs, acts, acts2);
    assert(history_of(acts + acts2) =~= history_of(acts) + history_of(acts2));
    assert(b.history =~= s0.history + history_of(acts + acts2));
}

/// Law: where the history of `b` records actions that replay from the initial
/// state of a configuration, after which finishing every running process gives
/// `b` (as for every schedule that `best_schedule` returns), the log text of
/// `b` reads back as those actions, and replaying it action by action and then
/// finishing gives back `b`. (Process names must not hold a newline nor end in
/// whitespace: the log reader splits and trims lines.)
pub proof fn lemma_replay_then_finish(c: ConfigSpec, b: StateSpec)
    requires
        replays_to(b, initial_state(c), initial_state(c), c.processes),
        forall|j: int| 0 <= j < c.processes.len() ==> loggable_name(#[trigger] c.processes[j].name),
    ensures
        parse_log_spec(log_text(b.history)) matches Ok(actions) && replay_from(
            initial_state(c),
            c.processes,
            actions,
            actions.len() as nat,
        ) matches Ok(t) && settled(t) && finish_all_fits(t) && finished_all(t) == b,
{
    let s0 = initial_state(c);
    let procs = c.processes;
    let acts = choose|acts: Seq<(usize, Seq<char>)>|
        b.history == s0.history + #[trigger] history_of(acts) && (replay(s0, procs, acts) matches Some(
            t,
        ) && settled(t) && finish_all_fits(t) && finished_all(t) == b);
    assert(b.history =~= history_of(acts));
    lemma_replay_names(s0, procs, acts);
    assert forall|k: int| 0 <= k < acts.len() implies loggable_name(#[trigger] acts[k].1) by {
        let j = choose|j: int| 0 <= j < procs.len() && #[trigger] procs[j].name == acts[k].1;
        assert(loggable_name(procs[j].name));
    }
    lemma_log_round_trip(acts);
    assert(acts.take(acts.len() as int) =~= acts);
    lemma_replay_agrees(s0, procs, acts, acts.len() as nat);
}

} // verus!
