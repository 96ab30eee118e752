use stock_exchange::replay::{replay_actions, ReplayError};
use stock_exchange::parser::{parse_config, parse_log, Process};
use stock_exchange::search::best_schedule;
use stock_exchange::simulator::{get_all_stock_names, sorted_stock_names, AdvanceError, State};
use stock_exchange::stock_map::StockMap;

fn stocks(items: &[(&str, usize)]) -> StockMap {
    let mut m = StockMap::new();
    for (name, qty) in items {
        m.insert(name.to_string(), *qty);
    }
    m
}

fn process(name: &str, needs: &[(&str, usize)], results: &[(&str, usize)], delay: usize) -> Process {
    Process { name: name.to_string(), needs: stocks(needs), results: stocks(results), delay }
}

#[test]
fn can_start_needs_every_item_present_and_sufficient() {
    let p = process("p", &[("a", 2), ("b", 0)], &[], 1);
    assert!(p.can_start(&stocks(&[("a", 2), ("b", 0)])));
    assert!(!p.can_start(&stocks(&[("a", 1), ("b", 0)])));
    // A need of 0 still requires the stock to be present.
    assert!(!p.can_start(&stocks(&[("a", 5)])));
}

#[test]
fn start_removes_stocks_that_reach_zero() {
    let p = process("p", &[("a", 2), ("b", 1)], &[], 1);
    let mut s = stocks(&[("a", 2), ("b", 3), ("c", 1)]);
    p.start(&mut s);
    assert_eq!(s.get(&"a".to_string()), None);
    assert_eq!(s.get(&"b".to_string()), Some(2));
    assert_eq!(s.get(&"c".to_string()), Some(1));
    assert_eq!(s.len(), 2);
}

#[test]
fn finish_adds_results_creating_missing_stocks() {
    let p = process("p", &[], &[("a", 2), ("z", 0)], 1);
    let mut s = stocks(&[("a", 1)]);
    p.finish(&mut s);
    assert_eq!(s.get(&"a".to_string()), Some(3));
    assert_eq!(s.get(&"z".to_string()), Some(0));
}

#[test]
fn start_by_name_records_history_and_running() {
    let procs = vec![process("cut", &[("wood", 2)], &[("plank", 1)], 5)];
    let mut st = State::new(stocks(&[("wood", 3)]));
    assert_eq!(st.start_by_name("cut", &procs), Ok(()));
    assert_eq!(st.history, vec!["0:cut".to_string()]);
    assert_eq!(st.running.len(), 1);
    assert_eq!(st.running[0].finish_cycle, 5);
    assert_eq!(st.stocks.get(&"wood".to_string()), Some(1));
    assert_eq!(st.start_by_name("cut", &procs), Err("stock insufficient".to_string()));
    assert_eq!(st.start_by_name("saw", &procs), Err("unknown process: saw".to_string()));
    assert_eq!(st.history.len(), 1);
}

#[test]
fn advancing_collects_finished_processes() {
    let procs = vec![process("cut", &[("wood", 1)], &[("plank", 2)], 3)];
    let mut st = State::new(stocks(&[("wood", 2)]));
    st.start_by_name("cut", &procs).unwrap();
    st.advance_to(1).unwrap();
    st.start_by_name("cut", &procs).unwrap();
    assert_eq!(st.get_next_cycle(), Some(3));
    st.advance_to(3).unwrap();
    assert_eq!(st.curr_cycle, 3);
    assert_eq!(st.running.len(), 1);
    assert_eq!(st.stocks.get(&"plank".to_string()), Some(2));
    assert_eq!(
        st.advance_to(2),
        Err("Invalid timestamp: cannot go backwards from cycle 3 to 2".to_string())
    );
    st.finish_all();
    assert_eq!(st.curr_cycle, 4);
    assert!(st.running.is_empty());
    assert_eq!(st.stocks.get(&"plank".to_string()), Some(4));
    assert_eq!(st.get_next_cycle(), None);
}

#[test]
fn an_advance_that_would_overflow_is_refused_and_changes_nothing() {
    let procs = vec![process("grow", &[], &[("gold", usize::MAX)], 1)];
    let mut st = State::new(stocks(&[("gold", 1)]));
    st.start_by_name("grow", &procs).unwrap();
    assert!(matches!(st.try_advance_to(1), Err(AdvanceError::Overflow)));
    assert_eq!(st.curr_cycle, 0);
    assert_eq!(st.stocks.get(&"gold".to_string()), Some(1));
    assert!(matches!(st.try_advance_to(0), Ok(())));
}

#[test]
fn better_then_follows_the_targets_in_order() {
    let optimize = vec!["time".to_string(), "table".to_string(), "chair".to_string()];
    let mut a = State::new(stocks(&[("table", 2), ("chair", 0)]));
    let mut b = State::new(stocks(&[("table", 2), ("chair", 1)]));
    assert!(b.better_then(&a, &optimize));
    assert!(!a.better_then(&b, &optimize));
    a.stocks.insert("chair".to_string(), 1);
    a.curr_cycle = 10;
    b.curr_cycle = 12;
    // Tied on stocks: earlier completion wins because `time` is a target.
    assert!(a.better_then(&b, &optimize));
    assert!(!b.better_then(&a, &optimize));
    assert!(!a.better_then(&a, &optimize));
    // Without `time`, a tie is never better.
    let no_time = vec!["table".to_string()];
    assert!(!a.better_then(&b, &no_time));
    assert!(!b.better_then(&a, &no_time));
}

#[test]
fn report_lists_history_and_sorted_stocks() {
    let config = parse_config("wood:3\ncut:(wood:2):(plank:1):5\n").unwrap();
    let mut st = State::new(stocks(&[("wood", 3)]));
    st.start_by_name("cut", &config.processes).unwrap();
    st.finish_all();
    let names = get_all_stock_names(&config);
    assert_eq!(names.len(), 2);
    let sorted = sorted_stock_names(&config);
    assert_eq!(sorted, vec!["plank".to_string(), "wood".to_string()]);
    let lines = st.report(&sorted);
    assert_eq!(
        lines,
        vec![
            "Main Processes :".to_string(),
            " 0:cut".to_string(),
            "No more process doable at cycle 6".to_string(),
            "Stock :".to_string(),
            " plank => 1".to_string(),
            " wood => 1".to_string(),
        ]
    );
    assert_eq!(st.log_content(), "0:cut\n");
    assert_eq!(State::new(StockMap::new()).log_content(), "\n");
}

#[test]
fn sorting_orders_by_code_points() {
    let config = parse_config("b:1\nB:1\nab:1\na:1\n_x:1\np:(a:1;9:2):(zz:1;a-b:1):1\n").unwrap();
    assert_eq!(
        sorted_stock_names(&config),
        vec![
            "9".to_string(),
            "B".to_string(),
            "_x".to_string(),
            "a".to_string(),
            "a-b".to_string(),
            "ab".to_string(),
            "b".to_string(),
            "zz".to_string()
        ]
    );
}

#[test]
fn advancing_in_two_legs_equals_advancing_at_once() {
    let procs = vec![process("p", &[], &[("x", 1)], 2), process("q", &[], &[("y", 1)], 5)];
    let mut a = State::new(StockMap::new());
    a.start_by_name("p", &procs).unwrap();
    a.start_by_name("q", &procs).unwrap();
    let mut b = a.duplicate();
    a.advance_to(3).unwrap();
    a.advance_to(6).unwrap();
    b.advance_to(6).unwrap();
    assert_eq!(a.curr_cycle, b.curr_cycle);
    assert_eq!(a.running.len(), 0);
    assert_eq!(b.running.len(), 0);
    assert_eq!(a.stocks.get(&"x".to_string()), b.stocks.get(&"x".to_string()));
    assert_eq!(a.stocks.get(&"y".to_string()), Some(1));
    assert_eq!(b.stocks.get(&"y".to_string()), Some(1));
}

#[test]
fn a_zero_time_budget_finishes_the_initial_state() {
    let config = parse_config(FURNITURE).unwrap();
    let (best, exhaustive, _) = best_schedule(&config, 0, u64::MAX);
    assert!(!exhaustive);
    let best = best.unwrap();
    assert!(best.history.is_empty());
    assert_eq!(best.curr_cycle, 0);
}

const FURNITURE: &str = "euro:10\nbuy_wood:(euro:2):(wood:1):1\nmake_chair:(wood:2):(chair:1):3\noptimize:(chair)\n";

#[test]
fn the_search_finds_a_complete_schedule_that_replays() {
    let config = parse_config(FURNITURE).unwrap();
    let (best, exhaustive, _) = best_schedule(&config, 2_000_000_000, u64::MAX);
    assert!(exhaustive);
    let best = best.unwrap();
    assert!(best.running.is_empty());
    // 10 euros buy 5 wood, which make 2 chairs.
    assert_eq!(best.stocks.get(&"chair".to_string()), Some(2));
    let log = parse_log(&best.log_content()).unwrap();
    let replayed = match replay_actions(State::new(config.stocks.duplicate()), &config.processes, &log) {
        Ok(st) => st,
        Err(_) => panic!("the schedule was refused"),
    };
    assert_eq!(replayed.history, best.history);
    let mut finished = replayed;
    finished.finish_all();
    assert_eq!(finished.curr_cycle, best.curr_cycle);
    assert!(finished.running.is_empty());
    assert_eq!(finished.stocks.len(), best.stocks.len());
    assert_eq!(finished.stocks.get(&"chair".to_string()), Some(2));
    assert_eq!(finished.stocks.get(&"euro".to_string()), best.stocks.get(&"euro".to_string()));
    assert_eq!(finished.stocks.get(&"wood".to_string()), best.stocks.get(&"wood".to_string()));
}

#[test]
fn a_search_without_steps_finishes_the_initial_state() {
    let config = parse_config(FURNITURE).unwrap();
    let (best, exhaustive, _) = best_schedule(&config, 2_000_000_000, 0);
    assert!(!exhaustive);
    let best = best.unwrap();
    assert!(best.history.is_empty());
    assert_eq!(best.stocks.get(&"euro".to_string()), Some(10));
}

#[test]
fn replay_reports_the_failing_action() {
    let config = parse_config(FURNITURE).unwrap();
    let actions = vec![(0, "buy_wood".to_string()), (0, "make_chair".to_string())];
    match replay_actions(State::new(config.stocks.duplicate()), &config.processes, &actions) {
        Err(ReplayError::Refused { index, message }) => {
            assert_eq!(index, 1);
            assert_eq!(message, "stock insufficient");
        }
        _ => panic!("expected a refusal"),
    }
    let backwards = vec![(3, "buy_wood".to_string()), (1, "buy_wood".to_string())];
    match replay_actions(State::new(config.stocks.duplicate()), &config.processes, &backwards) {
        Err(ReplayError::Refused { index, message }) => {
            assert_eq!(index, 1);
            assert_eq!(message, "Invalid timestamp: cannot go backwards from cycle 3 to 1");
        }
        _ => panic!("expected a refusal"),
    }
    let unknown = vec![(0, "sell".to_string())];
    match replay_actions(State::new(config.stocks.duplicate()), &config.processes, &unknown) {
        Err(ReplayError::Refused { index, message }) => {
            assert_eq!(index, 0);
            assert_eq!(message, "unknown process: sell");
        }
        _ => panic!("expected a refusal"),
    }
}

#[test]
fn starts_within_a_cycle_follow_the_process_list() {
    let config = parse_config("a:1\nb:1\np:(a:1):(x:1):1\nq:(b:1):(y:1):1\noptimize:(x;y)\n").unwrap();
    let (best, exhaustive, _) = best_schedule(&config, 2_000_000_000, u64::MAX);
    assert!(exhaustive);
    let best = best.unwrap();
    assert_eq!(best.history, vec!["0:p".to_string(), "0:q".to_string()]);
    assert_eq!(best.curr_cycle, 1);
    assert_eq!(best.stocks.get(&"x".to_string()), Some(1));
    assert_eq!(best.stocks.get(&"y".to_string()), Some(1));
}

#[test]
fn the_search_keeps_the_best_end_state() {
    let config = parse_config("a:3\np0:(b:1):(c:1):1\np1:(a:1):(b:1):1\noptimize:(c;time)\n").unwrap();
    let (best, exhaustive, steps_left) = best_schedule(&config, u128::MAX, u64::MAX);
    assert!(steps_left > 0);
    assert!(exhaustive);
    let best = best.unwrap();
    assert_eq!(best.curr_cycle, 2);
    assert!(best.running.is_empty());
    assert_eq!(best.stocks.get(&"c".to_string()), Some(3));
    assert_eq!(best.stocks.len(), 1);
    let expected: Vec<String> = ["0:p1", "0:p1", "0:p1", "1:p0", "1:p0", "1:p0"].iter().map(|s| s.to_string()).collect();
    assert_eq!(best.history, expected);
}

#[test]
fn a_process_that_never_runs_does_not_stop_the_search() {
    let config = parse_config("a:1\nidle:(z:1):(y:1):0\nwork:(a:1):(b:1):2\noptimize:(b)\n").unwrap();
    let (best, exhaustive, _) = best_schedule(&config, 2_000_000_000, u64::MAX);
    assert!(exhaustive);
    let best = best.unwrap();
    assert_eq!(best.history, vec!["0:work".to_string()]);
    assert_eq!(best.stocks.get(&"b".to_string()), Some(1));
}

#[test]
fn advancing_collects_processes_that_are_already_due() {
    let procs = vec![process("now", &[], &[("x", 1)], 0)];
    let mut st = State::new(StockMap::new());
    st.start_by_name("now", &procs).unwrap();
    assert_eq!(st.running.len(), 1);
    st.advance_to(1).unwrap();
    assert!(st.running.is_empty());
    assert_eq!(st.stocks.get(&"x".to_string()), Some(1));
    let mut again = State::new(StockMap::new());
    again.start_by_name("now", &procs).unwrap();
    again.advance_to(0).unwrap();
    assert!(again.running.is_empty());
    assert_eq!(again.stocks.get(&"x".to_string()), Some(1));
}

#[test]
fn starting_then_returning_the_needs_restores_the_stocks() {
    let p = process("p", &[("a", 2), ("b", 1)], &[], 1);
    let back = process("back", &[], &[("a", 2), ("b", 1)], 1);
    let mut s = stocks(&[("a", 2), ("b", 3), ("c", 1)]);
    p.start(&mut s);
    assert_eq!(s.get(&"a".to_string()), None);
    back.finish(&mut s);
    assert_eq!(s.len(), 3);
    assert_eq!(s.get(&"a".to_string()), Some(2));
    assert_eq!(s.get(&"b".to_string()), Some(3));
    assert_eq!(s.get(&"c".to_string()), Some(1));
}

#[test]
fn of_equally_good_schedules_the_first_found_is_kept() {
    let config = parse_config("a:1\np:(a:1):(x:1):1\nq:(a:1):(x:1):1\noptimize:(x)\n").unwrap();
    let (best, exhaustive, steps_left) = best_schedule(&config, u128::MAX, 1000);
    assert!(exhaustive);
    assert!(steps_left > 0 && steps_left < 1000);
    assert_eq!(best.unwrap().history, vec!["0:p".to_string()]);
}

#[test]
fn advancing_in_two_legs_equals_advancing_at_once_with_a_process_due() {
    let procs = vec![process("now", &[], &[("x", 1)], 0), process("later", &[], &[("y", 1)], 2)];
    let mut a = State::new(StockMap::new());
    a.start_by_name("now", &procs).unwrap();
    a.start_by_name("later", &procs).unwrap();
    let mut b = a.duplicate();
    a.advance_to(0).unwrap();
    a.advance_to(2).unwrap();
    b.advance_to(2).unwrap();
    assert_eq!(a.curr_cycle, b.curr_cycle);
    assert!(a.running.is_empty() && b.running.is_empty());
    assert_eq!(a.stocks.get(&"x".to_string()), Some(1));
    assert_eq!(b.stocks.get(&"x".to_string()), Some(1));
    assert_eq!(a.stocks.get(&"y".to_string()), b.stocks.get(&"y".to_string()));
}

#[test]
fn report_sorts_the_names_it_is_given() {
    let st = State::new(stocks(&[("b", 2), ("a", 1)]));
    let names = vec!["b".to_string(), "a".to_string(), "c".to_string(), "a".to_string()];
    let lines = st.report(&names);
    assert_eq!(
        lines[2..].to_vec(),
        vec![
            "Stock :".to_string(),
            " a => 1".to_string(),
            " a => 1".to_string(),
            " b => 2".to_string(),
            " c => 0".to_string(),
        ]
    );
}
