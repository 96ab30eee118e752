use stock_exchange::parser::{parse_config, parse_log, parse_optimize_targets, parse_stock};
use stock_exchange::text::{chars_of, decimal_string, parse_usize};

fn chars(s: &str) -> Vec<char> {
    s.chars().collect()
}

const SIMPLE: &str = "# initial resources\nwood:10\neuro:5\n\n# process: name:(needs):(results):delay\ncut_tree:(wood:2):(plank:1):5\nbuild_table:(plank:4;euro:1):(table:1):20\n\noptimize:(time;table)\n";

#[test]
fn parses_the_readme_example() {
    let config = parse_config(SIMPLE).unwrap();
    assert_eq!(config.stocks.len(), 2);
    assert_eq!(config.stocks.get(&"wood".to_string()), Some(10));
    assert_eq!(config.stocks.get(&"euro".to_string()), Some(5));
    assert_eq!(config.processes.len(), 2);
    let cut = &config.processes[0];
    assert_eq!(cut.name, "cut_tree");
    assert_eq!(cut.needs.get(&"wood".to_string()), Some(2));
    assert_eq!(cut.results.get(&"plank".to_string()), Some(1));
    assert_eq!(cut.delay, 5);
    let build = &config.processes[1];
    assert_eq!(build.name, "build_table");
    assert_eq!(build.needs.len(), 2);
    assert_eq!(build.needs.get(&"plank".to_string()), Some(4));
    assert_eq!(build.needs.get(&"euro".to_string()), Some(1));
    assert_eq!(build.delay, 20);
    assert_eq!(config.optimize, vec!["time".to_string(), "table".to_string()]);
}

#[test]
fn crlf_lines_and_indentation_are_trimmed() {
    let config = parse_config("  a:1\r\n\tp:(a:1):(b:2):3  \r\n").unwrap();
    assert_eq!(config.stocks.get(&"a".to_string()), Some(1));
    assert_eq!(config.processes[0].name, "p");
    assert!(config.optimize.is_empty());
}

#[test]
fn missing_processes_is_an_error() {
    assert_eq!(parse_config("a:1\n").err().unwrap(), "Missing processes");
    assert_eq!(parse_config("").err().unwrap(), "Missing processes");
}

#[test]
fn duplicate_definitions_are_errors() {
    assert_eq!(
        parse_config("a:1\na:2\np:(a:1):(b:1):1\n").err().unwrap(),
        "Duplicate stock definition found: a"
    );
    assert_eq!(
        parse_config("p:(a:1):(b:1):1\np:():():2\n").err().unwrap(),
        "Duplicate process definition found: p"
    );
    assert_eq!(
        parse_config("p:(a:1):(b:1):1\noptimize:(a)\noptimize:(b)\n").err().unwrap(),
        "Duplicate optimize directive found"
    );
}

#[test]
fn an_optimize_line_with_only_separators_can_be_repeated() {
    let config = parse_config("p:(a:1):(b:1):1\noptimize:(;|)\noptimize:(b)\n").unwrap();
    assert_eq!(config.optimize, vec!["b".to_string()]);
}

#[test]
fn stock_errors_quote_the_line_and_usage() {
    assert_eq!(
        parse_config("bad stock\np:():():1\n").err().unwrap(),
        "Error in stock `bad stock`: \nUsage: <stock_name>:<quantity>"
    );
    assert_eq!(
        parse_config("a:99999999999999999999999\np:():():1\n").err().unwrap(),
        "Error in stock `a:99999999999999999999999`: failed to parse quantity\nUsage: <stock_name>:<quantity>"
    );
}

#[test]
fn non_ascii_decimal_digits_match_but_do_not_parse() {
    // Arabic-Indic digits are in the `\d` class, but `usize::from_str` refuses them.
    let r = parse_stock(&chars("a:\u{0661}\u{0662}"));
    assert_eq!(
        r.err().unwrap(),
        "Error in stock `a:\u{0661}\u{0662}`: failed to parse quantity\nUsage: <stock_name>:<quantity>"
    );
    // Letters are not in the class.
    let r = parse_stock(&chars("a:1x"));
    assert_eq!(r.err().unwrap(), "Error in stock `a:1x`: \nUsage: <stock_name>:<quantity>");
}

#[test]
fn stock_items_are_trimmed() {
    let (name, qty) = parse_stock(&chars("  steel_2-b:0042 ")).unwrap();
    assert_eq!(name, "steel_2-b");
    assert_eq!(qty, 42);
}

#[test]
fn process_errors_quote_the_line_and_usage() {
    let usage = "\nUsage: <name>:(<need>:<quantity>;...):(<result>:<quantity>;...):<delay>";
    assert_eq!(
        parse_config("p:(a:1):(b:1)\n").err().unwrap(),
        format!("Error in process `p:(a:1):(b:1)`: {}", usage)
    );
    assert_eq!(
        parse_config("p:(a:1):(b:1):99999999999999999999999\n").err().unwrap(),
        format!("Error in process `p:(a:1):(b:1):99999999999999999999999`: failed to parse delay{}", usage)
    );
    assert_eq!(
        parse_config("p:(a:x):(b:1):1\n").err().unwrap(),
        "Error in stock `a:x`: \nUsage: <stock_name>:<quantity>"
    );
}

#[test]
fn later_items_replace_earlier_ones() {
    let config = parse_config("p:( a:1 ; a:3 ):():2\n").unwrap();
    assert_eq!(config.processes[0].needs.len(), 1);
    assert_eq!(config.processes[0].needs.get(&"a".to_string()), Some(3));
    assert_eq!(config.processes[0].results.len(), 0);
}

#[test]
fn optimize_errors_quote_the_line_and_usage() {
    assert_eq!(
        parse_config("p:():():1\noptimize:()\n").err().unwrap(),
        "Error in optimize `optimize:()`: \nUsage: optimize:(<stock_name>|time)"
    );
    assert_eq!(
        parse_config("p:():():1\noptimize:(a)b)\n").err().unwrap(),
        "Error in optimize `optimize:(a)b)`: \nUsage: optimize:(<stock_name>|time)"
    );
}

#[test]
fn optimize_targets_split_on_bars_and_semicolons() {
    let t = parse_optimize_targets(&chars("a|b;;c|"));
    assert_eq!(t, vec!["a".to_string(), "b".to_string(), "c".to_string()]);
    assert!(parse_optimize_targets(&chars(";|")).is_empty());
}

#[test]
fn parses_a_log() {
    let actions = parse_log("0:buy\n\n# note\n  12:sell  \n3:a:b\n").unwrap();
    assert_eq!(
        actions,
        vec![(0, "buy".to_string()), (12, "sell".to_string()), (3, "a:b".to_string())]
    );
    assert_eq!(parse_log("").unwrap(), vec![]);
}

#[test]
fn log_errors_name_the_line() {
    assert_eq!(parse_log("7 buy\n").err().unwrap(), "Invalid log line: 7 buy");
    assert_eq!(parse_log("x:buy\n").err().unwrap(), "Invalid cycle number: x:buy");
    assert_eq!(parse_log("-1:buy\n").err().unwrap(), "Invalid cycle number: -1:buy");
    assert_eq!(parse_log("+4:buy\n").unwrap(), vec![(4, "buy".to_string())]);
}

#[test]
fn reads_and_writes_decimal_numbers() {
    assert_eq!(decimal_string(0), "0");
    assert_eq!(decimal_string(907), "907");
    assert_eq!(decimal_string(usize::MAX), usize::MAX.to_string());
    assert_eq!(parse_usize(&chars("0042")), Some(42));
    assert_eq!(parse_usize(&chars("+7")), Some(7));
    assert_eq!(parse_usize(&chars("+")), None);
    assert_eq!(parse_usize(&chars("")), None);
    assert_eq!(parse_usize(&chars("1_0")), None);
    assert_eq!(parse_usize(&chars(&usize::MAX.to_string())), Some(usize::MAX));
    let too_big = format!("{}0", usize::MAX);
    assert_eq!(parse_usize(&chars(&too_big)), None);
    assert_eq!(chars_of("héllo"), vec!['h', 'é', 'l', 'l', 'o']);
}

#[test]
fn comment_and_blank_lines_change_nothing() {
    let plain = "wood:10\ncut:(wood:2):(plank:1):5\noptimize:(plank)";
    let padded = "# head\nwood:10\n   \n\t# note\ncut:(wood:2):(plank:1):5\n\noptimize:(plank)";
    let a = parse_config(plain).unwrap();
    let b = parse_config(padded).unwrap();
    assert_eq!(a.stocks.get(&"wood".to_string()), b.stocks.get(&"wood".to_string()));
    assert_eq!(a.stocks.len(), b.stocks.len());
    assert_eq!(a.processes.len(), b.processes.len());
    assert_eq!(a.processes[0].name, b.processes[0].name);
    assert_eq!(a.processes[0].delay, b.processes[0].delay);
    assert_eq!(a.optimize, b.optimize);
    assert_eq!(parse_config("a:1\n").err(), parse_config("# c\na:1\n\n").err());
}

#[test]
fn comment_lines_after_an_unterminated_last_line_change_nothing() {
    let a = parse_config("wood:1\ncut:(wood:1):(plank:1):1").unwrap();
    let b = parse_config("wood:1\ncut:(wood:1):(plank:1):1\n# end\n  ").unwrap();
    assert_eq!(a.processes.len(), b.processes.len());
    assert_eq!(a.processes[0].name, b.processes[0].name);
    assert_eq!(a.stocks.len(), b.stocks.len());
}
