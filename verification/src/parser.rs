//! Configuration and log parsing, and the processes that a configuration
//! defines.

use vstd::prelude::*;
use crate::stock_map::{StockMap, covers, consumed, produced, produce_fits};
use crate::text::{
    trim, trimmed, first_index, find_char, lemma_first_index, starts_with, chars_start_with,
    parse_usize_spec, parse_usize, push_chars, string_from, split_on, split_chars, chars_of,
    text_lines, get_file_lines, is_ascii_digit, keep_line, kept_lines, lemma_kept_lines_concat,
};
use crate::simulator::joined_lines;
use crate::replay::{no_newline, lemma_split_joined};

verus! {

/// The model of a process: its name, what it needs, what it yields, and how
/// many cycles it runs.
pub struct ProcessSpec {
    pub name: Seq<char>,
    pub needs: Map<Seq<char>, nat>,
    pub results: Map<Seq<char>, nat>,
    pub delay: nat,
}

/// A production process: it takes `needs` from the stocks when it starts and
/// adds `results` when it finishes, `delay` cycles later.
pub struct Process {
    pub name: String,
    pub needs: StockMap,
    pub results: StockMap,
    pub delay: usize,
}

impl View for Process {
    type V = ProcessSpec;

    open spec fn view(&self) -> ProcessSpec {
        ProcessSpec {
            name: self.name@,
            needs: self.needs@,
            results: self.results@,
            delay: self.delay as nat,
        }
    }
}

impl Process {
    /// Both maps are well formed.
    pub open spec fn wf(&self) -> bool {
        self.needs.wf() && self.results.wf()
    }

    /// Whether every need is in `stocks` with at least the needed quantity.
    pub fn can_start(&self, stocks: &StockMap) -> (b: bool)
        requires
            self.wf(),
            stocks.wf(),
        ensures
            b == covers(stocks@, self.needs@),
    {
        stocks.covers(&self.needs)
    }

    /// Takes the needs from `stocks`; a stock that reaches 0 is removed.
    pub fn start(&self, stocks: &mut StockMap)
        requires
            self.wf(),
            old(stocks).wf(),
            covers(old(stocks)@, self.needs@),
        ensures
            final(stocks).wf(),
            final(stocks)@ == consumed(old(stocks)@, self.needs@),
    {
        stocks.consume(&self.needs);
    }

    /// Adds the results to `stocks`.
    pub fn finish(&self, stocks: &mut StockMap)
        requires
            self.wf(),
            old(stocks).wf(),
            produce_fits(old(stocks)@, self.results@),
        ensures
            final(stocks).wf(),
            final(stocks)@ == produced(old(stocks)@, self.results@),
    {
        stocks.produce(&self.results);
    }

    /// A copy of the process.
    pub fn duplicate(&self) -> (r: Process)
        requires
            self.wf(),
        ensures
            r.wf(),
            r@ == self@,
    {
        Process {
            name: self.name.clone(),
            needs: self.needs.duplicate(),
            results: self.results.duplicate(),
            delay: self.delay,
        }
    }
}

/// Whether `c` is in the Unicode category Nd, the class that `\d` matches in
/// `regex` patterns.
pub uninterp spec fn regex_decimal_digit(c: char) -> bool;

/// Trusted: builds the pattern `^\d$` with `regex::Regex::new` (a valid
/// pattern, so `unwrap` does not fail) and tests the one-character string of
/// `c` with `Regex::is_match`. The result is named `regex_decimal_digit(c)`;
/// the ASCII digits belong to the class, as regex documents `\d` as `\p{Nd}`.
#[verifier::external_body]
fn is_decimal_digit(c: char) -> (b: bool)
    ensures
        b == regex_decimal_digit(c),
        ('0' <= c && c <= '9') ==> b,
{
    let text = c.to_string();
    regex::Regex::new(r"^\d$").unwrap().is_match(&text)
}

/// A character of a stock name: `[a-zA-Z0-9_-]`.
pub open spec fn is_name_char(c: char) -> bool {
    ||| ('a' <= c && c <= 'z')
    ||| ('A' <= c && c <= 'Z')
    ||| ('0' <= c && c <= '9')
    ||| c == '_'
    ||| c == '-'
}

fn name_char(c: char) -> (b: bool)
    ensures
        b == is_name_char(c),
{
    ('a' <= c && c <= 'z') || ('A' <= c && c <= 'Z') || ('0' <= c && c <= '9') || c == '_' || c
        == '-'
}

/// Every character of `s` is a stock-name character.
pub open spec fn all_name_chars(s: Seq<char>) -> bool {
    forall|i: int| 0 <= i < s.len() ==> #[trigger] is_name_char(s[i])
}

/// A character of the `\d` class: an ASCII digit, or another character of the
/// class.
pub open spec fn digit_class(c: char) -> bool {
    is_ascii_digit(c) || regex_decimal_digit(c)
}

/// `s` is one or more characters of the `\d` class.
pub open spec fn regex_digits(s: Seq<char>) -> bool {
    s.len() > 0 && forall|i: int| 0 <= i < s.len() ==> #[trigger] digit_class(s[i])
}

fn all_name_chars_exec(v: &[char]) -> (b: bool)
    ensures
        b == all_name_chars(v@),
{
    let n = v.len();
    for i in 0..n
        invariant
            n == v@.len(),
            forall|j: int| 0 <= j < i ==> #[trigger] is_name_char(v@[j]),
    {
        if !name_char(v[i]) {
            return false;
        }
    }
    true
}

fn regex_digits_exec(v: &[char]) -> (b: bool)
    ensures
        b == regex_digits(v@),
{
    let n = v.len();
    if n == 0 {
        return false;
    }
    for i in 0..n
        invariant
            n == v@.len(),
            n > 0,
            forall|j: int| 0 <= j < i ==> #[trigger] digit_class(v@[j]),
    {
        if !is_decimal_digit(v[i]) {
            assert(!digit_class(v@[i as int]));
            return false;
        }
    }
    true
}

/// The name and quantity text of a stock item, as the pattern
/// `^(?<name>[a-zA-Z0-9_-]+):(?<qty>\d+)$` captures them. Names hold no `:`, so
/// the name ends at the first `:`.
pub open spec fn stock_match(s: Seq<char>) -> Option<(Seq<char>, Seq<char>)> {
    match first_index(s, ':') {
        Some(i) => {
            let name = s.take(i as int);
            let qty = s.skip(i as int + 1);
            if name.len() > 0 && all_name_chars(name) && regex_digits(qty) {
                Some((name, qty))
            } else {
                None
            }
        },
        None => None,
    }
}

/// The message of a refused stock item.
pub open spec fn stock_err_spec(line: Seq<char>, reason: Seq<char>) -> Seq<char> {
    "Error in stock `"@ + trim(line) + "`: "@ + reason + "\nUsage: <stock_name>:<quantity>"@
}

/// What `parse_stock` gives for a line.
pub open spec fn parse_stock_spec(line: Seq<char>) -> Result<(Seq<char>, usize), Seq<char>> {
    match stock_match(trim(line)) {
        None => Err(stock_err_spec(line, ""@)),
        Some((name, qty)) => match parse_usize_spec(qty) {
            Some(v) => Ok((name, v)),
            None => Err(stock_err_spec(line, "failed to parse quantity"@)),
        },
    }
}

/// The message of a refused stock item: the trimmed line, the reason and the usage.
pub fn stock_err(line: &[char], reason: &str) -> (m: String)
    ensures
        m@ == stock_err_spec(line@, reason@),
{
    let mut m = String::new();
    m.append("Error in stock `");
    let t = trimmed(line);
    push_chars(&mut m, t.as_slice());
    m.append("`: ");
    m.append(reason);
    m.append("\nUsage: <stock_name>:<quantity>");
    m
}

/// Reads a stock item `name:quantity`.
pub fn parse_stock(line: &[char]) -> (r: Result<(String, usize), String>)
    ensures
        match r {
            Ok((name, qty)) => parse_stock_spec(line@) == Ok::<(Seq<char>, usize), Seq<char>>(
                (name@, qty),
            ),
            Err(m) => parse_stock_spec(line@) == Err::<(Seq<char>, usize), Seq<char>>(m@),
        },
{
    let t = trimmed(line);
    let ghost ts = t@;
    proof {
        lemma_first_index(ts, ':');
    }
    match find_char(t.as_slice(), ':') {
        None => Err(stock_err(line, "")),
        Some(i) => {
            let name = &t.as_slice()[0..i];
            let qty = &t.as_slice()[i + 1..t.len()];
            assert(name@ =~= ts.take(i as int));
            assert(qty@ =~= ts.skip(i + 1));
            if name.len() == 0 || !all_name_chars_exec(name) || !regex_digits_exec(qty) {
                return Err(stock_err(line, ""));
            }
            match parse_usize(qty) {
                Some(v) => Ok((string_from(name), v)),
                None => Err(stock_err(line, "failed to parse quantity")),
            }
        },
    }
}

/// The target list of an optimize line, as the pattern
/// `^optimize:\((?<targets>[^)]+)\)$` captures it.
pub open spec fn optimize_match(s: Seq<char>) -> Option<Seq<char>> {
    if starts_with(s, "optimize:("@) && s.len() >= 11 && s.last() == ')' {
        let inner = s.subrange(10, s.len() - 1);
        if inner.len() > 0 && first_index(inner, ')') is None {
            Some(inner)
        } else {
            None
        }
    } else {
        None
    }
}

/// A separator of optimize targets.
pub open spec fn is_target_sep(c: char) -> bool {
    c == '|' || c == ';'
}

/// The pieces of `s` between `|` and `;` separators.
pub open spec fn split_targets(s: Seq<char>) -> Seq<Seq<char>>
    decreases s.len(),
{
    if s.len() == 0 {
        seq![Seq::<char>::empty()]
    } else {
        let prev = split_targets(s.drop_last());
        if is_target_sep(s.last()) {
            prev.push(Seq::<char>::empty())
        } else {
            prev.update(prev.len() - 1, prev.last().push(s.last()))
        }
    }
}

proof fn lemma_split_targets_nonempty(s: Seq<char>)
    ensures
        split_targets(s).len() >= 1,
    decreases s.len(),
{
    if s.len() > 0 {
        lemma_split_targets_nonempty(s.drop_last());
    }
}

/// The non-empty pieces of `pieces`, in order.
pub open spec fn non_empty(pieces: Seq<Seq<char>>) -> Seq<Seq<char>>
    decreases pieces.len(),
{
    if pieces.len() == 0 {
        pieces
    } else if pieces.last().len() > 0 {
        non_empty(pieces.drop_last()).push(pieces.last())
    } else {
        non_empty(pieces.drop_last())
    }
}

/// The targets of an optimize directive: the non-empty pieces between `|`
/// and `;` separators.
pub open spec fn optimize_targets_spec(s: Seq<char>) -> Seq<Seq<char>> {
    non_empty(split_targets(s))
}

/// The message of a refused optimize line.
pub open spec fn optimize_err_spec(line: Seq<char>, reason: Seq<char>) -> Seq<char> {
    "Error in optimize `"@ + trim(line) + "`: "@ + reason + "\nUsage: optimize:(<stock_name>|time)"@
}

/// What `parse_optimize` gives for a line.
pub open spec fn parse_optimize_spec(line: Seq<char>) -> Result<Seq<Seq<char>>, Seq<char>> {
    match optimize_match(trim(line)) {
        None => Err(optimize_err_spec(line, ""@)),
        Some(inner) => Ok(optimize_targets_spec(inner)),
    }
}

/// The message of a refused optimize line: the trimmed line, the reason and the usage.
pub fn optimize_err(line: &[char], reason: &str) -> (m: String)
    ensures
        m@ == optimize_err_spec(line@, reason@),
{
    let mut m = String::new();
    m.append("Error in optimize `");
    let t = trimmed(line);
    push_chars(&mut m, t.as_slice());
    m.append("`: ");
    m.append(reason);
    m.append("\nUsage: optimize:(<stock_name>|time)");
    m
}

/// The models of a list of strings.
pub open spec fn strings_view(v: Seq<String>) -> Seq<Seq<char>> {
    v.map_values(|t: String| t@)
}

/// Splits a target list on `|` and `;` and keeps the non-empty pieces.
pub fn parse_optimize_targets(targets: &[char]) -> (r: Vec<String>)
    ensures
        strings_view(r@) == optimize_targets_spec(targets@),
{
    let n = targets.len();
    let mut out: Vec<String> = Vec::new();
    let mut cur: Vec<char> = Vec::new();
    for i in 0..n
        invariant
            n == targets@.len(),
            split_targets(targets@.take(i as int)).len() >= 1,
            strings_view(out@) == non_empty(split_targets(targets@.take(i as int)).drop_last()),
            cur@ == split_targets(targets@.take(i as int)).last(),
    {
        let ghost pre = targets@.take(i as int);
        let ghost prev = split_targets(pre);
        assert(targets@.take(i + 1).drop_last() =~= pre);
        assert(targets@.take(i + 1).last() == targets@[i as int]);
        proof {
            lemma_split_targets_nonempty(pre);
        }
        let c = targets[i];
        if c == '|' || c == ';' {
            let ghost next = prev.push(Seq::<char>::empty());
            assert(next.drop_last() =~= prev);
            assert(prev.drop_last().push(prev.last()) =~= prev);
            if cur.len() > 0 {
                let piece = string_from(cur.as_slice());
                out.push(piece);
                assert(strings_view(out@) =~= non_empty(prev.drop_last()).push(prev.last()));
            } else {
                assert(strings_view(out@) =~= non_empty(prev.drop_last()));
            }
            cur = Vec::new();
        } else {
            cur.push(c);
            let ghost next = prev.update(prev.len() - 1, prev.last().push(c));
            assert(next.drop_last() =~= prev.drop_last());
        }
    }
    assert(targets@.take(n as int) =~= targets@);
    let ghost all = split_targets(targets@);
    assert(all.drop_last().push(all.last()) =~= all);
    if cur.len() > 0 {
        let piece = string_from(cur.as_slice());
        out.push(piece);
        assert(strings_view(out@) =~= non_empty(all.drop_last()).push(all.last()));
    }
    out
}

/// Reads an optimize line `optimize:(target;target|...)`.
pub fn parse_optimize(line: &[char]) -> (r: Result<Vec<String>, String>)
    ensures
        match r {
            Ok(v) => parse_optimize_spec(line@) == Ok::<Seq<Seq<char>>, Seq<char>>(strings_view(v@)),
            Err(m) => parse_optimize_spec(line@) == Err::<Seq<Seq<char>>, Seq<char>>(m@),
        },
{
    let t = trimmed(line);
    let ghost ts = t@;
    let prefix = chars_of("optimize:(");
    let n = t.len();
    if !chars_start_with(t.as_slice(), prefix.as_slice()) || n < 11 || t[n - 1] != ')' {
        return Err(optimize_err(line, ""));
    }
    let inner = &t.as_slice()[10..n - 1];
    assert(inner@ =~= ts.subrange(10, ts.len() - 1));
    if inner.len() == 0 {
        return Err(optimize_err(line, ""));
    }
    match find_char(inner, ')') {
        Some(_) => Err(optimize_err(line, "")),
        None => Ok(parse_optimize_targets(inner)),
    }
}

/// The name, needs text, results text and delay text of a process line, as
/// the pattern `^(?<name>[^:]+):\((?<needs>[^)]*)\):\((?<results>[^)]*)\):(?<delay>\d+)$`
/// captures them: the name ends at the first `:`, each list at the first `)`.
pub open spec fn process_match(s: Seq<char>) -> Option<(Seq<char>, Seq<char>, Seq<char>, Seq<char>)> {
    match first_index(s, ':') {
        None => None,
        Some(i) => {
            let name = s.take(i as int);
            let r1 = s.skip(i as int + 1);
            if name.len() == 0 || r1.len() == 0 || r1[0] != '(' {
                None
            } else {
                let r2 = r1.skip(1);
                match first_index(r2, ')') {
                    None => None,
                    Some(j) => {
                        let needs = r2.take(j as int);
                        let r3 = r2.skip(j as int + 1);
                        if r3.len() < 2 || r3[0] != ':' || r3[1] != '(' {
                            None
                        } else {
                            let r4 = r3.skip(2);
                            match first_index(r4, ')') {
                                None => None,
                                Some(k) => {
                                    let results = r4.take(k as int);
                                    let r5 = r4.skip(k as int + 1);
                                    if r5.len() == 0 || r5[0] != ':' || !regex_digits(r5.skip(1)) {
                                        None
                                    } else {
                                        Some((name, needs, results, r5.skip(1)))
                                    }
                                },
                            }
                        }
                    },
                }
            }
        },
    }
}

/// The items read from `pieces` in order, a later item replacing an earlier
/// one of the same name; the first refused item gives the error.
pub open spec fn items_from(pieces: Seq<Seq<char>>) -> Result<Map<Seq<char>, nat>, Seq<char>>
    decreases pieces.len(),
{
    if pieces.len() == 0 {
        Ok(Map::empty())
    } else {
        match items_from(pieces.drop_last()) {
            Err(e) => Err(e),
            Ok(m) => match parse_stock_spec(pieces.last()) {
                Err(e) => Err(e),
                Ok((name, qty)) => Ok(m.insert(name, qty as nat)),
            },
        }
    }
}

/// What `parse_items` gives for a (trimmed) item list: empty for an empty
/// text, else the `;`-separated items.
pub open spec fn parse_items_spec(s: Seq<char>) -> Result<Map<Seq<char>, nat>, Seq<char>> {
    if s.len() == 0 {
        Ok(Map::empty())
    } else {
        items_from(split_on(s, ';'))
    }
}

/// The message of a refused process line.
pub open spec fn process_err_spec(line: Seq<char>, reason: Seq<char>) -> Seq<char> {
    "Error in process `"@ + trim(line) + "`: "@ + reason
        + "\nUsage: <name>:(<need>:<quantity>;...):(<result>:<quantity>;...):<delay>"@
}

/// What `parse_process` gives for a line.
pub open spec fn parse_process_spec(line: Seq<char>) -> Result<ProcessSpec, Seq<char>> {
    match process_match(line) {
        None => Err(process_err_spec(line, ""@)),
        Some((name, needs, results, delay)) => match parse_items_spec(trim(needs)) {
            Err(e) => Err(e),
            Ok(nm) => match parse_items_spec(trim(results)) {
                Err(e) => Err(e),
                Ok(rm) => match parse_usize_spec(delay) {
                    None => Err(process_err_spec(line, "failed to parse delay"@)),
                    Some(d) => Ok(ProcessSpec { name, needs: nm, results: rm, delay: d as nat }),
                },
            },
        },
    }
}

/// The message of a refused process line: the trimmed line, the reason and the usage.
pub fn process_err(line: &[char], reason: &str) -> (m: String)
    ensures
        m@ == process_err_spec(line@, reason@),
{
    let mut m = String::new();
    m.append("Error in process `");
    let t = trimmed(line);
    push_chars(&mut m, t.as_slice());
    m.append("`: ");
    m.append(reason);
    m.append("\nUsage: <name>:(<need>:<quantity>;...):(<result>:<quantity>;...):<delay>");
    m
}

proof fn lemma_items_from_error(pieces: Seq<Seq<char>>, i: int, e: Seq<char>)
    requires
        0 <= i <= pieces.len(),
        items_from(pieces.take(i)) == Err::<Map<Seq<char>, nat>, Seq<char>>(e),
    ensures
        items_from(pieces) == Err::<Map<Seq<char>, nat>, Seq<char>>(e),
    decreases pieces.len() - i,
{
    if i < pieces.len() {
        assert(pieces.take(i + 1).drop_last() =~= pieces.take(i));
        lemma_items_from_error(pieces, i + 1, e);
    } else {
        assert(pieces.take(i) =~= pieces);
    }
}

/// Reads a `;`-separated list of `name:quantity` items into a map.
pub fn parse_items(items: &[char]) -> (r: Result<StockMap, String>)
    ensures
        match r {
            Ok(m) => m.wf() && parse_items_spec(items@) == Ok::<Map<Seq<char>, nat>, Seq<char>>(m@),
            Err(e) => parse_items_spec(items@) == Err::<Map<Seq<char>, nat>, Seq<char>>(e@),
        },
{
    let mut map = StockMap::new();
    if items.len() == 0 {
        return Ok(map);
    }
    let pieces = split_chars(items, ';');
    let ghost ps = split_on(items@, ';');
    let n = pieces.len();
    for i in 0..n
        invariant
            n == pieces@.len(),
            n == ps.len(),
            items@.len() > 0,
            ps == split_on(items@, ';'),
            forall|j: int| 0 <= j < n ==> #[trigger] pieces@[j]@ == ps[j],
            map.wf(),
            items_from(ps.take(i as int)) == Ok::<Map<Seq<char>, nat>, Seq<char>>(map@),
    {
        assert(ps.take(i + 1).drop_last() =~= ps.take(i as int));
        assert(ps.take(i + 1).last() == pieces@[i as int]@);
        match parse_stock(pieces[i].as_slice()) {
            Ok((name, qty)) => {
                map.insert(name, qty);
            },
            Err(e) => {
                proof {
                    assert(items_from(ps.take(i + 1)) == Err::<Map<Seq<char>, nat>, Seq<char>>(e@));
                    lemma_items_from_error(ps, i + 1, e@);
                }
                return Err(e);
            },
        }
    }
    assert(ps.take(n as int) =~= ps);
    Ok(map)
}

/// Reads a process line `name:(needs):(results):delay`.
pub fn parse_process(line: &[char]) -> (r: Result<Process, String>)
    ensures
        match r {
            Ok(p) => p.wf() && parse_process_spec(line@) == Ok::<ProcessSpec, Seq<char>>(p@),
            Err(m) => parse_process_spec(line@) == Err::<ProcessSpec, Seq<char>>(m@),
        },
{
    let s = line;
    proof {
        lemma_first_index(s@, ':');
    }
    let i = match find_char(s, ':') {
        None => {
            return Err(process_err(line, ""));
        },
        Some(i) => i,
    };
    let len = s.len();
    assert(i < len);
    let name = &s[0..i];
    let r1 = &s[i + 1..s.len()];
    assert(name@ =~= s@.take(i as int));
    assert(r1@ =~= s@.skip(i as int + 1));
    if name.len() == 0 || r1.len() == 0 || r1[0] != '(' {
        return Err(process_err(line, ""));
    }
    let r2 = &r1[1..r1.len()];
    assert(r2@ =~= r1@.skip(1));
    proof {
        lemma_first_index(r2@, ')');
    }
    let j = match find_char(r2, ')') {
        None => {
            return Err(process_err(line, ""));
        },
        Some(j) => j,
    };
    let needs = &r2[0..j];
    let r3 = &r2[j + 1..r2.len()];
    assert(needs@ =~= r2@.take(j as int));
    assert(r3@ =~= r2@.skip(j as int + 1));
    if r3.len() < 2 || r3[0] != ':' || r3[1] != '(' {
        return Err(process_err(line, ""));
    }
    let r4 = &r3[2..r3.len()];
    assert(r4@ =~= r3@.skip(2));
    proof {
        lemma_first_index(r4@, ')');
    }
    let k = match find_char(r4, ')') {
        None => {
            return Err(process_err(line, ""));
        },
        Some(k) => k,
    };
    let results = &r4[0..k];
    let r5 = &r4[k + 1..r4.len()];
    assert(results@ =~= r4@.take(k as int));
    assert(r5@ =~= r4@.skip(k as int + 1));
    if r5.len() == 0 || r5[0] != ':' {
        return Err(process_err(line, ""));
    }
    let delay = &r5[1..r5.len()];
    assert(delay@ =~= r5@.skip(1));
    if !regex_digits_exec(delay) {
        return Err(process_err(line, ""));
    }
    let needs_t = trimmed(needs);
    let results_t = trimmed(results);
    let need_map = match parse_items(needs_t.as_slice()) {
        Ok(m) => m,
        Err(e) => {
            return Err(e);
        },
    };
    let result_map = match parse_items(results_t.as_slice()) {
        Ok(m) => m,
        Err(e) => {
            return Err(e);
        },
    };
    match parse_usize(delay) {
        None => Err(process_err(line, "failed to parse delay")),
        Some(d) => Ok(Process { name: string_from(name), needs: need_map, results: result_map, delay: d }),
    }
}

/// The model of a configuration.
pub struct ConfigSpec {
    pub stocks: Map<Seq<char>, nat>,
    pub processes: Seq<ProcessSpec>,
    pub optimize: Seq<Seq<char>>,
}

/// A configuration: initial stocks, processes, and optimization targets.
pub struct Config {
    pub stocks: StockMap,
    pub processes: Vec<Process>,
    pub optimize: Vec<String>,
}

impl View for Config {
    type V = ConfigSpec;

    open spec fn view(&self) -> ConfigSpec {
        ConfigSpec {
            stocks: self.stocks@,
            processes: self.processes@.map_values(|p: Process| p@),
            optimize: strings_view(self.optimize@),
        }
    }
}

impl Config {
    /// The stocks and every process are well formed.
    pub open spec fn wf(&self) -> bool {
        &&& self.stocks.wf()
        &&& forall|i: int| 0 <= i < self.processes@.len() ==> #[trigger] self.processes@[i].wf()
    }
}

/// The configuration read so far, updated by one line: an `optimize:` line
/// sets the targets (once), a line with `(` adds a process (with a new name),
/// any other line adds a stock (with a new name).
pub open spec fn config_step(acc: ConfigSpec, line: Seq<char>) -> Result<ConfigSpec, Seq<char>> {
    if starts_with(line, "optimize:"@) {
        if acc.optimize.len() > 0 {
            Err("Duplicate optimize directive found"@)
        } else {
            match parse_optimize_spec(line) {
                Err(e) => Err(e),
                Ok(t) => Ok(ConfigSpec { optimize: t, ..acc }),
            }
        }
    } else if first_index(line, '(') is Some {
        match parse_process_spec(line) {
            Err(e) => Err(e),
            Ok(p) => if exists|i: int|
                0 <= i < acc.processes.len() && #[trigger] acc.processes[i].name == p.name {
                Err("Duplicate process definition found: "@ + p.name)
            } else {
                Ok(ConfigSpec { processes: acc.processes.push(p), ..acc })
            },
        }
    } else {
        match parse_stock_spec(line) {
            Err(e) => Err(e),
            Ok((name, qty)) => if acc.stocks.dom().contains(name) {
                Err("Duplicate stock definition found: "@ + name)
            } else {
                Ok(ConfigSpec { stocks: acc.stocks.insert(name, qty as nat), ..acc })
            },
        }
    }
}

/// The configuration read from the first `n` lines; the first refused line
/// gives the error.
pub open spec fn config_from(lines: Seq<Seq<char>>, n: nat) -> Result<ConfigSpec, Seq<char>>
    decreases n,
{
    if n == 0 {
        Ok(ConfigSpec { stocks: Map::empty(), processes: Seq::empty(), optimize: Seq::empty() })
    } else {
        match config_from(lines, (n - 1) as nat) {
            Err(e) => Err(e),
            Ok(acc) => config_step(acc, lines[n - 1]),
        }
    }
}

/// What `parse_config` gives for a configuration text.
pub open spec fn parse_config_spec(content: Seq<char>) -> Result<ConfigSpec, Seq<char>> {
    let lines = text_lines(content);
    match config_from(lines, lines.len()) {
        Err(e) => Err(e),
        Ok(c) => if c.processes.len() == 0 {
            Err("Missing processes"@)
        } else {
            Ok(c)
        },
    }
}

proof fn lemma_config_from_error(lines: Seq<Seq<char>>, i: nat, n: nat, e: Seq<char>)
    requires
        i <= n,
        config_from(lines, i) == Err::<ConfigSpec, Seq<char>>(e),
    ensures
        config_from(lines, n) == Err::<ConfigSpec, Seq<char>>(e),
    decreases n - i,
{
    if i < n {
        lemma_config_from_error(lines, i, (n - 1) as nat, e);
    }
}

/// Whether some process of `processes` is named like `name`.
fn has_process_named(processes: &Vec<Process>, name: &String) -> (b: bool)
    ensures
        b == exists|i: int| 0 <= i < processes@.len() && #[trigger] processes@[i]@.name == name@,
{
    let n = processes.len();
    for i in 0..n
        invariant
            n == processes@.len(),
            forall|j: int| 0 <= j < i ==> #[trigger] processes@[j]@.name != name@,
    {
        if processes[i].name == *name {
            assert(processes@[i as int]@.name == name@);
            return true;
        }
    }
    false
}

/// Reads a configuration text: stock lines `name:quantity`, process lines
/// `name:(needs):(results):delay`, at most one `optimize:(targets)` line;
/// blank lines and `#` comments are skipped. At least one process is required.
pub fn parse_config(content: &str) -> (r: Result<Config, String>)
    ensures
        match r {
            Ok(c) => c.wf() && parse_config_spec(content@) == Ok::<ConfigSpec, Seq<char>>(c@),
            Err(e) => parse_config_spec(content@) == Err::<ConfigSpec, Seq<char>>(e@),
        },
{
    let lines = get_file_lines(content);
    let ghost ls = text_lines(content@);
    let mut stocks = StockMap::new();
    let mut processes: Vec<Process> = Vec::new();
    let mut optimize: Vec<String> = Vec::new();
    let optimize_prefix = chars_of("optimize:");
    let n = lines.len();
    assert(processes@.map_values(|p: Process| p@) =~= Seq::<ProcessSpec>::empty());
    assert(strings_view(optimize@) =~= Seq::<Seq<char>>::empty());
    for i in 0..n
        invariant
            n == lines@.len(),
            n == ls.len(),
            ls == text_lines(content@),
            optimize_prefix@ == "optimize:"@,
            forall|j: int| 0 <= j < n ==> #[trigger] lines@[j]@ == ls[j],
            stocks.wf(),
            forall|j: int| 0 <= j < processes@.len() ==> #[trigger] processes@[j].wf(),
            config_from(ls, i as nat) == Ok::<ConfigSpec, Seq<char>>(
                ConfigSpec {
                    stocks: stocks@,
                    processes: processes@.map_values(|p: Process| p@),
                    optimize: strings_view(optimize@),
                },
            ),
    {
        let line = lines[i].as_slice();
        assert(line@ == ls[i as int]);
        let ghost acc = ConfigSpec {
            stocks: stocks@,
            processes: processes@.map_values(|p: Process| p@),
            optimize: strings_view(optimize@),
        };
        if chars_start_with(line, optimize_prefix.as_slice()) {
            if optimize.len() > 0 {
                let e = String::from_str("Duplicate optimize directive found");
                proof {
                    lemma_config_from_error(ls, (i + 1) as nat, n as nat, e@);
                }
                return Err(e);
            }
            match parse_optimize(line) {
                Ok(t) => {
                    optimize = t;
                },
                Err(e) => {
                    proof {
                        lemma_config_from_error(ls, (i + 1) as nat, n as nat, e@);
                    }
                    return Err(e);
                },
            }
        } else if find_char(line, '(').is_some() {
            match parse_process(line) {
                Ok(p) => {
                    if has_process_named(&processes, &p.name) {
                        let mut e = String::from_str("Duplicate process definition found: ");
                        e.append(p.name.as_str());
                        proof {
                            let j = choose|j: int|
                                0 <= j < processes@.len() && #[trigger] processes@[j]@.name == p@.name;
                            assert(acc.processes[j].name == p@.name);
                            assert(config_step(acc, line@) == Err::<ConfigSpec, Seq<char>>(e@));
                            lemma_config_from_error(ls, (i + 1) as nat, n as nat, e@);
                        }
                        return Err(e);
                    }
                    let ghost before = processes@;
                    processes.push(p);
                    assert(processes@.map_values(|q: Process| q@) =~= before.map_values(
                        |q: Process| q@,
                    ).push(p@));
                    assert(!(exists|j: int|
                        0 <= j < acc.processes.len() && #[trigger] acc.processes[j].name == p@.name)) by {
                        if exists|j: int|
                            0 <= j < acc.processes.len() && #[trigger] acc.processes[j].name == p@.name {
                            let j = choose|j: int|
                                0 <= j < acc.processes.len() && #[trigger] acc.processes[j].name == p@.name;
                            assert(before[j]@.name == p@.name);
                        }
                    }
                },
                Err(e) => {
                    proof {
                        lemma_config_from_error(ls, (i + 1) as nat, n as nat, e@);
                    }
                    return Err(e);
                },
            }
        } else {
            match parse_stock(line) {
                Ok((name, qty)) => {
                    let mut e = String::from_str("Duplicate stock definition found: ");
                    e.append(name.as_str());
                    if stocks.insert(name, qty) {
                        proof {
                            lemma_config_from_error(ls, (i + 1) as nat, n as nat, e@);
                        }
                        return Err(e);
                    }
                },
                Err(e) => {
                    proof {
                        lemma_config_from_error(ls, (i + 1) as nat, n as nat, e@);
                    }
                    return Err(e);
                },
            }
        }
    }
    if processes.len() == 0 {
        return Err(String::from_str("Missing processes"));
    }
    Ok(Config { stocks, processes, optimize })
}

/// What one log line `cycle:name` gives: the cycle is the text before the
/// first `:`, read as `str::parse::<usize>` does; the name is the rest.
pub open spec fn log_line_spec(line: Seq<char>) -> Result<(usize, Seq<char>), Seq<char>> {
    match first_index(line, ':') {
        None => Err("Invalid log line: "@ + line),
        Some(i) => match parse_usize_spec(line.take(i as int)) {
            None => Err("Invalid cycle number: "@ + line),
            Some(c) => Ok((c, line.skip(i as int + 1))),
        },
    }
}

/// The actions read from the first `n` lines; the first refused line gives
/// the error.
pub open spec fn log_from(lines: Seq<Seq<char>>, n: nat) -> Result<Seq<(usize, Seq<char>)>, Seq<char>>
    decreases n,
{
    if n == 0 {
        Ok(Seq::empty())
    } else {
        match log_from(lines, (n - 1) as nat) {
            Err(e) => Err(e),
            Ok(acts) => match log_line_spec(lines[n - 1]) {
                Err(e) => Err(e),
                Ok(a) => Ok(acts.push(a)),
            },
        }
    }
}

/// What `parse_log` gives for a log text.
pub open spec fn parse_log_spec(content: Seq<char>) -> Result<Seq<(usize, Seq<char>)>, Seq<char>> {
    log_from(text_lines(content), text_lines(content).len())
}

proof fn lemma_log_from_error(lines: Seq<Seq<char>>, i: nat, n: nat, e: Seq<char>)
    requires
        i <= n,
        log_from(lines, i) == Err::<Seq<(usize, Seq<char>)>, Seq<char>>(e),
    ensures
        log_from(lines, n) == Err::<Seq<(usize, Seq<char>)>, Seq<char>>(e),
    decreases n - i,
{
    if i < n {
        lemma_log_from_error(lines, i, (n - 1) as nat, e);
    }
}

/// The models of a list of actions.
pub open spec fn actions_view(v: Seq<(usize, String)>) -> Seq<(usize, Seq<char>)> {
    v.map_values(|a: (usize, String)| (a.0, a.1@))
}

/// Reads a schedule log: one `cycle:name` action per line; blank lines and
/// `#` comments are skipped.
pub fn parse_log(content: &str) -> (r: Result<Vec<(usize, String)>, String>)
    ensures
        match r {
            Ok(v) => parse_log_spec(content@) == Ok::<Seq<(usize, Seq<char>)>, Seq<char>>(
                actions_view(v@),
            ),
            Err(e) => parse_log_spec(content@) == Err::<Seq<(usize, Seq<char>)>, Seq<char>>(e@),
        },
{
    let lines = get_file_lines(content);
    let ghost ls = text_lines(content@);
    let mut actions: Vec<(usize, String)> = Vec::new();
    let n = lines.len();
    assert(actions_view(actions@) =~= Seq::<(usize, Seq<char>)>::empty());
    for i in 0..n
        invariant
            n == lines@.len(),
            n == ls.len(),
            ls == text_lines(content@),
            forall|j: int| 0 <= j < n ==> #[trigger] lines@[j]@ == ls[j],
            log_from(ls, i as nat) == Ok::<Seq<(usize, Seq<char>)>, Seq<char>>(actions_view(actions@)),
    {
        let line = lines[i].as_slice();
        assert(line@ == ls[i as int]);
        proof {
            lemma_first_index(line@, ':');
        }
        match find_char(line, ':') {
            None => {
                let mut e = String::from_str("Invalid log line: ");
                push_chars(&mut e, line);
                proof {
                    lemma_log_from_error(ls, (i + 1) as nat, n as nat, e@);
                }
                return Err(e);
            },
            Some(k) => {
                let len = line.len();
                assert(k < len);
                let cycle_str = &line[0..k];
                let name = &line[k + 1..len];
                assert(cycle_str@ =~= line@.take(k as int));
                assert(name@ =~= line@.skip(k as int + 1));
                match parse_usize(cycle_str) {
                    None => {
                        let mut e = String::from_str("Invalid cycle number: ");
                        push_chars(&mut e, line);
                        proof {
                            lemma_log_from_error(ls, (i + 1) as nat, n as nat, e@);
                        }
                        return Err(e);
                    },
                    Some(c) => {
                        let ghost before = actions@;
                        actions.push((c, string_from(name)));
                        assert(actions_view(actions@) =~= actions_view(before).push((c, name@)));
                    },
                }
            },
        }
    }
    Ok(actions)
}

proof fn lemma_config_from_distinct(lines: Seq<Seq<char>>, n: nat)
    ensures
        config_from(lines, n) matches Ok(c) ==> forall|i: int, j: int|
            #![trigger c.processes[i], c.processes[j]]
            0 <= i < c.processes.len() && 0 <= j < c.processes.len() && i != j
                ==> c.processes[i].name != c.processes[j].name,
    decreases n,
{
    if n > 0 {
        lemma_config_from_distinct(lines, (n - 1) as nat);
        match config_from(lines, (n - 1) as nat) {
            Ok(acc) => {
                match config_from(lines, n) {
                    Ok(c) => {
                        if c.processes.len() > acc.processes.len() {
                            let p = c.processes.last();
                            assert(c.processes == acc.processes.push(p));
                            assert forall|i: int, j: int|
                                0 <= i < c.processes.len() && 0 <= j < c.processes.len() && i != j
                                    implies #[trigger] c.processes[i].name != #[trigger] c.processes[j].name by {
                                if i < acc.processes.len() && j < acc.processes.len() {
                                    assert(c.processes[i] == acc.processes[i]);
                                    assert(c.processes[j] == acc.processes[j]);
                                } else if i < acc.processes.len() {
                                    assert(c.processes[i] == acc.processes[i]);
                                } else {
                                    assert(c.processes[j] == acc.processes[j]);
                                }
                            }
                        } else {
                            assert(c.processes == acc.processes);
                        }
                    },
                    Err(_) => {},
                }
            },
            Err(_) => {},
        }
    }
}

/// Law: a parsed configuration never holds two processes of the same name.
pub proof fn lemma_parsed_process_names_distinct(content: Seq<char>)
    ensures
        parse_config_spec(content) matches Ok(c) ==> forall|i: int, j: int|
            #![trigger c.processes[i], c.processes[j]]
            0 <= i < c.processes.len() && 0 <= j < c.processes.len() && i != j
                ==> c.processes[i].name != c.processes[j].name,
{
    lemma_config_from_distinct(text_lines(content), text_lines(content).len());
}

/// A line that is read as a stock item: neither an `optimize:` line nor one
/// with `(`.
pub open spec fn is_stock_line(line: Seq<char>) -> bool {
    !starts_with(line, "optimize:"@) && first_index(line, '(') is None
}

proof fn lemma_config_from_grows(lines: Seq<Seq<char>>, m: nat, n: nat)
    requires
        m <= n,
        config_from(lines, n) is Ok,
    ensures
        config_from(lines, m) is Ok,
        forall|k: Seq<char>|
            #[trigger] config_from(lines, m)->Ok_0.stocks.dom().contains(k) ==> config_from(
                lines,
                n,
            )->Ok_0.stocks.dom().contains(k) && config_from(lines, n)->Ok_0.stocks[k] == config_from(
                lines,
                m,
            )->Ok_0.stocks[k],
        config_from(lines, m)->Ok_0.optimize.len() > 0 ==> config_from(lines, n)->Ok_0.optimize
            == config_from(lines, m)->Ok_0.optimize,
    decreases n - m,
{
    if m < n {
        let p = (n - 1) as nat;
        match config_from(lines, p) {
            Ok(acc) => {
                lemma_config_from_grows(lines, m, p);
                let c = config_from(lines, n)->Ok_0;
                assert forall|k: Seq<char>| #[trigger] acc.stocks.dom().contains(k) implies c.stocks.dom().contains(k)
                    && c.stocks[k] == acc.stocks[k] by {}
            },
            Err(e) => {},
        }
    }
}

/// Law: in a configuration that parses, every stock line of the text, before
/// or after the process lines, gives its stock with its quantity.
pub proof fn lemma_parsed_stock_lines(content: Seq<char>, i: int)
    requires
        0 <= i < text_lines(content).len(),
        is_stock_line(text_lines(content)[i]),
        parse_config_spec(content) is Ok,
    ensures
        parse_stock_spec(text_lines(content)[i]) matches Ok((name, qty)) && parse_config_spec(
            content,
        )->Ok_0.stocks.dom().contains(name) && parse_config_spec(content)->Ok_0.stocks[name] == qty,
{
    let lines = text_lines(content);
    lemma_config_from_grows(lines, (i + 1) as nat, lines.len());
    lemma_config_from_grows(lines, i as nat, (i + 1) as nat);
    let acc = config_from(lines, i as nat)->Ok_0;
    assert(config_from(lines, (i + 1) as nat) == config_step(acc, lines[i]));
    assert(!starts_with(lines[i], "optimize:"@));
    assert(first_index(lines[i], '(') is None);
    let c = config_from(lines, (i + 1) as nat)->Ok_0;
    match parse_stock_spec(lines[i]) {
        Ok((name, qty)) => {
            assert(c.stocks == acc.stocks.insert(name, qty as nat));
            assert(c.stocks.dom().contains(name));
        },
        Err(e) => {
            assert(config_step(acc, lines[i]) is Err);
        },
    }
}

/// Law: a text with two stock lines of the same name is refused.
pub proof fn lemma_duplicate_stock_lines_refused(content: Seq<char>, i: int, j: int)
    requires
        0 <= i < j < text_lines(content).len(),
        is_stock_line(text_lines(content)[i]),
        is_stock_line(text_lines(content)[j]),
        parse_stock_spec(text_lines(content)[i]) is Ok,
        parse_stock_spec(text_lines(content)[j]) is Ok,
        parse_stock_spec(text_lines(content)[i])->Ok_0.0 == parse_stock_spec(text_lines(content)[j])->Ok_0.0,
    ensures
        parse_config_spec(content) is Err,
{
    let lines = text_lines(content);
    if parse_config_spec(content) is Ok {
        lemma_config_from_grows(lines, (j + 1) as nat, lines.len());
        lemma_config_from_grows(lines, (i + 1) as nat, j as nat);
        lemma_config_from_grows(lines, i as nat, (i + 1) as nat);
        let name = parse_stock_spec(lines[i])->Ok_0.0;
        let acc_i = config_from(lines, i as nat)->Ok_0;
        assert(config_from(lines, (i + 1) as nat) == config_step(acc_i, lines[i]));
        assert(config_from(lines, (i + 1) as nat)->Ok_0.stocks.dom().contains(name));
        let acc_j = config_from(lines, j as nat)->Ok_0;
        assert(acc_j.stocks.dom().contains(name));
        assert(config_from(lines, (j + 1) as nat) == config_step(acc_j, lines[j]));
        assert(config_step(acc_j, lines[j]) is Err);
    }
}

/// Law: in a configuration that parses, an optimize line with at least one
/// target gives the targets of the configuration.
pub proof fn lemma_parsed_optimize_line(content: Seq<char>, i: int)
    requires
        0 <= i < text_lines(content).len(),
        starts_with(text_lines(content)[i], "optimize:"@),
        parse_config_spec(content) is Ok,
    ensures
        parse_optimize_spec(text_lines(content)[i]) matches Ok(t) && (t.len() > 0 ==> parse_config_spec(
            content,
        )->Ok_0.optimize == t),
{
    let lines = text_lines(content);
    lemma_config_from_grows(lines, (i + 1) as nat, lines.len());
    lemma_config_from_grows(lines, i as nat, (i + 1) as nat);
    let acc = config_from(lines, i as nat)->Ok_0;
    assert(config_from(lines, (i + 1) as nat) == config_step(acc, lines[i]));
}

proof fn lemma_config_from_same_after(l1: Seq<Seq<char>>, l2: Seq<Seq<char>>, a: nat, n: nat)
    requires
        a <= n,
        config_from(l1, a) == config_from(l2, a),
        forall|m: int| a <= m < n ==> l1[m] == l2[m],
    ensures
        config_from(l1, n) == config_from(l2, n),
    decreases n - a,
{
    if a < n {
        lemma_config_from_same_after(l1, l2, a, (n - 1) as nat);
    }
}

/// Law: a stock line and the process line right after it may trade places
/// without changing what the text parses to, unless both lines are refused
/// by the configuration read before them (the first refusal then names the
/// other line).
pub proof fn lemma_stock_line_moves_past_process(first: Seq<char>, second: Seq<char>, j: int)
    requires
        0 <= j && j + 1 < text_lines(first).len(),
        text_lines(second) == text_lines(first).update(j, text_lines(first)[j + 1]).update(
            j + 1,
            text_lines(first)[j],
        ),
        is_stock_line(text_lines(first)[j]),
        !starts_with(text_lines(first)[j + 1], "optimize:"@),
        first_index(text_lines(first)[j + 1], '(') is Some,
        !(config_from(text_lines(first), j as nat) matches Ok(acc) && config_step(
            acc,
            text_lines(first)[j],
        ) is Err && config_step(acc, text_lines(first)[j + 1]) is Err),
    ensures
        parse_config_spec(second) == parse_config_spec(first),
{
    let l1 = text_lines(first);
    let l2 = text_lines(second);
    let n = l1.len();
    let a = j as nat;
    let b = (j + 2) as nat;
    assert(config_from(l1, 0) == config_from(l2, 0));
    lemma_config_from_same_after(l1, l2, 0, a);
    match config_from(l1, a) {
        Err(e) => {
            lemma_config_from_error(l1, a, b, e);
            lemma_config_from_error(l2, a, b, e);
        },
        Ok(acc) => {
            let s = l1[j];
            let p = l1[j + 1];
            assert(l2[j] == p && l2[j + 1] == s);
            assert(config_from(l1, (j + 1) as nat) == config_step(acc, s));
            assert(config_from(l2, (j + 1) as nat) == config_step(acc, p));
            match config_step(acc, s) {
                Ok(acc1) => {
                    assert(acc1.processes == acc.processes);
                    match config_step(acc, p) {
                        Ok(acc2) => {
                            assert(acc2.stocks == acc.stocks);
                            assert(config_step(acc1, p) == config_step(acc2, s));
                        },
                        Err(e) => {},
                    }
                },
                Err(e) => {
                    match config_step(acc, p) {
                        Ok(acc2) => {
                            assert(acc2.stocks == acc.stocks);
                            assert(config_step(acc2, s) == Err::<ConfigSpec, Seq<char>>(e));
                        },
                        Err(e2) => {},
                    }
                },
            }
        },
    }
    assert(config_from(l1, b) == config_from(l2, b));
    lemma_config_from_same_after(l1, l2, b, n);
}

/// A line that is read as a process: not an `optimize:` line, and with `(`.
pub open spec fn is_process_line(line: Seq<char>) -> bool {
    !starts_with(line, "optimize:"@) && first_index(line, '(') is Some
}

/// How many of the first `n` lines are process lines.
pub open spec fn count_process_lines(lines: Seq<Seq<char>>, n: nat) -> nat
    decreases n,
{
    if n == 0 {
        0
    } else {
        count_process_lines(lines, (n - 1) as nat) + if is_process_line(lines[n - 1]) {
            1nat
        } else {
            0nat
        }
    }
}

proof fn lemma_config_from_processes(lines: Seq<Seq<char>>, m: nat, n: nat)
    requires
        m <= n,
        config_from(lines, n) is Ok,
    ensures
        config_from(lines, m) is Ok,
        config_from(lines, n)->Ok_0.processes.len() == count_process_lines(lines, n),
        config_from(lines, m)->Ok_0.processes.len() == count_process_lines(lines, m),
        count_process_lines(lines, m) <= count_process_lines(lines, n),
        forall|j: int|
            0 <= j < count_process_lines(lines, m) ==> #[trigger] config_from(lines, n)->Ok_0.processes[j]
                == config_from(lines, m)->Ok_0.processes[j],
    decreases n,
{
    if n > 0 {
        let p = (n - 1) as nat;
        match config_from(lines, p) {
            Ok(acc) => {
                let c = config_from(lines, n)->Ok_0;
                if m < n {
                    lemma_config_from_processes(lines, m, p);
                } else {
                    lemma_config_from_processes(lines, p, p);
                }
                if is_process_line(lines[p as int]) {
                    assert(c.processes.len() == acc.processes.len() + 1);
                    assert forall|j: int| 0 <= j < acc.processes.len() implies #[trigger] c.processes[j]
                        == acc.processes[j] by {}
                } else {
                    assert(c.processes == acc.processes);
                }
            },
            Err(e) => {},
        }
    }
}

/// Law: in a configuration that parses, every process line of the text gives
/// its process, and the processes stand in the order of their lines: the
/// process of a line comes after those of the process lines before it.
pub proof fn lemma_parsed_process_lines(content: Seq<char>, i: int)
    requires
        0 <= i < text_lines(content).len(),
        is_process_line(text_lines(content)[i]),
        parse_config_spec(content) is Ok,
    ensures
        parse_process_spec(text_lines(content)[i]) matches Ok(p) && count_process_lines(
            text_lines(content),
            i as nat,
        ) < parse_config_spec(content)->Ok_0.processes.len() && parse_config_spec(content)->Ok_0.processes[count_process_lines(
            text_lines(content),
            i as nat,
        ) as int] == p,
{
    let lines = text_lines(content);
    lemma_config_from_processes(lines, (i + 1) as nat, lines.len());
    lemma_config_from_processes(lines, i as nat, (i + 1) as nat);
    let acc = config_from(lines, i as nat)->Ok_0;
    let c = config_from(lines, (i + 1) as nat)->Ok_0;
    assert(config_from(lines, (i + 1) as nat) == config_step(acc, lines[i]));
    match parse_process_spec(lines[i]) {
        Ok(p) => {
            assert(c.processes == acc.processes.push(p));
            assert(c.processes[acc.processes.len() as int] == p);
        },
        Err(e) => {
            assert(config_step(acc, lines[i]) is Err);
        },
    }
}

/// Lines that are empty, all whitespace or `#` comments (after trimming)
/// count for nothing.
proof fn lemma_kept_lines_ignored(ins: Seq<Seq<char>>)
    requires
        forall|i: int| 0 <= i < ins.len() ==> !keep_line(trim(#[trigger] ins[i])),
    ensures
        kept_lines(ins) == Seq::<Seq<char>>::empty(),
    decreases ins.len(),
{
    if ins.len() > 0 {
        let d = ins.drop_last();
        assert forall|i: int| 0 <= i < d.len() implies !keep_line(trim(#[trigger] d[i])) by {
            assert(d[i] == ins[i]);
        }
        assert(ins.last() == ins[ins.len() - 1]);
        lemma_kept_lines_ignored(d);
    }
}

proof fn lemma_all_no_newline_concat(x: Seq<Seq<char>>, y: Seq<Seq<char>>)
    requires
        forall|i: int| 0 <= i < x.len() ==> #[trigger] no_newline(x[i]),
        forall|i: int| 0 <= i < y.len() ==> #[trigger] no_newline(y[i]),
    ensures
        forall|i: int| 0 <= i < (x + y).len() ==> #[trigger] no_newline((x + y)[i]),
{
    assert forall|i: int| 0 <= i < (x + y).len() implies #[trigger] no_newline((x + y)[i]) by {
        if i < x.len() {
            assert((x + y)[i] == x[i]);
        } else {
            assert((x + y)[i] == y[i - x.len()]);
        }
    }
}

/// Law: lines that are empty, all whitespace or `#` comments (after
/// trimming) can be inserted anywhere in a configuration text, any number at
/// once, without changing how it parses. The text is given as its lines, each
/// followed by a newline, and what follows the last newline.
pub proof fn lemma_ignored_lines_change_nothing(
    a: Seq<Seq<char>>,
    ins: Seq<Seq<char>>,
    b: Seq<Seq<char>>,
    last: Seq<char>,
)
    requires
        forall|i: int| 0 <= i < a.len() ==> #[trigger] no_newline(a[i]),
        forall|i: int| 0 <= i < ins.len() ==> #[trigger] no_newline(ins[i]),
        forall|i: int| 0 <= i < b.len() ==> #[trigger] no_newline(b[i]),
        forall|i: int| 0 <= i < ins.len() ==> !keep_line(trim(#[trigger] ins[i])),
        no_newline(last),
    ensures
        parse_config_spec(joined_lines(a + ins + b) + last) == parse_config_spec(
            joined_lines(a + b) + last,
        ),
{
    let with = a + ins + b;
    let without = a + b;
    lemma_all_no_newline_concat(a, ins);
    lemma_all_no_newline_concat(a + ins, b);
    lemma_all_no_newline_concat(a, b);
    lemma_split_joined(with, last);
    lemma_split_joined(without, last);
    assert(with.push(last) =~= a + (ins + b.push(last)));
    assert(without.push(last) =~= a + b.push(last));
    lemma_kept_lines_concat(a, ins + b.push(last));
    lemma_kept_lines_concat(ins, b.push(last));
    lemma_kept_lines_concat(a, b.push(last));
    lemma_kept_lines_ignored(ins);
    assert(kept_lines(ins) + kept_lines(b.push(last)) =~= kept_lines(b.push(last)));
    assert(text_lines(joined_lines(with) + last) == text_lines(joined_lines(without) + last));
}

/// Law: lines that are empty, all whitespace or `#` comments (after
/// trimming) can be added at the end of a configuration text, also one whose
/// last line has no newline, without changing how it parses.
pub proof fn lemma_ignored_lines_at_end(
    a: Seq<Seq<char>>,
    last: Seq<char>,
    ins: Seq<Seq<char>>,
    l: Seq<char>,
)
    requires
        forall|i: int| 0 <= i < a.len() ==> #[trigger] no_newline(a[i]),
        forall|i: int| 0 <= i < ins.len() ==> #[trigger] no_newline(ins[i]),
        forall|i: int| 0 <= i < ins.len() ==> !keep_line(trim(#[trigger] ins[i])),
        no_newline(last),
        no_newline(l),
        !keep_line(trim(l)),
    ensures
        parse_config_spec(joined_lines(a.push(last) + ins) + l) == parse_config_spec(
            joined_lines(a) + last,
        ),
{
    let with = a.push(last) + ins;
    lemma_all_no_newline_concat(a, seq![last]);
    assert(a.push(last) =~= a + seq![last]);
    lemma_all_no_newline_concat(a.push(last), ins);
    lemma_split_joined(with, l);
    lemma_split_joined(a, last);
    assert(with.push(l) =~= a.push(last) + ins.push(l));
    lemma_kept_lines_concat(a.push(last), ins.push(l));
    assert forall|i: int| 0 <= i < ins.push(l).len() implies !keep_line(trim(#[trigger] ins.push(l)[i])) by {
        if i < ins.len() {
            assert(ins.push(l)[i] == ins[i]);
        }
    }
    lemma_kept_lines_ignored(ins.push(l));
    assert(kept_lines(a.push(last)) + kept_lines(ins.push(l)) =~= kept_lines(a.push(last)));
    assert(text_lines(joined_lines(with) + l) == text_lines(joined_lines(a) + last));
}

/// `y` is `x` with pieces inserted anywhere that are empty, all whitespace or
/// `#` comments once trimmed.
pub open spec fn with_ignored_lines(y: Seq<Seq<char>>, x: Seq<Seq<char>>) -> bool
    decreases y.len(),
{
    if y.len() == 0 {
        x.len() == 0
    } else if x.len() > 0 && y.last() == x.last() && with_ignored_lines(y.drop_last(), x.drop_last()) {
        true
    } else {
        !keep_line(trim(y.last())) && with_ignored_lines(y.drop_last(), x)
    }
}

proof fn lemma_with_ignored_kept(y: Seq<Seq<char>>, x: Seq<Seq<char>>)
    requires
        with_ignored_lines(y, x),
    ensures
        kept_lines(y) == kept_lines(x),
    decreases y.len(),
{
    if y.len() > 0 {
        if x.len() > 0 && y.last() == x.last() && with_ignored_lines(y.drop_last(), x.drop_last()) {
            lemma_with_ignored_kept(y.drop_last(), x.drop_last());
        } else {
            lemma_with_ignored_kept(y.drop_last(), x);
        }
    }
}

/// Law: a configuration text with lines inserted anywhere (between lines,
/// before the first or after the last, any number of them) that are empty,
/// all whitespace or `#` comments once trimmed parses as the text without
/// them. Inserting whole lines into a text inserts pieces into its split on
/// newlines.
pub proof fn lemma_inserted_ignored_lines(with: Seq<char>, without: Seq<char>)
    requires
        with_ignored_lines(split_on(with, '\n'), split_on(without, '\n')),
    ensures
        parse_config_spec(with) == parse_config_spec(without),
{
    lemma_with_ignored_kept(split_on(with, '\n'), split_on(without, '\n'));
}

} // verus!
