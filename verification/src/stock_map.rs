//! A map from stock names to quantities, kept as a list of distinct names.
//!
//! Its model is a `Map<Seq<char>, nat>`: a name that is absent differs from a
//! name present with quantity 0 (a process that needs `x:0` cannot start when
//! `x` is absent).

use vstd::prelude::*;

verus! {

/// The quantity of `k` in `m`, 0 where `k` is absent.
pub open spec fn qty_of(m: Map<Seq<char>, nat>, k: Seq<char>) -> nat {
    if m.dom().contains(k) {
        m[k]
    } else {
        0
    }
}

/// Every need is present in `stocks` with at least the needed quantity.
pub open spec fn covers(stocks: Map<Seq<char>, nat>, needs: Map<Seq<char>, nat>) -> bool {
    forall|k: Seq<char>|
        #![trigger needs.dom().contains(k)]
        needs.dom().contains(k) ==> stocks.dom().contains(k) && needs[k] <= stocks[k]
}

/// `stocks` after taking away `needs`; a stock that drops to 0 on a need is removed.
pub open spec fn consumed(stocks: Map<Seq<char>, nat>, needs: Map<Seq<char>, nat>) -> Map<
    Seq<char>,
    nat,
> {
    Map::new(
        |k: Seq<char>|
            stocks.dom().contains(k) && !(needs.dom().contains(k) && stocks[k] == needs[k]),
        |k: Seq<char>|
            if needs.dom().contains(k) {
                (stocks[k] - needs[k]) as nat
            } else {
                stocks[k]
            },
    )
}

/// `stocks` after adding `results`; a result absent from `stocks` is added.
pub open spec fn produced(stocks: Map<Seq<char>, nat>, results: Map<Seq<char>, nat>) -> Map<
    Seq<char>,
    nat,
> {
    Map::new(
        |k: Seq<char>| stocks.dom().contains(k) || results.dom().contains(k),
        |k: Seq<char>| qty_of(stocks, k) + qty_of(results, k),
    )
}

/// Adding `results` to `stocks` keeps every quantity within `usize`.
pub open spec fn produce_fits(stocks: Map<Seq<char>, nat>, results: Map<Seq<char>, nat>) -> bool {
    forall|k: Seq<char>|
        #![trigger results.dom().contains(k)]
        results.dom().contains(k) ==> qty_of(stocks, k) + results[k] <= usize::MAX
}

/// Every quantity of `m` fits in `usize`.
pub open spec fn quantities_fit(m: Map<Seq<char>, nat>) -> bool {
    forall|k: Seq<char>| #[trigger] m.dom().contains(k) ==> m[k] <= usize::MAX
}

/// Law: taking `needs` away from stocks that cover them and then adding the
/// same amounts back gives the stocks back, within `usize` throughout. (A
/// stock that dropped to 0 and was removed comes back with its quantity.)
pub proof fn lemma_consume_then_produce(stocks: Map<Seq<char>, nat>, needs: Map<Seq<char>, nat>)
    requires
        covers(stocks, needs),
        quantities_fit(stocks),
    ensures
        produce_fits(consumed(stocks, needs), needs),
        produced(consumed(stocks, needs), needs) == stocks,
{
    let c = consumed(stocks, needs);
    assert forall|k: Seq<char>| #[trigger] needs.dom().contains(k) implies qty_of(c, k) + needs[k]
        == stocks[k] by {
        assert(stocks.dom().contains(k));
    }
    assert(produced(c, needs) =~= stocks);
}

/// No name occurs twice.
pub open spec fn distinct_keys(s: Seq<(String, usize)>) -> bool {
    forall|i: int, j: int|
        #![trigger s[i], s[j]]
        0 <= i < s.len() && 0 <= j < s.len() && i != j ==> s[i].0@ != s[j].0@
}

/// Some entry of `s` has name `k`.
pub open spec fn has_key(s: Seq<(String, usize)>, k: Seq<char>) -> bool {
    exists|i: int| 0 <= i < s.len() && #[trigger] s[i].0@ == k
}

/// The map that a list of entries stands for.
pub open spec fn entries_view(s: Seq<(String, usize)>) -> Map<Seq<char>, nat> {
    Map::new(
        |k: Seq<char>| has_key(s, k),
        |k: Seq<char>| s[choose|i: int| 0 <= i < s.len() && #[trigger] s[i].0@ == k].1 as nat,
    )
}

proof fn lemma_entries_view_at(s: Seq<(String, usize)>, i: int)
    requires
        distinct_keys(s),
        0 <= i < s.len(),
    ensures
        entries_view(s).dom().contains(s[i].0@),
        entries_view(s)[s[i].0@] == s[i].1 as nat,
{
    let k = s[i].0@;
    assert(has_key(s, k));
    let j = choose|j: int| 0 <= j < s.len() && #[trigger] s[j].0@ == k;
    assert(s[j].0@ == k);
    assert(i == j);
}

proof fn lemma_entries_view_push(s: Seq<(String, usize)>, e: (String, usize))
    requires
        distinct_keys(s),
        !has_key(s, e.0@),
    ensures
        distinct_keys(s.push(e)),
        entries_view(s.push(e)) == entries_view(s).insert(e.0@, e.1 as nat),
{
    let t = s.push(e);
    assert forall|i: int, j: int|
        0 <= i < t.len() && 0 <= j < t.len() && i != j implies #[trigger] t[i].0@ != #[trigger] t[j].0@ by {
        if i < s.len() && j < s.len() {
            assert(t[i] == s[i] && t[j] == s[j]);
        } else if i < s.len() {
            assert(t[i] == s[i]);
        } else {
            assert(t[j] == s[j]);
        }
    }
    let m = entries_view(s).insert(e.0@, e.1 as nat);
    assert forall|k: Seq<char>| #[trigger] m.dom().contains(k) == has_key(t, k) by {
        if has_key(s, k) {
            let i = choose|i: int| 0 <= i < s.len() && #[trigger] s[i].0@ == k;
            assert(t[i] == s[i]);
        }
        if has_key(t, k) {
            let i = choose|i: int| 0 <= i < t.len() && #[trigger] t[i].0@ == k;
            if i < s.len() {
                assert(t[i] == s[i]);
            }
        }
        if k == e.0@ {
            assert(t[s.len() as int] == e);
        }
    }
    assert forall|k: Seq<char>| #[trigger] m.dom().contains(k) implies m[k] == entries_view(t)[k] by {
        if k == e.0@ {
            assert(t[s.len() as int] == e);
            lemma_entries_view_at(t, s.len() as int);
        } else {
            let i = choose|i: int| 0 <= i < s.len() && #[trigger] s[i].0@ == k;
            lemma_entries_view_at(s, i);
            assert(t[i] == s[i]);
            lemma_entries_view_at(t, i);
        }
    }
    assert(m =~= entries_view(t));
}

proof fn lemma_entries_view_set(s: Seq<(String, usize)>, i: int, q: usize)
    requires
        distinct_keys(s),
        0 <= i < s.len(),
    ensures
        distinct_keys(s.update(i, (s[i].0, q))),
        entries_view(s.update(i, (s[i].0, q))) == entries_view(s).insert(s[i].0@, q as nat),
{
    let t = s.update(i, (s[i].0, q));
    assert forall|a: int, b: int|
        0 <= a < t.len() && 0 <= b < t.len() && a != b implies #[trigger] t[a].0@ != #[trigger] t[b].0@ by {
        assert(s[a].0@ != s[b].0@);
    }
    let m = entries_view(s).insert(s[i].0@, q as nat);
    assert forall|k: Seq<char>| #[trigger] m.dom().contains(k) == has_key(t, k) by {
        if has_key(s, k) {
            let j = choose|j: int| 0 <= j < s.len() && #[trigger] s[j].0@ == k;
            assert(t[j].0@ == k);
        }
        if has_key(t, k) {
            let j = choose|j: int| 0 <= j < t.len() && #[trigger] t[j].0@ == k;
            assert(s[j].0@ == k);
        }
        if k == s[i].0@ {
            assert(t[i].0@ == k);
        }
    }
    assert forall|k: Seq<char>| #[trigger] m.dom().contains(k) implies m[k] == entries_view(t)[k] by {
        let j = choose|j: int| 0 <= j < t.len() && #[trigger] t[j].0@ == k;
        lemma_entries_view_at(t, j);
        if j != i {
            lemma_entries_view_at(s, j);
        }
    }
    assert(m =~= entries_view(t));
}

proof fn lemma_entries_view_remove(s: Seq<(String, usize)>, i: int)
    requires
        distinct_keys(s),
        0 <= i < s.len(),
    ensures
        distinct_keys(s.remove(i)),
        entries_view(s.remove(i)) == entries_view(s).remove(s[i].0@),
{
    let t = s.remove(i);
    assert forall|a: int, b: int|
        0 <= a < t.len() && 0 <= b < t.len() && a != b implies #[trigger] t[a].0@ != #[trigger] t[b].0@ by {
        let a2 = if a < i { a } else { a + 1 };
        let b2 = if b < i { b } else { b + 1 };
        assert(t[a] == s[a2] && t[b] == s[b2]);
        assert(s[a2].0@ != s[b2].0@);
    }
    let m = entries_view(s).remove(s[i].0@);
    assert forall|k: Seq<char>| #[trigger] m.dom().contains(k) == has_key(t, k) by {
        if has_key(s, k) && k != s[i].0@ {
            let j = choose|j: int| 0 <= j < s.len() && #[trigger] s[j].0@ == k;
            let j2 = if j < i { j } else { j - 1 };
            assert(t[j2] == s[j]);
        }
        if has_key(t, k) {
            let j = choose|j: int| 0 <= j < t.len() && #[trigger] t[j].0@ == k;
            let j2 = if j < i { j } else { j + 1 };
            assert(t[j] == s[j2]);
            assert(s[j2].0@ != s[i].0@);
        }
    }
    assert forall|k: Seq<char>| #[trigger] m.dom().contains(k) implies m[k] == entries_view(t)[k] by {
        let j = choose|j: int| 0 <= j < t.len() && #[trigger] t[j].0@ == k;
        let j2 = if j < i { j } else { j + 1 };
        assert(t[j] == s[j2]);
        lemma_entries_view_at(t, j);
        lemma_entries_view_at(s, j2);
    }
    assert(m =~= entries_view(t));
}

/// A map from stock names to quantities.
pub struct StockMap {
    entries: Vec<(String, usize)>,
}

impl View for StockMap {
    type V = Map<Seq<char>, nat>;

    closed spec fn view(&self) -> Map<Seq<char>, nat> {
        entries_view(self.entries@)
    }
}

impl StockMap {
    /// The map is well formed: no name occurs twice.
    pub closed spec fn wf(&self) -> bool {
        distinct_keys(self.entries@)
    }

    /// The names, in the order in which `entry` hands them out.
    pub closed spec fn keys(&self) -> Seq<Seq<char>> {
        self.entries@.map_values(|e: (String, usize)| e.0@)
    }

    /// Every quantity of the map fits in `usize`.
    pub proof fn lemma_quantities_fit(&self)
        ensures
            quantities_fit(self@),
    {
        assert forall|k: Seq<char>| #[trigger] self@.dom().contains(k) implies self@[k] <= usize::MAX by {
            let s = self.entries@;
            let i = choose|i: int| 0 <= i < s.len() && #[trigger] s[i].0@ == k;
            assert(self@[k] == s[i].1 as nat);
        }
    }

    /// The names are distinct and are exactly the map's domain, which is finite.
    pub proof fn lemma_keys(&self)
        requires
            self.wf(),
        ensures
            self.keys().no_duplicates(),
            forall|k: Seq<char>| #[trigger] self@.dom().contains(k) <==> self.keys().contains(k),
            self@.dom().finite(),
            self@.dom().len() == self.keys().len(),
    {
        let ks = self.keys();
        let s = self.entries@;
        assert forall|i: int, j: int| 0 <= i < ks.len() && 0 <= j < ks.len() && i != j implies ks[i]
            != ks[j] by {
            assert(s[i].0@ != s[j].0@);
        }
        assert forall|k: Seq<char>| #[trigger] self@.dom().contains(k) <==> ks.contains(k) by {
            if self@.dom().contains(k) {
                let i = choose|i: int| 0 <= i < s.len() && #[trigger] s[i].0@ == k;
                assert(ks[i] == k);
            }
            if ks.contains(k) {
                let i = choose|i: int| 0 <= i < ks.len() && ks[i] == k;
                assert(s[i].0@ == k);
            }
        }
        assert(self@.dom() =~= ks.to_set());
        ks.unique_seq_to_set();
    }

    /// An empty map.
    pub fn new() -> (m: StockMap)
        ensures
            m.wf(),
            m@ == Map::<Seq<char>, nat>::empty(),
    {
        let m = StockMap { entries: Vec::new() };
        assert(m@ =~= Map::<Seq<char>, nat>::empty());
        m
    }

    /// The number of names.
    pub fn len(&self) -> (n: usize)
        ensures
            n == self.keys().len(),
    {
        self.entries.len()
    }

    /// The `i`-th name and its quantity.
    pub fn entry(&self, i: usize) -> (r: (&String, usize))
        requires
            self.wf(),
            i < self.keys().len(),
        ensures
            r.0@ == self.keys()[i as int],
            self@.dom().contains(r.0@),
            self@[r.0@] == r.1,
    {
        proof {
            lemma_entries_view_at(self.entries@, i as int);
        }
        let e = &self.entries[i];
        (&e.0, e.1)
    }

    /// The position of `name` among the entries, if it is present.
    fn position(&self, name: &String) -> (r: Option<usize>)
        requires
            self.wf(),
        ensures
            match r {
                Some(i) => i < self.entries.len() && self.entries@[i as int].0@ == name@,
                None => !self@.dom().contains(name@),
            },
    {
        let n = self.entries.len();
        for i in 0..n
            invariant
                n == self.entries.len(),
                forall|j: int| 0 <= j < i ==> #[trigger] self.entries@[j].0@ != name@,
        {
            if self.entries[i].0 == *name {
                return Some(i);
            }
        }
        None
    }

    /// The quantity of `name`, `None` where it is absent.
    pub fn get(&self, name: &String) -> (r: Option<usize>)
        requires
            self.wf(),
        ensures
            r is Some <==> self@.dom().contains(name@),
            r matches Some(q) ==> q == self@[name@],
    {
        match self.position(name) {
            Some(i) => {
                proof {
                    lemma_entries_view_at(self.entries@, i as int);
                }
                Some(self.entries[i].1)
            },
            None => None,
        }
    }

    /// The quantity of `name`, 0 where it is absent.
    pub fn get_or_zero(&self, name: &String) -> (q: usize)
        requires
            self.wf(),
        ensures
            q == qty_of(self@, name@),
    {
        match self.get(name) {
            Some(q) => q,
            None => 0,
        }
    }

    /// Sets the quantity of `name`; says whether `name` was present before.
    pub fn insert(&mut self, name: String, qty: usize) -> (was_present: bool)
        requires
            old(self).wf(),
        ensures
            final(self).wf(),
            final(self)@ == old(self)@.insert(name@, qty as nat),
            was_present == old(self)@.dom().contains(name@),
    {
        match self.position(&name) {
            Some(i) => {
                proof {
                    lemma_entries_view_set(self.entries@, i as int, qty);
                    lemma_entries_view_at(self.entries@, i as int);
                }
                let ghost k = self.entries@[i as int].0;
                let old_name = self.entries[i].0.clone();
                self.entries.set(i, (old_name, qty));
                assert(self.entries@ == old(self).entries@.update(i as int, (k, qty)));
                true
            },
            None => {
                proof {
                    lemma_entries_view_push(self.entries@, (name, qty));
                }
                self.entries.push((name, qty));
                false
            },
        }
    }

    /// Whether every need is present with at least the needed quantity.
    pub fn covers(&self, needs: &StockMap) -> (b: bool)
        requires
            self.wf(),
            needs.wf(),
        ensures
            b == covers(self@, needs@),
    {
        let n = needs.entries.len();
        for j in 0..n
            invariant
                n == needs.entries.len(),
                self.wf(),
                needs.wf(),
                forall|i: int|
                    0 <= i < j ==> {
                        let k = #[trigger] needs.entries@[i].0@;
                        self@.dom().contains(k) && needs@[k] <= self@[k]
                    },
        {
            proof {
                lemma_entries_view_at(needs.entries@, j as int);
            }
            let (name, qty) = (&needs.entries[j].0, needs.entries[j].1);
            match self.get(name) {
                Some(have) => {
                    if have < qty {
                        return false;
                    }
                },
                None => {
                    return false;
                },
            }
        }
        proof {
            assert forall|k: Seq<char>| #![trigger needs@.dom().contains(k)] needs@.dom().contains(k) implies self@.dom().contains(k)
                && needs@[k] <= self@[k] by {
                let i = choose|i: int|
                    0 <= i < needs.entries@.len() && #[trigger] needs.entries@[i].0@ == k;
                assert(needs.entries@[i].0@ == k);
            }
        }
        true
    }

    /// Whether adding `results` keeps every quantity within `usize`.
    pub fn fits_after(&self, results: &StockMap) -> (b: bool)
        requires
            self.wf(),
            results.wf(),
        ensures
            b == produce_fits(self@, results@),
    {
        let n = results.entries.len();
        for j in 0..n
            invariant
                n == results.entries.len(),
                self.wf(),
                results.wf(),
                forall|i: int|
                    0 <= i < j ==> {
                        let k = #[trigger] results.entries@[i].0@;
                        qty_of(self@, k) + results@[k] <= usize::MAX
                    },
        {
            proof {
                lemma_entries_view_at(results.entries@, j as int);
            }
            let have = self.get_or_zero(&results.entries[j].0);
            if have > usize::MAX - results.entries[j].1 {
                return false;
            }
        }
        proof {
            assert forall|k: Seq<char>| #![trigger results@.dom().contains(k)] results@.dom().contains(k) implies qty_of(
                self@,
                k,
            ) + results@[k] <= usize::MAX by {
                let i = choose|i: int|
                    0 <= i < results.entries@.len() && #[trigger] results.entries@[i].0@ == k;
                assert(results.entries@[i].0@ == k);
            }
        }
        true
    }

    /// The map of the first `j` entries.
    closed spec fn prefix_view(&self, j: int) -> Map<Seq<char>, nat> {
        entries_view(self.entries@.take(j))
    }

    proof fn lemma_prefix_step(&self, j: int)
        requires
            self.wf(),
            0 <= j < self.entries@.len(),
        ensures
            self.prefix_view(j + 1) == self.prefix_view(j).insert(
                self.entries@[j].0@,
                self.entries@[j].1 as nat,
            ),
            !self.prefix_view(j).dom().contains(self.entries@[j].0@),
            self@.dom().contains(self.entries@[j].0@),
            self@[self.entries@[j].0@] == self.entries@[j].1 as nat,
    {
        let s = self.entries@;
        let t = s.take(j);
        assert(distinct_keys(t)) by {
            assert forall|a: int, b: int|
                0 <= a < t.len() && 0 <= b < t.len() && a != b implies #[trigger] t[a].0@
                != #[trigger] t[b].0@ by {
                assert(t[a] == s[a] && t[b] == s[b]);
            }
        }
        if has_key(t, s[j].0@) {
            let a = choose|a: int| 0 <= a < t.len() && #[trigger] t[a].0@ == s[j].0@;
            assert(t[a] == s[a]);
        }
        lemma_entries_view_push(t, s[j]);
        assert(s.take(j + 1) =~= t.push(s[j]));
        lemma_entries_view_at(s, j);
    }

    proof fn lemma_prefix_full(&self)
        ensures
            self.prefix_view(self.entries@.len() as int) == self@,
    {
        assert(self.entries@.take(self.entries@.len() as int) =~= self.entries@);
    }

    proof fn lemma_prefix_empty(&self)
        ensures
            self.prefix_view(0) == Map::<Seq<char>, nat>::empty(),
    {
        assert(self.prefix_view(0) =~= Map::<Seq<char>, nat>::empty());
    }

    /// Takes away every need; a stock that drops to 0 on a need is removed.
    pub fn consume(&mut self, needs: &StockMap)
        requires
            old(self).wf(),
            needs.wf(),
            covers(old(self)@, needs@),
        ensures
            final(self).wf(),
            final(self)@ == consumed(old(self)@, needs@),
    {
        let ghost orig = self@;
        let n = needs.entries.len();
        proof {
            needs.lemma_prefix_empty();
            assert(consumed(orig, needs.prefix_view(0)) =~= orig);
        }
        for j in 0..n
            invariant
                n == needs.entries.len(),
                needs.wf(),
                self.wf(),
                covers(orig, needs@),
                self@ == consumed(orig, needs.prefix_view(j as int)),
        {
            proof {
                needs.lemma_prefix_step(j as int);
            }
            let name = &needs.entries[j].0;
            let qty = needs.entries[j].1;
            let ghost k = name@;
            let ghost pre = needs.prefix_view(j as int);
            let ghost post = needs.prefix_view(j + 1);
            assert(needs@.dom().contains(k));
            assert(orig.dom().contains(k) && qty <= orig[k]);
            assert(self@.dom().contains(k) && self@[k] == orig[k]);
            match self.position(name) {
                Some(i) => {
                    proof {
                        lemma_entries_view_at(self.entries@, i as int);
                    }
                    let left = self.entries[i].1 - qty;
                    if left == 0 {
                        proof {
                            lemma_entries_view_remove(self.entries@, i as int);
                        }
                        self.entries.remove(i);
                    } else {
                        proof {
                            lemma_entries_view_set(self.entries@, i as int, left);
                        }
                        let ghost before = self.entries@;
                        let kept = self.entries[i].0.clone();
                        self.entries.set(i, (kept, left));
                        assert(self.entries@ == before.update(i as int, (before[i as int].0, left)));
                    }
                    assert(self@ =~= consumed(orig, post));
                },
                None => {
                    assert(false);
                },
            }
        }
        proof {
            needs.lemma_prefix_full();
        }
    }

    /// Adds every result; a result absent from the map is added with its quantity.
    pub fn produce(&mut self, results: &StockMap)
        requires
            old(self).wf(),
            results.wf(),
            produce_fits(old(self)@, results@),
        ensures
            final(self).wf(),
            final(self)@ == produced(old(self)@, results@),
    {
        let ghost orig = self@;
        let n = results.entries.len();
        proof {
            results.lemma_prefix_empty();
            assert(produced(orig, results.prefix_view(0)) =~= orig);
        }
        for j in 0..n
            invariant
                n == results.entries.len(),
                results.wf(),
                self.wf(),
                produce_fits(orig, results@),
                self@ == produced(orig, results.prefix_view(j as int)),
        {
            proof {
                results.lemma_prefix_step(j as int);
            }
            let name = &results.entries[j].0;
            let qty = results.entries[j].1;
            let ghost k = name@;
            let ghost post = results.prefix_view(j + 1);
            assert(results@.dom().contains(k));
            assert(qty_of(self@, k) == qty_of(orig, k));
            match self.position(name) {
                Some(i) => {
                    proof {
                        lemma_entries_view_at(self.entries@, i as int);
                        lemma_entries_view_set(self.entries@, i as int, (self.entries@[i as int].1 + qty) as usize);
                    }
                    let total = self.entries[i].1 + qty;
                    let ghost before = self.entries@;
                    let kept = self.entries[i].0.clone();
                    self.entries.set(i, (kept, total));
                    assert(self.entries@ == before.update(i as int, (before[i as int].0, total)));
                },
                None => {
                    let fresh = name.clone();
                    proof {
                        lemma_entries_view_push(self.entries@, (fresh, qty));
                    }
                    self.entries.push((fresh, qty));
                },
            }
            assert(self@ =~= produced(orig, post));
        }
        proof {
            results.lemma_prefix_full();
        }
    }

    /// A copy of the map.
    pub fn duplicate(&self) -> (r: StockMap)
        requires
            self.wf(),
        ensures
            r.wf(),
            r@ == self@,
            r.keys() == self.keys(),
    {
        let mut entries: Vec<(String, usize)> = Vec::new();
        let n = self.entries.len();
        for j in 0..n
            invariant
                n == self.entries.len(),
                entries@ == self.entries@.take(j as int),
        {
            let name = self.entries[j].0.clone();
            entries.push((name, self.entries[j].1));
            assert(entries@ =~= self.entries@.take(j + 1));
        }
        assert(entries@ =~= self.entries@);
        StockMap { entries }
    }
}

} // verus!
