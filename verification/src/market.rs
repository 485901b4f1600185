//! The market snapshot a trading bot keeps: the latest message of each stream
//! kind, which strategies it can run on it, and which tickers of an
//! all-market update concern the coins it follows.
//!
//! The snapshot is generic in the four message types, so that it holds
//! whatever the caller decodes from the exchange.
use crate::text::{to_uppercase, uppercase_of};
use vstd::prelude::*;

verus! {

/// One decoded message from a market data stream.
pub enum StreamData<A, K, D, B> {
    AggTrade(A),
    Kline(K),
    DepthOrderBook(D),
    BookTicker(B),
}

/// The latest message of each stream kind, if one arrived.
pub struct MarketSnapshot<A, K, D, B> {
    pub last_agg_trade: Option<A>,
    pub last_kline: Option<K>,
    pub last_order_book: Option<D>,
    pub last_book_ticker: Option<B>,
}

/// The strategies the bot runs on a snapshot.
#[derive(PartialEq, Eq, Structural, Debug, Clone, Copy)]
pub enum Strategy {
    /// Needs an aggregate trade, a kline and a book ticker.
    Momentum,
    /// Needs an aggregate trade and a kline.
    MeanReversion,
    /// Needs an order book and a book ticker.
    OrderBookPressure,
}

/// The strategies that can run, in the order the bot runs them, given which
/// kinds of message have arrived.
pub open spec fn strategy_plan(agg: bool, kline: bool, depth: bool, book: bool) -> Seq<Strategy> {
    (if agg && kline && book {
        seq![Strategy::Momentum]
    } else {
        Seq::<Strategy>::empty()
    }) + (if agg && kline {
        seq![Strategy::MeanReversion]
    } else {
        Seq::<Strategy>::empty()
    }) + (if depth && book {
        seq![Strategy::OrderBookPressure]
    } else {
        Seq::<Strategy>::empty()
    })
}

impl<A, K, D, B> MarketSnapshot<A, K, D, B> {
    /// The snapshot after a message: the message replaces the latest one of its
    /// kind, and the others stay.
    pub open spec fn applied(self, msg: StreamData<A, K, D, B>) -> Self {
        match msg {
            StreamData::AggTrade(a) => MarketSnapshot { last_agg_trade: Some(a), ..self },
            StreamData::Kline(k) => MarketSnapshot { last_kline: Some(k), ..self },
            StreamData::DepthOrderBook(d) => MarketSnapshot { last_order_book: Some(d), ..self },
            StreamData::BookTicker(b) => MarketSnapshot { last_book_ticker: Some(b), ..self },
        }
    }

    /// The strategies that can run on this snapshot.
    pub open spec fn plan(self) -> Seq<Strategy> {
        strategy_plan(
            self.last_agg_trade is Some,
            self.last_kline is Some,
            self.last_order_book is Some,
            self.last_book_ticker is Some,
        )
    }

    /// A snapshot with no message yet.
    pub fn new() -> (s: Self)
        ensures
            s.last_agg_trade is None,
            s.last_kline is None,
            s.last_order_book is None,
            s.last_book_ticker is None,
    {
        MarketSnapshot {
            last_agg_trade: None,
            last_kline: None,
            last_order_book: None,
            last_book_ticker: None,
        }
    }

    /// Records a message as the latest of its kind.
    pub fn apply(&mut self, msg: StreamData<A, K, D, B>)
        ensures
            *final(self) == old(self).applied(msg),
    {
        match msg {
            StreamData::AggTrade(a) => self.last_agg_trade = Some(a),
            StreamData::Kline(k) => self.last_kline = Some(k),
            StreamData::DepthOrderBook(d) => self.last_order_book = Some(d),
            StreamData::BookTicker(b) => self.last_book_ticker = Some(b),
        }
    }

    /// The strategies that can run on this snapshot, in the order the bot
    /// runs them.
    pub fn strategies_to_run(&self) -> (r: Vec<Strategy>)
        ensures
            r@ == self.plan(),
            r@.contains(Strategy::Momentum) <==> (self.last_agg_trade is Some && self.last_kline is Some
                && self.last_book_ticker is Some),
            r@.contains(Strategy::MeanReversion) <==> (self.last_agg_trade is Some
                && self.last_kline is Some),
            r@.contains(Strategy::OrderBookPressure) <==> (self.last_order_book is Some
                && self.last_book_ticker is Some),
            forall|i: int, j: int| 0 <= i < j < r@.len() ==> strategy_rank(r@[i]) < strategy_rank(r@[j]),
    {
        proof {
            lemma_plan_exact(*self);
        }
        let agg = self.last_agg_trade.is_some();
        let kline = self.last_kline.is_some();
        let depth = self.last_order_book.is_some();
        let book = self.last_book_ticker.is_some();
        let mut r: Vec<Strategy> = Vec::new();
        if agg && kline && book {
            r.push(Strategy::Momentum);
        }
        if agg && kline {
            r.push(Strategy::MeanReversion);
        }
        if depth && book {
            r.push(Strategy::OrderBookPressure);
        }
        assert(r@ =~= self.plan());
        r
    }
}

/// How many of `names` are `symbol`.
pub open spec fn matching_name_count(symbol: Seq<char>, names: Seq<Seq<char>>) -> nat
    decreases names.len(),
{
    if names.len() == 0 {
        0
    } else {
        matching_name_count(symbol, names.drop_last()) + if symbol == names.last() {
            1nat
        } else {
            0nat
        }
    }
}

/// For each ticker in order, its index once per name equal to its symbol.
pub open spec fn selected_by_names(symbols: Seq<Seq<char>>, names: Seq<Seq<char>>) -> Seq<usize>
    decreases symbols.len(),
{
    if symbols.len() == 0 {
        Seq::<usize>::empty()
    } else {
        selected_by_names(symbols.drop_last(), names) + Seq::new(
            matching_name_count(symbols.last(), names),
            |_j: int| (symbols.len() - 1) as usize,
        )
    }
}

/// The upper-case names of the coins.
pub open spec fn uppercase_names(coins: Seq<Seq<char>>) -> Seq<Seq<char>> {
    coins.map_values(|c: Seq<char>| uppercase_of(c))
}

/// For each ticker in order, its index once per coin whose upper-case name is
/// its symbol.
pub open spec fn selected_tickers(symbols: Seq<Seq<char>>, coins: Seq<Seq<char>>) -> Seq<usize> {
    selected_by_names(symbols, uppercase_names(coins))
}

/// The upper-case names of the coins, in order.
pub fn uppercase_all(coins: &Vec<String>) -> (names: Vec<String>)
    ensures
        names.deep_view() == uppercase_names(coins.deep_view()),
{
    let mut names: Vec<String> = Vec::new();
    for i in 0..coins.len()
        invariant
            names@.len() == i,
            forall|j: int| 0 <= j < i ==> #[trigger] names@[j]@ == uppercase_of(coins@[j]@),
    {
        names.push(to_uppercase(coins[i].as_str()));
    }
    assert(names.deep_view() =~= uppercase_names(coins.deep_view()));
    names
}

/// For each ticker, in order, its index once for every name equal to its
/// symbol.
pub fn select_tickers_by_names(symbols: &Vec<String>, names: &Vec<String>) -> (r: Vec<usize>)
    ensures
        r@ == selected_by_names(symbols.deep_view(), names.deep_view()),
{
    let ghost sv = symbols.deep_view();
    let ghost cv = names.deep_view();
    let mut r: Vec<usize> = Vec::new();
    for i in 0..symbols.len()
        invariant
            sv == symbols.deep_view(),
            cv == names.deep_view(),
            r@ == selected_by_names(sv.take(i as int), cv),
    {
        let ghost before = r@;
        for j in 0..names.len()
            invariant
                sv == symbols.deep_view(),
                cv == names.deep_view(),
                0 <= i < sv.len(),
                r@ == before + Seq::new(
                    matching_name_count(sv[i as int], cv.take(j as int)),
                    |_j: int| i,
                ),
        {
            proof {
                assert(cv.take(j + 1).drop_last() =~= cv.take(j as int));
                assert(cv.take(j + 1).last() == names@[j as int]@);
            }
            if symbols[i] == names[j] {
                r.push(i);
                assert(Seq::new(matching_name_count(sv[i as int], cv.take(j as int)) + 1, |_j: int| i)
                    =~= Seq::new(matching_name_count(sv[i as int], cv.take(j as int)), |_j: int| i).push(
                    i,
                ));
                assert(r@ =~= before + Seq::new(
                    matching_name_count(sv[i as int], cv.take(j + 1)),
                    |_j: int| i,
                ));
            }
        }
        proof {
            assert(cv.take(names.len() as int) =~= cv);
            assert(sv.take(i + 1).drop_last() =~= sv.take(i as int));
            assert(sv.take(i + 1).last() == sv[i as int]);
            assert(Seq::new(matching_name_count(sv[i as int], cv), |_j: int| i) =~= Seq::new(
                matching_name_count(sv.take(i + 1).last(), cv),
                |_j: int| (sv.take(i + 1).len() - 1) as usize,
            ));
        }
    }
    assert(sv.take(symbols.len() as int) =~= sv);
    r
}

/// Which tickers of an all-market update to forward: for each ticker, in
/// order, its index once for every followed coin whose upper-case name is the
/// ticker's symbol.
pub fn select_tickers(symbols: &Vec<String>, coins: &Vec<String>) -> (r: Vec<usize>)
    ensures
        r@ == selected_tickers(symbols.deep_view(), coins.deep_view()),
        forall|t: int|
            0 <= t < symbols@.len() ==> #[trigger] occurrences(r@, t as usize) == coins_named(
                coins.deep_view(),
                symbols.deep_view()[t],
            ),
        forall|i: int|
            0 <= i < r@.len() ==> (#[trigger] r@[i] as int) < symbols@.len() && exists|j: int|
                0 <= j < coins@.len() && symbols@[r@[i] as int]@ == uppercase_of(coins@[j]@),
        forall|i: int, j: int| 0 <= i < j < r@.len() ==> r@[i] <= r@[j],
{
    let symbol_count = symbols.len();
    assert(symbols.deep_view().len() == symbol_count);
    proof {
        lemma_selected_tickers_complete(symbols.deep_view(), coins.deep_view());
        lemma_selected_tickers_match(symbols.deep_view(), coins.deep_view());
    }
    let names = uppercase_all(coins);
    select_tickers_by_names(symbols, &names)
}

/// The two messages are of the same stream kind.
pub open spec fn same_kind<A, K, D, B>(m1: StreamData<A, K, D, B>, m2: StreamData<A, K, D, B>) -> bool {
    ||| (m1 is AggTrade && m2 is AggTrade)
    ||| (m1 is Kline && m2 is Kline)
    ||| (m1 is DepthOrderBook && m2 is DepthOrderBook)
    ||| (m1 is BookTicker && m2 is BookTicker)
}

/// The latest message of a kind wins, and messages of different kinds do not
/// interfere: their order does not matter.
pub proof fn lemma_latest_message_wins<A, K, D, B>(
    s: MarketSnapshot<A, K, D, B>,
    m1: StreamData<A, K, D, B>,
    m2: StreamData<A, K, D, B>,
)
    ensures
        same_kind(m1, m2) ==> s.applied(m1).applied(m2) == s.applied(m2),
        !same_kind(m1, m2) ==> s.applied(m1).applied(m2) == s.applied(m2).applied(m1),
{
}

/// Once a strategy can run it keeps running: a new message never takes a
/// strategy out of the plan.
pub proof fn lemma_plan_only_grows<A, K, D, B>(s: MarketSnapshot<A, K, D, B>, m: StreamData<A, K, D, B>)
    ensures
        forall|st: Strategy| s.plan().contains(st) ==> #[trigger] s.applied(m).plan().contains(st),
{
    assert forall|st: Strategy| s.plan().contains(st) implies #[trigger] s.applied(m).plan().contains(
        st,
    ) by {
        let t = s.applied(m);
        let i = choose|i: int| 0 <= i < s.plan().len() && s.plan()[i] == st;
        if st == Strategy::Momentum {
            assert(t.plan()[0] == st);
        } else if st == Strategy::MeanReversion {
            if t.last_book_ticker is Some {
                assert(t.plan()[1] == st);
            } else {
                assert(t.plan()[0] == st);
            }
        } else {
            assert(t.plan()[t.plan().len() - 1] == st);
        }
    }
}

/// Every forwarded ticker index points at a ticker whose symbol is the
/// upper-case name of one of the followed coins.
pub proof fn lemma_selected_tickers_match(symbols: Seq<Seq<char>>, coins: Seq<Seq<char>>)
    requires
        symbols.len() <= usize::MAX,
    ensures
        forall|i: int|
            0 <= i < selected_tickers(symbols, coins).len() ==> {
                let t = #[trigger] selected_tickers(symbols, coins)[i] as int;
                &&& 0 <= t < symbols.len()
                &&& exists|j: int| 0 <= j < coins.len() && symbols[t] == uppercase_of(coins[j])
            },
{
    let names = uppercase_names(coins);
    lemma_selected_by_names_match(symbols, names);
    assert forall|i: int| 0 <= i < selected_tickers(symbols, coins).len() implies {
        let t = #[trigger] selected_tickers(symbols, coins)[i] as int;
        &&& 0 <= t < symbols.len()
        &&& exists|j: int| 0 <= j < coins.len() && symbols[t] == uppercase_of(coins[j])
    } by {
        let t = selected_by_names(symbols, names)[i] as int;
        let j = choose|j: int| 0 <= j < names.len() && symbols[t] == names[j];
        assert(names[j] == uppercase_of(coins[j]));
    }
}

proof fn lemma_selected_by_names_match(symbols: Seq<Seq<char>>, names: Seq<Seq<char>>)
    requires
        symbols.len() <= usize::MAX,
    ensures
        forall|i: int|
            0 <= i < selected_by_names(symbols, names).len() ==> {
                let t = #[trigger] selected_by_names(symbols, names)[i] as int;
                &&& 0 <= t < symbols.len()
                &&& exists|j: int| 0 <= j < names.len() && symbols[t] == names[j]
            },
    decreases symbols.len(),
{
    let coins = names;
    if symbols.len() > 0 {
        let prev = symbols.drop_last();
        lemma_selected_by_names_match(prev, coins);
        let n = symbols.len() - 1;
        lemma_count_positive_has_match(symbols.last(), coins);
        let sel = selected_by_names(symbols, coins);
        let ps = selected_by_names(prev, coins);
        assert forall|i: int| 0 <= i < sel.len() implies {
            let t = #[trigger] sel[i] as int;
            &&& 0 <= t < symbols.len()
            &&& exists|j: int| 0 <= j < coins.len() && symbols[t] == coins[j]
        } by {
            if i < ps.len() {
                assert(sel[i] == ps[i]);
                let t = ps[i] as int;
                assert(prev[t] == symbols[t]);
            } else {
                assert(sel.len() == ps.len() + matching_name_count(symbols.last(), coins));
                assert(sel[i] == n as usize);
                assert(symbols[n] == symbols.last());
            }
        }
    }
}

proof fn lemma_count_positive_has_match(symbol: Seq<char>, coins: Seq<Seq<char>>)
    ensures
        matching_name_count(symbol, coins) > 0 ==> exists|j: int|
            0 <= j < coins.len() && symbol == coins[j],
    decreases coins.len(),
{
    if coins.len() > 0 {
        lemma_count_positive_has_match(symbol, coins.drop_last());
        if matching_name_count(symbol, coins.drop_last()) > 0 {
            let j = choose|j: int| 0 <= j < coins.len() - 1 && symbol == coins.drop_last()[j];
            assert(coins[j] == coins.drop_last()[j]);
        } else if symbol == coins.last() {
            assert(coins[coins.len() - 1] == coins.last());
        }
    }
}


/// The position of a strategy in the order the bot runs them.
pub open spec fn strategy_rank(st: Strategy) -> int {
    match st {
        Strategy::Momentum => 0,
        Strategy::MeanReversion => 1,
        Strategy::OrderBookPressure => 2,
    }
}

/// Which strategies run, in terms of which messages have arrived: momentum
/// exactly when an aggregate trade, a kline and a book ticker are there; mean
/// reversion exactly when an aggregate trade and a kline are there; order book
/// pressure exactly when an order book and a book ticker are there. Each runs
/// at most once, in the order momentum, mean reversion, order book pressure.
pub proof fn lemma_plan_exact<A, K, D, B>(s: MarketSnapshot<A, K, D, B>)
    ensures
        s.plan().contains(Strategy::Momentum) <==> (s.last_agg_trade is Some && s.last_kline is Some
            && s.last_book_ticker is Some),
        s.plan().contains(Strategy::MeanReversion) <==> (s.last_agg_trade is Some
            && s.last_kline is Some),
        s.plan().contains(Strategy::OrderBookPressure) <==> (s.last_order_book is Some
            && s.last_book_ticker is Some),
        forall|i: int, j: int|
            0 <= i < j < s.plan().len() ==> strategy_rank(s.plan()[i]) < strategy_rank(s.plan()[j]),
{
    let a = s.last_agg_trade is Some;
    let k = s.last_kline is Some;
    let d = s.last_order_book is Some;
    let b = s.last_book_ticker is Some;
    let p1 = if a && k && b {
        seq![Strategy::Momentum]
    } else {
        Seq::<Strategy>::empty()
    };
    let p2 = if a && k {
        seq![Strategy::MeanReversion]
    } else {
        Seq::<Strategy>::empty()
    };
    let p3 = if d && b {
        seq![Strategy::OrderBookPressure]
    } else {
        Seq::<Strategy>::empty()
    };
    let p = s.plan();
    assert(p == p1 + p2 + p3);
    assert forall|st: Strategy| p.contains(st) <==> (p1.contains(st) || p2.contains(st) || p3.contains(st)) by {
        if p.contains(st) {
            let i = choose|i: int| 0 <= i < p.len() && p[i] == st;
            if i < p1.len() {
                assert(p1[i] == st);
            } else if i < p1.len() + p2.len() {
                assert(p2[i - p1.len()] == st);
            } else {
                assert(p3[i - p1.len() - p2.len()] == st);
            }
        }
        if p1.contains(st) {
            assert(p[0] == st);
        }
        if p2.contains(st) {
            assert(p[p1.len() as int] == st);
        }
        if p3.contains(st) {
            assert(p[(p1.len() + p2.len()) as int] == st);
        }
    }
    if a && k && b {
        assert(p1[0] == Strategy::Momentum);
        assert(p2[0] == Strategy::MeanReversion);
    }
    if a && k {
        assert(p2[0] == Strategy::MeanReversion);
    }
    if d && b {
        assert(p3[0] == Strategy::OrderBookPressure);
    }
}

/// Being `t`.
pub open spec fn is_value(t: usize) -> spec_fn(usize) -> bool {
    |x: usize| x == t
}

/// Having `symbol` as upper-case name.
pub open spec fn named(symbol: Seq<char>) -> spec_fn(Seq<char>) -> bool {
    |c: Seq<char>| uppercase_of(c) == symbol
}

/// How many times `t` occurs in `s`.
pub open spec fn occurrences(s: Seq<usize>, t: usize) -> nat {
    s.filter(is_value(t)).len()
}

/// How many of `coins` have `symbol` as their upper-case name.
pub open spec fn coins_named(coins: Seq<Seq<char>>, symbol: Seq<char>) -> nat {
    coins.filter(named(symbol)).len()
}

proof fn lemma_filter_none(s: Seq<usize>, p: spec_fn(usize) -> bool)
    requires
        forall|i: int| 0 <= i < s.len() ==> !p(#[trigger] s[i]),
    ensures
        s.filter(p).len() == 0,
    decreases s.len(),
{
    reveal_with_fuel(Seq::<_>::filter, 1);
    if s.len() > 0 {
        lemma_filter_none(s.drop_last(), p);
        assert(!p(s[s.len() - 1]));
    }
}

proof fn lemma_filter_repeat(n: nat, v: usize, p: spec_fn(usize) -> bool)
    ensures
        Seq::new(n, |_j: int| v).filter(p).len() == if p(v) {
            n
        } else {
            0
        },
    decreases n,
{
    reveal_with_fuel(Seq::<_>::filter, 1);
    if n > 0 {
        lemma_filter_repeat((n - 1) as nat, v, p);
        assert(Seq::new(n, |_j: int| v).drop_last() =~= Seq::new((n - 1) as nat, |_j: int| v));
    }
}

proof fn lemma_name_count_is_coin_count(symbol: Seq<char>, coins: Seq<Seq<char>>)
    ensures
        matching_name_count(symbol, uppercase_names(coins)) == coins_named(coins, symbol),
    decreases coins.len(),
{
    reveal_with_fuel(Seq::<_>::filter, 1);
    if coins.len() > 0 {
        lemma_name_count_is_coin_count(symbol, coins.drop_last());
        assert(uppercase_names(coins).drop_last() =~= uppercase_names(coins.drop_last()));
    }
}

/// The selection is complete and counted right: each ticker index appears
/// exactly as many times as there are followed coins whose upper-case name is
/// its symbol, wherever the ticker stands in the update; and the indices come
/// in the order of the tickers.
pub proof fn lemma_selected_tickers_complete(symbols: Seq<Seq<char>>, coins: Seq<Seq<char>>)
    requires
        symbols.len() <= usize::MAX,
    ensures
        forall|t: int|
            0 <= t < symbols.len() ==> #[trigger] occurrences(selected_tickers(symbols, coins), t as usize)
                == coins_named(coins, symbols[t]),
        forall|i: int, j: int|
            0 <= i < j < selected_tickers(symbols, coins).len() ==> selected_tickers(symbols, coins)[i]
                <= selected_tickers(symbols, coins)[j],
    decreases symbols.len(),
{
    if symbols.len() > 0 {
        let prev = symbols.drop_last();
        let n = symbols.len() - 1;
        let names = uppercase_names(coins);
        lemma_selected_tickers_complete(prev, coins);
        lemma_selected_tickers_match(prev, coins);
        let ps = selected_tickers(prev, coins);
        let cnt = matching_name_count(symbols.last(), names);
        let tail = Seq::new(cnt, |_j: int| n as usize);
        let sel = selected_tickers(symbols, coins);
        assert(sel == ps + tail);
        assert forall|t: int| 0 <= t < symbols.len() implies #[trigger] occurrences(sel, t as usize)
            == coins_named(coins, symbols[t]) by {
            let p = is_value(t as usize);
            Seq::filter_distributes_over_add(ps, tail, p);
            lemma_filter_repeat(cnt, n as usize, p);
            if t < n {
                assert(prev[t] == symbols[t]);
                assert(occurrences(ps, t as usize) == coins_named(coins, prev[t]));
            } else {
                assert forall|i: int| 0 <= i < ps.len() implies !p(#[trigger] ps[i]) by {
                    assert((ps[i] as int) < prev.len());
                }
                lemma_filter_none(ps, p);
                lemma_name_count_is_coin_count(symbols.last(), coins);
                assert(symbols.last() == symbols[t]);
            }
        }
        assert forall|i: int, j: int| 0 <= i < j < sel.len() implies sel[i] <= sel[j] by {
            if j < ps.len() {
                assert(sel[i] == ps[i] && sel[j] == ps[j]);
            } else if i < ps.len() {
                assert(sel[i] == ps[i]);
                assert((ps[i] as int) < prev.len());
                assert(sel[j] == tail[j - ps.len()]);
            } else {
                assert(sel[i] == tail[i - ps.len()]);
                assert(sel[j] == tail[j - ps.len()]);
            }
        }
    }
}

} // verus!
