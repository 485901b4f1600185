//! The configuration of a trading bot: the comma separated coin list, the
//! comma separated stream type codes, and the exchange stream endpoints built
//! from them.
use crate::text::{
    contains_seq, contains_text, lowercase_of, parse_i32, parsed_i32, split_on, split_text,
    to_lowercase, trim_text, trimmed,
};
use vstd::prelude::*;

verus! {

/// The kinds of market data stream the bot can follow.
#[derive(PartialEq, Eq, Structural, Debug, Clone, Copy)]
pub enum StreamKind {
    AggTrade,
    Kline,
    DepthOrderBook,
    BookTicker,
}

/// The stream kind a code selects: 1 to 4, in the order of the variants.
pub open spec fn kind_of_code(code: i32) -> Option<StreamKind> {
    if code == 1 {
        Some(StreamKind::AggTrade)
    } else if code == 2 {
        Some(StreamKind::Kline)
    } else if code == 3 {
        Some(StreamKind::DepthOrderBook)
    } else if code == 4 {
        Some(StreamKind::BookTicker)
    } else {
        None
    }
}

impl StreamKind {
    /// The stream kind of a code, `None` for an unknown code.
    pub fn from_code(code: i32) -> (k: Option<StreamKind>)
        ensures
            k == kind_of_code(code),
    {
        match code {
            1 => Some(StreamKind::AggTrade),
            2 => Some(StreamKind::Kline),
            3 => Some(StreamKind::DepthOrderBook),
            4 => Some(StreamKind::BookTicker),
            _ => None,
        }
    }
}

/// The stream name for a parsed code; anything but 1 to 4 is unknown.
pub open spec fn stream_name_text(code: Option<i32>) -> Seq<char> {
    match code {
        Some(c) => if c == 1 {
            "arr"@
        } else if c == 2 {
            "kline_1m"@
        } else if c == 3 {
            "depth"@
        } else if c == 4 {
            "bookTicker"@
        } else {
            "Unknown stream type"@
        },
        None => "Unknown stream type"@,
    }
}

/// The stream name for a parsed code.
pub fn stream_name(code: Option<i32>) -> (s: String)
    ensures
        s@ == stream_name_text(code),
{
    match code {
        Some(1) => String::from_str("arr"),
        Some(2) => String::from_str("kline_1m"),
        Some(3) => String::from_str("depth"),
        Some(4) => String::from_str("bookTicker"),
        _ => String::from_str("Unknown stream type"),
    }
}

/// The comma separated pieces of a trimmed input line.
pub open spec fn pieces(input: Seq<char>) -> Seq<Seq<char>> {
    split_on(trimmed(input), ',')
}

/// The trimmed comma separated pieces of an input line.
pub open spec fn coin_list(input: Seq<char>) -> Seq<Seq<char>> {
    pieces(input).map_values(|p: Seq<char>| trimmed(p))
}

/// The coin names of an input line such as `"btcusdt, ethusdt"`: the line is
/// trimmed, cut at each comma, and each piece trimmed.
pub fn parse_coins(input: &str) -> (coins: Vec<String>)
    ensures
        coins.deep_view() == coin_list(input@),
{
    let parts = split_text(trim_text(input), ',');
    let ghost pv = parts@.map_values(|p: &str| p@);
    assert(pv == pieces(input@));
    let mut coins: Vec<String> = Vec::new();
    for i in 0..parts.len()
        invariant
            pv == parts@.map_values(|p: &str| p@),
            coins@.len() == i,
            forall|j: int| 0 <= j < i ==> #[trigger] coins@[j]@ == trimmed(pv[j]),
    {
        let c = String::from_str(trim_text(parts[i]));
        coins.push(c);
    }
    assert(coins.deep_view() =~= coin_list(input@));
    coins
}

/// The stream names of a line of comma separated codes such as `"1, 2"`: each
/// trimmed piece is parsed as an `i32` and named.
pub open spec fn stream_name_list(input: Seq<char>) -> Seq<Seq<char>> {
    pieces(input).map_values(|p: Seq<char>| stream_name_text(parsed_i32(trimmed(p))))
}

/// The stream names of a line of comma separated codes.
pub fn parse_stream_names(input: &str) -> (names: Vec<String>)
    ensures
        names.deep_view() == stream_name_list(input@),
{
    let parts = split_text(trim_text(input), ',');
    let ghost pv = parts@.map_values(|p: &str| p@);
    assert(pv == pieces(input@));
    let mut names: Vec<String> = Vec::new();
    for i in 0..parts.len()
        invariant
            pv == parts@.map_values(|p: &str| p@),
            names@.len() == i,
            forall|j: int|
                0 <= j < i ==> #[trigger] names@[j]@ == stream_name_text(parsed_i32(trimmed(pv[j]))),
    {
        let code = parse_i32(trim_text(parts[i]));
        names.push(stream_name(code));
    }
    assert(names.deep_view() =~= stream_name_list(input@));
    names
}

/// The codes among `ps` that parse as `i32`, in order.
pub open spec fn parsed_codes(ps: Seq<Seq<char>>) -> Seq<i32>
    decreases ps.len(),
{
    if ps.len() == 0 {
        Seq::<i32>::empty()
    } else {
        match parsed_i32(trimmed(ps.last())) {
            Some(v) => parsed_codes(ps.drop_last()).push(v),
            None => parsed_codes(ps.drop_last()),
        }
    }
}

/// The codes of a line of comma separated codes, leaving out the pieces that
/// do not parse.
pub fn parse_stream_codes(input: &str) -> (codes: Vec<i32>)
    ensures
        codes@ == parsed_codes(pieces(input@)),
{
    let parts = split_text(trim_text(input), ',');
    let ghost pv = parts@.map_values(|p: &str| p@);
    assert(pv == pieces(input@));
    let mut codes: Vec<i32> = Vec::new();
    for i in 0..parts.len()
        invariant
            pv == parts@.map_values(|p: &str| p@),
            codes@ == parsed_codes(pv.take(i as int)),
    {
        proof {
            assert(pv.take(i + 1).drop_last() =~= pv.take(i as int));
            assert(pv.take(i + 1).last() == parts@[i as int]@);
        }
        match parse_i32(trim_text(parts[i])) {
            Some(v) => codes.push(v),
            None => {},
        }
    }
    assert(pv.take(parts.len() as int) =~= pv);
    codes
}

/// The endpoint of a lower-case coin name and a stream: `coin@stream`, or the
/// all-market ticker stream when that contains `@arr`.
pub open spec fn endpoint_of_lower(lower_coin: Seq<char>, stream: Seq<char>) -> Seq<char> {
    let formatted = lower_coin + "@"@ + stream;
    if contains_seq(formatted, "@arr"@) {
        "!ticker@arr"@
    } else {
        formatted
    }
}

/// The endpoint of one coin and one stream, the coin taken in lower case.
pub open spec fn endpoint_text(coin: Seq<char>, stream: Seq<char>) -> Seq<char> {
    endpoint_of_lower(lowercase_of(coin), stream)
}

/// The endpoints of every coin with every stream, coin by coin.
pub open spec fn endpoint_list(coins: Seq<Seq<char>>, streams: Seq<Seq<char>>) -> Seq<Seq<char>>
    decreases coins.len(),
{
    if coins.len() == 0 {
        Seq::<Seq<char>>::empty()
    } else {
        endpoint_list(coins.drop_last(), streams) + streams.map_values(
            |s: Seq<char>| endpoint_text(coins.last(), s),
        )
    }
}

/// The endpoint of a coin name already in lower case and a stream.
pub fn endpoint_from_lower(lower_coin: &str, stream: &str) -> (e: String)
    ensures
        e@ == endpoint_of_lower(lower_coin@, stream@),
{
    let mut formatted = String::from_str(lower_coin);
    formatted.append("@");
    formatted.append(stream);
    if contains_text(formatted.as_str(), "@arr") {
        String::from_str("!ticker@arr")
    } else {
        formatted
    }
}

/// The endpoint of one coin and one stream.
pub fn endpoint(coin: &str, stream: &str) -> (e: String)
    ensures
        e@ == endpoint_text(coin@, stream@),
{
    let lower = to_lowercase(coin);
    endpoint_from_lower(lower.as_str(), stream)
}

/// The endpoints of every coin with every stream, coin by coin.
pub fn build_endpoints(coins: &Vec<String>, streams: &Vec<String>) -> (endpoints: Vec<String>)
    ensures
        endpoints.deep_view() == endpoint_list(coins.deep_view(), streams.deep_view()),
        endpoints@.len() == coins@.len() * streams@.len(),
        forall|i: int, j: int|
            0 <= i < coins@.len() && 0 <= j < streams@.len() ==> #[trigger] endpoints@[i
                * streams@.len() + j]@ == endpoint_of_lower(lowercase_of(coins@[i]@), streams@[j]@),
{
    proof {
        lemma_endpoint_at(coins.deep_view(), streams.deep_view());
    }
    let ghost cv = coins.deep_view();
    let ghost sv = streams.deep_view();
    let mut endpoints: Vec<String> = Vec::new();
    for i in 0..coins.len()
        invariant
            cv == coins.deep_view(),
            sv == streams.deep_view(),
            endpoints.deep_view() == endpoint_list(cv.take(i as int), sv),
    {
        let ghost before = endpoints.deep_view();
        for j in 0..streams.len()
            invariant
                cv == coins.deep_view(),
                sv == streams.deep_view(),
                0 <= i < cv.len(),
                endpoints.deep_view() == before + sv.take(j as int).map_values(
                    |s: Seq<char>| endpoint_text(cv[i as int], s),
                ),
        {
            let e = endpoint(coins[i].as_str(), streams[j].as_str());
            let ghost prev = endpoints.deep_view();
            endpoints.push(e);
            assert(endpoints.deep_view() =~= prev.push(e@));
            assert(sv.take(j + 1).map_values(|s: Seq<char>| endpoint_text(cv[i as int], s))
                =~= sv.take(j as int).map_values(|s: Seq<char>| endpoint_text(cv[i as int], s)).push(
                endpoint_text(cv[i as int], sv[j as int]),
            ));
        }
        proof {
            assert(sv.take(streams.len() as int) =~= sv);
            assert(cv.take(i + 1).drop_last() =~= cv.take(i as int));
            assert(cv.take(i + 1).last() == cv[i as int]);
        }
    }
    assert(cv.take(coins.len() as int) =~= cv);
    assert forall|i: int, j: int|
        0 <= i < coins@.len() && 0 <= j < streams@.len() implies #[trigger] endpoints@[i
            * streams@.len() + j]@ == endpoint_of_lower(lowercase_of(coins@[i]@), streams@[j]@) by {
        let x = i * streams@.len() + j;
        let n = coins@.len() as int;
        let m = streams@.len() as int;
        assert(0 <= i * m + j < n * m) by (nonlinear_arith)
            requires
                0 <= i < n,
                0 <= j < m,
        ;
        assert(endpoints.deep_view().len() == endpoints@.len());
        assert(endpoint_list(cv, sv)[i * sv.len() + j] == endpoint_text(cv[i], sv[j]));
        assert(endpoints.deep_view()[x] == endpoints@[x]@);
        assert(cv[i] == coins@[i]@);
        assert(sv[j] == streams@[j]@);
    }
    endpoints
}

/// One C string handed to the bot: absent, not UTF-8, or text.
pub enum InputText {
    Null,
    NotUtf8,
    Text(String),
}

/// The checks the bot entry point makes on its inputs, in order: both strings
/// present, both UTF-8, then a callback present. Gives the two texts, or the
/// message of the first check that fails.
pub fn check_start_inputs(coins: InputText, stream_types: InputText, has_callback: bool) -> (r:
    Result<(String, String), String>)
    ensures
        (coins is Null || stream_types is Null) ==> (r matches Err(e) && e@
            == "One of the input pointers is null"@),
        !(coins is Null || stream_types is Null) && (coins is NotUtf8 || stream_types is NotUtf8)
            ==> (r matches Err(e) && e@ == "Invalid UTF-8 strings"@),
        (coins is Text && stream_types is Text && !has_callback) ==> (r matches Err(e) && e@
            == "Callback function is null"@),
        (coins is Text && stream_types is Text && has_callback) ==> (r matches Ok(p) && p.0@
            == coins->Text_0@ && p.1@ == stream_types->Text_0@),
{
    let coins_null = match coins {
        InputText::Null => true,
        _ => false,
    };
    let streams_null = match stream_types {
        InputText::Null => true,
        _ => false,
    };
    if coins_null || streams_null {
        return Err(String::from_str("One of the input pointers is null"));
    }
    let (c, s) = match (coins, stream_types) {
        (InputText::Text(c), InputText::Text(s)) => (c, s),
        _ => return Err(String::from_str("Invalid UTF-8 strings")),
    };
    if !has_callback {
        return Err(String::from_str("Callback function is null"));
    }
    Ok((c, s))
}


/// Every coin meets every stream: there is one endpoint per pair.
pub proof fn lemma_endpoint_count(coins: Seq<Seq<char>>, streams: Seq<Seq<char>>)
    ensures
        endpoint_list(coins, streams).len() == coins.len() * streams.len(),
    decreases coins.len(),
{
    if coins.len() > 0 {
        lemma_endpoint_count(coins.drop_last(), streams);
        let n = coins.len() as int;
        let m = streams.len() as int;
        assert((n - 1) * m + m == n * m) by (nonlinear_arith);
    }
}

/// Stream type 1 subscribes to the all-market ticker stream, whatever the coin.
pub proof fn lemma_all_market_stream(coin: Seq<char>)
    ensures
        endpoint_text(coin, stream_name_text(Some(1i32))) == "!ticker@arr"@,
        endpoint_of_lower(coin, stream_name_text(Some(1i32))) == "!ticker@arr"@,
{
    lemma_arr_endpoint(lowercase_of(coin));
    lemma_arr_endpoint(coin);
}

proof fn lemma_arr_endpoint(lc: Seq<char>)
    ensures
        endpoint_of_lower(lc, "arr"@) == "!ticker@arr"@,
{
    reveal_strlit("@arr");
    reveal_strlit("@");
    reveal_strlit("arr");
    let formatted = lc + "@"@ + "arr"@;
    assert(formatted.subrange(lc.len() as int, lc.len() + 4int) =~= "@arr"@);
    assert(crate::text::occurs_at(formatted, "@arr"@, lc.len() as int));
}

/// A configuration line always gives at least one piece, and the coin list
/// and the stream name list have one entry per piece.
pub proof fn lemma_one_entry_per_piece(input: Seq<char>)
    ensures
        pieces(input).len() >= 1,
        coin_list(input).len() == pieces(input).len(),
        stream_name_list(input).len() == pieces(input).len(),
        parsed_codes(pieces(input)).len() <= pieces(input).len(),
{
    crate::text::lemma_split_on_nonempty(trimmed(input), ',');
    lemma_parsed_codes_len(pieces(input));
}

proof fn lemma_parsed_codes_len(ps: Seq<Seq<char>>)
    ensures
        parsed_codes(ps).len() <= ps.len(),
    decreases ps.len(),
{
    if ps.len() > 0 {
        lemma_parsed_codes_len(ps.drop_last());
    }
}


/// Whitespace around a configuration line, such as its line ending, changes
/// nothing: the coins, the stream names and the stream codes stay the same.
pub proof fn lemma_surrounding_white_space_ignored(before: Seq<char>, input: Seq<char>, after: Seq<char>)
    requires
        crate::text::all_white(before),
        crate::text::all_white(after),
    ensures
        pieces(before + input + after) == pieces(input),
        coin_list(before + input + after) == coin_list(input),
        stream_name_list(before + input + after) == stream_name_list(input),
        parsed_codes(pieces(before + input + after)) == parsed_codes(pieces(input)),
{
    crate::text::lemma_trimmed_ignores_white_space(before, input, after);
}

/// A line read with its line ending, `\n` or `\r\n`, gives the same coins and
/// streams as the bare line.
pub proof fn lemma_line_endings_ignored(input: Seq<char>)
    ensures
        coin_list(input + "\r\n"@) == coin_list(input),
        coin_list(input + "\n"@) == coin_list(input),
        stream_name_list(input + "\r\n"@) == stream_name_list(input),
        stream_name_list(input + "\n"@) == stream_name_list(input),
        parsed_codes(pieces(input + "\r\n"@)) == parsed_codes(pieces(input)),
        parsed_codes(pieces(input + "\n"@)) == parsed_codes(pieces(input)),
{
    crate::text::lemma_line_ends_are_white();
    let e = Seq::<char>::empty();
    assert(crate::text::all_white(e));
    assert(e + input + "\r\n"@ =~= input + "\r\n"@);
    assert(e + input + "\n"@ =~= input + "\n"@);
    lemma_surrounding_white_space_ignored(e, input, "\r\n"@);
    lemma_surrounding_white_space_ignored(e, input, "\n"@);
}

/// Every endpoint is built from its coin in lower case: the endpoint of coin
/// `i` and stream `j` stands at `i * streams.len() + j`, and it is
/// `coin@stream` with the coin lower-cased, or `!ticker@arr` when that text
/// contains `@arr`.
pub proof fn lemma_endpoint_at(coins: Seq<Seq<char>>, streams: Seq<Seq<char>>)
    ensures
        endpoint_list(coins, streams).len() == coins.len() * streams.len(),
        forall|i: int, j: int|
            0 <= i < coins.len() && 0 <= j < streams.len() ==> #[trigger] endpoint_list(coins, streams)[i
                * streams.len() + j] == ({
                let formatted = lowercase_of(#[trigger] coins[i]) + "@"@ + streams[j];
                if contains_seq(formatted, "@arr"@) {
                    "!ticker@arr"@
                } else {
                    formatted
                }
            }),
    decreases coins.len(),
{
    lemma_endpoint_count(coins, streams);
    if coins.len() > 0 {
        let prev = coins.drop_last();
        lemma_endpoint_at(prev, streams);
        let m = streams.len() as int;
        let n = coins.len() as int;
        let el = endpoint_list(coins, streams);
        let pl = endpoint_list(prev, streams);
        assert forall|i: int, j: int| 0 <= i < n && 0 <= j < m implies #[trigger] el[i * m + j] == ({
            let formatted = lowercase_of(#[trigger] coins[i]) + "@"@ + streams[j];
            if contains_seq(formatted, "@arr"@) {
                "!ticker@arr"@
            } else {
                formatted
            }
        }) by {
            if i < n - 1 {
                assert(i * m + j < (n - 1) * m) by (nonlinear_arith)
                    requires
                        0 <= i < n - 1,
                        0 <= j < m,
                ;
                assert(0 <= i * m + j) by (nonlinear_arith)
                    requires
                        0 <= i,
                        0 <= j,
                        0 <= m,
                ;
                assert(el[i * m + j] == pl[i * m + j]);
                assert(prev[i] == coins[i]);
            } else {
                assert(i * m + j - (n - 1) * m == j) by (nonlinear_arith)
                    requires
                        i == n - 1,
                ;
                assert(el[i * m + j] == streams.map_values(
                    |s: Seq<char>| endpoint_text(coins.last(), s),
                )[j]);
                assert(coins.last() == coins[i]);
            }
        }
    }
}

} // verus!
