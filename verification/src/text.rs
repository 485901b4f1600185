//! Text helpers shared by the manager's messages and the stream configuration:
//! decimal rendering of integers, whitespace trimming, splitting on a separator,
//! substring search, case mapping and integer parsing.
use vstd::prelude::*;

verus! {

// ---------------------------------------------------------------------------
// Decimal rendering
// ---------------------------------------------------------------------------

pub open spec fn digit_char(d: int) -> char {
    (48 + d) as char
}

/// The decimal digits of a natural number, most significant first.
pub open spec fn nat_text(n: nat) -> Seq<char>
    decreases n,
{
    if n < 10 {
        seq![digit_char(n as int)]
    } else {
        nat_text(n / 10).push(digit_char((n % 10) as int))
    }
}

/// The decimal rendering of an integer, with a leading `-` when negative.
pub open spec fn decimal_text(x: int) -> Seq<char> {
    if x < 0 {
        seq!['-'] + nat_text((-x) as nat)
    } else {
        nat_text(x as nat)
    }
}

/// The text of one decimal digit.
fn digit_text(d: u64) -> (t: &'static str)
    requires
        d < 10,
    ensures
        t@ == seq![digit_char(d as int)],
{
    proof {
        reveal_strlit("0");
        reveal_strlit("1");
        reveal_strlit("2");
        reveal_strlit("3");
        reveal_strlit("4");
        reveal_strlit("5");
        reveal_strlit("6");
        reveal_strlit("7");
        reveal_strlit("8");
        reveal_strlit("9");
    }
    let t = match d {
        0 => "0",
        1 => "1",
        2 => "2",
        3 => "3",
        4 => "4",
        5 => "5",
        6 => "6",
        7 => "7",
        8 => "8",
        _ => "9",
    };
    assert(t@ =~= seq![digit_char(d as int)]);
    t
}

/// The decimal digits of `n`.
fn nat_string(n: u64) -> (s: String)
    ensures
        s@ == nat_text(n as nat),
    decreases n,
{
    if n < 10 {
        String::from_str(digit_text(n))
    } else {
        let mut s = nat_string(n / 10);
        s.append(digit_text(n % 10));
        assert(s@ =~= nat_text((n / 10) as nat).push(digit_char((n % 10) as int)));
        s
    }
}

/// The decimal rendering of `x`, as `i64::to_string` gives it: no `+`, no
/// leading zeros, a leading `-` for negative numbers.
pub(crate) fn decimal_string(x: i64) -> (s: String)
    ensures
        s@ == decimal_text(x as int),
{
    if x < 0 {
        let a: u64 = ((-(x + 1)) as u64) + 1;
        let mut s = String::from_str("-");
        let d = nat_string(a);
        s.append(d.as_str());
        proof {
            reveal_strlit("-");
        }
        assert(s@ =~= seq!['-'] + nat_text((-x) as nat));
        s
    } else {
        nat_string(x as u64)
    }
}

/// The string made of `prefix`, the decimal rendering of `x`, and `suffix`.
pub fn text_with_number(prefix: &str, x: i64, suffix: &str) -> (s: String)
    ensures
        s@ == prefix@ + decimal_text(x as int) + suffix@,
{
    let mut s = String::from_str(prefix);
    let d = decimal_string(x);
    s.append(d.as_str());
    s.append(suffix);
    s
}

/// The string made of `prefix` followed by `rest`.
pub fn text_concat(prefix: &str, rest: &str) -> (s: String)
    ensures
        s@ == prefix@ + rest@,
{
    let mut s = String::from_str(prefix);
    s.append(rest);
    s
}

// ---------------------------------------------------------------------------
// Whitespace and trimming
// ---------------------------------------------------------------------------

/// The Unicode `White_Space` property.
pub open spec fn is_white_space(c: char) -> bool {
    let u = c as u32;
    ||| 0x9 <= u <= 0xd
    ||| u == 0x20
    ||| u == 0x85
    ||| u == 0xa0
    ||| u == 0x1680
    ||| 0x2000 <= u <= 0x200a
    ||| u == 0x2028
    ||| u == 0x2029
    ||| u == 0x202f
    ||| u == 0x205f
    ||| u == 0x3000
}

/// The code points that the Unicode Character Database (`PropList.txt`) gives
/// the `White_Space` property, one by one.
pub open spec fn white_space_code_points() -> Set<u32> {
    set![
        0x0009u32, 0x000Au32, 0x000Bu32, 0x000Cu32, 0x000Du32, 0x0020u32, 0x0085u32, 0x00A0u32,
        0x1680u32, 0x2000u32, 0x2001u32, 0x2002u32, 0x2003u32, 0x2004u32, 0x2005u32, 0x2006u32,
        0x2007u32, 0x2008u32, 0x2009u32, 0x200Au32, 0x2028u32, 0x2029u32, 0x202Fu32, 0x205Fu32,
        0x3000u32,
    ]
}

/// The whitespace test is the Unicode `White_Space` property: it holds
/// exactly for the 25 listed code points, among them tab, line feed and
/// carriage return.
pub proof fn lemma_white_space_is_unicode(c: char)
    ensures
        is_white_space(c) <==> white_space_code_points().contains(c as u32),
{
}

/// Whether `c` has the Unicode `White_Space` property, as `char::is_whitespace`
/// tells.
pub(crate) fn char_is_whitespace(c: char) -> (b: bool)
    ensures
        b == is_white_space(c),
        b == white_space_code_points().contains(c as u32),
{
    proof {
        lemma_white_space_is_unicode(c);
    }
    let u = c as u32;
    (0x9 <= u && u <= 0xd) || u == 0x20 || u == 0x85 || u == 0xa0 || u == 0x1680 || (0x2000 <= u
        && u <= 0x200a) || u == 0x2028 || u == 0x2029 || u == 0x202f || u == 0x205f || u == 0x3000
}

pub open spec fn trim_start(s: Seq<char>) -> Seq<char>
    decreases s.len(),
{
    if s.len() > 0 && is_white_space(s[0]) {
        trim_start(s.drop_first())
    } else {
        s
    }
}

pub open spec fn trim_end(s: Seq<char>) -> Seq<char>
    decreases s.len(),
{
    if s.len() > 0 && is_white_space(s.last()) {
        trim_end(s.drop_last())
    } else {
        s
    }
}

/// `s` without its leading and trailing whitespace.
pub open spec fn trimmed(s: Seq<char>) -> Seq<char> {
    trim_end(trim_start(s))
}

proof fn lemma_trim_start_at(s: Seq<char>, a: int)
    requires
        0 <= a <= s.len(),
        forall|i: int| 0 <= i < a ==> is_white_space(#[trigger] s[i]),
        a == s.len() || !is_white_space(s[a]),
    ensures
        trim_start(s) == s.skip(a),
    decreases a,
{
    if a == 0 {
        assert(s.skip(0) =~= s);
    } else {
        let t = s.drop_first();
        assert forall|i: int| 0 <= i < a - 1 implies is_white_space(#[trigger] t[i]) by {
            assert(t[i] == s[i + 1]);
        }
        lemma_trim_start_at(t, a - 1);
        assert(t.skip(a - 1) =~= s.skip(a));
    }
}

proof fn lemma_trim_end_at(s: Seq<char>, b: int)
    requires
        0 <= b <= s.len(),
        forall|i: int| b <= i < s.len() ==> is_white_space(#[trigger] s[i]),
        b == 0 || !is_white_space(s[b - 1]),
    ensures
        trim_end(s) == s.take(b),
    decreases s.len() - b,
{
    if b == s.len() {
        assert(s.take(b) =~= s);
    } else {
        let t = s.drop_last();
        assert forall|i: int| b <= i < t.len() implies is_white_space(#[trigger] t[i]) by {
            assert(t[i] == s[i]);
        }
        lemma_trim_end_at(t, b);
        assert(t.take(b) =~= s.take(b));
    }
}

/// `s` without leading and trailing whitespace.
pub fn trim_text(s: &str) -> (r: &str)
    ensures
        r@ == trimmed(s@),
{
    let n = s.unicode_len();
    let mut a: usize = 0;
    while a < n && char_is_whitespace(s.get_char(a))
        invariant
            n == s@.len(),
            a <= n,
            forall|i: int| 0 <= i < a ==> is_white_space(#[trigger] s@[i]),
        decreases n - a,
    {
        a = a + 1;
    }
    let mut b: usize = n;
    while b > a && char_is_whitespace(s.get_char(b - 1))
        invariant
            n == s@.len(),
            a <= b <= n,
            forall|i: int| b <= i < n ==> is_white_space(#[trigger] s@[i]),
        decreases b - a,
    {
        b = b - 1;
    }
    proof {
        lemma_trim_start_at(s@, a as int);
        let t = s@.skip(a as int);
        assert forall|i: int| b - a <= i < t.len() implies is_white_space(#[trigger] t[i]) by {
            assert(t[i] == s@[i + a]);
        }
        if b > a {
            assert(t[b - a - 1] == s@[b - 1]);
        }
        lemma_trim_end_at(t, b - a);
        assert(t.take(b - a) =~= s@.subrange(a as int, b as int));
    }
    s.substring_char(a, b)
}

// ---------------------------------------------------------------------------
// Splitting on a separator
// ---------------------------------------------------------------------------

/// The pieces of `s` between occurrences of `sep`: `str::split` with a
/// character pattern. An empty `s` gives one empty piece.
pub open spec fn split_on(s: Seq<char>, sep: char) -> Seq<Seq<char>>
    decreases s.len(),
{
    if s.len() == 0 {
        seq![Seq::<char>::empty()]
    } else {
        let parts = split_on(s.drop_last(), sep);
        if s.last() == sep {
            parts.push(Seq::<char>::empty())
        } else {
            parts.update(parts.len() - 1, parts.last().push(s.last()))
        }
    }
}

pub proof fn lemma_split_on_nonempty(s: Seq<char>, sep: char)
    ensures
        split_on(s, sep).len() >= 1,
    decreases s.len(),
{
    if s.len() > 0 {
        lemma_split_on_nonempty(s.drop_last(), sep);
    }
}

/// The pieces of `s` between occurrences of `sep`, in order.
pub fn split_text<'a>(s: &'a str, sep: char) -> (parts: Vec<&'a str>)
    ensures
        parts@.map_values(|p: &str| p@) == split_on(s@, sep),
{
    let n = s.unicode_len();
    let mut parts: Vec<&'a str> = Vec::new();
    let mut start: usize = 0;
    let mut i: usize = 0;
    proof {
        assert(s@.take(0) =~= Seq::<char>::empty());
        assert(parts@.map_values(|p: &str| p@).push(s@.subrange(0, 0)) =~= seq![
            Seq::<char>::empty(),
        ]);
    }
    while i < n
        invariant
            n == s@.len(),
            start <= i <= n,
            split_on(s@.take(i as int), sep) == parts@.map_values(|p: &str| p@).push(
                s@.subrange(start as int, i as int),
            ),
        decreases n - i,
    {
        let c = s.get_char(i);
        proof {
            let t = s@.take(i + 1);
            assert(t.drop_last() =~= s@.take(i as int));
            assert(t.last() == c);
        }
        if c == sep {
            let piece = s.substring_char(start, i);
            proof {
                let old_views = parts@.map_values(|p: &str| p@);
                assert(parts@.push(piece).map_values(|p: &str| p@) =~= old_views.push(piece@));
                assert(s@.subrange((i + 1) as int, (i + 1) as int) =~= Seq::<char>::empty());
            }
            parts.push(piece);
            start = i + 1;
        } else {
            proof {
                assert(s@.subrange(start as int, i as int).push(c) =~= s@.subrange(
                    start as int,
                    (i + 1) as int,
                ));
                let old_views = parts@.map_values(|p: &str| p@);
                assert(old_views.push(s@.subrange(start as int, i as int)).update(
                    old_views.len() as int,
                    s@.subrange(start as int, (i + 1) as int),
                ) =~= old_views.push(s@.subrange(start as int, (i + 1) as int)));
            }
        }
        i = i + 1;
    }
    let last = s.substring_char(start, n);
    proof {
        assert(s@.take(n as int) =~= s@);
        assert(parts@.push(last).map_values(|p: &str| p@) =~= parts@.map_values(|p: &str| p@).push(
            last@,
        ));
    }
    parts.push(last);
    parts
}

// ---------------------------------------------------------------------------
// Substring search
// ---------------------------------------------------------------------------

/// `pat` occurs in `s` at position `k`.
pub open spec fn occurs_at(s: Seq<char>, pat: Seq<char>, k: int) -> bool {
    0 <= k && k + pat.len() <= s.len() && s.subrange(k, k + pat.len()) == pat
}

/// `pat` occurs somewhere in `s`.
pub open spec fn contains_seq(s: Seq<char>, pat: Seq<char>) -> bool {
    exists|k: int| occurs_at(s, pat, k)
}

/// Whether `pat` occurs in `s` (`str::contains` with a string pattern).
pub fn contains_text(s: &str, pat: &str) -> (b: bool)
    ensures
        b == contains_seq(s@, pat@),
{
    let n = s.unicode_len();
    let m = pat.unicode_len();
    if m > n {
        assert forall|k: int| !occurs_at(s@, pat@, k) by {}
        return false;
    }
    if m == 0 {
        assert(s@.subrange(0, 0) =~= pat@);
        assert(occurs_at(s@, pat@, 0));
        return true;
    }
    let mut k: usize = 0;
    while k <= n - m
        invariant
            n == s@.len(),
            m == pat@.len(),
            0 < m <= n,
            k <= n - m + 1,
            forall|j: int| 0 <= j < k ==> !occurs_at(s@, pat@, j),
        decreases n - m + 1 - k,
    {
        let mut j: usize = 0;
        let mut same = true;
        while j < m && same
            invariant
                n == s@.len(),
                m == pat@.len(),
                k + m <= n,
                j <= m,
                same ==> forall|t: int| 0 <= t < j ==> s@[k + t] == pat@[t],
                !same ==> !occurs_at(s@, pat@, k as int),
            decreases m - j, (if same { 1int } else { 0int }),
        {
            if s.get_char(k + j) != pat.get_char(j) {
                same = false;
                proof {
                    assert(s@.subrange(k as int, k + m)[j as int] == s@[k + j]);
                }
            } else {
                j = j + 1;
            }
        }
        if same {
            assert(s@.subrange(k as int, k + m) =~= pat@);
            assert(occurs_at(s@, pat@, k as int));
            return true;
        }
        k = k + 1;
    }
    assert forall|j: int| !occurs_at(s@, pat@, j) by {
        if 0 <= j < k {
        }
    }
    false
}

// ---------------------------------------------------------------------------
// Case mapping
// ---------------------------------------------------------------------------

/// What `str::to_lowercase` gives for a string.
pub uninterp spec fn lowercase_of(s: Seq<char>) -> Seq<char>;

/// What `str::to_uppercase` gives for a string.
pub uninterp spec fn uppercase_of(s: Seq<char>) -> Seq<char>;

/// All characters of `s` are ASCII.
pub open spec fn is_ascii_text(s: Seq<char>) -> bool {
    forall|i: int| 0 <= i < s.len() ==> (#[trigger] s[i] as u32) < 128
}

/// `A` to `Z` in lower case; any other character unchanged.
pub open spec fn ascii_lower(c: char) -> char {
    if 65 <= (c as u32) <= 90 {
        ((c as u32) + 32) as char
    } else {
        c
    }
}

/// `a` to `z` in upper case; any other character unchanged.
pub open spec fn ascii_upper(c: char) -> char {
    if 97 <= (c as u32) <= 122 {
        ((c as u32) - 32) as char
    } else {
        c
    }
}

/// `str::to_lowercase`: the Unicode lowercase mapping of `s`, a function of `s`
/// alone. On ASCII text that mapping turns `A` to `Z` into `a` to `z` and keeps
/// every other character; what it does beyond ASCII is not stated here.
#[verifier::external_body]
pub(crate) fn to_lowercase(s: &str) -> (r: String)
    ensures
        r@ == lowercase_of(s@),
        is_ascii_text(s@) ==> r@ == s@.map_values(|c: char| ascii_lower(c)),
{
    s.to_lowercase()
}

/// `str::to_uppercase`: the Unicode uppercase mapping of `s`, a function of `s`
/// alone. On ASCII text that mapping turns `a` to `z` into `A` to `Z` and keeps
/// every other character; what it does beyond ASCII is not stated here.
#[verifier::external_body]
pub(crate) fn to_uppercase(s: &str) -> (r: String)
    ensures
        r@ == uppercase_of(s@),
        is_ascii_text(s@) ==> r@ == s@.map_values(|c: char| ascii_upper(c)),
{
    s.to_uppercase()
}

// ---------------------------------------------------------------------------
// Integer parsing
// ---------------------------------------------------------------------------

pub open spec fn is_ascii_digit(c: char) -> bool {
    48 <= (c as u32) <= 57
}

pub open spec fn all_ascii_digits(s: Seq<char>) -> bool {
    forall|i: int| 0 <= i < s.len() ==> is_ascii_digit(#[trigger] s[i])
}

/// The value of a string of decimal digits.
pub open spec fn digits_value(s: Seq<char>) -> int
    decreases s.len(),
{
    if s.len() == 0 {
        0
    } else {
        digits_value(s.drop_last()) * 10 + ((s.last() as u32) - 48)
    }
}

/// What `str::parse::<i32>` accepts: an optional `+` or `-`, then one or more
/// ASCII digits, whose value fits in an `i32`.
pub open spec fn parsed_i32(s: Seq<char>) -> Option<i32> {
    let neg = s.len() > 0 && s[0] == '-';
    let body = if s.len() > 0 && (s[0] == '-' || s[0] == '+') {
        s.drop_first()
    } else {
        s
    };
    let v = if neg {
        -digits_value(body)
    } else {
        digits_value(body)
    };
    if body.len() > 0 && all_ascii_digits(body) && i32::MIN <= v <= i32::MAX {
        Some(v as i32)
    } else {
        None
    }
}

/// `v`, or one more than the largest `i32` magnitude when `v` is larger.
pub open spec fn capped(v: int) -> int {
    if v > 2147483649 {
        2147483649
    } else {
        v
    }
}

proof fn lemma_digits_value_nonneg(s: Seq<char>)
    requires
        all_ascii_digits(s),
    ensures
        digits_value(s) >= 0,
    decreases s.len(),
{
    if s.len() > 0 {
        assert(all_ascii_digits(s.drop_last())) by {
            assert forall|i: int| 0 <= i < s.drop_last().len() implies is_ascii_digit(
                #[trigger] s.drop_last()[i],
            ) by {
                assert(s.drop_last()[i] == s[i]);
            }
        }
        lemma_digits_value_nonneg(s.drop_last());
        assert(is_ascii_digit(s[s.len() - 1]));
    }
}

proof fn lemma_capped_step(v: int, d: int)
    requires
        v >= 0,
        0 <= d <= 9,
    ensures
        capped(v * 10 + d) == capped(capped(v) * 10 + d),
{
    if v > 2147483649 {
        assert(v * 10 + d > 2147483649) by (nonlinear_arith)
            requires
                v > 2147483649,
                d >= 0,
        ;
    }
}

/// The value of `s` as `str::parse::<i32>` reads it: an optional `+` or `-`,
/// then one or more ASCII digits whose value fits in an `i32`; `None` for
/// anything else.
pub(crate) fn parse_i32(s: &str) -> (r: Option<i32>)
    ensures
        r == parsed_i32(s@),
{
    let n = s.unicode_len();
    let mut start: usize = 0;
    let mut neg = false;
    if n > 0 {
        let c0 = s.get_char(0);
        if c0 == '-' {
            neg = true;
            start = 1;
        } else if c0 == '+' {
            start = 1;
        }
    }
    let ghost body = if s@.len() > 0 && (s@[0] == '-' || s@[0] == '+') {
        s@.drop_first()
    } else {
        s@
    };
    assert(body =~= s@.skip(start as int));
    if start == n {
        assert(body.len() == 0);
        assert(parsed_i32(s@) is None);
        return None;
    }
    let mut acc: i64 = 0;
    let mut i: usize = start;
    assert(body.take(0) =~= Seq::<char>::empty());
    while i < n
        invariant
            n == s@.len(),
            start <= i <= n,
            body == s@.skip(start as int),
            body == (if s@.len() > 0 && (s@[0] == '-' || s@[0] == '+') {
                s@.drop_first()
            } else {
                s@
            }),
            neg == (s@.len() > 0 && s@[0] == '-'),
            0 <= acc <= 2147483649,
            all_ascii_digits(body.take(i - start)),
            acc == capped(digits_value(body.take(i - start))),
        decreases n - i,
    {
        let c = s.get_char(i);
        let k = i - start;
        assert(body[k as int] == c);
        if !('0' <= c && c <= '9') {
            assert(!all_ascii_digits(body)) by {
                assert(!is_ascii_digit(body[k as int]));
            }
            return None;
        }
        let d: i64 = (c as u32 - 48) as i64;
        let ghost prefix = body.take(k as int);
        let ghost next = body.take(k + 1);
        assert(next.drop_last() =~= prefix);
        assert(next.last() == c);
        assert(all_ascii_digits(next)) by {
            assert forall|j: int| 0 <= j < next.len() implies is_ascii_digit(#[trigger] next[j]) by {
                if j < k {
                    assert(next[j] == prefix[j]);
                }
            }
        }
        proof {
            lemma_digits_value_nonneg(prefix);
            lemma_capped_step(digits_value(prefix), d as int);
        }
        assert(acc * 10 + d <= 2147483649 * 10 + 9) by (nonlinear_arith)
            requires
                0 <= acc <= 2147483649,
                0 <= d <= 9,
        ;
        let stepped = acc * 10 + d;
        acc = if stepped > 2147483649 {
            2147483649
        } else {
            stepped
        };
        i = i + 1;
    }
    assert(body.take(n - start) =~= body);
    proof {
        lemma_digits_value_nonneg(body);
    }
    if neg {
        if acc <= 2147483648 {
            Some((-acc) as i32)
        } else {
            None
        }
    } else {
        if acc <= 2147483647 {
            Some(acc as i32)
        } else {
            None
        }
    }
}


/// All characters of `w` are whitespace.
pub open spec fn all_white(w: Seq<char>) -> bool {
    forall|i: int| 0 <= i < w.len() ==> is_white_space(#[trigger] w[i])
}

proof fn lemma_trim_start_skips_white(w: Seq<char>, s: Seq<char>)
    requires
        all_white(w),
    ensures
        trim_start(w + s) == trim_start(s),
    decreases w.len(),
{
    if w.len() > 0 {
        assert((w + s)[0] == w[0]);
        assert((w + s).drop_first() =~= w.drop_first() + s);
        assert(all_white(w.drop_first())) by {
            assert forall|i: int| 0 <= i < w.drop_first().len() implies is_white_space(
                #[trigger] w.drop_first()[i],
            ) by {
                assert(w.drop_first()[i] == w[i + 1]);
            }
        }
        lemma_trim_start_skips_white(w.drop_first(), s);
    } else {
        assert(w + s =~= s);
    }
}

proof fn lemma_trim_end_skips_white(s: Seq<char>, w: Seq<char>)
    requires
        all_white(w),
    ensures
        trim_end(s + w) == trim_end(s),
    decreases w.len(),
{
    if w.len() > 0 {
        assert((s + w).last() == w.last());
        assert((s + w).drop_last() =~= s + w.drop_last());
        assert(all_white(w.drop_last())) by {
            assert forall|i: int| 0 <= i < w.drop_last().len() implies is_white_space(
                #[trigger] w.drop_last()[i],
            ) by {
                assert(w.drop_last()[i] == w[i]);
            }
        }
        lemma_trim_end_skips_white(s, w.drop_last());
    } else {
        assert(s + w =~= s);
    }
}

proof fn lemma_trimmed_ignores_white_end(s: Seq<char>, w: Seq<char>)
    requires
        all_white(w),
    ensures
        trimmed(s + w) == trimmed(s),
    decreases s.len(),
{
    if s.len() == 0 {
        assert(s + w =~= w);
        lemma_trim_start_skips_white(w, Seq::<char>::empty());
        assert(w + Seq::<char>::empty() =~= w);
    } else if is_white_space(s[0]) {
        assert((s + w)[0] == s[0]);
        assert((s + w).drop_first() =~= s.drop_first() + w);
        lemma_trimmed_ignores_white_end(s.drop_first(), w);
    } else {
        assert((s + w)[0] == s[0]);
        lemma_trim_end_skips_white(s, w);
    }
}

/// Whitespace around a text does not change what trimming gives.
pub proof fn lemma_trimmed_ignores_white_space(before: Seq<char>, s: Seq<char>, after: Seq<char>)
    requires
        all_white(before),
        all_white(after),
    ensures
        trimmed(before + s + after) == trimmed(s),
{
    lemma_trim_start_skips_white(before, s + after);
    assert(before + s + after =~= before + (s + after));
    lemma_trimmed_ignores_white_end(s, after);
}

/// The line endings and blanks that input lines carry are whitespace:
/// carriage return, line feed, tab and space.
pub proof fn lemma_line_ends_are_white()
    ensures
        all_white("\r\n"@),
        all_white("\n"@),
        all_white("\r"@),
        all_white("\t"@),
        all_white(" "@),
{
    reveal_strlit("\r\n");
    reveal_strlit("\n");
    reveal_strlit("\r");
    reveal_strlit("\t");
    reveal_strlit(" ");
}

} // verus!
