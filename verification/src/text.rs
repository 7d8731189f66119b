//! Text handling of the tracker: trimming user input, shortening names for
//! display, writing numbers and elapsed times, and reading numbers back.
use vstd::prelude::*;

verus! {

// ------------------------------------------------------------- white space

/// The Unicode `White_Space` characters, which `char::is_whitespace` accepts.
pub open spec fn white_space(c: char) -> bool {
    let v = c as u32;
    ||| 0x09 <= v <= 0x0d
    ||| v == 0x20
    ||| v == 0x85
    ||| v == 0xa0
    ||| v == 0x1680
    ||| 0x2000 <= v <= 0x200a
    ||| v == 0x2028
    ||| v == 0x2029
    ||| v == 0x202f
    ||| v == 0x205f
    ||| v == 0x3000
}

/// Whether `c` is a Unicode white-space character.
pub fn is_white_space(c: char) -> (r: bool)
    ensures
        r == white_space(c),
{
    let v = c as u32;
    (0x09 <= v && v <= 0x0d) || v == 0x20 || v == 0x85 || v == 0xa0 || v == 0x1680 || (0x2000 <= v
        && v <= 0x200a) || v == 0x2028 || v == 0x2029 || v == 0x202f || v == 0x205f || v == 0x3000
}

/// The number of white-space characters at the start of `s`.
pub open spec fn leading_white(s: Seq<char>) -> nat
    decreases s.len(),
{
    if s.len() > 0 && white_space(s[0]) {
        1 + leading_white(s.drop_first())
    } else {
        0
    }
}

/// The number of white-space characters at the end of `s`.
pub open spec fn trailing_white(s: Seq<char>) -> nat
    decreases s.len(),
{
    if s.len() > 0 && white_space(s.last()) {
        1 + trailing_white(s.drop_last())
    } else {
        0
    }
}

/// `s` without its leading and trailing white space.
pub open spec fn trimmed(s: Seq<char>) -> Seq<char> {
    let rest = s.skip(leading_white(s) as int);
    rest.take(rest.len() - trailing_white(rest))
}

/// `s` without its leading and trailing white space (as `str::trim`).
pub fn trim(s: &str) -> (r: &str)
    ensures
        r@ == trimmed(s@),
{
    let ghost v = s@;
    let n = s.unicode_len();
    let mut i: usize = 0;
    proof {
        assert(v.skip(0) =~= v);
    }
    while i < n && is_white_space(s.get_char(i))
        invariant
            v == s@,
            n == v.len(),
            i <= n,
            leading_white(v) == i + leading_white(v.skip(i as int)),
        decreases n - i,
    {
        proof {
            assert(v.skip(i as int)[0] == v[i as int]);
            assert(v.skip(i as int).drop_first() =~= v.skip(i + 1));
        }
        i = i + 1;
    }
    proof {
        if i < n {
            assert(v.skip(i as int)[0] == v[i as int]);
        }
    }
    let ghost rest = v.skip(i as int);
    let mut j: usize = n;
    proof {
        assert(rest.take(rest.len() as int) =~= rest);
    }
    while j > i && is_white_space(s.get_char(j - 1))
        invariant
            v == s@,
            n == v.len(),
            i <= j <= n,
            rest == v.skip(i as int),
            trailing_white(rest) == (n - j) + trailing_white(rest.take(j - i)),
        decreases j - i,
    {
        proof {
            assert(rest.take(j - i).last() == v[j - 1]);
            assert(rest.take(j - i).drop_last() =~= rest.take(j - 1 - i));
        }
        j = j - 1;
    }
    proof {
        if j > i {
            assert(rest.take(j - i).last() == v[j - 1]);
        }
        assert(rest.take(j - i) =~= v.subrange(i as int, j as int));
    }
    s.substring_char(i, j)
}

/// A task name as entered: trimmed.
pub fn normalize_name(name: &str) -> (r: String)
    ensures
        r@ == trimmed(name@),
{
    String::from_str(trim(name))
}

/// A description as entered: trimmed, and left out when nothing remains.
pub open spec fn normalized_description(d: Option<Seq<char>>) -> Option<Seq<char>> {
    match d {
        Some(s) => if trimmed(s).len() == 0 { None } else { Some(trimmed(s)) },
        None => None,
    }
}

/// A description as entered: trimmed, and left out when nothing remains.
pub fn normalize_description(description: Option<&str>) -> (r: Option<String>)
    ensures
        r.deep_view() == normalized_description(description.deep_view()),
{
    match description {
        Some(d) => {
            let t = trim(d);
            if t.unicode_len() == 0 {
                None
            } else {
                Some(String::from_str(t))
            }
        },
        None => None,
    }
}

// --------------------------------------------------------------- shortening

/// The ellipsis that ends a shortened text.
pub open spec fn ellipsis() -> char {
    '\u{2026}'
}

/// `s` when it has at most `max` characters; otherwise its first `max - 1`
/// characters followed by an ellipsis.
pub open spec fn truncated(s: Seq<char>, max: nat) -> Seq<char> {
    if s.len() <= max {
        s
    } else {
        s.take(max - 1).push(ellipsis())
    }
}

/// `s` shortened to at most `max` characters, the last of them an ellipsis
/// when something was cut.
pub fn truncate(s: &str, max: usize) -> (r: String)
    requires
        max > 0 || s@.len() == 0,
    ensures
        r@ == truncated(s@, max as nat),
        r@.len() <= max,
{
    if s.unicode_len() <= max {
        String::from_str(s)
    } else {
        let mut out = String::from_str(s.substring_char(0, max - 1));
        proof {
            reveal_strlit("\u{2026}");
        }
        out.append("\u{2026}");
        proof {
            assert(out@ =~= s@.take(max - 1).push(ellipsis()));
        }
        out
    }
}

// ------------------------------------------------------------------ numbers

/// The decimal digit for `d` (0 to 9).
pub open spec fn digit_char(d: int) -> char {
    if d == 0 {
        '0'
    } else if d == 1 {
        '1'
    } else if d == 2 {
        '2'
    } else if d == 3 {
        '3'
    } else if d == 4 {
        '4'
    } else if d == 5 {
        '5'
    } else if d == 6 {
        '6'
    } else if d == 7 {
        '7'
    } else if d == 8 {
        '8'
    } else {
        '9'
    }
}

/// The decimal digits of `n`, without leading zeros.
pub open spec fn decimal(n: nat) -> Seq<char>
    decreases n,
{
    if n < 10 {
        seq![digit_char(n as int)]
    } else {
        decimal(n / 10).push(digit_char((n % 10) as int))
    }
}

/// The decimal text of `n`, with a minus sign when negative.
pub open spec fn int_text(n: int) -> Seq<char> {
    if n < 0 {
        seq!['-'] + decimal((-n) as nat)
    } else {
        decimal(n as nat)
    }
}

/// The text of one decimal digit.
fn digit_str(d: u64) -> (r: &'static str)
    requires
        d < 10,
    ensures
        r@ == seq![digit_char(d as int)],
{
    proof {
        reveal_strlit("0");
        reveal_strlit("1");
        reveal_strlit("2");
        reveal_strlit("3");
        reveal_strlit("4");
        reveal_strlit("5");
        reveal_strlit("6");
        reveal_strlit("7");
        reveal_strlit("8");
        reveal_strlit("9");
    }
    let r = if d == 0 {
        "0"
    } else if d == 1 {
        "1"
    } else if d == 2 {
        "2"
    } else if d == 3 {
        "3"
    } else if d == 4 {
        "4"
    } else if d == 5 {
        "5"
    } else if d == 6 {
        "6"
    } else if d == 7 {
        "7"
    } else if d == 8 {
        "8"
    } else {
        "9"
    };
    assert(r@ =~= seq![digit_char(d as int)]);
    r
}

/// The decimal text of `n`.
pub fn decimal_string(n: u64) -> (r: String)
    ensures
        r@ == decimal(n as nat),
    decreases n,
{
    if n < 10 {
        String::from_str(digit_str(n))
    } else {
        let mut s = decimal_string(n / 10);
        s.append(digit_str(n % 10));
        proof {
            assert(s@ =~= decimal((n / 10) as nat).push(digit_char((n % 10) as int)));
        }
        s
    }
}

/// The decimal text of `n`, with a minus sign when negative (as `i64`'s `Display`).
pub fn int_string(n: i64) -> (r: String)
    ensures
        r@ == int_text(n as int),
{
    if n < 0 {
        let m: u64 = (-(n as i128)) as u64;
        let mut s = String::from_str("-");
        proof {
            reveal_strlit("-");
        }
        let d = decimal_string(m);
        s.append(d.as_str());
        proof {
            assert(s@ =~= seq!['-'] + decimal((-n) as nat));
        }
        s
    } else {
        decimal_string(n as u64)
    }
}

/// `n` written with at least two digits (as `{:02}`).
pub open spec fn two_digits(n: nat) -> Seq<char> {
    if n < 10 {
        seq!['0'] + decimal(n)
    } else {
        decimal(n)
    }
}

fn two_digit_string(n: u64) -> (r: String)
    ensures
        r@ == two_digits(n as nat),
{
    if n < 10 {
        let mut s = String::from_str("0");
        proof {
            reveal_strlit("0");
        }
        let d = decimal_string(n);
        s.append(d.as_str());
        proof {
            assert(s@ =~= seq!['0'] + decimal(n as nat));
        }
        s
    } else {
        decimal_string(n)
    }
}

// ------------------------------------------------------------ elapsed time

/// An elapsed time as `H:MM:SS`, or `M:SS` under an hour; negative times
/// count as zero.
pub open spec fn elapsed_text(secs: int) -> Seq<char> {
    let s: int = if secs < 0 { 0 } else { secs };
    let h = s / 3600;
    let m = (s % 3600) / 60;
    let x = s % 60;
    if h > 0 {
        decimal(h as nat) + seq![':'] + two_digits(m as nat) + seq![':'] + two_digits(x as nat)
    } else {
        decimal(m as nat) + seq![':'] + two_digits(x as nat)
    }
}

/// An elapsed time as `H:MM:SS`, or `M:SS` under an hour; negative times
/// count as zero.
pub fn format_elapsed(secs: i64) -> (r: String)
    ensures
        r@ == elapsed_text(secs as int),
{
    let s: u64 = if secs < 0 { 0 } else { secs as u64 };
    let h = s / 3600;
    let m = (s % 3600) / 60;
    let x = s % 60;
    proof {
        reveal_strlit(":");
    }
    if h > 0 {
        let mut out = decimal_string(h);
        out.append(":");
        let mm = two_digit_string(m);
        out.append(mm.as_str());
        out.append(":");
        let xx = two_digit_string(x);
        out.append(xx.as_str());
        proof {
            assert(out@ =~= elapsed_text(secs as int));
        }
        out
    } else {
        let mut out = decimal_string(m);
        out.append(":");
        let xx = two_digit_string(x);
        out.append(xx.as_str());
        proof {
            assert(out@ =~= elapsed_text(secs as int));
        }
        out
    }
}

// ---------------------------------------------------------- reading numbers

/// `c` is an ASCII decimal digit.
pub open spec fn is_digit(c: char) -> bool {
    48 <= (c as u32) <= 57
}

/// The value of the ASCII digit `c`.
pub open spec fn digit_value(c: char) -> int {
    (c as u32) - 48
}

/// The value of a run of decimal digits.
pub open spec fn digits_value(s: Seq<char>) -> int
    decreases s.len(),
{
    if s.len() == 0 {
        0
    } else {
        digits_value(s.drop_last()) * 10 + digit_value(s.last())
    }
}

/// Every character of `s` is a decimal digit.
pub open spec fn all_digits(s: Seq<char>) -> bool {
    forall|i: int| 0 <= i < s.len() ==> is_digit(#[trigger] s[i])
}

/// What `str::parse::<i64>` gives: an optional `+` or `-` sign followed by
/// one or more decimal digits, whose value fits in 64 bits; nothing else.
pub open spec fn parsed_i64(s: Seq<char>) -> Option<i64> {
    let neg = s.len() > 0 && s[0] == '-';
    let body = if s.len() > 0 && (s[0] == '-' || s[0] == '+') { s.drop_first() } else { s };
    if body.len() == 0 || !all_digits(body) {
        None
    } else {
        let v = if neg { -digits_value(body) } else { digits_value(body) };
        if i64::MIN <= v <= i64::MAX { Some(v as i64) } else { None }
    }
}

/// A run of digits has a value of at least zero, at least that of any prefix.
proof fn lemma_digits_value_grows(s: Seq<char>, k: int)
    requires
        0 <= k <= s.len(),
        forall|i: int| 0 <= i < s.len() ==> is_digit(#[trigger] s[i]),
    ensures
        0 <= digits_value(s.take(k)) <= digits_value(s),
    decreases s.len(),
{
    if s.len() > 0 {
        assert forall|i: int| 0 <= i < s.drop_last().len() implies is_digit(#[trigger] s.drop_last()[i]) by {
            assert(s.drop_last()[i] == s[i]);
        }
        assert(is_digit(s[s.len() - 1]));
        if k == s.len() {
            assert(s.take(k) =~= s);
            lemma_digits_value_grows(s.drop_last(), 0);
        } else {
            assert(s.drop_last().take(k) =~= s.take(k));
            lemma_digits_value_grows(s.drop_last(), k);
        }
    } else {
        assert(s.take(k) =~= s);
    }
}

/// Reads a decimal integer (as `str::parse::<i64>`).
pub fn parse_i64(s: &str) -> (r: Option<i64>)
    ensures
        r == parsed_i64(s@),
{
    let ghost v = s@;
    let n = s.unicode_len();
    let mut start: usize = 0;
    let mut neg = false;
    if n > 0 {
        let c = s.get_char(0);
        if c == '-' {
            neg = true;
            start = 1;
        } else if c == '+' {
            start = 1;
        }
    }
    let ghost body = if v.len() > 0 && (v[0] == '-' || v[0] == '+') { v.drop_first() } else { v };
    proof {
        assert(body =~= v.skip(start as int));
        assert(neg == (v.len() > 0 && v[0] == '-'));
    }
    if start == n {
        return None;
    }
    let limit: u128 = 0x8000_0000_0000_0000;
    let mut acc: u128 = 0;
    let mut i: usize = start;
    proof {
        assert(body.take(0) =~= Seq::<char>::empty());
    }
    while i < n
        invariant
            v == s@,
            n == v.len(),
            start <= i <= n,
            start <= 1,
            body == v.skip(start as int),
            body == (if v.len() > 0 && (v[0] == '-' || v[0] == '+') { v.drop_first() } else { v }),
            neg == (v.len() > 0 && v[0] == '-'),
            limit == 0x8000_0000_0000_0000u128,
            acc <= limit,
            forall|q: int| 0 <= q < i - start ==> is_digit(#[trigger] body[q]),
            acc as int == digits_value(body.take(i - start)),
        decreases n - i,
    {
        let c = s.get_char(i);
        assert(body[i - start] == c);
        let code = c as u32;
        if code < 48 || code > 57 {
            assert(!is_digit(body[i - start]));
            return None;
        }
        proof {
            assert(body.take(i - start + 1).drop_last() =~= body.take(i - start));
            assert(body.take(i - start + 1).last() == c);
        }
        acc = acc * 10 + (code - 48) as u128;
        i = i + 1;
        if acc > limit {
            proof {
                let k = i - start;
                if forall|q: int| 0 <= q < body.len() ==> is_digit(#[trigger] body[q]) {
                    lemma_digits_value_grows(body, k);
                }
            }
            return None;
        }
    }
    proof {
        assert(body.take(n - start) =~= body);
    }
    if neg {
        let m: i128 = -(acc as i128);
        if m < i64::MIN as i128 {
            None
        } else {
            Some(m as i64)
        }
    } else {
        if acc > i64::MAX as u128 {
            None
        } else {
            Some(acc as i64)
        }
    }
}

// ---------------------------------------------------------- comparing text

/// Whether `a` and `b` hold the same characters.
pub fn same_text(a: &str, b: &str) -> (r: bool)
    ensures
        r == (a@ == b@),
{
    let n = a.unicode_len();
    if n != b.unicode_len() {
        return false;
    }
    let mut i: usize = 0;
    while i < n
        invariant
            n == a@.len(),
            n == b@.len(),
            i <= n,
            forall|k: int| 0 <= k < i ==> a@[k] == b@[k],
        decreases n - i,
    {
        if a.get_char(i) != b.get_char(i) {
            return false;
        }
        i = i + 1;
    }
    assert(a@ =~= b@);
    true
}

/// `s` without `prefix`, when it starts with it (as `str::strip_prefix`).
pub fn strip_prefix<'a>(s: &'a str, prefix: &str) -> (r: Option<&'a str>)
    ensures
        match r {
            Some(rest) => prefix@.len() <= s@.len() && s@.take(prefix@.len() as int) == prefix@
                && rest@ == s@.skip(prefix@.len() as int),
            None => !(prefix@.len() <= s@.len() && s@.take(prefix@.len() as int) == prefix@),
        },
{
    let n = s.unicode_len();
    let m = prefix.unicode_len();
    if m > n {
        return None;
    }
    let mut i: usize = 0;
    while i < m
        invariant
            n == s@.len(),
            m == prefix@.len(),
            m <= n,
            i <= m,
            forall|k: int| 0 <= k < i ==> s@[k] == prefix@[k],
        decreases m - i,
    {
        if s.get_char(i) != prefix.get_char(i) {
            assert(s@.take(m as int)[i as int] != prefix@[i as int]);
            return None;
        }
        i = i + 1;
    }
    assert(s@.take(m as int) =~= prefix@);
    let rest = s.substring_char(m, n);
    assert(rest@ =~= s@.skip(m as int));
    Some(rest)
}

} // verus!
