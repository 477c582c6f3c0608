//! The line protocol: requests parsed from one line of text, responses
//! rendered as one line.
use crate::clock::{rfc3339, rfc3339_of};
use crate::filter::Fpp;
use vstd::prelude::*;
use vstd::string::*;

verus! {

/// The element count a `create` without one asks for.
pub const DEFAULT_CAPACITY: usize = 50000;

/// The probability a `create` without one asks for, 0.05, as digits and a
/// count of decimal places.
pub const DEFAULT_FPP_MANTISSA: u64 = 5;

pub const DEFAULT_FPP_SCALE: u32 = 2;

/// The tokens of `s` up to character `n`: the text between single spaces,
/// empty tokens included; there is always at least one token.
pub open spec fn split_prefix(s: Seq<char>, n: nat) -> Seq<Seq<char>>
    decreases n,
{
    if n == 0 {
        seq![Seq::<char>::empty()]
    } else {
        let prev = split_prefix(s, (n - 1) as nat);
        if s[n - 1] == ' ' {
            prev.push(Seq::<char>::empty())
        } else {
            prev.update(prev.len() - 1, prev.last().push(s[n - 1]))
        }
    }
}

/// The tokens of `s`, split at every single space.
pub open spec fn split_spaces(s: Seq<char>) -> Seq<Seq<char>> {
    split_prefix(s, s.len())
}

/// Splits `line` at every single space.
pub fn split_line(line: &str) -> (r: Vec<String>)
    ensures
        r@.map_values(|t: String| t@) == split_spaces(line@),
        r@.len() >= 1,
{
    let n = line.unicode_len();
    let mut out: Vec<String> = Vec::new();
    let mut start: usize = 0;
    let mut i: usize = 0;
    proof {
        assert(out@.map_values(|t: String| t@) =~= Seq::<Seq<char>>::empty());
        assert(line@.subrange(0, 0) =~= Seq::<char>::empty());
        assert(split_prefix(line@, 0) == seq![Seq::<char>::empty()]);
        assert(Seq::<Seq<char>>::empty().push(Seq::<char>::empty()) =~= seq![Seq::<char>::empty()]);
    }
    while i < n
        invariant
            n == line@.len(),
            start <= i <= n,
            split_prefix(line@, i as nat) == out@.map_values(|t: String| t@).push(line@.subrange(start as int, i as int)),
        decreases n - i,
    {
        let c = line.get_char(i);
        let ghost prev = split_prefix(line@, i as nat);
        if c == ' ' {
            let t = line.substring_char(start, i).to_owned();
            out.push(t);
            start = i + 1;
            proof {
                assert(out@.map_values(|t: String| t@) =~= prev);
                assert(line@.subrange(start as int, i + 1) =~= Seq::<char>::empty());
            }
        } else {
            proof {
                assert(line@.subrange(start as int, i + 1) =~= line@.subrange(start as int, i as int).push(c));
                assert(prev.update(prev.len() - 1, prev.last().push(c)) =~= out@.map_values(|t: String| t@).push(
                    line@.subrange(start as int, i + 1),
                ));
            }
        }
        i = i + 1;
    }
    let t = line.substring_char(start, n).to_owned();
    out.push(t);
    proof {
        assert(out@.map_values(|t: String| t@) =~= split_prefix(line@, n as nat));
    }
    out
}

/// The value of a digit character.
pub open spec fn digit_value(c: char) -> nat {
    (c as u32 - '0' as u32) as nat
}

pub open spec fn is_digit(c: char) -> bool {
    '0' <= c <= '9'
}

/// Whether every character of `s` is a decimal digit.
pub open spec fn all_digits(s: Seq<char>) -> bool {
    forall|i: int| 0 <= i < s.len() ==> is_digit(#[trigger] s[i])
}

/// The number that the decimal digits `s` write.
pub open spec fn digits_value(s: Seq<char>) -> nat
    decreases s.len(),
{
    if s.len() == 0 { 0 } else { digits_value(s.drop_last()) * 10 + digit_value(s.last()) }
}

/// `s` without one leading `+`.
pub open spec fn unsigned_body(s: Seq<char>) -> Seq<char> {
    if s.len() > 0 && s[0] == '+' { s.drop_first() } else { s }
}

/// The `usize` that `s` writes: an optional `+` and at least one digit.
pub open spec fn spec_parse_usize(s: Seq<char>) -> Option<usize> {
    let b = unsigned_body(s);
    if b.len() > 0 && all_digits(b) && digits_value(b) <= usize::MAX {
        Some(digits_value(b) as usize)
    } else {
        None
    }
}

/// The value of the digits `s[0..n]`, or `None` once it passes `limit`.
fn digits_upto(s: &str, from: usize, to: usize, limit: u64) -> (r: Option<u64>)
    requires
        from <= to <= s@.len(),
        all_digits(s@.subrange(from as int, to as int)),
    ensures
        r is Some <==> digits_value(s@.subrange(from as int, to as int)) <= limit,
        r matches Some(v) ==> v == digits_value(s@.subrange(from as int, to as int)),
{
    let mut acc: u64 = 0;
    let mut i: usize = from;
    while i < to
        invariant
            from <= i <= to <= s@.len(),
            all_digits(s@.subrange(from as int, to as int)),
            acc == digits_value(s@.subrange(from as int, i as int)),
            acc <= limit,
        decreases to - i,
    {
        let c = s.get_char(i);
        proof {
            assert(s@.subrange(from as int, i + 1).drop_last() =~= s@.subrange(from as int, i as int));
            assert(s@.subrange(from as int, to as int)[i - from] == c);
        }
        let d = (c as u32 - '0' as u32) as u64;
        assert(d == digit_value(c));
        if d > limit || acc > (limit - d) / 10 {
            proof {
                assert(acc * 10 + d > limit) by (nonlinear_arith)
                    requires
                        d > limit || acc > (limit - d) / 10,
                        d <= 9;
                assert(s@.subrange(from as int, to as int).subrange(0, (i - from) as int) =~= s@.subrange(from as int, i as int));
                lemma_digits_grow(s@.subrange(from as int, to as int), (i - from) as int, limit);
            }
            return None;
        }
        assert(acc * 10 + d <= limit) by (nonlinear_arith)
            requires
                d <= limit,
                acc <= (limit - d) / 10;
        acc = acc * 10 + d;
        i = i + 1;
    }
    Some(acc)
}

/// Once a prefix of the digits passes `limit`, so does the whole.
proof fn lemma_digits_grow(s: Seq<char>, i: int, limit: u64)
    requires
        0 <= i < s.len(),
        all_digits(s),
        digits_value(s.subrange(0, i)) * 10 + digit_value(s[i]) > limit,
    ensures
        digits_value(s) > limit,
    decreases s.len() - i,
{
    assert(s.subrange(0, i + 1).drop_last() =~= s.subrange(0, i));
    if i + 1 == s.len() {
        assert(s.subrange(0, i + 1) =~= s);
    } else {
        assert(s.subrange(0, i + 2).drop_last() =~= s.subrange(0, i + 1));
        lemma_digits_grow(s, i + 1, limit);
    }
}


/// Parses a token as a `usize`: an optional `+` and decimal digits.
pub fn parse_usize(t: &String) -> (r: Option<usize>)
    ensures
        r == spec_parse_usize(t@),
{
    let s = t.as_str();
    let n = s.unicode_len();
    let from: usize = if n > 0 && s.get_char(0) == '+' { 1 } else { 0 };
    proof {
        if from == 1 {
            assert(unsigned_body(s@) =~= s@.subrange(1, n as int));
        } else {
            assert(unsigned_body(s@) =~= s@.subrange(0, n as int));
        }
    }
    if from == n {
        return None;
    }
    if !digits_only(s, from, n) {
        return None;
    }
    match digits_upto(s, from, n, usize::MAX as u64) {
        Some(v) => Some(v as usize),
        None => None,
    }
}

/// Whether `s[from..to]` holds only decimal digits.
fn digits_only(s: &str, from: usize, to: usize) -> (r: bool)
    requires
        from <= to <= s@.len(),
    ensures
        r == all_digits(s@.subrange(from as int, to as int)),
{
    let mut i: usize = from;
    while i < to
        invariant
            from <= i <= to <= s@.len(),
            forall|j: int| from <= j < i ==> is_digit(#[trigger] s@[j]),
        decreases to - i,
    {
        let c = s.get_char(i);
        if !('0' <= c && c <= '9') {
            assert(!is_digit(s@.subrange(from as int, to as int)[i - from]));
            return false;
        }
        i = i + 1;
    }
    assert forall|j: int| 0 <= j < to - from implies is_digit(#[trigger] s@.subrange(from as int, to as int)[j]) by {
        assert(s@.subrange(from as int, to as int)[j] == s@[from + j]);
    }
    true
}

/// The position of the first character of `s[from..to]` that is not a digit, or `to`.
fn first_non_digit(s: &str, from: usize, to: usize) -> (r: usize)
    requires
        from <= to <= s@.len(),
    ensures
        from <= r <= to,
        forall|j: int| from <= j < r ==> is_digit(#[trigger] s@[j]),
        r < to ==> !is_digit(s@[r as int]),
{
    let mut i: usize = from;
    while i < to
        invariant
            from <= i <= to <= s@.len(),
            forall|j: int| from <= j < i ==> is_digit(#[trigger] s@[j]),
        decreases to - i,
    {
        let c = s.get_char(i);
        if !('0' <= c && c <= '9') {
            return i;
        }
        i = i + 1;
    }
    i
}

/// Whether `b` is digits, a dot and digits, with a digit somewhere, the dot at `d`.
pub open spec fn dotted_at(b: Seq<char>, d: int) -> bool {
    &&& 0 <= d < b.len()
    &&& b[d] == '.'
    &&& b.len() > 1
    &&& all_digits(b.subrange(0, d))
    &&& all_digits(b.subrange(d + 1, b.len() as int))
}

/// The decimal fraction that `s` writes: an optional `+`, then digits with
/// at most one dot among them and at least one digit, as `mantissa / 10^scale`.
pub open spec fn spec_parse_fraction(s: Seq<char>) -> Option<Fpp> {
    let b = unsigned_body(s);
    if b.len() > 0 && all_digits(b) {
        if digits_value(b) <= u64::MAX {
            Some(Fpp { mantissa: digits_value(b) as u64, scale: 0 })
        } else {
            None
        }
    } else if exists|d: int| dotted_at(b, d) {
        let d = choose|d: int| dotted_at(b, d);
        let digits = b.subrange(0, d) + b.subrange(d + 1, b.len() as int);
        if digits_value(digits) <= u64::MAX && b.len() - d - 1 <= u32::MAX {
            Some(Fpp { mantissa: digits_value(digits) as u64, scale: (b.len() - d - 1) as u32 })
        } else {
            None
        }
    } else {
        None
    }
}

/// Parses a decimal fraction.
fn parse_fraction(t: &String) -> (r: Option<Fpp>)
    ensures
        r == spec_parse_fraction(t@),
{
    let s = t.as_str();
    let n = s.unicode_len();
    let from: usize = if n > 0 && s.get_char(0) == '+' { 1 } else { 0 };
    let ghost b = unsigned_body(s@);
    proof {
        if from == 1 {
            assert(b =~= s@.subrange(1, n as int));
        } else {
            assert(b =~= s@.subrange(0, n as int));
        }
    }
    if from == n {
        return None;
    }
    if digits_only(s, from, n) {
        return match digits_upto(s, from, n, u64::MAX) {
            Some(v) => Some(Fpp { mantissa: v, scale: 0 }),
            None => None,
        };
    }
    let d = first_non_digit(s, from, n);
    let ghost bd = (d - from) as int;
    proof {
        assert forall|j: int| 0 <= j < bd implies is_digit(#[trigger] b.subrange(0, bd)[j]) by {
            assert(b.subrange(0, bd)[j] == s@[from + j]);
        }
    }
    if d == n || s.get_char(d) != '.' || n - from < 2 || !digits_only(s, d + 1, n) {
        proof {
            assert(!(exists|e: int| dotted_at(b, e))) by {
                if exists|e: int| dotted_at(b, e) {
                    let e = choose|e: int| dotted_at(b, e);
                    if e < bd {
                        assert(b[e] == s@[from + e]);
                        assert(is_digit(s@[from + e]));
                    } else if e > bd {
                        assert(b.subrange(0, e)[bd] == b[bd]);
                        assert(is_digit(b.subrange(0, e)[bd]));
                        if d < n {
                            assert(b[bd] == s@[d as int]);
                        }
                    } else {
                        assert(b[bd] == s@[d as int]);
                        assert(s@.subrange(d + 1, n as int) =~= b.subrange(e + 1, b.len() as int));
                    }
                }
            }
            if d == n {
                assert forall|j: int| 0 <= j < b.len() implies is_digit(#[trigger] b[j]) by {
                    assert(b[j] == s@[from + j]);
                }
            }
        }
        return None;
    }
    proof {
        assert(b[bd] == s@[d as int]);
        assert(b.subrange(0, bd) =~= s@.subrange(from as int, d as int));
        assert(b.subrange(bd + 1, b.len() as int) =~= s@.subrange(d + 1, n as int));
        assert(dotted_at(b, bd));
        assert forall|e: int| dotted_at(b, e) implies e == bd by {
            if e < bd {
                assert(b[e] == s@[from + e]);
                assert(is_digit(s@[from + e]));
            } else if e > bd {
                assert(b.subrange(0, e)[bd] == b[bd]);
                assert(is_digit(b.subrange(0, e)[bd]));
            }
        }
    }
    if n - d - 1 > u32::MAX as usize {
        return None;
    }
    let joined = s.substring_char(from, d).to_owned().concat(s.substring_char(d + 1, n));
    let js = joined.as_str();
    let jn = js.unicode_len();
    proof {
        assert(js@ =~= b.subrange(0, bd) + b.subrange(bd + 1, b.len() as int));
        assert(js@.subrange(0, jn as int) =~= js@);
        assert forall|j: int| 0 <= j < jn implies is_digit(#[trigger] js@[j]) by {
            if j < bd {
                assert(js@[j] == b.subrange(0, bd)[j]);
            } else {
                assert(js@[j] == b.subrange(bd + 1, b.len() as int)[j - bd]);
            }
        }
    }
    match digits_upto(js, 0, jn, u64::MAX) {
        Some(v) => Some(Fpp { mantissa: v, scale: (n - d - 1) as u32 }),
        None => None,
    }
}


/// Whether `s[x]` is the first exponent mark, `e` or `E`, of `s`.
pub open spec fn exponent_at(s: Seq<char>, x: int) -> bool {
    &&& 0 <= x < s.len()
    &&& (s[x] == 'e' || s[x] == 'E')
    &&& forall|y: int| 0 <= y < x ==> s[y] != 'e' && s[y] != 'E'
}

/// The exponent that `e` writes: an optional sign and at least one digit,
/// at most `u32::MAX` in size.
pub open spec fn spec_parse_exponent(e: Seq<char>) -> Option<int> {
    let neg = e.len() > 0 && e[0] == '-';
    let d = if e.len() > 0 && (e[0] == '-' || e[0] == '+') { e.drop_first() } else { e };
    if d.len() > 0 && all_digits(d) && digits_value(d) <= u32::MAX {
        Some(if neg { -(digits_value(d) as int) } else { digits_value(d) as int })
    } else {
        None
    }
}

/// `10^k`.
pub open spec fn pow10(k: nat) -> nat
    decreases k,
{
    if k == 0 { 1 } else { 10 * pow10((k - 1) as nat) }
}

/// A fraction times `10^e`, where it can be written as one.
pub open spec fn scaled(f: Fpp, e: int) -> Option<Fpp> {
    let sc = f.scale - e;
    if sc > u32::MAX {
        None
    } else if sc >= 0 {
        Some(Fpp { mantissa: f.mantissa, scale: sc as u32 })
    } else if f.mantissa * pow10((-sc) as nat) <= u64::MAX {
        Some(Fpp { mantissa: (f.mantissa * pow10((-sc) as nat)) as u64, scale: 0 })
    } else {
        None
    }
}

/// The probability that `s` writes: a decimal fraction, then optionally `e`
/// or `E` and a signed exponent of ten.
pub open spec fn spec_parse_fpp(s: Seq<char>) -> Option<Fpp> {
    if exists|x: int| exponent_at(s, x) {
        let x = choose|x: int| exponent_at(s, x);
        match (spec_parse_fraction(s.subrange(0, x)), spec_parse_exponent(s.subrange(x + 1, s.len() as int))) {
            (Some(f), Some(e)) => scaled(f, e),
            _ => None,
        }
    } else {
        spec_parse_fraction(s)
    }
}

/// Parses an exponent of ten: an optional sign and decimal digits.
fn parse_exponent(s: &str, from: usize, to: usize) -> (r: Option<(bool, u32)>)
    requires
        from <= to <= s@.len(),
    ensures
        r is None <==> spec_parse_exponent(s@.subrange(from as int, to as int)) is None,
        r matches Some((neg, v)) ==> spec_parse_exponent(s@.subrange(from as int, to as int)) == Some(
            if neg { -(v as int) } else { v as int },
        ),
{
    let ghost e = s@.subrange(from as int, to as int);
    let neg = from < to && s.get_char(from) == '-';
    let signed = from < to && (s.get_char(from) == '-' || s.get_char(from) == '+');
    let start = if signed { from + 1 } else { from };
    proof {
        if signed {
            assert(e.drop_first() =~= s@.subrange(start as int, to as int));
        } else {
            assert(e =~= s@.subrange(start as int, to as int));
        }
    }
    if start == to || !digits_only(s, start, to) {
        return None;
    }
    match digits_upto(s, start, to, u32::MAX as u64) {
        Some(v) => Some((neg, v as u32)),
        None => None,
    }
}

/// `f` times ten to the `e`, negative when `neg`, where it can be written.
fn scale_by(f: Fpp, neg: bool, e: u32) -> (r: Option<Fpp>)
    ensures
        r == scaled(f, if neg { -(e as int) } else { e as int }),
{
    if neg {
        let sc = f.scale as u64 + e as u64;
        if sc > u32::MAX as u64 {
            return None;
        }
        return Some(Fpp { mantissa: f.mantissa, scale: sc as u32 });
    }
    if e <= f.scale {
        return Some(Fpp { mantissa: f.mantissa, scale: f.scale - e });
    }
    let k = e - f.scale;
    if f.mantissa == 0 {
        assert(0 * pow10(k as nat) == 0);
        return Some(Fpp { mantissa: 0, scale: 0 });
    }
    let mut m: u64 = f.mantissa;
    let mut i: u32 = 0;
    while i < k
        invariant
            !neg,
            e > f.scale,
            i <= k,
            k == e - f.scale,
            f.mantissa > 0,
            m == f.mantissa * pow10(i as nat),
        decreases k - i,
    {
        match m.checked_mul(10) {
            Some(x) => {
                m = x;
                assert(f.mantissa * pow10((i + 1) as nat) == f.mantissa * pow10(i as nat) * 10) by (nonlinear_arith)
                    requires
                        pow10((i + 1) as nat) == 10 * pow10(i as nat),
                ;
            },
            None => {
                proof {
                    assert(m * 10 > u64::MAX);
                    lemma_pow10_grows(f.mantissa as nat, i as nat, k as nat);
                    let sc = f.scale - e;
                    assert((-sc) as nat == k as nat);
                    assert(f.mantissa * pow10((-sc) as nat) > u64::MAX);
                }
                return None;
            },
        }
        i = i + 1;
    }
    Some(Fpp { mantissa: m, scale: 0 })
}

/// Once `m * 10^(i + 1)` passes `u64::MAX`, so does `m * 10^k` for `k > i`.
proof fn lemma_pow10_grows(m: nat, i: nat, k: nat)
    requires
        i < k,
        m * pow10(i) * 10 > u64::MAX,
    ensures
        m * pow10(k) > u64::MAX,
    decreases k - i,
{
    assert(m * pow10(i + 1) == m * pow10(i) * 10) by (nonlinear_arith)
        requires
            pow10(i + 1) == 10 * pow10(i),
    ;
    if i + 1 < k {
        assert(m * pow10(i + 1) * 10 >= m * pow10(i + 1)) by (nonlinear_arith);
        lemma_pow10_grows(m, i + 1, k);
    }
}

/// The position of the first `e` or `E` of `s`, or its length.
fn find_exponent(s: &str) -> (r: usize)
    ensures
        r <= s@.len(),
        r < s@.len() ==> exponent_at(s@, r as int),
        r == s@.len() ==> forall|y: int| 0 <= y < s@.len() ==> s@[y] != 'e' && s@[y] != 'E',
{
    let n = s.unicode_len();
    let mut i: usize = 0;
    while i < n
        invariant
            n == s@.len(),
            i <= n,
            forall|y: int| 0 <= y < i ==> s@[y] != 'e' && s@[y] != 'E',
        decreases n - i,
    {
        let c = s.get_char(i);
        if c == 'e' || c == 'E' {
            return i;
        }
        i = i + 1;
    }
    i
}

/// Parses a token as a probability: a decimal fraction, optionally with an
/// exponent of ten.
pub fn parse_fpp(t: &String) -> (r: Option<Fpp>)
    ensures
        r == spec_parse_fpp(t@),
{
    let s = t.as_str();
    let n = s.unicode_len();
    let x = find_exponent(s);
    if x == n {
        proof {
            assert(!exists|y: int| exponent_at(t@, y));
        }
        return parse_fraction(t);
    }
    proof {
        assert forall|y: int| exponent_at(t@, y) implies y == x by {
            if y < x {
                assert(t@[y] != 'e' && t@[y] != 'E');
            } else if y > x {
                assert(t@[x as int] != 'e' && t@[x as int] != 'E');
            }
        }
    }
    let head = s.substring_char(0, x).to_owned();
    let f = match parse_fraction(&head) {
        Some(f) => f,
        None => return None,
    };
    match parse_exponent(s, x + 1, n) {
        Some((neg, e)) => scale_by(f, neg, e),
        None => None,
    }
}

/// A parsed request line.
#[derive(Debug, PartialEq, Eq)]
pub enum Request {
    Create(String, usize, Fpp),
    Insert(String, String),
    Check(String, String),
    Info(String),
    Drop(String),
    Clear(String),
    Persist(String),
    List,
}

/// The model of a request.
pub enum RequestView {
    Create(Seq<char>, usize, Fpp),
    Insert(Seq<char>, Seq<char>),
    Check(Seq<char>, Seq<char>),
    Info(Seq<char>),
    Drop(Seq<char>),
    Clear(Seq<char>),
    Persist(Seq<char>),
    List,
}

impl View for Request {
    type V = RequestView;

    open spec fn view(&self) -> RequestView {
        match self {
            Request::Create(n, c, p) => RequestView::Create(n@, *c, *p),
            Request::Insert(n, k) => RequestView::Insert(n@, k@),
            Request::Check(n, k) => RequestView::Check(n@, k@),
            Request::Info(n) => RequestView::Info(n@),
            Request::Drop(n) => RequestView::Drop(n@),
            Request::Clear(n) => RequestView::Clear(n@),
            Request::Persist(n) => RequestView::Persist(n@),
            Request::List => RequestView::List,
        }
    }
}

/// Why a request line was refused.
#[derive(Debug, Clone, PartialEq, Eq)]
pub struct ParserError {
    pub message: String,
}

impl ParserError {
    /// The error as the protocol reports it: `parser error: <message>`.
    pub fn to_text(&self) -> (r: String)
        ensures
            r@ == "parser error: "@ + self.message@,
    {
        "parser error: ".to_owned().concat(self.message.as_str())
    }
}

/// The request that `line` holds, or the message of the parse error.
pub open spec fn spec_parse(line: Seq<char>) -> Result<RequestView, Seq<char>> {
    let t = split_spaces(line);
    let cmd = t[0];
    if cmd == "create"@ {
        if t.len() < 2 {
            Err("missing name"@)
        } else {
            let cap = if t.len() > 2 { spec_parse_usize(t[2]) } else { Some(DEFAULT_CAPACITY) };
            let fpp = if t.len() > 3 {
                spec_parse_fpp(t[3])
            } else {
                Some(Fpp { mantissa: DEFAULT_FPP_MANTISSA, scale: DEFAULT_FPP_SCALE })
            };
            match cap {
                None => Err("capacity must be an i64 value"@),
                Some(c) => match fpp {
                    None => Err("false-positive probability must be a f64 value"@),
                    Some(p) => Ok(RequestView::Create(t[1], c, p)),
                },
            }
        }
    } else if cmd == "set"@ || cmd == "check"@ {
        if t.len() < 2 {
            Err("missing name"@)
        } else if t.len() < 3 {
            Err("missing key"@)
        } else if cmd == "set"@ {
            Ok(RequestView::Insert(t[1], t[2]))
        } else {
            Ok(RequestView::Check(t[1], t[2]))
        }
    } else if cmd == "info"@ || cmd == "drop"@ || cmd == "clear"@ || cmd == "persist"@ {
        if t.len() < 2 {
            Err("missing filter name"@)
        } else if cmd == "info"@ {
            Ok(RequestView::Info(t[1]))
        } else if cmd == "drop"@ {
            Ok(RequestView::Drop(t[1]))
        } else if cmd == "clear"@ {
            Ok(RequestView::Clear(t[1]))
        } else {
            Ok(RequestView::Persist(t[1]))
        }
    } else if cmd == "list"@ {
        Ok(RequestView::List)
    } else {
        Err("unknown command"@)
    }
}

/// Whether token `t` is the word `w`.
fn is_word(t: &String, w: &str) -> (r: bool)
    ensures
        r == (t@ == w@),
{
    let o = w.to_owned();
    t.eq(&o)
}

fn parser_error(message: &str) -> (r: ParserError)
    ensures
        r.message@ == message@,
{
    ParserError { message: message.to_owned() }
}

impl Request {
    /// Parses one request line.
    pub fn parse(line: &str) -> (r: Result<Request, ParserError>)
        ensures
            spec_parse(line@) matches Ok(v) ==> r matches Ok(q) && q@ == v,
            spec_parse(line@) matches Err(m) ==> r matches Err(e) && e.message@ == m,
    {
        let t = split_line(line);
        let ghost tv = t@.map_values(|x: String| x@);
        proof {
            assert(tv == split_spaces(line@));
            assert forall|i: int| 0 <= i < t@.len() implies #[trigger] t@[i]@ == tv[i] by {}
        }
        let n = t.len();
        let cmd = &t[0];
        if is_word(cmd, "create") {
            if n < 2 {
                return Err(parser_error("missing name"));
            }
            let cap = if n > 2 {
                match parse_usize(&t[2]) {
                    Some(c) => c,
                    None => return Err(parser_error("capacity must be an i64 value")),
                }
            } else {
                DEFAULT_CAPACITY
            };
            let fpp = if n > 3 {
                match parse_fpp(&t[3]) {
                    Some(p) => p,
                    None => return Err(parser_error("false-positive probability must be a f64 value")),
                }
            } else {
                Fpp { mantissa: DEFAULT_FPP_MANTISSA, scale: DEFAULT_FPP_SCALE }
            };
            Ok(Request::Create(t[1].clone(), cap, fpp))
        } else if is_word(cmd, "set") || is_word(cmd, "check") {
            if n < 2 {
                Err(parser_error("missing name"))
            } else if n < 3 {
                Err(parser_error("missing key"))
            } else if is_word(cmd, "set") {
                Ok(Request::Insert(t[1].clone(), t[2].clone()))
            } else {
                Ok(Request::Check(t[1].clone(), t[2].clone()))
            }
        } else if is_word(cmd, "info") || is_word(cmd, "drop") || is_word(cmd, "clear") || is_word(cmd, "persist") {
            if n < 2 {
                Err(parser_error("missing filter name"))
            } else if is_word(cmd, "info") {
                Ok(Request::Info(t[1].clone()))
            } else if is_word(cmd, "drop") {
                Ok(Request::Drop(t[1].clone()))
            } else if is_word(cmd, "clear") {
                Ok(Request::Clear(t[1].clone()))
            } else {
                Ok(Request::Persist(t[1].clone()))
            }
        } else if is_word(cmd, "list") {
            Ok(Request::List)
        } else {
            Err(parser_error("unknown command"))
        }
    }
}


/// The character of a decimal digit.
pub open spec fn digit_char(d: nat) -> char {
    if d == 0 { '0' } else if d == 1 { '1' } else if d == 2 { '2' } else if d == 3 { '3' } else if d == 4 { '4' }
    else if d == 5 { '5' } else if d == 6 { '6' } else if d == 7 { '7' } else if d == 8 { '8' } else { '9' }
}

/// The decimal digits of `n`, without sign or padding.
pub open spec fn decimal_text(n: nat) -> Seq<char>
    decreases n,
{
    if n < 10 { seq![digit_char(n)] } else { decimal_text(n / 10).push(digit_char(n % 10)) }
}

/// The one-character text of the digit `d`.
fn digit_text(d: u64) -> (r: String)
    requires
        d < 10,
    ensures
        r@ == seq![digit_char(d as nat)],
{
    let t = if d == 0 {
        "0"
    } else if d == 1 {
        "1"
    } else if d == 2 {
        "2"
    } else if d == 3 {
        "3"
    } else if d == 4 {
        "4"
    } else if d == 5 {
        "5"
    } else if d == 6 {
        "6"
    } else if d == 7 {
        "7"
    } else if d == 8 {
        "8"
    } else {
        "9"
    };
    proof {
        reveal_strlit("0");
        reveal_strlit("1");
        reveal_strlit("2");
        reveal_strlit("3");
        reveal_strlit("4");
        reveal_strlit("5");
        reveal_strlit("6");
        reveal_strlit("7");
        reveal_strlit("8");
        reveal_strlit("9");
    }
    let r = t.to_owned();
    assert(r@ =~= seq![digit_char(d as nat)]);
    r
}

/// The decimal digits of `n`, without sign or padding.
pub fn decimal(n: u64) -> (r: String)
    ensures
        r@ == decimal_text(n as nat),
    decreases n,
{
    if n < 10 {
        digit_text(n)
    } else {
        let head = decimal(n / 10);
        let last = digit_text(n % 10);
        let r = head.concat(last.as_str());
        assert(r@ =~= decimal_text(n as nat));
        r
    }
}

/// `n` zeros.
pub open spec fn zeros(n: nat) -> Seq<char> {
    Seq::new(n, |i: int| '0')
}

/// A probability written in decimal: the digits of the mantissa, padded
/// with zeros to more digits than decimal places, with the dot before the last `scale`.
pub open spec fn fpp_text(p: Fpp) -> Seq<char> {
    let d = decimal_text(p.mantissa as nat);
    if p.scale == 0 {
        d
    } else {
        let padded = if d.len() <= p.scale { zeros((p.scale + 1 - d.len()) as nat) + d } else { d };
        let cut = padded.len() - p.scale;
        padded.subrange(0, cut) + "."@ + padded.subrange(cut, padded.len() as int)
    }
}

proof fn lemma_decimal_nonempty(n: nat)
    ensures
        decimal_text(n).len() >= 1,
    decreases n,
{
    if n >= 10 {
        lemma_decimal_nonempty(n / 10);
    }
}

/// Renders a probability in decimal.
pub fn fpp_to_text(p: Fpp) -> (r: String)
    ensures
        r@ == fpp_text(p),
{
    let d = decimal(p.mantissa);
    if p.scale == 0 {
        return d;
    }
    let dl = d.as_str().unicode_len();
    let scale = p.scale as usize;
    let padded = if dl <= scale {
        let mut z = String::new();
        let mut i: usize = 0;
        let count = scale - dl + 1;
        while i < count
            invariant
                i <= count,
                z@ == zeros(i as nat),
            decreases count - i,
        {
            z = z.concat("0");
            proof {
                reveal_strlit("0");
                assert(z@ =~= zeros((i + 1) as nat));
            }
            i = i + 1;
        }
        z.concat(d.as_str())
    } else {
        d
    };
    let pl = padded.as_str().unicode_len();
    proof {
        lemma_decimal_nonempty(p.mantissa as nat);
    }
    let cut = pl - scale;
    let head = padded.as_str().substring_char(0, cut).to_owned();
    let r = head.concat(".").concat(padded.as_str().substring_char(cut, pl));
    r
}

/// What `info` reports of a filter.
#[derive(Debug, Clone, PartialEq, Eq)]
pub struct InfoReport {
    pub name: String,
    pub capacity: usize,
    pub size: usize,
    pub space: usize,
    pub filters: usize,
    pub hash_functions: u32,
    pub hits: u64,
    pub miss: u64,
    pub creation: i64,
    pub last_access: i64,
}

/// The answer to one request.
#[derive(Debug, Clone, PartialEq, Eq)]
pub enum Response {
    Done,
    True,
    False,
    Info(InfoReport),
    /// The `list` answer, already rendered.
    Listing(String),
    Error(String),
}

/// A timestamp as `info` shows it: RFC 3339, or `-` out of range.
pub open spec fn timestamp_text(secs: int) -> Seq<char> {
    match rfc3339_of(secs) {
        Some(t) => t,
        None => "-"@,
    }
}

/// The `info` line.
pub open spec fn info_text(i: InfoReport) -> Seq<char> {
    i.name@ + " capacity: "@ + decimal_text(i.capacity as nat) + " size: "@ + decimal_text(i.size as nat)
        + " space: "@ + decimal_text(i.space as nat) + " filters: "@ + decimal_text(i.filters as nat)
        + " hash functions: "@ + decimal_text(i.hash_functions as nat) + " hits: "@ + decimal_text(i.hits as nat)
        + " miss: "@ + decimal_text(i.miss as nat) + " creation: "@ + timestamp_text(i.creation as int)
        + " last access: "@ + timestamp_text(i.last_access as int)
}

/// The line that answers a request.
pub open spec fn response_text(r: Response) -> Seq<char> {
    match r {
        Response::Done => "Done"@,
        Response::True => "True"@,
        Response::False => "False"@,
        Response::Info(i) => info_text(i),
        Response::Listing(t) => t@,
        Response::Error(m) => "Error: "@ + m@,
    }
}

fn timestamp_to_text(secs: i64) -> (r: String)
    ensures
        r@ == timestamp_text(secs as int),
{
    match rfc3339(secs) {
        Some(t) => t,
        None => "-".to_owned(),
    }
}

impl Response {
    /// Renders the response as one line, without its line break.
    pub fn serialize(&self) -> (r: String)
        ensures
            r@ == response_text(*self),
    {
        match self {
            Response::Done => "Done".to_owned(),
            Response::True => "True".to_owned(),
            Response::False => "False".to_owned(),
            Response::Info(i) => {
                let r = i.name.clone().concat(" capacity: ").concat(decimal(i.capacity as u64).as_str()).concat(
                    " size: ",
                ).concat(decimal(i.size as u64).as_str()).concat(" space: ").concat(decimal(i.space as u64).as_str()).concat(
                    " filters: ",
                ).concat(decimal(i.filters as u64).as_str()).concat(" hash functions: ").concat(
                    decimal(i.hash_functions as u64).as_str(),
                ).concat(" hits: ").concat(decimal(i.hits).as_str()).concat(" miss: ").concat(decimal(i.miss).as_str()).concat(
                    " creation: ",
                ).concat(timestamp_to_text(i.creation).as_str()).concat(" last access: ").concat(
                    timestamp_to_text(i.last_access).as_str(),
                );
                r
            },
            Response::Listing(t) => t.clone(),
            Response::Error(m) => "Error: ".to_owned().concat(m.as_str()),
        }
    }
}

} // verus!
