//! Text handling: trimming, ASCII case, decimal and hexadecimal numbers.
use vstd::prelude::*;
use vstd::utf8::{decode_utf8, valid_utf8};

verus! {

/// `String::push` appends one character at the end.
pub assume_specification[ String::push ](s: &mut String, c: char)
    ensures
        final(s)@ == old(s)@.push(c),
;

/// What `String::from_utf8_lossy` makes of bytes.
pub uninterp spec fn lossy_text(bytes: Seq<u8>) -> Seq<char>;

/// Calls `String::from_utf8_lossy`. Bytes that are UTF-8 are decoded as they are;
/// what it puts in the place of others is only named.
#[verifier::external_body]
pub(crate) fn utf8_lossy(bytes: &[u8]) -> (s: String)
    ensures
        s@ == lossy_text(bytes@),
        valid_utf8(bytes@) ==> s@ == decode_utf8(bytes@),
{
    String::from_utf8_lossy(bytes).into_owned()
}

/// What a text that may be missing holds.
pub open spec fn text_of(s: Option<&str>) -> Option<Seq<char>> {
    match s {
        Some(t) => Some(t@),
        None => None,
    }
}

/// As [`text_of`], of an owned text.
pub open spec fn string_text(s: Option<String>) -> Option<Seq<char>> {
    match s {
        Some(t) => Some(t@),
        None => None,
    }
}

/// Calls `String::from_utf8`, which decodes UTF-8 and nothing else.
#[verifier::external_body]
pub(crate) fn utf8_exact(bytes: Vec<u8>) -> (r: Option<String>)
    ensures
        r is Some <==> valid_utf8(bytes@),
        r matches Some(s) ==> s@ == decode_utf8(bytes@),
{
    String::from_utf8(bytes).ok()
}

/// The characters of `s`, in order.
pub fn chars_of(s: &str) -> (v: Vec<char>)
    ensures
        v@ == s@,
{
    let mut v: Vec<char> = Vec::new();
    for c in it: s.chars()
        invariant
            v@ == it.seq().take(it.index() as int),
            it.seq() == s@,
    {
        proof {
            assert(it.seq().take(it.index() + 1) =~= it.seq().take(it.index() as int).push(c));
        }
        v.push(c);
    }
    assert(v@ =~= s@);
    v
}

/// The text made of the characters of `v`, in order.
pub fn string_of(v: &Vec<char>) -> (s: String)
    ensures
        s@ == v@,
{
    let mut s: String = String::new();
    let mut i: usize = 0;
    while i < v.len()
        invariant
            i <= v.len(),
            s@ == v@.take(i as int),
        decreases v.len() - i,
    {
        s.push(v[i]);
        proof {
            assert(v@.take(i + 1) =~= v@.take(i as int).push(v@[i as int]));
        }
        i = i + 1;
    }
    assert(v@.take(i as int) =~= v@);
    s
}


/// Whether two texts hold the same characters.
pub fn same_text(a: &str, b: &str) -> (r: bool)
    ensures
        r == (a@ == b@),
{
    let x: Vec<char> = chars_of(a);
    same(&x, b)
}

/// Whether `v` holds exactly the characters of `b`.
pub fn same(v: &Vec<char>, b: &str) -> (r: bool)
    ensures
        r == (v@ == b@),
{
    let w: Vec<char> = chars_of(b);
    same_chars(v, &w)
}

pub fn same_chars(v: &Vec<char>, w: &Vec<char>) -> (r: bool)
    ensures
        r == (v@ == w@),
{
    if v.len() != w.len() {
        return false;
    }
    let mut i: usize = 0;
    while i < v.len()
        invariant
            i <= v.len(),
            v.len() == w.len(),
            forall|k: int| 0 <= k < i ==> v@[k] == w@[k],
        decreases v.len() - i,
    {
        if v[i] != w[i] {
            return false;
        }
        i = i + 1;
    }
    assert(v@ =~= w@);
    true
}

/// The characters at positions `from` to `to`, the last one excluded.
pub fn slice_chars(v: &Vec<char>, from: usize, to: usize) -> (r: Vec<char>)
    requires
        from <= to <= v.len(),
    ensures
        r@ == v@.subrange(from as int, to as int),
{
    let mut r: Vec<char> = Vec::new();
    let mut i: usize = from;
    while i < to
        invariant
            from <= i <= to <= v.len(),
            r@ == v@.subrange(from as int, i as int),
        decreases to - i,
    {
        r.push(v[i]);
        proof {
            assert(v@.subrange(from as int, i + 1) =~= v@.subrange(from as int, i as int).push(
                v@[i as int],
            ));
        }
        i = i + 1;
    }
    r
}

/// Appends all of `w` to `v`.
pub fn append_chars(v: &mut Vec<char>, w: &Vec<char>)
    ensures
        final(v)@ == old(v)@ + w@,
{
    let mut i: usize = 0;
    while i < w.len()
        invariant
            i <= w.len(),
            v@ == old(v)@ + w@.take(i as int),
        decreases w.len() - i,
    {
        v.push(w[i]);
        proof {
            assert(w@.take(i + 1) =~= w@.take(i as int).push(w@[i as int]));
            assert(old(v)@ + w@.take(i + 1) =~= (old(v)@ + w@.take(i as int)).push(w@[i as int]));
        }
        i = i + 1;
    }
    assert(w@.take(i as int) =~= w@);
}

/// `a` followed by `b`.
pub fn concat2(a: &str, b: &str) -> (s: String)
    ensures
        s@ == a@ + b@,
{
    let mut v: Vec<char> = chars_of(a);
    let w: Vec<char> = chars_of(b);
    append_chars(&mut v, &w);
    string_of(&v)
}

/// The characters with Unicode's White_Space property.
pub open spec fn is_space(c: char) -> bool {
    let u = c as u32;
    ||| 0x09 <= u <= 0x0D
    ||| u == 0x20
    ||| u == 0x85
    ||| u == 0xA0
    ||| u == 0x1680
    ||| 0x2000 <= u <= 0x200A
    ||| u == 0x2028
    ||| u == 0x2029
    ||| u == 0x202F
    ||| u == 0x205F
    ||| u == 0x3000
}

pub fn is_white_space(c: char) -> (r: bool)
    ensures
        r == is_space(c),
{
    let u: u32 = c as u32;
    (0x09 <= u && u <= 0x0D) || u == 0x20 || u == 0x85 || u == 0xA0 || u == 0x1680 || (0x2000 <= u
        && u <= 0x200A) || u == 0x2028 || u == 0x2029 || u == 0x202F || u == 0x205F || u == 0x3000
}

pub open spec fn trim_start(s: Seq<char>) -> Seq<char>
    decreases s.len(),
{
    if s.len() > 0 && is_space(s[0]) {
        trim_start(s.drop_first())
    } else {
        s
    }
}

pub open spec fn trim_end(s: Seq<char>) -> Seq<char>
    decreases s.len(),
{
    if s.len() > 0 && is_space(s.last()) {
        trim_end(s.drop_last())
    } else {
        s
    }
}

/// The text without the white space at either end.
pub open spec fn trimmed(s: Seq<char>) -> Seq<char> {
    trim_end(trim_start(s))
}

pub fn trim(v: &Vec<char>) -> (r: Vec<char>)
    ensures
        r@ == trimmed(v@),
{
    let mut lo: usize = 0;
    assert(v@.skip(0) =~= v@);
    while lo < v.len() && is_white_space(v[lo])
        invariant
            lo <= v.len(),
            trim_start(v@) == trim_start(v@.skip(lo as int)),
        decreases v.len() - lo,
    {
        proof {
            assert(v@.skip(lo as int).drop_first() =~= v@.skip(lo + 1));
        }
        lo = lo + 1;
    }
    let ghost rest = v@.skip(lo as int);
    assert(trim_start(rest) == rest);
    let mut hi: usize = v.len();
    assert(v@.subrange(lo as int, hi as int) =~= rest);
    while hi > lo && is_white_space(v[hi - 1])
        invariant
            lo <= hi <= v.len(),
            trim_end(rest) == trim_end(v@.subrange(lo as int, hi as int)),
        decreases hi,
    {
        proof {
            assert(v@.subrange(lo as int, hi as int).drop_last() =~= v@.subrange(
                lo as int,
                hi - 1,
            ));
        }
        hi = hi - 1;
    }
    let ghost kept = v@.subrange(lo as int, hi as int);
    assert(trim_end(kept) == kept);
    slice_chars(v, lo, hi)
}

pub open spec fn ascii_lower(c: char) -> char {
    if 'A' <= c <= 'Z' {
        ((c as u32 + 32) as u32) as char
    } else {
        c
    }
}

/// The text with ASCII capitals replaced by small letters.
pub open spec fn lowered(s: Seq<char>) -> Seq<char> {
    s.map_values(|c: char| ascii_lower(c))
}

pub fn lower_char(c: char) -> (r: char)
    ensures
        r == ascii_lower(c),
{
    match c {
        'A' => 'a',
        'B' => 'b',
        'C' => 'c',
        'D' => 'd',
        'E' => 'e',
        'F' => 'f',
        'G' => 'g',
        'H' => 'h',
        'I' => 'i',
        'J' => 'j',
        'K' => 'k',
        'L' => 'l',
        'M' => 'm',
        'N' => 'n',
        'O' => 'o',
        'P' => 'p',
        'Q' => 'q',
        'R' => 'r',
        'S' => 's',
        'T' => 't',
        'U' => 'u',
        'V' => 'v',
        'W' => 'w',
        'X' => 'x',
        'Y' => 'y',
        'Z' => 'z',
        other => other,
    }
}

pub fn lower(v: &Vec<char>) -> (r: Vec<char>)
    ensures
        r@ == lowered(v@),
{
    let mut r: Vec<char> = Vec::new();
    let mut i: usize = 0;
    while i < v.len()
        invariant
            i <= v.len(),
            r@.len() == i,
            forall|k: int| 0 <= k < i ==> r@[k] == ascii_lower(v@[k]),
        decreases v.len() - i,
    {
        r.push(lower_char(v[i]));
        i = i + 1;
    }
    assert(r@ =~= lowered(v@));
    r
}

pub open spec fn is_digit(c: char) -> bool {
    '0' <= c <= '9'
}

pub open spec fn all_digits(s: Seq<char>) -> bool {
    forall|i: int| 0 <= i < s.len() ==> is_digit(#[trigger] s[i])
}

/// The number that a row of decimal digits stands for.
pub open spec fn digits_value(s: Seq<char>) -> nat
    decreases s.len(),
{
    if s.len() == 0 {
        0
    } else {
        digits_value(s.drop_last()) * 10 + (s.last() as u32 - '0' as u32) as nat
    }
}

/// What a decimal numeral without a minus sign stands for: at least one digit,
/// after at most one plus sign.
pub open spec fn decimal_value(s: Seq<char>) -> Option<nat> {
    let t = if s.len() > 0 && s[0] == '+' {
        s.drop_first()
    } else {
        s
    };
    if t.len() > 0 && all_digits(t) {
        Some(digits_value(t))
    } else {
        None
    }
}

/// The numeral's value where it does not exceed `max`.
pub open spec fn bounded_decimal(s: Seq<char>, max: int) -> Option<int> {
    match decimal_value(s) {
        Some(n) => if n <= max {
            Some(n as int)
        } else {
            None
        },
        None => None,
    }
}

/// Reads a decimal numeral of at most `max`.
pub fn parse_decimal(v: &Vec<char>, max: u64) -> (r: Option<u64>)
    ensures
        r is Some <==> bounded_decimal(v@, max as int) is Some,
        r matches Some(n) ==> bounded_decimal(v@, max as int) == Some(n as int),
{
    let start: usize = if v.len() > 0 && v[0] == '+' {
        1
    } else {
        0
    };
    let ghost t = v@.skip(start as int);
    proof {
        if start == 1 {
            assert(t =~= v@.drop_first());
        } else {
            assert(t =~= v@);
        }
    }
    if start == v.len() {
        return None;
    }
    let cap: u128 = 0x1_0000_0000_0000_0000;
    let mut acc: u128 = 0;
    let mut i: usize = start;
    while i < v.len()
        invariant
            start <= i <= v.len(),
            t == v@.skip(start as int),
            all_digits(t.take(i - start)),
            t.len() > 0,
            decimal_value(v@) == (if all_digits(t) {
                Some(digits_value(t))
            } else {
                None
            }),
            cap == 0x1_0000_0000_0000_0000,
            acc == if digits_value(t.take(i - start)) <= cap {
                digits_value(t.take(i - start)) as int
            } else {
                cap as int
            },
        decreases v.len() - i,
    {
        let c: char = v[i];
        proof {
            assert(t[i - start] == c);
            assert(t.take(i + 1 - start).drop_last() =~= t.take(i - start));
        }
        if c < '0' || c > '9' {
            assert(!is_digit(t[i - start]));
            return None;
        }
        let d: u128 = (c as u32 - '0' as u32) as u128;
        let next: u128 = acc * 10 + d;
        acc = if next <= cap {
            next
        } else {
            cap
        };
        i = i + 1;
    }
    assert(t.take(i - start) =~= t);
    if acc <= max as u128 {
        Some(acc as u64)
    } else {
        None
    }
}

pub fn parse_u64(s: &str) -> (r: Option<u64>)
    ensures
        r is Some <==> bounded_decimal(s@, u64::MAX as int) is Some,
        r matches Some(n) ==> bounded_decimal(s@, u64::MAX as int) == Some(n as int),
{
    let v: Vec<char> = chars_of(s);
    parse_decimal(&v, u64::MAX)
}

/// What a decimal numeral of 32 bits, which may be negative, stands for.
pub open spec fn signed_value(s: Seq<char>) -> Option<int> {
    if s.len() > 0 && s[0] == '-' {
        let t = s.drop_first();
        if t.len() > 0 && all_digits(t) && -(digits_value(t) as int) >= i32::MIN {
            Some(-(digits_value(t) as int))
        } else {
            None
        }
    } else {
        bounded_decimal(s, i32::MAX as int)
    }
}

pub fn parse_i32(s: &str) -> (r: Option<i32>)
    ensures
        r is Some <==> signed_value(s@) is Some,
        r matches Some(n) ==> signed_value(s@) == Some(n as int),
{
    let v: Vec<char> = chars_of(s);
    if v.len() > 0 && v[0] == '-' {
        let t: Vec<char> = slice_chars(&v, 1, v.len());
        assert(t@ =~= v@.drop_first());
        if t.len() == 0 || t[0] == '+' {
            proof {
                if t@.len() > 0 {
                    assert(!is_digit(t@[0]));
                }
            }
            return None;
        }
        let max: u64 = 0x8000_0000;
        return match parse_decimal(&t, max) {
            Some(n) => Some((-(n as i64)) as i32),
            None => None,
        };
    }
    match parse_decimal(&v, i32::MAX as u64) {
        Some(n) => Some(n as i32),
        None => None,
    }
}

/// The decimal digits of `n`, without leading zeros.
pub open spec fn digits(n: nat) -> Seq<char>
    decreases n,
{
    let last = (('0' as u32 + (n % 10) as u32) as u32) as char;
    if n < 10 {
        seq![last]
    } else {
        digits(n / 10).push(last)
    }
}

fn digit_char(d: u128) -> (c: char)
    requires
        d < 10,
    ensures
        c == (('0' as u32 + d as u32) as u32) as char,
{
    match d {
        0 => '0',
        1 => '1',
        2 => '2',
        3 => '3',
        4 => '4',
        5 => '5',
        6 => '6',
        7 => '7',
        8 => '8',
        _ => '9',
    }
}

/// Writes `n` in decimal.
pub fn decimal_chars(n: u128) -> (v: Vec<char>)
    ensures
        v@ == digits(n as nat),
    decreases n,
{
    if n < 10 {
        let mut v: Vec<char> = Vec::new();
        v.push(digit_char(n));
        assert(v@ =~= digits(n as nat));
        v
    } else {
        let mut v: Vec<char> = decimal_chars(n / 10);
        v.push(digit_char(n % 10));
        v
    }
}

/// Reading back a number written in decimal gives the number.
pub proof fn decimal_round_trip(n: nat)
    ensures
        decimal_value(digits(n)) == Some(n),
        digits(n).len() > 0,
        all_digits(digits(n)),
        digits_value(digits(n)) == n,
    decreases n,
{
    let d = (n % 10) as u32;
    let last = (('0' as u32 + d) as u32) as char;
    assert(is_digit(last) && last as u32 - '0' as u32 == d);
    if n < 10 {
        let s = seq![last];
        assert(s.drop_last() =~= Seq::<char>::empty());
        assert(digits_value(s) == d as nat) by {
            reveal_with_fuel(digits_value, 2);
        }
        assert(digits(n) =~= s);
    } else {
        decimal_round_trip(n / 10);
        let s = digits(n / 10);
        assert(digits(n) == s.push(last));
        assert(s.push(last).drop_last() =~= s);
        assert(s.push(last).last() == last);
        assert forall|i: int| 0 <= i < s.push(last).len() implies is_digit(
            #[trigger] s.push(last)[i],
        ) by {
            if i < s.len() {
                assert(s.push(last)[i] == s[i]);
            }
        }
    }
    assert(is_digit(digits(n)[0]));
    assert(digits(n)[0] != '+');
}

/// The text of `n` in decimal.
pub fn decimal_text(n: u128) -> (s: String)
    ensures
        s@ == digits(n as nat),
{
    let v: Vec<char> = decimal_chars(n);
    string_of(&v)
}

pub open spec fn starts_with(s: Seq<char>, prefix: Seq<char>) -> bool {
    prefix.len() <= s.len() && s.take(prefix.len() as int) == prefix
}

/// What follows `prefix`, where the text starts with it.
pub open spec fn after_prefix(s: Seq<char>, prefix: Seq<char>) -> Option<Seq<char>> {
    if starts_with(s, prefix) {
        Some(s.skip(prefix.len() as int))
    } else {
        None
    }
}

pub fn strip_prefix(v: &Vec<char>, prefix: &str) -> (r: Option<Vec<char>>)
    ensures
        r is Some <==> after_prefix(v@, prefix@) is Some,
        r matches Some(rest) ==> after_prefix(v@, prefix@) == Some(rest@),
{
    let p: Vec<char> = chars_of(prefix);
    if p.len() > v.len() {
        return None;
    }
    let head: Vec<char> = slice_chars(v, 0, p.len());
    assert(v@.subrange(0, p@.len() as int) =~= v@.take(p@.len() as int));
    if !same_chars(&head, &p) {
        return None;
    }
    let rest: Vec<char> = slice_chars(v, p.len(), v.len());
    assert(rest@ =~= v@.skip(p@.len() as int));
    Some(rest)
}

/// How many characters precede the first `c`; all of them where there is none.
pub open spec fn span_before(s: Seq<char>, c: char) -> nat
    decreases s.len(),
{
    if s.len() == 0 || s[0] == c {
        0
    } else {
        1 + span_before(s.drop_first(), c)
    }
}

/// The span before `c` holds no `c` and ends at the first one or at the end.
pub proof fn span_before_ends_at_the_first(s: Seq<char>, c: char)
    ensures
        span_before(s, c) <= s.len(),
        forall|i: int| 0 <= i < span_before(s, c) ==> #[trigger] s[i] != c,
        span_before(s, c) < s.len() ==> s[span_before(s, c) as int] == c,
    decreases s.len(),
{
    if s.len() > 0 && s[0] != c {
        let rest = s.drop_first();
        span_before_ends_at_the_first(rest, c);
        assert forall|i: int| 0 <= i < span_before(s, c) implies #[trigger] s[i] != c by {
            if i > 0 {
                assert(s[i] == rest[i - 1]);
            }
        }
    }
}

/// The place of the first `c` at or after `from`, or the end.
pub fn find_char(v: &Vec<char>, from: usize, c: char) -> (n: usize)
    requires
        from <= v.len(),
    ensures
        from <= n <= v.len(),
        n == from + span_before(v@.skip(from as int), c),
        n < v.len() ==> v@[n as int] == c,
{
    let mut i: usize = from;
    while i < v.len() && v[i] != c
        invariant
            from <= i <= v.len(),
            span_before(v@.skip(from as int), c) == (i - from) + span_before(
                v@.skip(i as int),
                c,
            ),
        decreases v.len() - i,
    {
        assert(v@.skip(i as int).drop_first() =~= v@.skip(i + 1));
        i = i + 1;
    }
    i
}

/// The text before the first `c` and the text after it.
pub open spec fn split_at_first(s: Seq<char>, c: char) -> Option<(Seq<char>, Seq<char>)> {
    let n = span_before(s, c) as int;
    if n < s.len() {
        Some((s.take(n), s.skip(n + 1)))
    } else {
        None
    }
}

pub fn split_once(v: &Vec<char>, c: char) -> (r: Option<(Vec<char>, Vec<char>)>)
    ensures
        r is Some <==> split_at_first(v@, c) is Some,
        r matches Some(p) ==> split_at_first(v@, c) == Some((p.0@, p.1@)),
{
    assert(v@.skip(0) =~= v@);
    let n: usize = find_char(v, 0, c);
    if n == v.len() {
        return None;
    }
    let head: Vec<char> = slice_chars(v, 0, n);
    let tail: Vec<char> = slice_chars(v, n + 1, v.len());
    assert(head@ =~= v@.take(n as int));
    assert(tail@ =~= v@.skip(n + 1));
    Some((head, tail))
}

/// A line without the carriage return it may end in.
pub open spec fn without_return(s: Seq<char>) -> Seq<char> {
    if s.len() > 0 && s.last() == '\r' {
        s.drop_last()
    } else {
        s
    }
}

/// The lines of a text. The end of the text ends its last line, and no empty line
/// follows a final line feed. A carriage return before a line feed belongs to the
/// line's end.
pub open spec fn lines_of(s: Seq<char>) -> Seq<Seq<char>>
    decreases s.len(),
{
    if s.len() == 0 {
        Seq::empty()
    } else {
        match split_at_first(s, '\n') {
            Some((line, rest)) => if rest.len() < s.len() {
                seq![without_return(line)] + lines_of(rest)
            } else {
                Seq::empty()
            },
            None => seq![s],
        }
    }
}

pub open spec fn texts(v: Seq<Vec<char>>) -> Seq<Seq<char>> {
    v.map_values(|x: Vec<char>| x@)
}

pub fn lines(v: &Vec<char>) -> (out: Vec<Vec<char>>)
    ensures
        texts(out@) == lines_of(v@),
{
    let mut out: Vec<Vec<char>> = Vec::new();
    let mut i: usize = 0;
    proof {
        assert(v@.skip(0) =~= v@);
        assert(texts(out@) + lines_of(v@) =~= lines_of(v@));
    }
    while i < v.len()
        invariant
            i <= v.len(),
            lines_of(v@) == texts(out@) + lines_of(v@.skip(i as int)),
        decreases v.len() - i,
    {
        let ghost before = out@;
        let ghost rest = v@.skip(i as int);
        let n: usize = find_char(v, i, '\n');
        let mut end: usize = n;
        let broken: bool = n < v.len();
        if broken && n > i && v[n - 1] == '\r' {
            end = n - 1;
        }
        let line: Vec<char> = slice_chars(v, i, end);
        proof {
            let k = n - i;
            if broken {
                assert(rest.take(k) =~= v@.subrange(i as int, n as int));
                assert(line@ =~= without_return(rest.take(k)));
                assert(rest.skip(k + 1) =~= v@.skip(n + 1));
                assert(lines_of(rest) == seq![line@] + lines_of(v@.skip(n + 1)));
            } else {
                assert(line@ =~= rest);
                assert(v@.skip(n as int) =~= Seq::<char>::empty());
                assert(lines_of(rest) =~= seq![line@] + lines_of(v@.skip(n as int)));
            }
        }
        out.push(line);
        i = if broken {
            n + 1
        } else {
            n
        };
        proof {
            assert(texts(out@) =~= texts(before) + seq![line@]);
            assert(texts(out@) + lines_of(v@.skip(i as int)) =~= texts(before) + (seq![line@]
                + lines_of(v@.skip(i as int))));
        }
    }
    proof {
        assert(v@.skip(i as int) =~= Seq::<char>::empty());
        assert(texts(out@) + lines_of(v@.skip(i as int)) =~= texts(out@));
    }
    out
}

/// How many characters precede the first white space.
pub open spec fn word_len(s: Seq<char>) -> nat
    decreases s.len(),
{
    if s.len() == 0 || is_space(s[0]) {
        0
    } else {
        1 + word_len(s.drop_first())
    }
}

/// The words of a text, which white space separates.
pub open spec fn words_of(s: Seq<char>) -> Seq<Seq<char>>
    decreases s.len(),
{
    if s.len() == 0 {
        Seq::empty()
    } else if is_space(s[0]) {
        words_of(s.drop_first())
    } else {
        let n = word_len(s) as int;
        if 0 < n <= s.len() {
            seq![s.take(n)] + words_of(s.skip(n))
        } else {
            Seq::empty()
        }
    }
}

pub fn words(v: &Vec<char>) -> (out: Vec<Vec<char>>)
    ensures
        texts(out@) == words_of(v@),
{
    let mut out: Vec<Vec<char>> = Vec::new();
    let mut i: usize = 0;
    proof {
        assert(v@.skip(0) =~= v@);
        assert(texts(out@) + words_of(v@) =~= words_of(v@));
    }
    while i < v.len()
        invariant
            i <= v.len(),
            words_of(v@) == texts(out@) + words_of(v@.skip(i as int)),
        decreases v.len() - i,
    {
        let ghost rest = v@.skip(i as int);
        if is_white_space(v[i]) {
            assert(rest.drop_first() =~= v@.skip(i + 1));
            i = i + 1;
        } else {
            let start: usize = i;
            let mut end: usize = i;
            assert(v@.skip(end as int) =~= rest);
            while end < v.len() && !is_white_space(v[end])
                invariant
                    start <= end <= v.len(),
                    word_len(v@.skip(start as int)) == (end - start) + word_len(
                        v@.skip(end as int),
                    ),
                decreases v.len() - end,
            {
                assert(v@.skip(end as int).drop_first() =~= v@.skip(end + 1));
                end = end + 1;
            }
            let ghost before = out@;
            let word: Vec<char> = slice_chars(v, start, end);
            proof {
                let n = end - start;
                assert(word_len(rest) == n);
                assert(rest.take(n) =~= word@);
                assert(rest.skip(n) =~= v@.skip(end as int));
                assert(n > 0) by {
                    reveal_with_fuel(word_len, 2);
                }
            }
            out.push(word);
            i = end;
            proof {
                assert(texts(out@) =~= texts(before) + seq![word@]);
                assert(texts(out@) + words_of(v@.skip(i as int)) =~= texts(before) + (seq![word@]
                    + words_of(v@.skip(i as int))));
            }
        }
    }
    proof {
        assert(v@.skip(i as int) =~= Seq::<char>::empty());
        assert(texts(out@) + words_of(v@.skip(i as int)) =~= texts(out@));
    }
    out
}

/// The value of a hexadecimal digit.
pub open spec fn hex_digit(c: char) -> Option<nat> {
    if '0' <= c <= '9' {
        Some((c as u32 - '0' as u32) as nat)
    } else if 'a' <= c <= 'f' {
        Some((c as u32 - 'a' as u32 + 10) as nat)
    } else if 'A' <= c <= 'F' {
        Some((c as u32 - 'A' as u32 + 10) as nat)
    } else {
        None
    }
}

pub open spec fn all_hex(s: Seq<char>) -> bool {
    forall|i: int| 0 <= i < s.len() ==> hex_digit(#[trigger] s[i]) is Some
}

/// The number that a row of hexadecimal digits stands for.
pub open spec fn hex_value(s: Seq<char>) -> nat
    decreases s.len(),
{
    if s.len() == 0 {
        0
    } else {
        hex_value(s.drop_last()) * 16 + hex_digit(s.last())->0
    }
}

/// Reads one to eight hexadecimal digits.
pub fn parse_hex32(v: &Vec<char>) -> (r: Option<u32>)
    ensures
        r is Some <==> 0 < v@.len() <= 8 && all_hex(v@),
        r matches Some(n) ==> n == hex_value(v@),
{
    if v.len() == 0 || v.len() > 8 {
        return None;
    }
    let mut acc: u64 = 0;
    let mut cap: u64 = 1;
    let mut i: usize = 0;
    assert(v@.take(0) =~= Seq::<char>::empty());
    while i < v.len()
        invariant
            i <= v.len() <= 8,
            all_hex(v@.take(i as int)),
            acc == hex_value(v@.take(i as int)),
            acc < cap,
            i == 0 ==> cap == 1,
            i == 1 ==> cap == 0x10,
            i == 2 ==> cap == 0x100,
            i == 3 ==> cap == 0x1000,
            i == 4 ==> cap == 0x1_0000,
            i == 5 ==> cap == 0x10_0000,
            i == 6 ==> cap == 0x100_0000,
            i == 7 ==> cap == 0x1000_0000,
            i == 8 ==> cap == 0x1_0000_0000,
        decreases v.len() - i,
    {
        let c: char = v[i];
        let d: u64 = if '0' <= c && c <= '9' {
            (c as u32 - '0' as u32) as u64
        } else if 'a' <= c && c <= 'f' {
            (c as u32 - 'a' as u32 + 10) as u64
        } else if 'A' <= c && c <= 'F' {
            (c as u32 - 'A' as u32 + 10) as u64
        } else {
            assert(hex_digit(v@[i as int]) is None);
            return None;
        };
        proof {
            let next = v@.take(i + 1);
            assert(next.drop_last() =~= v@.take(i as int));
            assert(next.last() == c);
            assert forall|k: int| 0 <= k < next.len() implies hex_digit(
                #[trigger] next[k],
            ) is Some by {
                if k < i {
                    assert(next[k] == v@.take(i as int)[k]);
                }
            }
        }
        acc = acc * 16 + d;
        cap = cap * 16;
        i = i + 1;
    }
    assert(v@.take(i as int) =~= v@);
    Some(acc as u32)
}

/// `base` with `rest` below it, where `rest` is not absolute.
pub open spec fn joined(base: Seq<char>, rest: Seq<char>) -> Seq<char> {
    if base.len() > 0 && base.last() != '/' {
        base.push('/') + rest
    } else {
        base + rest
    }
}

/// A path below another.
pub fn join_path(base: &str, rest: &str) -> (s: String)
    ensures
        s@ == joined(base@, rest@),
{
    let mut v: Vec<char> = chars_of(base);
    if v.len() > 0 && v[v.len() - 1] != '/' {
        v.push('/');
    }
    let w: Vec<char> = chars_of(rest);
    append_chars(&mut v, &w);
    string_of(&v)
}

/// White space: the blank, tab and line ends, but no character that shows in ASCII.
pub proof fn ascii_white_space_is_known(c: char)
    ensures
        c == ' ' || c == '\t' || c == '\n' || c == '\r' ==> is_space(c),
        '!' <= c <= '~' ==> !is_space(c),
{
}

/// Trimming takes white space away at either end, all of it, and nothing else: the text is
/// white space, what is left, and white space again.
pub proof fn trimming_takes_only_white_space(s: Seq<char>) -> (r: (int, int))
    ensures
        0 <= r.0 <= r.1 <= s.len(),
        trimmed(s) == s.subrange(r.0, r.1),
        forall|i: int| 0 <= i < r.0 || r.1 <= i < s.len() ==> is_space(#[trigger] s[i]),
        r.0 < r.1 ==> !is_space(s[r.0]) && !is_space(s[r.1 - 1]),
{
    let a = lemma_trim_start(s);
    let t = s.skip(a);
    let b = lemma_trim_end(t);
    assert(trim_start(s) == t);
    assert(t.take(b) =~= s.subrange(a, a + b));
    assert forall|i: int| 0 <= i < a || a + b <= i < s.len() implies is_space(#[trigger] s[i]) by {
        if i >= a {
            assert(s[i] == t[i - a]);
        }
    }
    if b > 0 {
        assert(t[b - 1] == s[a + b - 1]);
        assert(t[0] == s[a]);
    }
    (a, a + b)
}

proof fn lemma_trim_start(s: Seq<char>) -> (a: int)
    ensures
        0 <= a <= s.len(),
        trim_start(s) == s.skip(a),
        forall|i: int| 0 <= i < a ==> is_space(#[trigger] s[i]),
        a < s.len() ==> !is_space(s[a]),
    decreases s.len(),
{
    if s.len() > 0 && is_space(s[0]) {
        let rest = s.drop_first();
        let b = lemma_trim_start(rest);
        assert(rest.skip(b) =~= s.skip(b + 1));
        assert forall|i: int| 0 <= i < b + 1 implies is_space(#[trigger] s[i]) by {
            if i > 0 {
                assert(s[i] == rest[i - 1]);
            }
        }
        b + 1
    } else {
        assert(s.skip(0) =~= s);
        0
    }
}

proof fn lemma_trim_end(s: Seq<char>) -> (b: int)
    ensures
        0 <= b <= s.len(),
        trim_end(s) == s.take(b),
        forall|i: int| b <= i < s.len() ==> is_space(#[trigger] s[i]),
        b > 0 ==> !is_space(s[b - 1]),
    decreases s.len(),
{
    if s.len() > 0 && is_space(s.last()) {
        let rest = s.drop_last();
        let b = lemma_trim_end(rest);
        assert(rest.take(b) =~= s.take(b));
        assert forall|i: int| b <= i < s.len() implies is_space(#[trigger] s[i]) by {
            if i < s.len() - 1 {
                assert(s[i] == rest[i]);
            }
        }
        b
    } else {
        assert(s.take(s.len() as int) =~= s);
        s.len() as int
    }
}

/// A text without white space at its ends is trimmed already.
pub proof fn trimmed_texts_stay(s: Seq<char>)
    requires
        s.len() > 0 ==> !is_space(s[0]) && !is_space(s.last()),
    ensures
        trimmed(s) == s,
{
}

/// Only the capitals of ASCII are replaced, each by its small letter.
pub proof fn lowering_keeps_all_but_capitals(s: Seq<char>, i: int)
    requires
        0 <= i < s.len(),
    ensures
        lowered(s).len() == s.len(),
        'A' <= s[i] <= 'Z' ==> lowered(s)[i] as u32 == s[i] as u32 + 32,
        s[i] < 'A' || s[i] > 'Z' ==> lowered(s)[i] == s[i],
{
    assert(lowered(s)[i] == ascii_lower(s[i]));
}

/// Numerals are decimal: a digit more is ten times as much, and the digit.
pub proof fn numerals_are_decimal(n: nat, d: nat, s: Seq<char>, c: char)
    requires
        d < 10,
    ensures
        d == 0 ==> digits(d) == seq!['0'],
        d == 1 ==> digits(d) == seq!['1'],
        d == 2 ==> digits(d) == seq!['2'],
        d == 3 ==> digits(d) == seq!['3'],
        d == 4 ==> digits(d) == seq!['4'],
        d == 5 ==> digits(d) == seq!['5'],
        d == 6 ==> digits(d) == seq!['6'],
        d == 7 ==> digits(d) == seq!['7'],
        d == 8 ==> digits(d) == seq!['8'],
        d == 9 ==> digits(d) == seq!['9'],
        n > 0 ==> digits(10 * n + d) == digits(n) + digits(d),
        digits_value(s + digits(d)) == 10 * digits_value(s) + d,
        decimal_value(Seq::empty()) is None,
        decimal_value(seq!['+'] + digits(n)) == Some(n),
        !('0' <= c <= '9') ==> decimal_value(s.push('0').push(c)) is None,
{
    assert((10 * n + d) / 10 == n && (10 * n + d) % 10 == d);
    let e = digits(d);
    assert(e.len() == 1);
    assert((s + e).drop_last() =~= s);
    assert((s + e).last() == e[0]);
    if n > 0 {
        assert(digits(10 * n + d) =~= digits(n) + e);
    }
    decimal_round_trip(n);
    let p = seq!['+'] + digits(n);
    assert(p.drop_first() =~= digits(n));
    let q = s.push('0').push(c);
    if !('0' <= c <= '9') {
        let t = if q[0] == '+' {
            q.drop_first()
        } else {
            q
        };
        assert(t.last() == c && !is_digit(t[t.len() - 1]));
    }
}

/// A numeral is trimmed already.
pub proof fn numerals_hold_no_white_space(n: nat)
    ensures
        trimmed(digits(n)) == digits(n),
{
    decimal_round_trip(n);
    let s = digits(n);
    assert(is_digit(s[0]) && is_digit(s[s.len() - 1]));
    trimmed_texts_stay(s);
}

/// Hexadecimal digits, in capitals or not, count 16 times the next one.
pub proof fn hexadecimals_count_by_sixteen(s: Seq<char>, c: char)
    ensures
        '0' <= c <= '9' ==> hex_value(s.push(c)) == 16 * hex_value(s) + (c as u32 - 48),
        'a' <= c <= 'f' ==> hex_value(s.push(c)) == 16 * hex_value(s) + (c as u32 - 87),
        'A' <= c <= 'F' ==> hex_value(s.push(c)) == 16 * hex_value(s) + (c as u32 - 55),
        hex_value(Seq::empty()) == 0,
        c > 'f' || c < '0' ==> !all_hex(s.push(c)),
{
    assert(s.push(c).drop_last() =~= s);
    assert(s.push(c).last() == c);
    assert(s.push(c)[s.len() as int] == c);
}

} // verus!
