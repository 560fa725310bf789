//! Reading text: characters, lines, fields and integers.

use vstd::prelude::*;
use vstd::string::*;

verus! {

/// Whether `c` is one of the ten ASCII digits.
pub open spec fn is_digit(c: char) -> bool {
    '0' <= c <= '9'
}

/// What an ASCII digit counts.
pub open spec fn digit_value(c: char) -> nat {
    (c as int - '0' as int) as nat
}

/// The number that decimal digits write.
pub open spec fn number(digits: Seq<char>) -> nat
    decreases digits.len(),
{
    if digits.len() == 0 {
        0
    } else {
        number(digits.drop_last()) * 10 + digit_value(digits.last())
    }
}

/// Whether `s` is made of digits, of at least one.
pub open spec fn is_numeral(s: Seq<char>) -> bool {
    s.len() > 0 && forall|i: int| 0 <= i < s.len() ==> is_digit(#[trigger] s[i])
}

/// The integer that `s` writes: digits, at least one, behind a sign or none.
pub open spec fn integer(s: Seq<char>) -> Option<int> {
    let signed = s.len() > 0 && (s[0] == '-' || s[0] == '+');
    let digits = if signed { s.skip(1) } else { s };
    if is_numeral(digits) {
        if signed && s[0] == '-' { Some(-(number(digits) as int)) } else { Some(number(digits) as int) }
    } else {
        None
    }
}

/// The integer that `s` writes, if it fits in 32 bits.
pub open spec fn integer_32(s: Seq<char>) -> Option<i32> {
    match integer(s) {
        Some(i) => if i32::MIN <= i <= i32::MAX { Some(i as i32) } else { None },
        None => None,
    }
}

/// The digit that counts `d`.
pub open spec fn digit_char(d: nat) -> char {
    ('0' as int + d) as char
}

/// The decimal digits of `n`, without leading zeros.
pub open spec fn digits(n: nat) -> Seq<char>
    decreases n,
{
    if n < 10 {
        seq![digit_char(n)]
    } else {
        digits(n / 10).push(digit_char(n % 10))
    }
}

/// The integer `i` in decimal.
pub open spec fn numeral(i: int) -> Seq<char> {
    if i < 0 { seq!['-'] + digits((-i) as nat) } else { digits(i as nat) }
}

/// The characters with the Unicode property `White_Space`.
pub open spec fn white(c: char) -> bool {
    ||| '\u{9}' <= c <= '\u{d}'
    ||| c == '\u{20}'
    ||| c == '\u{85}'
    ||| c == '\u{a0}'
    ||| c == '\u{1680}'
    ||| '\u{2000}' <= c <= '\u{200a}'
    ||| c == '\u{2028}'
    ||| c == '\u{2029}'
    ||| c == '\u{202f}'
    ||| c == '\u{205f}'
    ||| c == '\u{3000}'
}

/// What keeps fields apart.
#[derive(Clone, Copy, PartialEq, Eq, Structural)]
pub enum Separator {
    CommaOrSpace,
    Whitespace,
    Dot,
    Equals,
}

impl Separator {
    pub open spec fn separates(self, c: char) -> bool {
        match self {
            Separator::CommaOrSpace => c == ',' || c == ' ',
            Separator::Whitespace => white(c),
            Separator::Dot => c == '.',
            Separator::Equals => c == '=',
        }
    }

    fn is_at(self, c: char) -> (r: bool)
        ensures
            r == self.separates(c),
    {
        match self {
            Separator::CommaOrSpace => c == ',' || c == ' ',
            Separator::Whitespace => is_white(c),
            Separator::Dot => c == '.',
            Separator::Equals => c == '=',
        }
    }
}

/// How many characters come before the first separator.
pub open spec fn field_length(s: Seq<char>, sep: Separator) -> nat
    decreases s.len(),
{
    if s.len() == 0 || sep.separates(s[0]) { 0 } else { 1 + field_length(s.drop_first(), sep) }
}

pub proof fn lemma_field_length(s: Seq<char>, sep: Separator)
    ensures
        field_length(s, sep) <= s.len(),
        forall|i: int| 0 <= i < field_length(s, sep) ==> !sep.separates(#[trigger] s[i]),
        field_length(s, sep) < s.len() ==> sep.separates(s[field_length(s, sep) as int]),
    decreases s.len(),
{
    if s.len() > 0 && !sep.separates(s[0]) {
        let t = s.drop_first();
        lemma_field_length(t, sep);
        assert forall|i: int| 0 <= i < field_length(s, sep) implies !sep.separates(
            #[trigger] s[i],
        ) by {
            if i > 0 {
                assert(s[i] == t[i - 1]);
            }
        }
    }
}

/// The fields of `s`: its maximal runs without a separator. None is empty.
pub open spec fn fields(s: Seq<char>, sep: Separator) -> Seq<Seq<char>>
    decreases s.len(),
    via fields_shrink
{
    if s.len() == 0 {
        Seq::empty()
    } else if sep.separates(s[0]) {
        fields(s.drop_first(), sep)
    } else {
        let n = field_length(s, sep) as int;
        seq![s.take(n)] + fields(s.skip(n), sep)
    }
}

#[via_fn]
proof fn fields_shrink(s: Seq<char>, sep: Separator) {
    lemma_field_length(s, sep);
}

/// `s` without the white space at its two ends.
pub open spec fn trimmed(s: Seq<char>) -> Seq<char>
    decreases s.len(),
{
    if s.len() == 0 {
        s
    } else if white(s[0]) {
        trimmed(s.drop_first())
    } else if white(s.last()) {
        trimmed(s.drop_last())
    } else {
        s
    }
}

/// How many characters come before the first line feed.
pub open spec fn line_length(s: Seq<char>) -> nat
    decreases s.len(),
{
    if s.len() == 0 || s[0] == '\n' { 0 } else { 1 + line_length(s.drop_first()) }
}

pub proof fn lemma_line_length(s: Seq<char>)
    ensures
        line_length(s) <= s.len(),
        forall|i: int| 0 <= i < line_length(s) ==> #[trigger] s[i] != '\n',
        line_length(s) < s.len() ==> s[line_length(s) as int] == '\n',
    decreases s.len(),
{
    if s.len() > 0 && s[0] != '\n' {
        let t = s.drop_first();
        lemma_line_length(t);
        assert forall|i: int| 0 <= i < line_length(s) implies #[trigger] s[i] != '\n' by {
            if i > 0 {
                assert(s[i] == t[i - 1]);
            }
        }
    }
}

/// A line as it stands before a line feed, without the carriage return that may
/// come between.
pub open spec fn without_return(line: Seq<char>) -> Seq<char> {
    if line.len() > 0 && line.last() == '\r' { line.drop_last() } else { line }
}

/// What follows `prefix` in the first line of `s` that starts with it. Lines end
/// with a line feed, or a carriage return and a line feed; the last may end with
/// nothing.
pub open spec fn after_prefix(s: Seq<char>, prefix: Seq<char>) -> Option<Seq<char>>
    decreases s.len(),
    via after_prefix_shrinks
{
    let n = line_length(s) as int;
    if s.len() == 0 {
        None
    } else {
        let line = if n < s.len() { without_return(s.take(n)) } else { s };
        if prefix.is_prefix_of(line) {
            Some(line.skip(prefix.len() as int))
        } else if n < s.len() {
            after_prefix(s.skip(n + 1), prefix)
        } else {
            None
        }
    }
}

#[via_fn]
proof fn after_prefix_shrinks(s: Seq<char>, prefix: Seq<char>) {
    lemma_line_length(s);
}

/// Whether `c` is white space.
pub fn is_white(c: char) -> (r: bool)
    ensures
        r == white(c),
{
    ('\u{9}' <= c && c <= '\u{d}') || c == '\u{20}' || c == '\u{85}' || c == '\u{a0}' || c
        == '\u{1680}' || ('\u{2000}' <= c && c <= '\u{200a}') || c == '\u{2028}' || c == '\u{2029}'
        || c == '\u{202f}' || c == '\u{205f}' || c == '\u{3000}'
}

/// The characters of a string.
pub fn characters(s: &str) -> (r: Vec<char>)
    ensures
        r@ == s@,
{
    let mut r: Vec<char> = Vec::new();
    for c in it: s.chars()
        invariant
            it.seq() == s@,
            r@ == s@.take(it.index()),
    {
        r.push(c);
        assert(s@.take(it.index() + 1) =~= s@.take(it.index()).push(c));
    }
    assert(s@.take(s@.len() as int) =~= s@);
    r
}

/// A copy of a part of `s`.
fn copied(s: &[char], from: usize, to: usize) -> (r: Vec<char>)
    requires
        from <= to <= s@.len(),
    ensures
        r@ == s@.subrange(from as int, to as int),
{
    let mut r: Vec<char> = Vec::new();
    let mut i: usize = from;
    while i < to
        invariant
            from <= i <= to <= s@.len(),
            r@ == s@.subrange(from as int, i as int),
        decreases to - i,
    {
        r.push(s[i]);
        assert(s@.subrange(from as int, i + 1) =~= s@.subrange(from as int, i as int).push(s@[i as int]));
        i = i + 1;
    }
    r
}

/// Whether two texts are the same.
pub fn same(a: &[char], b: &[char]) -> (r: bool)
    ensures
        r == (a@ == b@),
{
    if a.len() != b.len() {
        return false;
    }
    let mut i: usize = 0;
    while i < a.len()
        invariant
            i <= a@.len(),
            a@.len() == b@.len(),
            forall|j: int| 0 <= j < i ==> a@[j] == b@[j],
        decreases a@.len() - i,
    {
        if a[i] != b[i] {
            return false;
        }
        i = i + 1;
    }
    assert(a@ =~= b@);
    true
}

/// The fields that lie at the given places of a text.
pub open spec fn at_places(s: Seq<char>, places: Seq<(usize, usize)>) -> Seq<Seq<char>> {
    places.map_values(|p: (usize, usize)| s.subrange(p.0 as int, p.1 as int))
}

/// Where the fields of a text start and end.
pub fn split(s: &[char], sep: Separator) -> (r: Vec<(usize, usize)>)
    ensures
        at_places(s@, r@) == fields(s@, sep),
        forall|i: int| 0 <= i < r@.len() ==> (#[trigger] r@[i]).0 <= r@[i].1 <= s@.len(),
{
    let mut r: Vec<(usize, usize)> = Vec::new();
    let mut i: usize = 0;
    assert(s@.skip(0) =~= s@);
    assert(at_places(s@, r@) + fields(s@, sep) =~= fields(s@, sep));
    while i < s.len()
        invariant
            i <= s@.len(),
            at_places(s@, r@) + fields(s@.skip(i as int), sep) == fields(s@, sep),
            forall|i: int| 0 <= i < r@.len() ==> (#[trigger] r@[i]).0 <= r@[i].1 <= s@.len(),
        decreases s@.len() - i,
    {
        let ghost rest = s@.skip(i as int);
        if sep.is_at(s[i]) {
            assert(rest.drop_first() =~= s@.skip(i + 1));
            i = i + 1;
        } else {
            let start: usize = i;
            proof {
                lemma_field_length(rest, sep);
            }
            let ghost n = field_length(rest, sep);
            while i < s.len() && !sep.is_at(s[i])
                invariant
                    start <= i <= s@.len(),
                    i <= start + n,
                    start + n <= s@.len(),
                    rest == s@.skip(start as int),
                    n == field_length(rest, sep),
                    forall|j: int| 0 <= j < n ==> !sep.separates(#[trigger] rest[j]),
                    n < rest.len() ==> sep.separates(rest[n as int]),
                decreases s@.len() - i,
            {
                assert(s@[i as int] == rest[i - start]);
                i = i + 1;
            }
            assert(i == start + n) by {
                if i < start + n {
                    assert(s@[i as int] == rest[i - start]);
                }
            }
            proof {
                let field = s@.subrange(start as int, i as int);
                assert(rest.take(n as int) =~= field);
                assert(rest.skip(n as int) =~= s@.skip(i as int));
                assert(at_places(s@, r@.push((start, i))) =~= at_places(s@, r@).push(field));
                assert(at_places(s@, r@).push(field) + fields(s@.skip(i as int), sep) =~= at_places(
                    s@,
                    r@,
                ) + (seq![field] + fields(s@.skip(i as int), sep)));
                assert(n > 0);
            }
            r.push((start, i));
        }
    }
    proof {
        assert(s@.skip(i as int).len() == 0);
        assert(fields(s@.skip(i as int), sep) =~= Seq::empty());
        assert(at_places(s@, r@) =~= fields(s@, sep));
    }
    r
}

/// How many characters of a text come before the first separator.
pub fn length_to(s: &[char], sep: Separator) -> (r: usize)
    ensures
        r == field_length(s@, sep),
        r <= s@.len(),
{
    proof {
        lemma_field_length(s@, sep);
    }
    let ghost n = field_length(s@, sep);
    let mut i: usize = 0;
    while i < s.len() && !sep.is_at(s[i])
        invariant
            i <= n <= s@.len(),
            forall|j: int| 0 <= j < n ==> !sep.separates(#[trigger] s@[j]),
            n < s@.len() ==> sep.separates(s@[n as int]),
        decreases s@.len() - i,
    {
        i = i + 1;
    }
    i
}

/// What is left of a text without the white space at its ends.
pub fn trim(s: &[char]) -> (r: Vec<char>)
    ensures
        r@ == trimmed(s@),
{
    let mut from: usize = 0;
    let mut to: usize = s.len();
    assert(s@.subrange(0, s@.len() as int) =~= s@);
    while from < to && is_white(s[from])
        invariant
            from <= to == s@.len(),
            trimmed(s@.subrange(from as int, to as int)) == trimmed(s@),
        decreases to - from,
    {
        assert(s@.subrange(from as int, to as int).drop_first() =~= s@.subrange(
            from + 1,
            to as int,
        ));
        from = from + 1;
    }
    while from < to && is_white(s[to - 1])
        invariant
            from <= to <= s@.len(),
            from < to ==> !white(s@[from as int]),
            trimmed(s@.subrange(from as int, to as int)) == trimmed(s@),
        decreases to - from,
    {
        assert(s@.subrange(from as int, to as int).drop_last() =~= s@.subrange(
            from as int,
            to - 1,
        ));
        to = to - 1;
    }
    copied(s, from, to)
}

/// Whether a text starts with another.
pub fn starts_with(s: &[char], prefix: &[char]) -> (r: bool)
    ensures
        r == prefix@.is_prefix_of(s@),
{
    if s.len() < prefix.len() {
        return false;
    }
    let r: bool = same(&s[0..prefix.len()], prefix);
    r
}

/// Whether a text ends with another.
pub fn ends_with(s: &[char], suffix: &[char]) -> (r: bool)
    ensures
        r == suffix@.is_suffix_of(s@),
{
    if s.len() < suffix.len() {
        return false;
    }
    let r: bool = same(&s[s.len() - suffix.len()..s.len()], suffix);
    r
}

/// What stands between a prefix and a suffix of a text that has both.
pub open spec fn between(s: Seq<char>, prefix: Seq<char>, suffix: Seq<char>) -> Option<Seq<char>> {
    let rest = s.skip(prefix.len() as int);
    if prefix.is_prefix_of(s) && suffix.is_suffix_of(rest) {
        Some(rest.take(rest.len() - suffix.len()))
    } else {
        None
    }
}

/// Takes a prefix and a suffix off a text that has both.
pub fn strip<'a>(s: &'a [char], prefix: &[char], suffix: &[char]) -> (r: Option<&'a [char]>)
    ensures
        match r {
            Some(t) => between(s@, prefix@, suffix@) == Some(t@),
            None => between(s@, prefix@, suffix@) is None,
        },
{
    if !starts_with(s, prefix) {
        return None;
    }
    let rest: &'a [char] = &s[prefix.len()..s.len()];
    assert(rest@ =~= s@.skip(prefix@.len() as int));
    if !ends_with(rest, suffix) {
        return None;
    }
    let middle: &'a [char] = &rest[0..rest.len() - suffix.len()];
    assert(middle@ =~= rest@.take(rest@.len() - suffix@.len()));
    Some(middle)
}

/// What follows `prefix` in the first line that starts with it.
pub fn find_after_prefix(s: &[char], prefix: &[char]) -> (r: Option<Vec<char>>)
    ensures
        match r {
            Some(v) => after_prefix(s@, prefix@) == Some(v@),
            None => after_prefix(s@, prefix@) is None,
        },
{
    let mut i: usize = 0;
    assert(s@.skip(0) =~= s@);
    while i < s.len()
        invariant
            i <= s@.len(),
            after_prefix(s@.skip(i as int), prefix@) == after_prefix(s@, prefix@),
        decreases s@.len() - i,
    {
        let start: usize = i;
        let ghost rest = s@.skip(start as int);
        proof {
            lemma_line_length(rest);
        }
        let ghost n = line_length(rest);
        while i < s.len() && s[i] != '\n'
            invariant
                start <= i <= s@.len(),
                i <= start + n,
                start + n <= s@.len(),
                rest == s@.skip(start as int),
                forall|j: int| 0 <= j < n ==> #[trigger] rest[j] != '\n',
                n < rest.len() ==> rest[n as int] == '\n',
            decreases s@.len() - i,
        {
            assert(s@[i as int] == rest[i - start]);
            i = i + 1;
        }
        assert(i == start + n) by {
            if i < start + n {
                assert(s@[i as int] == rest[i - start]);
            }
        }
        let whole: bool = i < s.len();
        let mut end: usize = i;
        assert(rest.take(n as int) =~= s@.subrange(start as int, i as int));
        if whole && end > start && s[end - 1] == '\r' {
            end = end - 1;
            assert(rest.take(n as int).drop_last() =~= s@.subrange(start as int, end as int));
        }
        let ghost line = if whole { without_return(rest.take(n as int)) } else { rest };
        assert(line =~= s@.subrange(start as int, end as int));
        if starts_with(&s[start..end], prefix) {
            let r: Vec<char> = copied(s, start + prefix.len(), end);
            assert(r@ =~= line.skip(prefix@.len() as int));
            return Some(r);
        }
        if whole {
            i = i + 1;
            assert(rest.skip(n as int + 1) =~= s@.skip(i as int));
        } else {
            return None;
        }
    }
    None
}

/// What a digit counts, if `c` is one.
pub fn digit(c: char) -> (r: Option<u32>)
    ensures
        r is Some <==> is_digit(c),
        r matches Some(d) ==> d == digit_value(c) && d <= 9,
{
    if '0' <= c && c <= '9' {
        Some(c as u32 - '0' as u32)
    } else {
        None
    }
}

/// The integer that a text writes, if it fits in 32 bits.
pub fn parse_i32(s: &[char]) -> (r: Option<i32>)
    ensures
        r == integer_32(s@),
{
    let signed: bool = s.len() > 0 && (s[0] == '-' || s[0] == '+');
    let negative: bool = signed && s[0] == '-';
    let start: usize = if signed { 1 } else { 0 };
    let ghost digits = if signed { s@.skip(1) } else { s@ };
    if start >= s.len() {
        return None;
    }
    let mut v: i64 = 0;
    let mut large: bool = false;
    let mut i: usize = start;
    assert(digits.take(0) =~= Seq::empty());
    while i < s.len()
        invariant
            start <= i <= s@.len(),
            start == (if signed { 1usize } else { 0 }),
            signed == (s@.len() > 0 && (s@[0] == '-' || s@[0] == '+')),
            digits == (if signed { s@.skip(1) } else { s@ }),
            digits.len() == s@.len() - start,
            forall|j: int| 0 <= j < digits.len() ==> digits[j] == s@[j + start],
            forall|j: int| 0 <= j < i - start ==> is_digit(digits[j]),
            0 <= v <= 0x8000_0000,
            !large ==> v == number(digits.take(i - start)),
            large ==> number(digits.take(i - start)) > 0x8000_0000,
        decreases s@.len() - i,
    {
        match digit(s[i]) {
            None => {
                assert(!is_digit(digits[i - start]));
                return None;
            },
            Some(d) => {
                proof {
                    let k = i - start;
                    assert(digits.take(k + 1).drop_last() =~= digits.take(k));
                    assert(digits.take(k + 1).last() == s@[i as int]);
                }
                let w: i64 = v * 10 + d as i64;
                if large || w > 0x8000_0000 {
                    large = true;
                } else {
                    v = w;
                }
            },
        }
        i = i + 1;
    }
    assert(digits.take(s@.len() - start) =~= digits);
    if large {
        None
    } else if negative {
        Some((-v) as i32)
    } else if v <= 0x7fff_ffff {
        Some(v as i32)
    } else {
        None
    }
}

/// The text of a digit.
fn digit_text(d: u64) -> (r: &'static str)
    requires
        d < 10,
    ensures
        r@ == seq![digit_char(d as nat)],
{
    proof {
        reveal_strlit("0");
        reveal_strlit("1");
        reveal_strlit("2");
        reveal_strlit("3");
        reveal_strlit("4");
        reveal_strlit("5");
        reveal_strlit("6");
        reveal_strlit("7");
        reveal_strlit("8");
        reveal_strlit("9");
    }
    let r: &'static str = match d {
        0 => "0",
        1 => "1",
        2 => "2",
        3 => "3",
        4 => "4",
        5 => "5",
        6 => "6",
        7 => "7",
        8 => "8",
        _ => "9",
    };
    assert(r@ =~= seq![digit_char(d as nat)]);
    r
}

/// Appends the digits of `n` to a text.
fn append_digits(out: &mut String, n: u64)
    ensures
        final(out)@ == old(out)@ + digits(n as nat),
    decreases n,
{
    if n >= 10 {
        append_digits(out, n / 10);
    }
    out.append(digit_text(n % 10));
    assert(out@ =~= old(out)@ + digits(n as nat));
}

/// Appends an integer in decimal to a text.
pub fn append_i32(out: &mut String, i: i32)
    ensures
        final(out)@ == old(out)@ + numeral(i as int),
{
    if i < 0 {
        proof {
            reveal_strlit("-");
        }
        out.append("-");
        assert("-"@ =~= seq!['-']);
        append_digits(out, (-(i as i64)) as u64);
        assert(out@ =~= old(out)@ + numeral(i as int));
    } else {
        append_digits(out, i as u64);
    }
}

proof fn lemma_digits(n: nat)
    ensures
        number(digits(n)) == n,
        is_numeral(digits(n)),
    decreases n,
{
    if n < 10 {
        let s = digits(n);
        assert(s.drop_last() =~= Seq::empty());
        assert(number(s.drop_last()) == 0);
        assert(digit_value(s.last()) == n);
    } else {
        lemma_digits(n / 10);
        let s = digits(n);
        assert(s.drop_last() =~= digits(n / 10));
        assert(digit_value(s.last()) == n % 10);
    }
}

/// An integer in decimal reads back as itself.
pub proof fn law_numerals_read_back(i: i32)
    ensures
        integer_32(numeral(i as int)) == Some(i),
{
    let n = if i < 0 { (-i) as nat } else { i as nat };
    lemma_digits(n);
    let s = numeral(i as int);
    if i < 0 {
        assert(s.skip(1) =~= digits(n));
    } else {
        assert(is_digit(s[0]));
    }
}

/// No separator occurs in an integer.
pub proof fn lemma_numeral_is_one_field(i: int, sep: Separator)
    ensures
        forall|j: int| 0 <= j < numeral(i).len() ==> !sep.separates(#[trigger] numeral(i)[j]),
{
    let n = if i < 0 { (-i) as nat } else { i as nat };
    lemma_digits(n);
    let s = numeral(i);
    assert forall|j: int| 0 <= j < s.len() implies !sep.separates(#[trigger] s[j]) by {
        let k = if i < 0 { j - 1 } else { j };
        if k >= 0 {
            assert(is_digit(digits(n)[k]));
            assert(s[j] == digits(n)[k]);
        }
    }
}

/// Whether a text is a field: it is not empty and holds no separator.
pub open spec fn is_field(s: Seq<char>, sep: Separator) -> bool {
    s.len() > 0 && forall|i: int| 0 <= i < s.len() ==> !sep.separates(#[trigger] s[i])
}

/// What stands before the first separator is the first field.
pub proof fn lemma_first_field(a: Seq<char>, c: char, rest: Seq<char>, sep: Separator)
    requires
        is_field(a, sep),
        sep.separates(c),
    ensures
        fields(a + seq![c] + rest, sep) == seq![a] + fields(rest, sep),
{
    let s = a + seq![c] + rest;
    lemma_field_length(s, sep);
    let n = field_length(s, sep) as int;
    assert(s[0] == a[0]);
    assert(s[a.len() as int] == c);
    assert(n == a.len()) by {
        if n < a.len() {
            assert(s[n] == a[n]);
        }
    }
    assert(s.take(n) =~= a);
    let t = s.skip(n);
    assert(t[0] == c);
    assert(t.drop_first() =~= rest);
    assert(fields(t, sep) == fields(rest, sep));
    assert(fields(s, sep) == seq![s.take(n)] + fields(t, sep));
}

/// A field alone is the only one.
pub proof fn lemma_last_field(a: Seq<char>, sep: Separator)
    requires
        is_field(a, sep),
    ensures
        fields(a, sep) == seq![a],
{
    lemma_field_length(a, sep);
    let n = field_length(a, sep) as int;
    assert(!sep.separates(a[0]));
    assert(n == a.len());
    assert(a.take(n) =~= a);
    assert(fields(a.skip(n), sep) =~= Seq::empty());
    assert(fields(a, sep) == seq![a.take(n)] + fields(a.skip(n), sep));
    assert(seq![a] + Seq::<Seq<char>>::empty() =~= seq![a]);
}

/// A zero in front of digits counts nothing.
proof fn lemma_leading_zero(d: Seq<char>)
    ensures
        number(seq!['0'] + d) == number(d),
    decreases d.len(),
{
    let s = seq!['0'] + d;
    if d.len() == 0 {
        assert(s.drop_last() =~= Seq::empty());
        assert(number(s.drop_last()) == 0);
        assert(digit_value(s.last()) == 0);
    } else {
        lemma_leading_zero(d.drop_last());
        assert(s.drop_last() =~= seq!['0'] + d.drop_last());
        assert(s.last() == d.last());
    }
}

/// Digits read the same behind a plus sign and behind a zero, and as the negative number
/// behind a minus sign.
pub proof fn law_signs_and_zeros(d: Seq<char>)
    requires
        d.len() > 0,
        forall|i: int| 0 <= i < d.len() ==> '0' <= #[trigger] d[i] <= '9',
    ensures
        integer(d) is Some,
        integer(seq!['+'] + d) == integer(d),
        integer(seq!['0'] + d) == integer(d),
        integer(seq!['-'] + d) == Some(-integer(d)->0),
{
    assert(is_numeral(d)) by {
        assert forall|i: int| 0 <= i < d.len() implies is_digit(#[trigger] d[i]) by {}
    }
    assert(is_digit(d[0]));
    let (plus, minus, zero) = (seq!['+'] + d, seq!['-'] + d, seq!['0'] + d);
    assert(plus[0] == '+' && minus[0] == '-' && zero[0] == '0');
    assert(plus.skip(1) =~= d);
    assert(minus.skip(1) =~= d);
    lemma_leading_zero(d);
    assert forall|i: int| 0 <= i < zero.len() implies is_digit(#[trigger] zero[i]) by {
        if i > 0 {
            assert(zero[i] == d[i - 1]);
        }
    }
}

/// What reads as an integer is made of digits, at least one, behind a sign or none.
pub proof fn law_integers_are_digits(s: Seq<char>)
    requires
        integer_32(s) is Some,
    ensures
        s.len() > 0,
        '0' <= s.last() <= '9',
        forall|i: int| 1 <= i < s.len() ==> '0' <= #[trigger] s[i] <= '9',
        '0' <= s[0] <= '9' || s[0] == '-' || s[0] == '+',
{
    let signed = s[0] == '-' || s[0] == '+';
    let d = if signed { s.skip(1) } else { s };
    assert forall|i: int| 1 <= i < s.len() implies '0' <= #[trigger] s[i] <= '9' by {
        if signed {
            assert(is_digit(d[i - 1]));
        } else {
            assert(is_digit(d[i]));
        }
    }
    assert(is_digit(d[0]));
}

/// An integer reads back from its decimal text just where it fits in 32 bits.
pub proof fn law_large_numerals_are_not_read(i: int)
    ensures
        integer(numeral(i)) == Some(i),
        integer_32(numeral(i)) is Some <==> -0x8000_0000 <= i <= 0x7fff_ffff,
{
    let n = if i < 0 { (-i) as nat } else { i as nat };
    lemma_digits(n);
    let s = numeral(i);
    if i < 0 {
        assert(s.skip(1) =~= digits(n));
    } else {
        assert(is_digit(s[0]));
    }
}

/// The decimal text of an integer starts with a minus sign if and only if the integer is
/// negative, and has no plus sign and no zero in front.
pub proof fn law_numerals_are_plain(i: int)
    ensures
        ({
            let s = numeral(i);
            let k = if i < 0 { 1int } else { 0 };
            &&& s.len() > k
            &&& i < 0 ==> s[0] == '-'
            &&& forall|j: int| k <= j < s.len() ==> '0' <= #[trigger] s[j] <= '9'
            &&& s[k] == '0' ==> i == 0 && s.len() == 1
        }),
{
    let n = if i < 0 { (-i) as nat } else { i as nat };
    lemma_digits(n);
    lemma_first_digit(n);
    let s = numeral(i);
    let k = if i < 0 { 1int } else { 0 };
    assert forall|j: int| k <= j < s.len() implies '0' <= #[trigger] s[j] <= '9' by {
        assert(is_digit(digits(n)[j - k]));
    }
}

proof fn lemma_first_digit(n: nat)
    ensures
        digits(n).len() > 0,
        digits(n)[0] == '0' ==> n == 0 && digits(n).len() == 1,
    decreases n,
{
    if n < 10 {
        assert(digits(n)[0] == digit_char(n));
    } else {
        lemma_first_digit(n / 10);
        assert(digits(n)[0] == digits(n / 10)[0]);
    }
}

/// The characters that are white space, by their code points.
pub proof fn law_white_space(c: char)
    ensures
        ({
            let n = c as int;
            white(c) <==> (9 <= n <= 13 || n == 32 || n == 133 || n == 160 || n == 5760 || 8192 <= n
                <= 8202 || n == 8232 || n == 8233 || n == 8239 || n == 8287 || n == 12288)
        }),
{
}

/// White space at the ends is dropped, and nothing else.
pub proof fn law_white_ends_are_trimmed(before: Seq<char>, s: Seq<char>, after: Seq<char>)
    requires
        forall|i: int| 0 <= i < before.len() ==> white(#[trigger] before[i]),
        forall|i: int| 0 <= i < after.len() ==> white(#[trigger] after[i]),
        s.len() > 0,
        !white(s[0]) && !white(s.last()),
    ensures
        trimmed(before + s + after) == s,
    decreases before.len() + after.len(),
{
    let whole = before + s + after;
    if before.len() > 0 {
        assert(whole[0] == before[0]);
        assert(whole.drop_first() =~= before.drop_first() + s + after);
        law_white_ends_are_trimmed(before.drop_first(), s, after);
    } else if after.len() > 0 {
        assert(whole[0] == s[0]);
        assert(whole.last() == after.last());
        assert(whole.drop_last() =~= before + s + after.drop_last());
        law_white_ends_are_trimmed(before, s, after.drop_last());
    } else {
        assert(whole =~= s);
    }
}

/// Of the lines of a text the first that starts with the prefix is the one that counts,
/// whether lines end with a line feed or with a carriage return before it.
pub proof fn law_first_line_with_prefix(
    line: Seq<char>,
    carriage_return: bool,
    rest: Seq<char>,
    prefix: Seq<char>,
)
    requires
        forall|i: int| 0 <= i < line.len() ==> #[trigger] line[i] != '\n',
        line.len() > 0 ==> line.last() != '\r',
    ensures
        ({
            let end = if carriage_return { seq!['\r', '\n'] } else { seq!['\n'] };
            let s = line + end + rest;
            &&& prefix.is_prefix_of(line) ==> after_prefix(s, prefix) == Some(
                line.skip(prefix.len() as int),
            )
            &&& !prefix.is_prefix_of(line) ==> after_prefix(s, prefix) == after_prefix(rest, prefix)
            &&& line.len() > 0 ==> after_prefix(line, prefix) == (if prefix.is_prefix_of(line) {
                Some(line.skip(prefix.len() as int))
            } else {
                None
            })
            &&& after_prefix(Seq::empty(), prefix) is None
        }),
{
    let end = if carriage_return { seq!['\r', '\n'] } else { seq!['\n'] };
    let s = line + end + rest;
    lemma_line_length(s);
    lemma_line_length(line);
    let n = line_length(s) as int;
    let m = line.len() + end.len() - 1;
    assert(s[m] == '\n');
    assert(n == m) by {
        if n < m {
            if n < line.len() {
                assert(s[n] == line[n]);
            } else {
                assert(s[n] == '\r');
            }
        }
    }
    assert(without_return(s.take(n)) =~= line) by {
        if carriage_return {
            assert(s.take(n).last() == '\r');
            assert(s.take(n).drop_last() =~= line);
        } else {
            assert(s.take(n) =~= line);
        }
    }
    assert(s.skip(n + 1) =~= rest);
    let k = line_length(line) as int;
    if line.len() > 0 && k < line.len() {
        assert(line[k] == '\n');
    }
}

/// Texts with gaps before, between and behind them.
pub open spec fn woven(gaps: Seq<Seq<char>>, texts: Seq<Seq<char>>) -> Seq<char>
    decreases texts.len(),
{
    if texts.len() == 0 {
        gaps[0]
    } else {
        gaps[0] + texts[0] + woven(gaps.skip(1), texts.skip(1))
    }
}

/// Whether there is a gap before, between and behind `count` texts, made of separators,
/// and of at least one between two texts.
pub open spec fn are_gaps(gaps: Seq<Seq<char>>, count: int, sep: Separator) -> bool {
    &&& gaps.len() == count + 1
    &&& forall|i: int, j: int|
        0 <= i < gaps.len() && 0 <= j < gaps[i].len() ==> sep.separates(#[trigger] gaps[i][j])
    &&& forall|i: int| 0 < i < count ==> (#[trigger] gaps[i]).len() > 0
}

proof fn lemma_gap(gap: Seq<char>, rest: Seq<char>, sep: Separator)
    requires
        forall|j: int| 0 <= j < gap.len() ==> sep.separates(#[trigger] gap[j]),
    ensures
        fields(gap + rest, sep) == fields(rest, sep),
    decreases gap.len(),
{
    let s = gap + rest;
    if gap.len() == 0 {
        assert(s =~= rest);
    } else {
        assert(s[0] == gap[0]);
        assert(s.drop_first() =~= gap.drop_first() + rest);
        lemma_gap(gap.drop_first(), rest, sep);
    }
}

proof fn lemma_field_before(a: Seq<char>, rest: Seq<char>, sep: Separator)
    requires
        is_field(a, sep),
        rest.len() == 0 || sep.separates(rest[0]),
    ensures
        fields(a + rest, sep) == seq![a] + fields(rest, sep),
{
    let s = a + rest;
    lemma_field_length(s, sep);
    let n = field_length(s, sep) as int;
    assert(s[0] == a[0]);
    assert(n == a.len()) by {
        if n < a.len() {
            assert(s[n] == a[n]);
        } else if n > a.len() {
            assert(s[a.len() as int] == rest[0]);
        }
    }
    assert(s.take(n) =~= a);
    assert(s.skip(n) =~= rest);
}

/// Texts without separators come apart again, whatever the gaps between them.
pub proof fn law_fields_come_apart(gaps: Seq<Seq<char>>, texts: Seq<Seq<char>>, sep: Separator)
    requires
        are_gaps(gaps, texts.len() as int, sep),
        forall|i: int| 0 <= i < texts.len() ==> is_field(#[trigger] texts[i], sep),
    ensures
        fields(woven(gaps, texts), sep) == texts,
    decreases texts.len(),
{
    let none = Seq::<char>::empty();
    assert forall|j: int| 0 <= j < gaps[0].len() implies sep.separates(#[trigger] gaps[0][j]) by {}
    if texts.len() == 0 {
        lemma_gap(gaps[0], none, sep);
        assert(gaps[0] + none =~= gaps[0]);
        assert(fields(none, sep) =~= texts);
    } else {
        let (g, t) = (gaps.skip(1), texts.skip(1));
        assert forall|i: int, j: int|
            0 <= i < g.len() && 0 <= j < g[i].len() implies sep.separates(#[trigger] g[i][j]) by {
            assert(g[i] == gaps[i + 1]);
            assert(sep.separates(gaps[i + 1][j]));
        }
        assert forall|i: int| 0 < i < t.len() implies (#[trigger] g[i]).len() > 0 by {
            assert(g[i] == gaps[i + 1]);
        }
        assert forall|i: int| 0 <= i < t.len() implies is_field(#[trigger] t[i], sep) by {
            assert(t[i] == texts[i + 1]);
        }
        law_fields_come_apart(g, t, sep);
        let w = woven(g, t);
        assert(g[0] == gaps[1]);
        assert(w.len() == 0 || sep.separates(w[0])) by {
            if t.len() > 0 {
                assert(gaps[1].len() > 0);
                assert(w[0] == g[0][0]);
            } else if w.len() > 0 {
                assert(w[0] == g[0][0]);
            }
        }
        lemma_field_before(texts[0], w, sep);
        let s = woven(gaps, texts);
        assert(s =~= gaps[0] + (texts[0] + w));
        lemma_gap(gaps[0], texts[0] + w, sep);
        assert(seq![texts[0]] + t =~= texts);
    }
}

/// The characters that keep fields apart.
pub proof fn law_separators(c: char)
    ensures
        Separator::CommaOrSpace.separates(c) <==> c == ',' || c == ' ',
        Separator::Whitespace.separates(c) <==> white(c),
        Separator::Dot.separates(c) <==> c == '.',
        Separator::Equals.separates(c) <==> c == '=',
{
}

} // verus!
