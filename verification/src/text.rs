//! Numbers and words in text.

use vstd::prelude::*;
use vstd::string::StringExecFns;

verus! {

/// The decimal digit of a number below ten.
pub open spec fn digit(d: nat) -> char {
    if d == 0 {
        '0'
    } else if d == 1 {
        '1'
    } else if d == 2 {
        '2'
    } else if d == 3 {
        '3'
    } else if d == 4 {
        '4'
    } else if d == 5 {
        '5'
    } else if d == 6 {
        '6'
    } else if d == 7 {
        '7'
    } else if d == 8 {
        '8'
    } else {
        '9'
    }
}

/// A number in decimal, without leading zeros.
pub open spec fn decimal(n: nat) -> Seq<char>
    decreases n,
{
    if n < 10 {
        seq![digit(n)]
    } else {
        decimal(n / 10).push(digit(n % 10))
    }
}

/// The decimal digit of a number below ten.
fn digit_text(d: usize) -> (r: &'static str)
    requires
        d < 10,
    ensures
        r@ == seq![digit(d as nat)],
{
    proof {
        reveal_strlit("0");
        reveal_strlit("1");
        reveal_strlit("2");
        reveal_strlit("3");
        reveal_strlit("4");
        reveal_strlit("5");
        reveal_strlit("6");
        reveal_strlit("7");
        reveal_strlit("8");
        reveal_strlit("9");
    }
    match d {
        0 => "0",
        1 => "1",
        2 => "2",
        3 => "3",
        4 => "4",
        5 => "5",
        6 => "6",
        7 => "7",
        8 => "8",
        _ => "9",
    }
}

/// Writes a number in decimal behind a text.
pub fn append_decimal(text: &mut String, n: usize)
    ensures
        final(text)@ == old(text)@ + decimal(n as nat),
    decreases n,
{
    if n >= 10 {
        append_decimal(text, n / 10);
    }
    text.append(digit_text(n % 10));
    assert(text@ =~= old(text)@ + decimal(n as nat));
}

/// Whether a character is a decimal digit.
pub open spec fn is_digit(c: char) -> bool {
    '0' as int <= c as int <= '9' as int
}

/// The number that a text of digits stands for.
pub open spec fn decimal_value(s: Seq<char>) -> nat
    decreases s.len(),
{
    if s.len() == 0 {
        0
    } else {
        (10 * decimal_value(s.drop_last()) + (s.last() as int - '0' as int)) as nat
    }
}

/// A 32-bit number in digits, of which there must be one at least.
pub open spec fn digits_number(s: Seq<char>) -> Option<u32> {
    if s.len() > 0 && (forall|i: int| 0 <= i < s.len() ==> is_digit(#[trigger] s[i]))
        && decimal_value(s) <= u32::MAX {
        Some(decimal_value(s) as u32)
    } else {
        None
    }
}

/// A 32-bit number as it may be written: digits, and perhaps a plus before them.
pub open spec fn number(s: Seq<char>) -> Option<u32> {
    if s.len() > 0 && s[0] == '+' {
        digits_number(s.skip(1))
    } else {
        digits_number(s)
    }
}

/// More digits never make a number smaller.
proof fn lemma_value_grows(s: Seq<char>, n: int)
    requires
        0 <= n <= s.len(),
        forall|i: int| 0 <= i < s.len() ==> is_digit(#[trigger] s[i]),
    ensures
        decimal_value(s.take(n)) <= decimal_value(s),
    decreases s.len(),
{
    if n < s.len() {
        lemma_value_grows(s.drop_last(), n);
        assert(s.drop_last().take(n) =~= s.take(n));
    } else {
        assert(s.take(n) =~= s);
    }
}

/// The characters of a text.
pub fn chars_of(s: &str) -> (r: Vec<char>)
    ensures
        r@ == s@,
{
    let mut r: Vec<char> = Vec::new();
    for c in it: s.chars()
        invariant
            it.seq() == s@,
            r@ =~= s@.take(it.index()),
    {
        r.push(c);
    }
    assert(s@.take(s@.len() as int) =~= s@);
    r
}

/// Reads a 32-bit number from the characters at `from` and behind.
pub fn parse_number(s: &Vec<char>, from: usize) -> (r: Option<u32>)
    requires
        from <= s@.len(),
    ensures
        r == number(s@.skip(from as int)),
{
    let ghost all = s@.skip(from as int);
    let mut start: usize = from;
    if from < s.len() && s[from] == '+' {
        start = from + 1;
    }
    let ghost digits = s@.skip(start as int);
    assert(from < s@.len() ==> all[0] == s@[from as int]);
    assert(start == from + 1 ==> digits =~= all.skip(1));
    assert(start == from ==> digits =~= all);
    if start == s.len() {
        return None;
    }
    let mut value: u32 = 0;
    let mut i: usize = start;
    while i < s.len()
        invariant
            start <= i <= s@.len(),
            digits == s@.skip(start as int),
            forall|j: int| 0 <= j < i - start ==> is_digit(#[trigger] digits[j]),
            value == decimal_value(digits.take(i - start)),
            number(s@.skip(from as int)) == digits_number(digits),
        decreases s@.len() - i,
    {
        let c: char = s[i];
        let ghost n = i - start;
        assert(c == digits[n]);
        if c < '0' || c > '9' {
            return None;
        }
        let d: u32 = c as u32 - '0' as u32;
        let ghost next = digits.take(n + 1);
        assert(next.drop_last() =~= digits.take(n));
        let wide: u64 = 10 * (value as u64) + d as u64;
        if wide > u32::MAX as u64 {
            proof {
                if forall|j: int| 0 <= j < digits.len() ==> is_digit(#[trigger] digits[j]) {
                    lemma_value_grows(digits, n + 1);
                }
            }
            return None;
        }
        value = wide as u32;
        i = i + 1;
    }
    assert(digits.take(i - start) =~= digits);
    Some(value)
}

/// A number that is read from its decimal form is the number.
pub proof fn decimal_is_read_back(n: u32)
    ensures
        number(decimal(n as nat)) == Some(n),
{
    decimal_is_digits(n as nat);
}

/// The decimal form of a number consists of digits, one at least, that stand for the number.
pub proof fn decimal_is_digits(n: nat)
    ensures
        decimal(n).len() > 0,
        forall|i: int| 0 <= i < decimal(n).len() ==> is_digit(#[trigger] decimal(n)[i]),
        decimal_value(decimal(n)) == n,
        decimal(n)[0] != '+',
    decreases n,
{
    if n < 10 {
        assert(decimal(n).drop_last() =~= Seq::<char>::empty());
        assert(decimal_value(Seq::<char>::empty()) == 0);
    } else {
        decimal_is_digits(n / 10);
        assert(decimal(n).drop_last() =~= decimal(n / 10));
    }
}

/// Whether a character is white space.
pub open spec fn is_space(c: char) -> bool {
    let n = c as int;
    ||| 0x09 <= n <= 0x0d
    ||| n == 0x20
    ||| n == 0x85
    ||| n == 0xa0
    ||| n == 0x1680
    ||| 0x2000 <= n <= 0x200a
    ||| n == 0x2028
    ||| n == 0x2029
    ||| n == 0x202f
    ||| n == 0x205f
    ||| n == 0x3000
}

/// How many characters at the front of a text have the property.
pub open spec fn span(s: Seq<char>, p: spec_fn(char) -> bool) -> nat
    decreases s.len(),
{
    if s.len() == 0 || !p(s[0]) {
        0
    } else {
        1 + span(s.skip(1), p)
    }
}

/// A text up to its first line break.
pub open spec fn first_line(s: Seq<char>) -> Seq<char> {
    s.take(span(s, |c: char| c != '\n') as int)
}

/// A text without the white space at its front.
pub open spec fn trimmed(s: Seq<char>) -> Seq<char> {
    s.skip(span(s, |c: char| is_space(c)) as int)
}

/// The first word of a text: a run of characters that are not white space.
pub open spec fn first_word(s: Seq<char>) -> Seq<char> {
    trimmed(s).take(span(trimmed(s), |c: char| !is_space(c)) as int)
}

/// What stands behind the first word.
pub open spec fn after_word(s: Seq<char>) -> Seq<char> {
    trimmed(s).skip(span(trimmed(s), |c: char| !is_space(c)) as int)
}

/// A front that ends within a text is the same in any longer text.
proof fn lemma_span_of_longer(s: Seq<char>, longer: Seq<char>, p: spec_fn(char) -> bool, i: int)
    requires
        s.is_prefix_of(longer),
        0 <= i < s.len(),
        !p(s[i]),
    ensures
        span(longer, p) == span(s, p) <= i,
    decreases s.len(),
{
    assert(s[0] == longer[0]);
    if p(s[0]) {
        assert(s.skip(1).is_prefix_of(longer.skip(1)));
        assert(s.skip(1)[i - 1] == s[i]);
        lemma_span_of_longer(s.skip(1), longer.skip(1), p, i - 1);
    }
}

/// The first line of a text does not depend on what follows the line break.
pub proof fn first_line_of_longer(s: Seq<char>, longer: Seq<char>)
    requires
        s.is_prefix_of(longer),
        s.contains('\n'),
    ensures
        first_line(longer) == first_line(s),
{
    let i = choose|i: int| 0 <= i < s.len() && s[i] == '\n';
    lemma_span_of_longer(s, longer, |c: char| c != '\n', i);
    assert(first_line(longer) =~= first_line(s));
}

/// The front that has a property ends where the first character stands that has it not.
proof fn lemma_span(s: Seq<char>, p: spec_fn(char) -> bool, n: nat)
    requires
        n <= s.len(),
        forall|i: int| 0 <= i < n ==> p(#[trigger] s[i]),
        n < s.len() ==> !p(s[n as int]),
    ensures
        span(s, p) == n,
    decreases n,
{
    if n > 0 {
        lemma_span(s.skip(1), p, (n - 1) as nat);
    }
}

/// Whether the prefix stands at the position.
pub fn prefix_at(s: &Vec<char>, pos: usize, prefix: &Vec<char>) -> (r: bool)
    requires
        pos <= s@.len(),
    ensures
        r == prefix@.is_prefix_of(s@.skip(pos as int)),
{
    let ghost rest = s@.skip(pos as int);
    if s.len() - pos < prefix.len() {
        return false;
    }
    let mut i: usize = 0;
    while i < prefix.len()
        invariant
            i <= prefix@.len(),
            pos + prefix@.len() <= s.len(),
            rest == s@.skip(pos as int),
            forall|j: int| 0 <= j < i ==> rest[j] == prefix@[j],
        decreases prefix@.len() - i,
    {
        if s[pos + i] != prefix[i] {
            assert(rest[i as int] != prefix@[i as int]);
            return false;
        }
        i = i + 1;
    }
    assert(rest.take(prefix@.len() as int) =~= prefix@);
    true
}

/// Whether the characters are the text.
pub fn is_text(s: &Vec<char>, t: &str) -> (r: bool)
    ensures
        r == (s@ == t@),
{
    let chars: Vec<char> = chars_of(t);
    if s.len() != chars.len() {
        return false;
    }
    assert(s@.skip(0) =~= s@);
    let r: bool = prefix_at(s, 0, &chars);
    assert(r ==> s@ =~= chars@);
    r
}

/// Where the first line of a text ends.
pub fn line_end(s: &Vec<char>) -> (r: usize)
    ensures
        r <= s@.len(),
        s@.take(r as int) == first_line(s@),
{
    let mut i: usize = 0;
    while i < s.len() && s[i] != '\n'
        invariant
            i <= s@.len(),
            forall|j: int| 0 <= j < i ==> #[trigger] s@[j] != '\n',
        decreases s@.len() - i,
    {
        i = i + 1;
    }
    proof {
        lemma_span(s@, |c: char| c != '\n', i as nat);
    }
    i
}

/// Whether a character is white space.
fn white_space(c: char) -> (r: bool)
    ensures
        r == is_space(c),
{
    let n: u32 = c as u32;
    (0x09 <= n && n <= 0x0d) || n == 0x20 || n == 0x85 || n == 0xa0 || n == 0x1680 || (0x2000 <= n
        && n <= 0x200a) || n == 0x2028 || n == 0x2029 || n == 0x202f || n == 0x205f || n == 0x3000
}

/// Where the first word between two positions starts and ends.
pub fn word_in(s: &Vec<char>, from: usize, to: usize) -> (r: (usize, usize))
    requires
        from <= to <= s@.len(),
    ensures
        from <= r.0 <= r.1 <= to,
        s@.subrange(r.0 as int, r.1 as int) == first_word(s@.subrange(from as int, to as int)),
        s@.subrange(r.1 as int, to as int) == after_word(s@.subrange(from as int, to as int)),
{
    let ghost all = s@.subrange(from as int, to as int);
    let mut start: usize = from;
    while start < to && white_space(s[start])
        invariant
            from <= start <= to <= s@.len(),
            all == s@.subrange(from as int, to as int),
            forall|j: int| 0 <= j < start - from ==> is_space(#[trigger] all[j]),
        decreases to - start,
    {
        assert(all[start - from] == s@[start as int]);
        start = start + 1;
    }
    let ghost rest = s@.subrange(start as int, to as int);
    proof {
        assert(start < to ==> all[start - from] == s@[start as int]);
        lemma_span(all, |c: char| is_space(c), (start - from) as nat);
        assert(trimmed(all) =~= rest);
    }
    let mut end: usize = start;
    while end < to && !white_space(s[end])
        invariant
            from <= start <= end <= to <= s@.len(),
            rest == s@.subrange(start as int, to as int),
            forall|j: int| 0 <= j < end - start ==> !is_space(#[trigger] rest[j]),
        decreases to - end,
    {
        assert(rest[end - start] == s@[end as int]);
        end = end + 1;
    }
    proof {
        assert(end < to ==> rest[end - start] == s@[end as int]);
        lemma_span(rest, |c: char| !is_space(c), (end - start) as nat);
        assert(s@.subrange(start as int, end as int) =~= rest.take(end - start));
        assert(s@.subrange(end as int, to as int) =~= rest.skip(end - start));
    }
    (start, end)
}

/// The characters between two positions.
pub fn part(s: &Vec<char>, from: usize, to: usize) -> (r: Vec<char>)
    requires
        from <= to <= s@.len(),
    ensures
        r@ == s@.subrange(from as int, to as int),
{
    vstd::slice::slice_to_vec(vstd::slice::slice_subrange(s.as_slice(), from, to))
}

/// Decimal, digit by digit: a number below ten is its one digit, and any other is what the
/// number without its last digit is, followed by that digit.
pub proof fn decimal_by_digits(q: nat, d: nat)
    requires
        d < 10,
    ensures
        decimal(d) == seq![('0' as int + d) as char],
        q > 0 ==> decimal(10 * q + d) == decimal(q).push(('0' as int + d) as char),
{
    assert(digit(d) == ('0' as int + d) as char);
    if q > 0 {
        assert((10 * q + d) / 10 == q);
        assert((10 * q + d) % 10 == d);
    }
}

/// Two numbers with the same decimal form are the same number.
pub proof fn decimal_is_unique(m: nat, n: nat)
    requires
        decimal(m) == decimal(n),
    ensures
        m == n,
{
    decimal_is_digits(m);
    decimal_is_digits(n);
}

/// Reading, digit by digit: a text of digits that is a number goes on to be ten times as much
/// and the next digit, if that still is a 32-bit number.
pub proof fn number_by_digits(s: Seq<char>, v: u32, c: char)
    requires
        s.len() > 0,
        number(s) == Some(v),
    ensures
        '0' <= c <= '9' && 10 * v + (c as int - '0' as int) <= 0xffff_ffff ==> number(s.push(c))
            == Some((10 * v + (c as int - '0' as int)) as u32),
        !('0' <= c <= '9') || 10 * v + (c as int - '0' as int) > 0xffff_ffff ==> number(s.push(c))
            is None,
{
    let digits = if s[0] == '+' {
        s.skip(1)
    } else {
        s
    };
    if s[0] == '+' {
        assert(s.push(c).skip(1) =~= digits.push(c));
    }
    let more = digits.push(c);
    assert(more.drop_last() =~= digits);
    assert(more.last() == c);
    assert(forall|i: int| 0 <= i < digits.len() ==> more[i] == digits[i]);
    if is_digit(c) {
        assert(forall|i: int| 0 <= i < more.len() ==> is_digit(#[trigger] more[i]));
    } else {
        assert(!is_digit(more[digits.len() as int]));
    }
}

/// One character is a number where it is a digit, a plus before a number changes nothing, and
/// a text that starts with anything else is no number. Nor does a text become one by more
/// characters, unless it is empty or a plus.
pub proof fn number_starts_with_a_digit(c: char, s: Seq<char>)
    ensures
        '0' <= c <= '9' ==> number(seq![c]) == Some((c as int - '0' as int) as u32),
        !('0' <= c <= '9') ==> number(seq![c]) is None,
        number(Seq::<char>::empty()) is None,
        s.len() > 0 && '0' <= s[0] <= '9' ==> number(seq!['+'] + s) == number(s),
        s.len() > 0 && !('0' <= s[0] <= '9') ==> number(seq!['+'] + s) is None,
        s.len() > 0 && s[0] != '+' && number(s) is None ==> number(s.push(c)) is None,
{
    let one: Seq<char> = seq![c];
    assert(one.drop_last() =~= Seq::<char>::empty());
    assert(decimal_value(Seq::<char>::empty()) == 0);
    assert(decimal_value(one) == (c as int - '0' as int) as nat || !is_digit(c));
    assert(one[0] == c);
    if c == '+' {
        assert(one.skip(1) =~= Seq::<char>::empty());
    }
    let plus: Seq<char> = seq!['+'] + s;
    assert(plus.skip(1) =~= s);
    if s.len() > 0 && !('0' <= s[0] <= '9') {
        assert(!is_digit(s[0]));
    }
    if s.len() > 0 && s[0] != '+' {
        let more = s.push(c);
        assert(more.drop_last() =~= s);
        assert(more[0] == s[0]);
        if number(more) is Some {
            assert forall|i: int| 0 <= i < s.len() implies is_digit(#[trigger] s[i]) by {
                assert(more[i] == s[i]);
            }
            lemma_value_grows(more, s.len() as int);
            assert(more.take(s.len() as int) =~= s);
        }
    }
}

/// The characters that count as white space.
pub proof fn white_space_is(c: char)
    ensures
        is_space(c) <==> ('\t' <= c <= '\r' || c == ' ' || c == '\u{85}' || c == '\u{a0}' || c
            == '\u{1680}' || '\u{2000}' <= c <= '\u{200a}' || c == '\u{2028}' || c == '\u{2029}'
            || c == '\u{202f}' || c == '\u{205f}' || c == '\u{3000}'),
{
}

/// The first line of a text is what stands before its first line break; a text without one is
/// one line.
pub proof fn line_ends_at_the_break(line: Seq<char>, rest: Seq<char>)
    requires
        !line.contains('\n'),
    ensures
        first_line(line + seq!['\n'] + rest) == line,
        first_line(line) == line,
{
    let whole = line + seq!['\n'] + rest;
    let p = |c: char| c != '\n';
    assert forall|i: int| 0 <= i < line.len() implies p(#[trigger] whole[i]) by {
        assert(line.contains(line[i]));
    }
    assert forall|i: int| 0 <= i < line.len() implies p(#[trigger] line[i]) by {
        assert(line.contains(line[i]));
    }
    assert(whole[line.len() as int] == '\n');
    lemma_span(whole, p, line.len());
    lemma_span(line, p, line.len());
    assert(first_line(whole) =~= line);
    assert(first_line(line) =~= line);
}

/// The first word of a text is found between white space, and the rest behind it.
pub proof fn word_ends_at_white_space(before: Seq<char>, word: Seq<char>, rest: Seq<char>)
    requires
        forall|i: int| 0 <= i < before.len() ==> is_space(#[trigger] before[i]),
        forall|i: int| 0 <= i < word.len() ==> !is_space(#[trigger] word[i]),
        rest.len() > 0 ==> is_space(rest[0]),
        word.len() > 0 || rest.len() == 0,
    ensures
        first_word(before + word + rest) == word,
        after_word(before + word + rest) == rest,
{
    let whole = before + word + rest;
    let p = |c: char| is_space(c);
    let q = |c: char| !is_space(c);
    assert forall|i: int| 0 <= i < before.len() implies p(#[trigger] whole[i]) by {
        assert(whole[i] == before[i]);
    }
    if word.len() > 0 {
        assert(whole[before.len() as int] == word[0]);
    }
    lemma_span(whole, p, before.len());
    let left = word + rest;
    assert(trimmed(whole) =~= left);
    assert forall|i: int| 0 <= i < word.len() implies q(#[trigger] left[i]) by {
        assert(left[i] == word[i]);
    }
    lemma_span(left, q, word.len());
    assert(left.take(word.len() as int) =~= word);
    assert(left.skip(word.len() as int) =~= rest);
}

} // verus!
