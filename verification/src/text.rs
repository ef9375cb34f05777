//! Text: comparison, decimal numbers and words.
//!
//! Specifications speak of text as a sequence of characters.

use vstd::prelude::*;

verus! {

/// `String::push`: the character goes to the end of the text.
pub assume_specification[ String::push ](s: &mut String, c: char)
    ensures
        final(s)@ == old(s)@.push(c),
;

/// Do two texts hold the same characters?
pub fn same_text(a: &str, b: &str) -> (r: bool)
    ensures
        r == (a@ == b@),
{
    a.to_owned() == b.to_owned()
}

/// The characters of a text.
pub fn chars_of(s: &str) -> (r: Vec<char>)
    ensures
        r@ == s@,
{
    let mut v: Vec<char> = Vec::new();
    for c in it: s.chars()
        invariant
            v@ == it.seq().take(it.index() as int),
            it.seq() == s@,
    {
        v.push(c);
        assert(v@ =~= it.seq().take(it.index() as int + 1));
    }
    assert(s@.take(s@.len() as int) =~= s@);
    v
}

/// Append a text to another.
pub fn push_text(out: &mut String, s: &str)
    ensures
        final(out)@ == old(out)@ + s@,
{
    let chars = chars_of(s);
    push_chars(out, &chars);
    assert(out@ =~= old(out)@ + s@);
}

/// Append characters to a text.
pub fn push_chars(out: &mut String, s: &Vec<char>)
    ensures
        final(out)@ == old(out)@ + s@,
{
    let mut i: usize = 0;
    assert(out@ =~= old(out)@ + s@.take(0));
    while i < s.len()
        invariant
            i <= s.len(),
            out@ == old(out)@ + s@.take(i as int),
        decreases s.len() - i,
    {
        out.push(s[i]);
        i = i + 1;
        assert(out@ =~= old(out)@ + s@.take(i as int));
    }
    assert(s@.take(s@.len() as int) =~= s@);
}

/// The text made of these characters.
pub fn text_of(s: &Vec<char>) -> (r: String)
    ensures
        r@ == s@,
{
    let mut out = String::new();
    push_chars(&mut out, s);
    assert(out@ =~= s@);
    out
}

/// The decimal digit with this value.
pub open spec fn digit(d: int) -> char {
    (d + 48) as char
}

/// A number in decimal digits, without leading zeros.
pub open spec fn decimal(n: nat) -> Seq<char>
    decreases n,
{
    if n < 10 {
        seq![digit(n as int)]
    } else {
        decimal(n / 10).push(digit((n % 10) as int))
    }
}

/// A signed number in decimal: a minus sign before a negative one.
pub open spec fn signed_decimal(n: int) -> Seq<char> {
    if n < 0 {
        seq!['-'] + decimal((-n) as nat)
    } else {
        decimal(n as nat)
    }
}

fn digit_char(d: u128) -> (r: char)
    requires
        d < 10,
    ensures
        r == digit(d as int),
{
    (48u8 + d as u8) as char
}

/// Append a number of any width in decimal.
pub fn push_wide(out: &mut String, n: u128)
    ensures
        final(out)@ == old(out)@ + decimal(n as nat),
    decreases n,
{
    if n >= 10 {
        push_wide(out, n / 10);
    }
    out.push(digit_char(n % 10));
    assert(out@ =~= old(out)@ + decimal(n as nat));
}

/// Append a number in decimal.
pub fn push_decimal(out: &mut String, n: u64)
    ensures
        final(out)@ == old(out)@ + decimal(n as nat),
{
    push_wide(out, n as u128);
}

/// Append a signed number in decimal.
pub fn push_signed(out: &mut String, n: i64)
    requires
        n > i64::MIN,
    ensures
        final(out)@ == old(out)@ + signed_decimal(n as int),
{
    if n < 0 {
        out.push('-');
        push_decimal(out, (-n) as u64);
        assert(out@ =~= old(out)@ + signed_decimal(n as int));
    } else {
        push_decimal(out, n as u64);
    }
}

pub open spec fn is_digit(c: char) -> bool {
    '0' <= c <= '9'
}

pub open spec fn all_digits(s: Seq<char>) -> bool {
    forall|i: int| 0 <= i < s.len() ==> is_digit(#[trigger] s[i])
}

/// The value of a sequence of digits.
pub open spec fn digits_value(s: Seq<char>) -> nat
    decreases s.len(),
{
    if s.len() == 0 {
        0
    } else {
        10 * digits_value(s.drop_last()) + (s.last() as int - 48) as nat
    }
}

/// The number of at most `max` that a text of one or more digits stands for.
pub open spec fn digits_number(s: Seq<char>, max: nat) -> Option<nat> {
    if s.len() > 0 && all_digits(s) && digits_value(s) <= max {
        Some(digits_value(s))
    } else {
        None
    }
}

/// The unsigned number of at most `max` that a text stands for: digits, with a
/// plus sign allowed before them.
pub open spec fn unsigned_number(s: Seq<char>, max: nat) -> Option<nat> {
    if s.len() > 0 && s[0] == '+' {
        digits_number(s.skip(1), max)
    } else {
        digits_number(s, max)
    }
}

/// The number in the range of an `i32` that a text stands for: digits, with a
/// sign allowed before them.
pub open spec fn signed_number(s: Seq<char>) -> Option<int> {
    if s.len() > 0 && s[0] == '-' {
        match digits_number(s.skip(1), 0x8000_0000) {
            Some(n) => Some(-(n as int)),
            None => None,
        }
    } else {
        match unsigned_number(s, 0x7fff_ffff) {
            Some(n) => Some(n as int),
            None => None,
        }
    }
}

proof fn lemma_digits_value_grows(s: Seq<char>, n: int)
    requires
        0 <= n <= s.len(),
        all_digits(s),
    ensures
        digits_value(s.take(n)) <= digits_value(s),
    decreases s.len() - n,
{
    if n == s.len() {
        assert(s.take(n) =~= s);
    } else {
        lemma_digits_value_grows(s, n + 1);
        assert(s.take(n + 1).drop_last() =~= s.take(n));
    }
}

/// Read digits from `start` on.
fn read_digits(s: &Vec<char>, start: usize, max: u64) -> (r: Option<u64>)
    requires
        start <= s.len(),
    ensures
        digits_number(s@.skip(start as int), max as nat) == (match r {
            Some(n) => Some(n as nat),
            None => None,
        }),
{
    let ghost rest = s@.skip(start as int);
    if start == s.len() {
        return None;
    }
    let mut value: u64 = 0;
    let mut i: usize = start;
    while i < s.len()
        invariant
            start <= i <= s.len(),
            start < s.len(),
            rest == s@.skip(start as int),
            value == digits_value(rest.take(i - start)),
            all_digits(rest.take(i - start)),
            value <= max,
        decreases s.len() - i,
    {
        let c = s[i];
        assert(rest[i - start] == c);
        if !('0' <= c && c <= '9') {
            return None;
        }
        let d: u64 = c as u64 - 48;
        assert(rest.take(i + 1 - start).drop_last() =~= rest.take(i - start));
        assert(rest.take(i + 1 - start).last() == c);
        let fits = value <= max / 10 && d <= max - value * 10;
        if !fits {
            proof {
                if all_digits(rest) {
                    lemma_digits_value_grows(rest, i + 1 - start);
                }
                assert(digits_value(rest.take(i + 1 - start)) == 10 * value + d);
                assert(10 * value + d > max) by (nonlinear_arith)
                    requires !(value <= max / 10 && d <= max - value * 10), 0 <= d, 0 <= value;
            }
            return None;
        }
        value = value * 10 + d;
        i = i + 1;
        assert(all_digits(rest.take(i - start))) by {
            assert forall|j: int| 0 <= j < i - start implies is_digit(#[trigger] rest.take(i - start)[j]) by {
                if j < i - 1 - start {
                    assert(is_digit(rest.take(i - 1 - start)[j]));
                }
            }
        }
    }
    assert(rest.take(i - start) =~= rest);
    Some(value)
}

/// Read an unsigned number of at most `max`.
pub fn read_unsigned(s: &Vec<char>, max: u64) -> (r: Option<u64>)
    ensures
        unsigned_number(s@, max as nat) == (match r {
            Some(n) => Some(n as nat),
            None => None,
        }),
{
    assert(s@.skip(0) =~= s@);
    if s.len() > 0 && s[0] == '+' {
        read_digits(s, 1, max)
    } else {
        read_digits(s, 0, max)
    }
}

/// Read a number in the range of an `i32`.
pub fn read_signed(s: &Vec<char>) -> (r: Option<i32>)
    ensures
        signed_number(s@) == (match r {
            Some(n) => Some(n as int),
            None => None,
        }),
{
    if s.len() > 0 && s[0] == '-' {
        match read_digits(s, 1, 0x8000_0000) {
            Some(n) => Some((-(n as i64)) as i32),
            None => None,
        }
    } else {
        match read_unsigned(s, 0x7fff_ffff) {
            Some(n) => Some(n as i32),
            None => None,
        }
    }
}

/// The characters with the Unicode property `White_Space`.
pub open spec fn is_space(c: char) -> bool {
    let n = c as int;
    ||| 9 <= n <= 13
    ||| n == 32
    ||| n == 0x85
    ||| n == 0xa0
    ||| n == 0x1680
    ||| 0x2000 <= n <= 0x200a
    ||| n == 0x2028
    ||| n == 0x2029
    ||| n == 0x202f
    ||| n == 0x205f
    ||| n == 0x3000
}

fn space(c: char) -> (r: bool)
    ensures
        r == is_space(c),
{
    let n: u32 = c as u32;
    (9 <= n && n <= 13) || n == 32 || n == 0x85 || n == 0xa0 || n == 0x1680 || (0x2000 <= n && n <= 0x200a)
        || n == 0x2028 || n == 0x2029 || n == 0x202f || n == 0x205f || n == 0x3000
}

/// The first place from `i` on that holds white space, or the end.
pub open spec fn word_end(s: Seq<char>, i: int) -> int
    decreases s.len() - i,
{
    if i < 0 || i >= s.len() || is_space(s[i]) {
        i
    } else {
        word_end(s, i + 1)
    }
}

pub proof fn lemma_word_end(s: Seq<char>, i: int)
    requires
        0 <= i <= s.len(),
    ensures
        i <= word_end(s, i) <= s.len(),
        i < s.len() && !is_space(s[i]) ==> i < word_end(s, i),
    decreases s.len() - i,
{
    if i < s.len() && !is_space(s[i]) {
        lemma_word_end(s, i + 1);
    }
}

/// The words from place `i` on: the longest runs without white space.
pub open spec fn words_from(s: Seq<char>, i: int) -> Seq<Seq<char>>
    decreases s.len() - i,
{
    if i < 0 || i >= s.len() {
        Seq::empty()
    } else if is_space(s[i]) {
        words_from(s, i + 1)
    } else {
        proof {
            lemma_word_end(s, i);
        }
        seq![s.subrange(i, word_end(s, i))] + words_from(s, word_end(s, i))
    }
}

/// The words of a text.
pub open spec fn words_of(s: Seq<char>) -> Seq<Seq<char>> {
    words_from(s, 0)
}

/// The views of a list of character vectors.
pub open spec fn views(v: Seq<Vec<char>>) -> Seq<Seq<char>> {
    v.map_values(|w: Vec<char>| w@)
}

/// Copy the characters from `a` up to `b`.
pub fn slice_chars(s: &Vec<char>, a: usize, b: usize) -> (r: Vec<char>)
    requires
        a <= b <= s.len(),
    ensures
        r@ == s@.subrange(a as int, b as int),
{
    let mut out: Vec<char> = Vec::new();
    let mut i: usize = a;
    while i < b
        invariant
            a <= i <= b <= s.len(),
            out@ == s@.subrange(a as int, i as int),
        decreases b - i,
    {
        out.push(s[i]);
        i = i + 1;
        assert(out@ =~= s@.subrange(a as int, i as int));
    }
    out
}

/// Split a text into its words.
pub fn split_words(s: &Vec<char>) -> (r: Vec<Vec<char>>)
    ensures
        views(r@) == words_of(s@),
{
    let mut out: Vec<Vec<char>> = Vec::new();
    let mut i: usize = 0;
    assert(views(out@) + words_from(s@, 0) =~= words_of(s@));
    while i < s.len()
        invariant
            i <= s.len(),
            views(out@) + words_from(s@, i as int) == words_of(s@),
        decreases s.len() - i,
    {
        if space(s[i]) {
            i = i + 1;
        } else {
            let start: usize = i;
            let ghost before = out@;
            while i < s.len() && !space(s[i])
                invariant
                    start <= i <= s.len(),
                    word_end(s@, i as int) == word_end(s@, start as int),
                    i == start ==> start < s.len() && !is_space(s@[start as int]),
                decreases s.len() - i,
            {
                i = i + 1;
            }
            proof {
                lemma_word_end(s@, start as int);
            }
            out.push(slice_chars(s, start, i));
            assert(views(out@) =~= views(before).push(s@.subrange(start as int, i as int)));
            assert(words_from(s@, start as int) =~= seq![s@.subrange(start as int, i as int)] + words_from(
                s@,
                i as int,
            ));
            assert(views(out@) + words_from(s@, i as int) =~= views(before) + words_from(s@, start as int));
        }
    }
    assert(views(out@) =~= words_of(s@));
    out
}

/// Is this word the text `t`?
pub fn word_is(w: &Vec<char>, t: &str) -> (r: bool)
    ensures
        r == (w@ == t@),
{
    same_text(text_of(w).as_str(), t)
}

/// The first place from `i` on without white space, or the end.
pub open spec fn skip_space(s: Seq<char>, i: int) -> int
    decreases s.len() - i,
{
    if i < 0 || i >= s.len() || !is_space(s[i]) {
        i
    } else {
        skip_space(s, i + 1)
    }
}

/// One past the last place before `n` without white space, or zero.
pub open spec fn drop_space(s: Seq<char>, n: int) -> int
    decreases n,
{
    if n <= 0 || n > s.len() || !is_space(s[n - 1]) {
        n
    } else {
        drop_space(s, n - 1)
    }
}

/// A text without the white space at its ends.
pub open spec fn trimmed(s: Seq<char>) -> Seq<char> {
    let a = skip_space(s, 0);
    let b = drop_space(s, s.len() as int);
    if a < b {
        s.subrange(a, b)
    } else {
        Seq::empty()
    }
}

/// Remove the white space at both ends.
pub fn trim_chars(s: &Vec<char>) -> (r: Vec<char>)
    ensures
        r@ == trimmed(s@),
{
    let mut a: usize = 0;
    while a < s.len() && space(s[a])
        invariant
            a <= s.len(),
            skip_space(s@, a as int) == skip_space(s@, 0),
        decreases s.len() - a,
    {
        a = a + 1;
    }
    let mut b: usize = s.len();
    while b > 0 && space(s[b - 1])
        invariant
            b <= s.len(),
            drop_space(s@, b as int) == drop_space(s@, s@.len() as int),
        decreases b,
    {
        b = b - 1;
    }
    if a < b {
        slice_chars(s, a, b)
    } else {
        Vec::new()
    }
}

/// The decimal form of a number consists of digits and stands for the number.
pub proof fn lemma_decimal(n: nat)
    ensures
        decimal(n).len() > 0,
        all_digits(decimal(n)),
        digits_value(decimal(n)) == n,
    decreases n,
{
    reveal_with_fuel(digits_value, 2);
    if n < 10 {
        assert(decimal(n).drop_last() =~= Seq::empty());
    } else {
        lemma_decimal(n / 10);
        let (front, d) = (decimal(n / 10), digit((n % 10) as int));
        assert(front.push(d).drop_last() =~= front);
        assert(all_digits(front.push(d))) by {
            assert forall|i: int| 0 <= i < front.push(d).len() implies is_digit(#[trigger] front.push(d)[i]) by {
                if i < front.len() {
                    assert(is_digit(front[i]));
                }
            }
        }
    }
}

/// A number that was written in decimal is read back.
pub proof fn law_decimal_round_trip(n: nat, max: nat)
    requires
        n <= max,
    ensures
        unsigned_number(decimal(n), max) == Some(n),
{
    lemma_decimal(n);
    assert(is_digit(decimal(n)[0]));
}

/// A text that neither begins nor ends with white space is its own trimmed form.
pub proof fn lemma_trimmed(s: Seq<char>)
    requires
        s.len() > 0,
        !is_space(s[0]),
        !is_space(s.last()),
    ensures
        trimmed(s) == s,
{
    assert(skip_space(s, 0) == 0);
    assert(drop_space(s, s.len() as int) == s.len());
    assert(s.subrange(0, s.len() as int) =~= s);
}

/// A signed number that was written in decimal is read back.
pub proof fn law_signed_round_trip(n: i32)
    ensures
        signed_number(signed_decimal(n as int)) == Some(n as int),
        signed_decimal(n as int)[0] == '-' <==> n < 0,
{
    if n < 0 {
        let m = (-n) as nat;
        lemma_decimal(m);
        assert(signed_decimal(n as int).skip(1) =~= decimal(m));
    } else {
        lemma_decimal(n as nat);
        assert(is_digit(decimal(n as nat)[0]));
        law_decimal_round_trip(n as nat, 0x7fff_ffff);
    }
}

/// The digits of a number stand for themselves, and a digit more makes a number ten
/// times as large before it is added.
pub proof fn law_digits_are_decimal(front: Seq<char>, max: nat)
    requires
        front.len() > 0,
        all_digits(front),
    ensures
        digits_number(seq!['0'], 9) == Some(0nat),
        digits_number(seq!['1'], 9) == Some(1nat),
        digits_number(seq!['9'], 9) == Some(9nat),
        10 * digits_value(front) + 7 <= max ==> digits_number(front.push('7'), max) == Some(
            10 * digits_value(front) + 7,
        ),
        10 * digits_value(front) + 7 > max ==> digits_number(front.push('7'), max) is None,
        unsigned_number(seq!['+'] + front, max) == unsigned_number(front, max),
        unsigned_number(Seq::empty(), max) is None,
        unsigned_number(front.push('x'), max) is None,
        unsigned_number(seq!['-'] + front, max) is None,
{
    reveal_with_fuel(digits_value, 2);
    assert(seq!['0'].drop_last() =~= Seq::empty());
    assert(seq!['1'].drop_last() =~= Seq::empty());
    assert(seq!['9'].drop_last() =~= Seq::empty());
    let more = front.push('7');
    assert(more.drop_last() =~= front);
    assert(all_digits(more)) by {
        assert forall|i: int| 0 <= i < more.len() implies is_digit(#[trigger] more[i]) by {
            if i < front.len() {
                assert(is_digit(front[i]));
            }
        }
    }
    assert((seq!['+'] + front).skip(1) =~= front);
    assert(is_digit(front[0]));
    let odd = front.push('x');
    assert(!is_digit(odd[front.len() as int]));
    assert(odd[0] == front[0]);
    assert(!is_digit((seq!['-'] + front)[0]));
}

proof fn lemma_word_end_at(s: Seq<char>, i: int, n: int)
    requires
        0 <= i <= n <= s.len(),
        forall|k: int| i <= k < n ==> !is_space(#[trigger] s[k]),
        n < s.len() ==> is_space(s[n]),
    ensures
        word_end(s, i) == n,
    decreases n - i,
{
    if i < n {
        lemma_word_end_at(s, i + 1, n);
    }
}

proof fn lemma_words_shift(a: Seq<char>, b: Seq<char>, i: int)
    requires
        0 <= i <= b.len(),
    ensures
        words_from(a + b, a.len() + i) == words_from(b, i),
        word_end(a + b, a.len() + i) == a.len() + word_end(b, i),
    decreases b.len() - i,
{
    let s = a + b;
    if i < b.len() {
        assert(s[a.len() + i] == b[i]);
        lemma_words_shift(a, b, i + 1);
        if !is_space(b[i]) {
            let n = word_end(b, i);
            lemma_word_end(b, i);
            lemma_words_shift(a, b, n);
            assert(word_end(s, a.len() + i) == a.len() + n);
            assert(s.subrange(a.len() + i, a.len() + n) =~= b.subrange(i, n));
        }
    }
}

/// A word before white space is the first word, and what follows the white space
/// gives the others; a text of one word is that word; white space before a text adds
/// none.
pub proof fn law_words_are_parted_by_white_space(word: Seq<char>, c: char, rest: Seq<char>)
    requires
        word.len() > 0,
        forall|k: int| 0 <= k < word.len() ==> !is_space(#[trigger] word[k]),
        c == ' ' || c == '\t' || c == '\n' || c == '\r',
    ensures
        words_of(word) == seq![word],
        words_of(word + seq![c] + rest) == seq![word] + words_of(rest),
        words_of(seq![c] + rest) == words_of(rest),
        words_of(Seq::empty()) == Seq::<Seq<char>>::empty(),
{
    let n = word.len() as int;
    lemma_word_end_at(word, 0, n);
    assert(!is_space(word[0]));
    assert(word.subrange(0, n) =~= word);
    assert(words_from(word, n) =~= Seq::empty());
    assert(words_of(word) =~= seq![word]);
    let s = word + seq![c] + rest;
    assert forall|k: int| 0 <= k < n implies !is_space(#[trigger] s[k]) by {
        assert(s[k] == word[k]);
    }
    assert(s[n] == c);
    lemma_word_end_at(s, 0, n);
    assert(!is_space(s[0]));
    assert(s.subrange(0, n) =~= word);
    lemma_words_shift(word + seq![c], rest, 0);
    assert(words_from(s, n) == words_from(s, n + 1));
    assert(words_from(s, n + 1) == words_of(rest));
    assert(words_of(s) =~= seq![word] + words_of(rest));
    lemma_words_shift(seq![c], rest, 0);
    assert((seq![c] + rest)[0] == c);
    assert(words_from(seq![c] + rest, 0) == words_from(seq![c] + rest, 1));
}

proof fn lemma_trim_ends(s: Seq<char>, i: int, n: int)
    requires
        0 <= i <= s.len(),
        0 <= n <= s.len(),
    ensures
        i <= skip_space(s, i) <= s.len(),
        forall|k: int| i <= k < skip_space(s, i) ==> is_space(#[trigger] s[k]),
        skip_space(s, i) < s.len() ==> !is_space(s[skip_space(s, i)]),
        0 <= drop_space(s, n) <= n,
        forall|k: int| drop_space(s, n) <= k < n ==> is_space(#[trigger] s[k]),
        drop_space(s, n) > 0 ==> !is_space(s[drop_space(s, n) - 1]),
    decreases s.len() - i + n,
{
    if i < s.len() && is_space(s[i]) {
        lemma_trim_ends(s, i + 1, n);
    }
    if n > 0 && is_space(s[n - 1]) {
        lemma_trim_ends(s, i, n - 1);
    }
}

/// Trimming drops the white space at both ends and nothing else: what is left is a
/// part of the text with only white space before and behind it, and it neither begins
/// nor ends with any.
pub proof fn law_trimming_drops_white_space(s: Seq<char>)
    ensures
        exists|a: int, b: int| #[trigger] is_core(s, a, b) && trimmed(s) == s.subrange(a, b),
{
    lemma_trim_ends(s, 0, s.len() as int);
    let a = skip_space(s, 0);
    let b = drop_space(s, s.len() as int);
    if a < b {
        assert(is_core(s, a, b));
    } else {
        assert forall|k: int| 0 <= k < s.len() implies is_space(#[trigger] s[k]) by {
            assert(k < a || b <= k);
        }
        assert(is_core(s, 0, 0));
        assert(s.subrange(0, 0) =~= Seq::empty());
    }
}

/// All that lies outside the two places is white space, and what lies between them
/// neither begins nor ends with any.
pub open spec fn is_core(s: Seq<char>, a: int, b: int) -> bool {
    &&& 0 <= a <= b <= s.len()
    &&& forall|k: int| 0 <= k < a ==> is_space(#[trigger] s[k])
    &&& forall|k: int| b <= k < s.len() ==> is_space(#[trigger] s[k])
    &&& a < b ==> !is_space(s[a]) && !is_space(s[b - 1])
}

/// Blanks, tabs and the ends of lines are white space; letters, digits and the marks
/// of a line of text are not.
pub proof fn law_what_white_space_is(c: char)
    ensures
        is_space(' ') && is_space('\t') && is_space('\n') && is_space('\r'),
        33 <= c as int <= 126 ==> !is_space(c),
{
}

} // verus!
