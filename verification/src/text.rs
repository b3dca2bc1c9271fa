//! Text: white space, words, and decimal numbers.

use vstd::prelude::*;

verus! {

/// The characters that have Unicode's `White_Space` property.
pub open spec fn white_space(c: char) -> bool {
    let n = c as u32;
    ||| 0x9 <= n <= 0xd
    ||| n == 0x20
    ||| n == 0x85
    ||| n == 0xa0
    ||| n == 0x1680
    ||| 0x2000 <= n <= 0x200a
    ||| n == 0x2028
    ||| n == 0x2029
    ||| n == 0x202f
    ||| n == 0x205f
    ||| n == 0x3000
}

/// Whether `c` is white space.
pub fn is_white_space(c: char) -> (r: bool)
    ensures
        r == white_space(c),
{
    let n: u32 = c as u32;
    (0x9 <= n && n <= 0xd) || n == 0x20 || n == 0x85 || n == 0xa0 || n == 0x1680 || (0x2000 <= n
        && n <= 0x200a) || n == 0x2028 || n == 0x2029 || n == 0x202f || n == 0x205f || n == 0x3000
}

/// `s` without the white space that it starts with.
pub open spec fn trim_start(s: Seq<char>) -> Seq<char>
    decreases s.len(),
{
    if s.len() > 0 && white_space(s[0]) {
        trim_start(s.drop_first())
    } else {
        s
    }
}

/// `s` without the white space that it ends with.
pub open spec fn trim_end(s: Seq<char>) -> Seq<char>
    decreases s.len(),
{
    if s.len() > 0 && white_space(s.last()) {
        trim_end(s.drop_last())
    } else {
        s
    }
}

/// `s` without the white space at its two ends.
pub open spec fn trim(s: Seq<char>) -> Seq<char> {
    trim_end(trim_start(s))
}

/// What stands between the spaces of `s`, in order. Two spaces side by side have an empty word
/// between them, and the empty text is one empty word.
pub open spec fn words(s: Seq<char>) -> Seq<Seq<char>>
    decreases s.len(),
{
    if s.len() == 0 {
        seq![Seq::empty()]
    } else {
        let before = words(s.drop_last());
        if s.last() == ' ' {
            before.push(Seq::empty())
        } else {
            before.drop_last().push(before.last().push(s.last()))
        }
    }
}

/// The words put back together, with one space between each two.
pub open spec fn join_words(ws: Seq<Seq<char>>) -> Seq<char>
    decreases ws.len(),
{
    if ws.len() == 0 {
        Seq::empty()
    } else if ws.len() == 1 {
        ws[0]
    } else {
        join_words(ws.drop_last()).push(' ') + ws.last()
    }
}

pub open spec fn is_digit(c: char) -> bool {
    '0' as u32 <= c as u32 <= '9' as u32
}

/// The number that a run of decimal digits stands for.
pub open spec fn digits_value(s: Seq<char>) -> nat
    decreases s.len(),
{
    if s.len() == 0 {
        0
    } else {
        10 * digits_value(s.drop_last()) + (s.last() as u32 - '0' as u32) as nat
    }
}

/// `s` without the plus sign that it may start with.
pub open spec fn unsigned_part(s: Seq<char>) -> Seq<char> {
    if s.len() > 0 && s[0] == '+' {
        s.drop_first()
    } else {
        s
    }
}

/// The `u64` that `s` spells: an optional plus sign, then one or more decimal digits and nothing
/// else, of a value that fits.
pub open spec fn read_u64(s: Seq<char>) -> Option<u64> {
    let d = unsigned_part(s);
    if d.len() > 0 && (forall|i: int| 0 <= i < d.len() ==> is_digit(#[trigger] d[i]))
        && digits_value(d) <= u64::MAX {
        Some(digits_value(d) as u64)
    } else {
        None
    }
}

pub open spec fn digit_char(d: nat) -> char {
    ('0' as u32 + d) as char
}

/// `n` in decimal, without leading zeros.
pub open spec fn decimal(n: nat) -> Seq<char>
    decreases n,
{
    if n < 10 {
        seq![digit_char(n)]
    } else {
        decimal(n / 10).push(digit_char(n % 10))
    }
}

/// The characters of `s`.
pub fn chars_of(s: &str) -> (v: Vec<char>)
    ensures
        v@ == s@,
{
    let mut v: Vec<char> = Vec::new();
    for c in it: s.chars()
        invariant
            it.seq() == s@,
            v@ == it.seq().take(it.index() as int),
    {
        v.push(c);
    }
    v
}

/// `s` without the white space at its two ends.
pub fn trimmed(s: &str) -> (r: String)
    ensures
        r@ == trim(s@),
{
    let chars: Vec<char> = chars_of(s);
    let n: usize = chars.len();
    let mut from: usize = 0;
    assert(s@.skip(0) =~= s@);
    while from < n && is_white_space(chars[from])
        invariant
            chars@ == s@,
            n == s@.len(),
            from <= n,
            trim_start(s@) == trim_start(s@.skip(from as int)),
        decreases n - from,
    {
        assert(s@.skip(from as int).drop_first() =~= s@.skip(from + 1));
        from += 1;
    }
    assert(trim_start(s@) == s@.skip(from as int));
    let mut to: usize = n;
    assert(s@.skip(from as int) =~= s@.subrange(from as int, to as int));
    while to > from && is_white_space(chars[to - 1])
        invariant
            chars@ == s@,
            n == s@.len(),
            from <= to <= n,
            trim(s@) == trim_end(s@.subrange(from as int, to as int)),
        decreases to,
    {
        assert(s@.subrange(from as int, to as int).drop_last() =~= s@.subrange(
            from as int,
            to - 1,
        ));
        to -= 1;
    }
    s.substring_char(from, to).to_owned()
}

pub open spec fn texts(v: Seq<String>) -> Seq<Seq<char>> {
    v.map_values(|s: String| s@)
}

/// The words of `s`.
pub fn split_words(s: &str) -> (r: Vec<String>)
    ensures
        texts(r@) == words(s@),
{
    let chars: Vec<char> = chars_of(s);
    let n: usize = chars.len();
    let mut done: Vec<String> = Vec::new();
    let mut start: usize = 0;
    let mut i: usize = 0;
    assert(s@.subrange(0, 0) =~= Seq::<char>::empty());
    assert(words(s@.take(0)) =~= texts(done@).push(s@.subrange(0, 0)));
    while i < n
        invariant
            chars@ == s@,
            n == s@.len(),
            start <= i <= n,
            words(s@.take(i as int)) == texts(done@).push(s@.subrange(start as int, i as int)),
        decreases n - i,
    {
        let ghost before = texts(done@);
        let ghost word = s@.subrange(start as int, i as int);
        assert(s@.take(i + 1).drop_last() =~= s@.take(i as int));
        if chars[i] == ' ' {
            done.push(s.substring_char(start, i).to_owned());
            start = i + 1;
            assert(texts(done@) =~= before.push(word));
            assert(s@.subrange(start as int, i + 1) =~= Seq::<char>::empty());
        } else {
            assert(before.push(word).drop_last() =~= before);
            assert(s@.subrange(start as int, i + 1) =~= word.push(s@[i as int]));
        }
        i += 1;
    }
    let ghost before = texts(done@);
    done.push(s.substring_char(start, n).to_owned());
    assert(s@.take(n as int) =~= s@);
    assert(texts(done@) =~= before.push(s@.subrange(start as int, n as int)));
    done
}

proof fn lemma_digits_value_grows(s: Seq<char>, i: int)
    requires
        0 <= i <= s.len(),
        forall|k: int| 0 <= k < s.len() ==> is_digit(#[trigger] s[k]),
    ensures
        digits_value(s.take(i)) <= digits_value(s),
    decreases s.len(),
{
    if i == s.len() {
        assert(s.take(i) =~= s);
    } else {
        assert(s.drop_last().take(i) =~= s.take(i));
        lemma_digits_value_grows(s.drop_last(), i);
    }
}

/// Reads a `u64` as text spells it.
pub fn parse_u64(s: &str) -> (r: Option<u64>)
    ensures
        r == read_u64(s@),
{
    let chars: Vec<char> = chars_of(s);
    let n: usize = chars.len();
    let start: usize = if n > 0 && chars[0] == '+' {
        1
    } else {
        0
    };
    let ghost d = unsigned_part(s@);
    assert(d =~= s@.skip(start as int));
    if start == n {
        return None;
    }
    let mut value: u64 = 0;
    let mut i: usize = start;
    while i < n
        invariant
            chars@ == s@,
            n == s@.len(),
            start <= i <= n,
            start < n,
            d == s@.skip(start as int),
            d == unsigned_part(s@),
            forall|k: int| 0 <= k < i - start ==> is_digit(#[trigger] d[k]),
            value == digits_value(d.take(i - start)),
        decreases n - i,
    {
        let c: u32 = chars[i] as u32;
        assert(c == d[i - start] as u32);
        if c < '0' as u32 || c > '9' as u32 {
            assert(!is_digit(d[i - start]));
            return None;
        }
        let digit: u64 = (c - '0' as u32) as u64;
        let ghost next = d.take(i - start + 1);
        assert(next.drop_last() =~= d.take(i - start));
        assert(digits_value(next) == 10 * value + digit);
        if value > u64::MAX / 10 || value * 10 > u64::MAX - digit {
            proof {
                if forall|k: int| 0 <= k < d.len() ==> is_digit(#[trigger] d[k]) {
                    lemma_digits_value_grows(d, i - start + 1);
                }
            }
            return None;
        }
        value = value * 10 + digit;
        i += 1;
    }
    assert(d.take(n - start) =~= d);
    Some(value)
}

fn digit_text(d: u64) -> (s: &'static str)
    requires
        d < 10,
    ensures
        s@ == seq![digit_char(d as nat)],
{
    proof {
        reveal_strlit("0");
        reveal_strlit("1");
        reveal_strlit("2");
        reveal_strlit("3");
        reveal_strlit("4");
        reveal_strlit("5");
        reveal_strlit("6");
        reveal_strlit("7");
        reveal_strlit("8");
        reveal_strlit("9");
    }
    if d == 0 {
        "0"
    } else if d == 1 {
        "1"
    } else if d == 2 {
        "2"
    } else if d == 3 {
        "3"
    } else if d == 4 {
        "4"
    } else if d == 5 {
        "5"
    } else if d == 6 {
        "6"
    } else if d == 7 {
        "7"
    } else if d == 8 {
        "8"
    } else {
        "9"
    }
}

/// Appends `n` in decimal.
pub fn push_decimal(out: &mut String, n: u64)
    ensures
        final(out)@ == old(out)@ + decimal(n as nat),
    decreases n,
{
    if n >= 10 {
        push_decimal(out, n / 10);
    }
    out.append(digit_text(n % 10));
}

/// A number in decimal is a run of digits of that value.
pub proof fn lemma_decimal_digits(n: nat)
    ensures
        decimal(n).len() > 0,
        forall|i: int| 0 <= i < decimal(n).len() ==> is_digit(#[trigger] decimal(n)[i]),
        digits_value(decimal(n)) == n,
    decreases n,
{
    if n < 10 {
        assert(decimal(n).drop_last() =~= Seq::<char>::empty());
        assert(digits_value(Seq::<char>::empty()) == 0);
    } else {
        lemma_decimal_digits(n / 10);
        assert(decimal(n).drop_last() =~= decimal(n / 10));
    }
}

/// A number written in decimal reads back as itself.
pub proof fn law_decimal_reads_back(n: u64)
    ensures
        read_u64(decimal(n as nat)) == Some(n),
{
    lemma_decimal_digits(n as nat);
    assert(is_digit(decimal(n as nat)[0]));
    assert(unsigned_part(decimal(n as nat)) == decimal(n as nat));
}

/// Splitting a text into words loses nothing: no word holds a space, and the words with single
/// spaces between them are the text again.
pub proof fn law_words_join_back(s: Seq<char>)
    ensures
        words(s).len() >= 1,
        forall|i: int| 0 <= i < words(s).len() ==> !(#[trigger] words(s)[i]).contains(' '),
        join_words(words(s)) == s,
    decreases s.len(),
{
    if s.len() == 0 {
        assert(join_words(words(s)) =~= s);
    } else {
        let before = words(s.drop_last());
        let c = s.last();
        law_words_join_back(s.drop_last());
        assert(s =~= s.drop_last().push(c));
        let now = words(s);
        if c == ' ' {
            assert(now.drop_last() =~= before);
            assert(join_words(now) =~= join_words(before).push(' '));
        } else {
            assert(now.drop_last() =~= before.drop_last());
            assert(join_words(now) =~= join_words(before).push(c));
            assert forall|i: int| 0 <= i < now.len() implies !(#[trigger] now[i]).contains(' ') by {
                if i < now.len() - 1 {
                    assert(now[i] == before[i]);
                } else {
                    assert(now[i] == before.last().push(c));
                    assert(!before[before.len() - 1].contains(' '));
                    if now[i].contains(' ') {
                        let k = choose|k: int| 0 <= k < now[i].len() && now[i][k] == ' ';
                        assert(before.last()[k] == ' ');
                    }
                }
            }
        }
    }
}

/// Whether a text is white space and nothing else.
pub open spec fn blank(s: Seq<char>) -> bool {
    forall|i: int| 0 <= i < s.len() ==> white_space(#[trigger] s[i])
}

/// Whether a text neither starts nor ends with white space.
pub open spec fn tight(s: Seq<char>) -> bool {
    s.len() > 0 ==> !white_space(s[0]) && !white_space(s[s.len() - 1])
}

proof fn lemma_trim_start(before: Seq<char>, s: Seq<char>)
    requires
        blank(before),
        s.len() > 0 ==> !white_space(s[0]),
    ensures
        trim_start(before + s) == s,
    decreases before.len(),
{
    if before.len() == 0 {
        assert(before + s =~= s);
    } else {
        assert((before + s).drop_first() =~= before.drop_first() + s);
        assert forall|i: int| 0 <= i < before.drop_first().len() implies white_space(
            #[trigger] before.drop_first()[i],
        ) by {
            assert(before.drop_first()[i] == before[i + 1]);
        }
        assert(white_space(before[0]));
        assert((before + s)[0] == before[0]);
        lemma_trim_start(before.drop_first(), s);
    }
}

proof fn lemma_trim_end(s: Seq<char>, after: Seq<char>)
    requires
        blank(after),
        s.len() > 0 ==> !white_space(s[s.len() - 1]),
    ensures
        trim_end(s + after) == s,
    decreases after.len(),
{
    if after.len() == 0 {
        assert(s + after =~= s);
    } else {
        assert((s + after).drop_last() =~= s + after.drop_last());
        assert(white_space(after[after.len() - 1]));
        lemma_trim_end(s, after.drop_last());
    }
}

/// Trimming takes away the white space around a text, all of it, and nothing else.
pub proof fn law_trim_takes_the_white_space_around(
    before: Seq<char>,
    s: Seq<char>,
    after: Seq<char>,
)
    requires
        blank(before),
        blank(after),
        tight(s),
    ensures
        trim(before + s + after) == s,
{
    if s.len() > 0 {
        assert(before + s + after =~= before + (s + after));
        lemma_trim_start(before, s + after);
        lemma_trim_end(s, after);
    } else {
        let all = before + s + after;
        assert forall|i: int| 0 <= i < all.len() implies white_space(#[trigger] all[i]) by {
            if i < before.len() {
                assert(all[i] == before[i]);
            } else {
                assert(all[i] == after[i - before.len()]);
            }
        }
        assert(all + s =~= all);
        lemma_trim_start(all, s);
        assert(s =~= Seq::empty());
    }
}

/// How a number is read, character by character: a digit stands for itself, with a plus sign before
/// it or without; each further digit makes ten times the number and itself of it, as long as that
/// fits into 64 bits; and with any other character behind it, nothing is a number.
pub proof fn law_numbers_are_read_by_digits(s: Seq<char>, c: char)
    ensures
        read_u64(Seq::empty()) is None,
        read_u64(seq!['+']) is None,
        !('0' <= c <= '9') ==> read_u64(s.push(c)) is None,
        '0' <= c <= '9' ==> read_u64(seq![c]) == Some((c as u32 - '0' as u32) as u64),
        '0' <= c <= '9' ==> read_u64(seq!['+', c]) == Some((c as u32 - '0' as u32) as u64),
        '0' <= c <= '9' && s.len() > 0 && s != seq!['+'] ==> read_u64(s.push(c)) == (
        match read_u64(s) {
            Some(n) => {
                let next = 10 * n + (c as u32 - '0' as u32);
                if next <= u64::MAX {
                    Some(next as u64)
                } else {
                    None
                }
            },
            None => None,
        }),
{
    let d = unsigned_part(s);
    let t = s.push(c);
    let e = unsigned_part(t);
    assert(unsigned_part(seq!['+']) =~= Seq::empty());
    assert(digits_value(Seq::<char>::empty()) == 0);
    if !('0' <= c <= '9') {
        if e.len() > 0 {
            assert(e[e.len() - 1] == c);
            assert(!is_digit(e[e.len() - 1]));
        }
    } else {
        let one = seq![c];
        assert(unsigned_part(one) == one);
        assert(one.drop_last() =~= Seq::<char>::empty());
        assert(digits_value(one) == (c as u32 - '0' as u32) as nat);
        assert(unsigned_part(seq!['+', c]) =~= one);
        assert forall|i: int| 0 <= i < one.len() implies is_digit(#[trigger] one[i]) by {}
        if s.len() > 0 && s != seq!['+'] {
            if s[0] == '+' {
                assert(s.len() > 1) by {
                    if s.len() == 1 {
                        assert(s =~= seq!['+']);
                    }
                }
            }
            assert(t[0] == s[0]);
            assert(e =~= d.push(c));
            assert(e.drop_last() =~= d);
            assert(digits_value(e) == 10 * digits_value(d) + (c as u32 - '0' as u32) as nat);
            if forall|i: int| 0 <= i < e.len() ==> is_digit(#[trigger] e[i]) {
                assert forall|i: int| 0 <= i < d.len() implies is_digit(#[trigger] d[i]) by {
                    assert(d[i] == e[i]);
                }
            }
            if forall|i: int| 0 <= i < d.len() ==> is_digit(#[trigger] d[i]) {
                assert forall|i: int| 0 <= i < e.len() implies is_digit(#[trigger] e[i]) by {
                    if i < d.len() {
                        assert(e[i] == d[i]);
                    }
                }
            }
        }
    }
}

/// A number in decimal starts with no zero, unless it is zero.
pub proof fn law_decimal_has_no_leading_zero(n: nat)
    ensures
        decimal(n).len() > 0,
        decimal(n)[0] == '0' ==> n == 0 && decimal(n).len() == 1,
    decreases n,
{
    if n >= 10 {
        law_decimal_has_no_leading_zero(n / 10);
    }
}

} // verus!
