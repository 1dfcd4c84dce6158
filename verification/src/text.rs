//! Numbers as text, and text as words and numbers.

use vstd::prelude::*;

verus! {

/// The character of a decimal digit.
pub open spec fn digit_char(d: nat) -> char {
    (48 + d) as char
}

/// A number in decimal notation.
pub open spec fn decimal(n: nat) -> Seq<char>
    decreases n,
{
    if n < 10 {
        seq![digit_char(n)]
    } else {
        decimal(n / 10).push(digit_char(n % 10))
    }
}

/// A number in decimal notation, with a sign if it is negative.
pub open spec fn signed_decimal(n: int) -> Seq<char> {
    if n < 0 {
        seq!['-'] + decimal((-n) as nat)
    } else {
        decimal(n as nat)
    }
}

/// The words for truth values.
pub open spec fn bool_text(b: bool) -> Seq<char> {
    if b {
        "true"@
    } else {
        "false"@
    }
}

fn digit_str(d: u64) -> (s: &'static str)
    requires
        d < 10,
    ensures
        s@ == seq![digit_char(d as nat)],
{
    proof {
        reveal_strlit("0");
        reveal_strlit("1");
        reveal_strlit("2");
        reveal_strlit("3");
        reveal_strlit("4");
        reveal_strlit("5");
        reveal_strlit("6");
        reveal_strlit("7");
        reveal_strlit("8");
        reveal_strlit("9");
    }
    let s = match d {
        0 => "0",
        1 => "1",
        2 => "2",
        3 => "3",
        4 => "4",
        5 => "5",
        6 => "6",
        7 => "7",
        8 => "8",
        _ => "9",
    };
    assert(s@ =~= seq![digit_char(d as nat)]);
    s
}

/// Appends a number.
pub fn push_u64(s: &mut String, n: u64)
    ensures
        final(s)@ == old(s)@ + decimal(n as nat),
    decreases n,
{
    if n < 10 {
        s.append(digit_str(n));
    } else {
        push_u64(s, n / 10);
        s.append(digit_str(n % 10));
        assert(s@ =~= old(s)@ + decimal((n / 10) as nat).push(digit_char((n % 10) as nat)));
    }
}

/// Appends a number that may be negative.
pub fn push_i64(s: &mut String, n: i64)
    ensures
        final(s)@ == old(s)@ + signed_decimal(n as int),
{
    if n < 0 {
        proof {
            reveal_strlit("-");
            assert("-"@ =~= seq!['-']);
        }
        s.append("-");
        push_u64(s, negated(n));
        assert(s@ =~= old(s)@ + (seq!['-'] + decimal((-n) as nat)));
    } else {
        push_u64(s, n as u64);
    }
}

/// The magnitude of a negative number.
pub fn negated(n: i64) -> (m: u64)
    requires
        n < 0,
    ensures
        m == -n,
{
    (-(n + 1)) as u64 + 1
}

/// Appends a truth value.
pub fn push_bool(s: &mut String, b: bool)
    ensures
        final(s)@ == old(s)@ + bool_text(b),
{
    if b {
        s.append("true");
    } else {
        s.append("false");
    }
}

// ---------------------------------------------------------------------------
// Words
// ---------------------------------------------------------------------------

/// The characters that separate words: those with the Unicode property
/// `White_Space`.
pub open spec fn is_blank(c: char) -> bool {
    let n = c as u32;
    ||| 9 <= n <= 13
    ||| n == 0x20
    ||| n == 0x85
    ||| n == 0xa0
    ||| n == 0x1680
    ||| 0x2000 <= n <= 0x200a
    ||| n == 0x2028
    ||| n == 0x2029
    ||| n == 0x202f
    ||| n == 0x205f
    ||| n == 0x3000
}

/// How many characters at the front of `s` are not blank.
pub open spec fn word_len(s: Seq<char>) -> nat
    decreases s.len(),
{
    if s.len() == 0 || is_blank(s[0]) {
        0
    } else {
        1 + word_len(s.skip(1))
    }
}

/// The words of a text: its longest parts without blanks.
pub open spec fn words(s: Seq<char>) -> Seq<Seq<char>>
    decreases s.len(),
{
    if s.len() == 0 {
        Seq::empty()
    } else if is_blank(s[0]) {
        words(s.skip(1))
    } else {
        proof {
            lemma_word_len(s);
        }
        let n = word_len(s);
        seq![s.take(n as int)] + words(s.skip(n as int))
    }
}

/// A word is no longer than the text.
pub proof fn lemma_word_len(s: Seq<char>)
    ensures
        word_len(s) <= s.len(),
    decreases s.len(),
{
    if s.len() > 0 && !is_blank(s[0]) {
        lemma_word_len(s.skip(1));
    }
}

fn blank(c: char) -> (b: bool)
    ensures
        b == is_blank(c),
{
    let n: u32 = c as u32;
    (9 <= n && n <= 13) || n == 0x20 || n == 0x85 || n == 0xa0 || n == 0x1680 || (0x2000 <= n && n
        <= 0x200a) || n == 0x2028 || n == 0x2029 || n == 0x202f || n == 0x205f || n == 0x3000
}

/// The characters of a text.
pub fn chars_of(s: &str) -> (v: Vec<char>)
    ensures
        v@ == s@,
{
    let mut v: Vec<char> = Vec::new();
    for c in it: s.chars()
        invariant
            v@ == it.seq().take(it.index()),
            it.seq() == s@,
    {
        v.push(c);
        assert(it.seq().take(it.index() + 1) =~= it.seq().take(it.index()).push(c));
    }
    assert(v@ =~= s@);
    v
}

/// Where the first word of `s` from `from` on begins and ends.
pub fn next_word(s: &Vec<char>, from: usize) -> (r: Option<(usize, usize)>)
    requires
        from <= s@.len(),
    ensures
        r is None ==> words(s@.skip(from as int)).len() == 0,
        r matches Some(w) ==> {
            &&& from <= w.0 < w.1 <= s@.len()
            &&& words(s@.skip(from as int)) == seq![s@.subrange(w.0 as int, w.1 as int)] + words(
                s@.skip(w.1 as int),
            )
        },
{
    let mut a: usize = from;
    while a < s.len() && blank(s[a])
        invariant
            from <= a <= s@.len(),
            words(s@.skip(from as int)) == words(s@.skip(a as int)),
        decreases s@.len() - a,
    {
        assert(s@.skip(a as int).skip(1) =~= s@.skip(a + 1));
        a = a + 1;
    }
    if a == s.len() {
        return None;
    }
    let mut b: usize = a;
    while b < s.len() && !blank(s[b])
        invariant
            a <= b <= s@.len(),
            word_len(s@.skip(a as int)) == b - a + word_len(s@.skip(b as int)),
        decreases s@.len() - b,
    {
        assert(s@.skip(b as int).skip(1) =~= s@.skip(b + 1));
        b = b + 1;
    }
    proof {
        let rest = s@.skip(a as int);
        assert(word_len(rest) == b - a);
        assert(rest.take(b - a) =~= s@.subrange(a as int, b as int));
        assert(rest.skip(b - a) =~= s@.skip(b as int));
    }
    Some((a, b))
}

/// Whether a part of `s` is the text `t`.
fn part_is(s: &Vec<char>, from: usize, to: usize, t: &Vec<char>) -> (b: bool)
    requires
        from <= to <= s@.len(),
    ensures
        b == (s@.subrange(from as int, to as int) == t@),
{
    if to - from != t.len() {
        assert(s@.subrange(from as int, to as int).len() != t@.len());
        return false;
    }
    for i in 0..t.len()
        invariant
            from <= to <= s@.len(),
            to - from == t@.len(),
            forall|k: int| 0 <= k < i ==> s@[from + k] == #[trigger] t@[k],
    {
        if s[from + i] != t[i] {
            assert(s@.subrange(from as int, to as int)[i as int] == s@[from + i]);
            return false;
        }
    }
    assert(s@.subrange(from as int, to as int) =~= t@);
    true
}

/// Whether `word` is one of the words of `line`.
pub fn has_word(line: &str, word: &str) -> (b: bool)
    ensures
        b == words(line@).contains(word@),
{
    let s = chars_of(line);
    let t = chars_of(word);
    let mut from: usize = 0;
    assert(s@.skip(0) =~= s@);
    loop
        invariant
            from <= s@.len(),
            s@ == line@,
            t@ == word@,
            words(line@).contains(word@) == words(s@.skip(from as int)).contains(word@),
        decreases s@.len() - from,
    {
        let ghost ahead = words(s@.skip(from as int));
        match next_word(&s, from) {
            None => {
                return false;
            },
            Some((a, b)) => {
                let ghost first = s@.subrange(a as int, b as int);
                let ghost rest = words(s@.skip(b as int));
                if part_is(&s, a, b, &t) {
                    assert(ahead[0] == word@);
                    return true;
                }
                proof {
                    if rest.contains(word@) {
                        let k = choose|k: int| 0 <= k < rest.len() && rest[k] == word@;
                        assert(ahead[k + 1] == word@);
                    }
                    if ahead.contains(word@) {
                        let k = choose|k: int| 0 <= k < ahead.len() && ahead[k] == word@;
                        assert(ahead[0] == first);
                        assert(rest[k - 1] == word@);
                    }
                }
                from = b;
            },
        }
    }
}

// ---------------------------------------------------------------------------
// Numbers
// ---------------------------------------------------------------------------

/// A decimal digit.
pub open spec fn is_digit(c: char) -> bool {
    48 <= c as u32 <= 57
}

/// The number that digits stand for.
pub open spec fn number(s: Seq<char>) -> nat
    decreases s.len(),
{
    if s.len() == 0 {
        0
    } else {
        number(s.drop_last()) * 10 + (s.last() as u32 - 48) as nat
    }
}

/// Nothing but digits.
pub open spec fn all_digits(s: Seq<char>) -> bool {
    forall|i: int| 0 <= i < s.len() ==> is_digit(#[trigger] s[i])
}

/// A text without a plus sign at its front.
pub open spec fn without_plus(s: Seq<char>) -> Seq<char> {
    if s.len() > 0 && s[0] == '+' {
        s.skip(1)
    } else {
        s
    }
}

/// The number that a text stands for: digits, a plus sign before them at most.
pub open spec fn unsigned(s: Seq<char>) -> Option<nat> {
    let digits = without_plus(s);
    if digits.len() > 0 && all_digits(digits) {
        Some(number(digits))
    } else {
        None
    }
}

/// The number that a text stands for, if it is one of 32 bits.
pub open spec fn unsigned_32(s: Seq<char>) -> Option<u32> {
    match unsigned(s) {
        Some(n) => if n <= u32::MAX {
            Some(n as u32)
        } else {
            None
        },
        None => None,
    }
}

/// Reads a number of 32 bits from a part of `s`.
pub fn parse_u32(s: &Vec<char>, from: usize, to: usize) -> (r: Option<u32>)
    requires
        from <= to <= s@.len(),
    ensures
        r == unsigned_32(s@.subrange(from as int, to as int)),
{
    let ghost part = s@.subrange(from as int, to as int);
    let start: usize = if from < to && s[from] == '+' {
        from + 1
    } else {
        from
    };
    let ghost digits = s@.subrange(start as int, to as int);
    proof {
        if start > from {
            assert(digits =~= part.skip(1));
        } else if from < to {
            assert(part[0] == s@[from as int]);
        }
        assert(digits == without_plus(part));
    }
    if start == to {
        return None;
    }
    let mut n: u64 = 0;
    let mut i: usize = start;
    let mut small: bool = true;
    assert(digits.take(0) =~= Seq::empty());
    while i < to
        invariant
            start <= i <= to <= s@.len(),
            start < to,
            digits == s@.subrange(start as int, to as int),
            part == s@.subrange(from as int, to as int),
            digits == without_plus(part),
            forall|k: int| 0 <= k < i - start ==> is_digit(#[trigger] digits[k]),
            small ==> n == number(digits.take(i - start)) && n <= u32::MAX,
            !small ==> number(digits.take(i - start)) > u32::MAX,
        decreases to - i,
    {
        let c: u32 = s[i] as u32;
        proof {
            assert(digits[i - start] == s@[i as int]);
            assert(digits.take(i - start + 1).drop_last() =~= digits.take(i - start));
        }
        if c < 48 || c > 57 {
            assert(!is_digit(digits[i - start]));
            return None;
        }
        if small {
            n = n * 10 + (c - 48) as u64;
            if n > u32::MAX as u64 {
                small = false;
            }
        }
        i = i + 1;
    }
    assert(digits.take(digits.len() as int) =~= digits);
    if small {
        Some(n as u32)
    } else {
        None
    }
}

// ---------------------------------------------------------------------------
// Laws
// ---------------------------------------------------------------------------

/// A number in decimal notation is read back as that number, with or without a
/// plus sign. It has no leading zero.
pub proof fn law_decimal_is_read_back(n: nat)
    ensures
        decimal(n).len() > 0,
        all_digits(decimal(n)),
        number(decimal(n)) == n,
        n > 0 ==> decimal(n)[0] != '0',
        n < 10 ==> decimal(n).len() == 1,
        unsigned(decimal(n)) == Some(n),
        unsigned(seq!['+'] + decimal(n)) == Some(n),
    decreases n,
{
    let s = decimal(n);
    if n < 10 {
        assert(s.drop_last() =~= Seq::empty());
        assert(number(s.drop_last()) == 0);
        assert(s.last() == digit_char(n));
    } else {
        law_decimal_is_read_back(n / 10);
        assert(s.drop_last() =~= decimal(n / 10));
        assert(s.last() == digit_char(n % 10));
        assert(s[0] == decimal(n / 10)[0]);
    }
    assert(is_digit(s[0]));
    assert((seq!['+'] + s).skip(1) =~= s);
}

/// Signs: negative numbers have one, others have none.
pub proof fn law_negative_numbers_are_signed(n: int)
    ensures
        n < 0 ==> signed_decimal(n) == seq!['-'] + decimal((0 - n) as nat),
        n >= 0 ==> signed_decimal(n) == decimal(n as nat),
        n < 0 <==> signed_decimal(n)[0] == '-',
{
    if n >= 0 {
        law_decimal_is_read_back(n as nat);
        assert(is_digit(decimal(n as nat)[0]));
    }
}

/// Which texts are numbers: some digits, with one plus sign before them at most.
/// Those of 32 bits are those that fit.
pub proof fn law_numbers_are_digits(s: Seq<char>)
    ensures
        unsigned(s) is Some <==> {
            ||| s.len() > 0 && forall|i: int| 0 <= i < s.len() ==> 48 <= (#[trigger] s[i]) as u32 <= 57
            ||| s.len() > 1 && s[0] == '+' && forall|i: int|
                1 <= i < s.len() ==> 48 <= (#[trigger] s[i]) as u32 <= 57
        },
        unsigned_32(s) is Some <==> unsigned(s) is Some && unsigned(s)->0 <= 4_294_967_295,
        unsigned_32(s) matches Some(n) ==> unsigned(s) == Some(n as nat),
{
    if s.len() > 0 && s[0] == '+' {
        let rest = s.skip(1);
        assert(!is_digit(s[0]));
        assert forall|i: int| 1 <= i < s.len() implies s[i] == #[trigger] rest[i - 1] by {}
        if all_digits(rest) {
            assert forall|i: int| 1 <= i < s.len() implies 48 <= (#[trigger] s[i]) as u32 <= 57 by {
                assert(is_digit(rest[i - 1]));
            }
        }
        if forall|i: int| 1 <= i < s.len() ==> 48 <= (#[trigger] s[i]) as u32 <= 57 {
            assert forall|i: int| 0 <= i < rest.len() implies is_digit(#[trigger] rest[i]) by {
                assert(48 <= s[i + 1] as u32 <= 57);
            }
        }
    } else if all_digits(s) {
        assert forall|i: int| 0 <= i < s.len() implies 48 <= (#[trigger] s[i]) as u32 <= 57 by {
            assert(is_digit(s[i]));
        }
    }
}

/// Words are what blanks separate: the words of two texts with a blank between
/// them are those of the one and then those of the other, and a text without
/// blanks is one word. Spaces and tabs are blanks; letters, digits and signs are
/// not.
pub proof fn law_words_are_split_at_blanks(a: Seq<char>, b: Seq<char>, c: char)
    ensures
        words(Seq::empty()).len() == 0,
        is_blank(c) ==> words(a + seq![c] + b) == words(a) + words(b),
        (a.len() > 0 && forall|i: int| 0 <= i < a.len() ==> !is_blank(#[trigger] a[i])) ==> words(a)
            == seq![a],
        9 <= c as u32 <= 13 || c == ' ' ==> is_blank(c),
        33 <= c as u32 <= 126 ==> !is_blank(c),
{
    if is_blank(c) {
        lemma_words_split(a, b, c);
    }
    if a.len() > 0 && forall|i: int| 0 <= i < a.len() ==> !is_blank(#[trigger] a[i]) {
        lemma_whole_word(a, Seq::empty());
        assert(a + Seq::empty() =~= a);
        assert(a.take(a.len() as int) =~= a);
        assert(a.skip(a.len() as int) =~= Seq::empty());
        assert(words(a.skip(a.len() as int)) =~= Seq::empty());
        assert(words(a) =~= seq![a]);
    }
}

/// A word ends at the first blank.
proof fn lemma_whole_word(a: Seq<char>, more: Seq<char>)
    requires
        forall|i: int| 0 <= i < a.len() ==> !is_blank(#[trigger] a[i]),
        more.len() > 0 ==> is_blank(more[0]),
    ensures
        word_len(a + more) == a.len(),
    decreases a.len(),
{
    let all = a + more;
    if a.len() == 0 {
        assert(all =~= more);
    } else {
        assert(all[0] == a[0]);
        assert(all.skip(1) =~= a.skip(1) + more);
        lemma_whole_word(a.skip(1), more);
    }
}

/// What stands behind a blank has no part in the word before it.
proof fn lemma_word_len_ahead(a: Seq<char>, b: Seq<char>, c: char)
    requires
        is_blank(c),
    ensures
        word_len(a + seq![c] + b) == word_len(a),
    decreases a.len(),
{
    let all = a + seq![c] + b;
    if a.len() == 0 {
        assert(all[0] == c);
    } else {
        assert(all[0] == a[0]);
        if !is_blank(a[0]) {
            assert(all.skip(1) =~= a.skip(1) + seq![c] + b);
            lemma_word_len_ahead(a.skip(1), b, c);
        }
    }
}

proof fn lemma_words_split(a: Seq<char>, b: Seq<char>, c: char)
    requires
        is_blank(c),
    ensures
        words(a + seq![c] + b) == words(a) + words(b),
    decreases a.len(),
{
    let all = a + seq![c] + b;
    if a.len() == 0 {
        assert(all[0] == c);
        assert(all.skip(1) =~= b);
        assert(words(a) + words(b) =~= words(b));
    } else {
        assert(all[0] == a[0]);
        if is_blank(a[0]) {
            assert(all.skip(1) =~= a.skip(1) + seq![c] + b);
            lemma_words_split(a.skip(1), b, c);
        } else {
            lemma_word_len_ahead(a, b, c);
            lemma_word_len(a);
            let n = word_len(a) as int;
            assert(all.take(n) =~= a.take(n));
            assert(all.skip(n) =~= a.skip(n) + seq![c] + b);
            lemma_words_split(a.skip(n), b, c);
            assert(words(all) =~= words(a) + words(b));
        }
    }
}

} // verus!
