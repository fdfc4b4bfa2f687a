//! Text as it is written into one field of an exported line: escaping,
//! separator replacement, joining and decimal numbers, each with its
//! mathematical meaning over sequences of characters.

use vstd::prelude::*;
use vstd::string::*;

verus! {

/// What a single character becomes when a text is escaped: a tab widens to
/// eight spaces, a carriage return vanishes, a newline becomes two
/// backslashes, and every other character stays.
pub open spec fn escaped_char(c: char) -> Seq<char> {
    if c == '\t' {
        seq![' ', ' ', ' ', ' ', ' ', ' ', ' ', ' ']
    } else if c == '\r' {
        Seq::empty()
    } else if c == '\n' {
        seq!['\\', '\\']
    } else {
        seq![c]
    }
}

/// The escaped form of a text: the escaped forms of its characters, in order.
pub open spec fn escaped(text: Seq<char>) -> Seq<char>
    decreases text.len(),
{
    if text.len() == 0 {
        Seq::empty()
    } else {
        escaped(text.drop_last()) + escaped_char(text.last())
    }
}

/// A text in which every semicolon has given way to a comma.
pub open spec fn without_semicolons(text: Seq<char>) -> Seq<char> {
    Seq::new(
        text.len(),
        |i: int|
            if text[i] == ';' {
                ','
            } else {
                text[i]
            },
    )
}

/// The texts of a sequence of strings.
pub open spec fn texts(strings: Seq<String>) -> Seq<Seq<char>> {
    Seq::new(strings.len(), |i: int| strings[i]@)
}

/// The parts written one after another with `sep` between neighbours.
pub open spec fn joined(parts: Seq<Seq<char>>, sep: Seq<char>) -> Seq<char>
    decreases parts.len(),
{
    if parts.len() == 0 {
        Seq::empty()
    } else if parts.len() == 1 {
        parts[0]
    } else {
        joined(parts.drop_last(), sep) + sep + parts.last()
    }
}

/// How often the character `c` occurs in a text.
pub open spec fn count_char(text: Seq<char>, c: char) -> nat
    decreases text.len(),
{
    if text.len() == 0 {
        0
    } else {
        count_char(text.drop_last(), c) + if text.last() == c {
            1nat
        } else {
            0nat
        }
    }
}

/// The decimal digit for a number below ten.
pub open spec fn digit_char(d: int) -> char {
    if d == 0 {
        '0'
    } else if d == 1 {
        '1'
    } else if d == 2 {
        '2'
    } else if d == 3 {
        '3'
    } else if d == 4 {
        '4'
    } else if d == 5 {
        '5'
    } else if d == 6 {
        '6'
    } else if d == 7 {
        '7'
    } else if d == 8 {
        '8'
    } else {
        '9'
    }
}

/// The decimal digits of a natural number, most significant first, without
/// leading zeros.
pub open spec fn decimal_digits(n: nat) -> Seq<char>
    decreases n,
{
    if n < 10 {
        seq![digit_char(n as int)]
    } else {
        decimal_digits(n / 10).push(digit_char((n % 10) as int))
    }
}

/// The decimal notation of an integer: a minus sign if it is negative, then
/// the digits of its magnitude.
pub open spec fn decimal_text(n: int) -> Seq<char> {
    if n < 0 {
        seq!['-'] + decimal_digits((-n) as nat)
    } else {
        decimal_digits(n as nat)
    }
}

/// `String::push`: appends one character to the end of the text.
#[verifier::external_body]
fn push_char(text: &mut String, c: char)
    ensures
        final(text)@ == old(text)@.push(c),
{
    text.push(c);
}

/// `Itertools::join` over the strings of `parts`: the result starts with the
/// first string, and each later one follows a copy of `sep`; with no string
/// it is empty. The call reserves `sep.len()` bytes for each string after the
/// first, a product that has to fit in `usize`.
#[verifier::external_body]
pub(crate) fn join(parts: &Vec<String>, sep: &str) -> (out: String)
    requires
        sep.spec_bytes().len() * parts@.len() <= usize::MAX,
    ensures
        out@ == joined(texts(parts@), sep@),
{
    itertools::Itertools::join(&mut parts.iter(), sep)
}

/// Escapes a text so that it stays within one field of one line: each tab
/// becomes eight spaces, each carriage return is dropped and each newline
/// becomes two backslashes.
pub fn clear_tabs(text: &str) -> (out: String)
    ensures
        out@ == escaped(text@),
{
    broadcast use vstd::string::group_string_axioms;

    let mut out = String::new();
    for c in it: text.chars()
        invariant
            it.seq() == text@,
            out@ == escaped(text@.take(it.index())),
    {
        proof {
            reveal_strlit("        ");
            reveal_strlit("\\\\");
            let n = it.index();
            assert(text@.take(n + 1).drop_last() == text@.take(n));
            assert(text@.take(n + 1).last() == c);
        }
        if c == '\t' {
            out.append("        ");
        } else if c == '\r' {
        } else if c == '\n' {
            out.append("\\\\");
        } else {
            push_char(&mut out, c);
        }
    }
    proof {
        assert(text@.take(text@.len() as int) == text@);
    }
    out
}

/// Replaces every semicolon of a text by a comma, so that the text can stand
/// between semicolons.
pub fn replace_semicolons(text: &str) -> (out: String)
    ensures
        out@ == without_semicolons(text@),
{
    broadcast use vstd::string::group_string_axioms;

    let mut out = String::new();
    for c in it: text.chars()
        invariant
            it.seq() == text@,
            out@ == without_semicolons(text@.take(it.index())),
    {
        let ghost n = it.index();
        let kept = if c == ';' {
            ','
        } else {
            c
        };
        push_char(&mut out, kept);
        proof {
            assert(without_semicolons(text@.take(n + 1)) =~= without_semicolons(
                text@.take(n),
            ).push(kept));
        }
    }
    proof {
        assert(text@.take(text@.len() as int) == text@);
    }
    out
}

fn digit(d: u64) -> (c: char)
    requires
        d < 10,
    ensures
        c == digit_char(d as int),
{
    if d == 0 {
        '0'
    } else if d == 1 {
        '1'
    } else if d == 2 {
        '2'
    } else if d == 3 {
        '3'
    } else if d == 4 {
        '4'
    } else if d == 5 {
        '5'
    } else if d == 6 {
        '6'
    } else if d == 7 {
        '7'
    } else if d == 8 {
        '8'
    } else {
        '9'
    }
}

fn push_digits(out: &mut String, n: u64)
    ensures
        final(out)@ == old(out)@ + decimal_digits(n as nat),
    decreases n,
{
    if n >= 10 {
        push_digits(out, n / 10);
    }
    push_char(out, digit(n % 10));
    assert(out@ =~= old(out)@ + decimal_digits(n as nat));
}

/// The decimal notation of `n`.
pub fn decimal(n: i64) -> (out: String)
    ensures
        out@ == decimal_text(n as int),
{
    let mut out = String::new();
    if n < 0 {
        push_char(&mut out, '-');
        let magnitude: u64 = (-(n as i128)) as u64;
        push_digits(&mut out, magnitude);
        proof {
            assert(out@ =~= decimal_text(n as int));
        }
    } else {
        push_digits(&mut out, n as u64);
        proof {
            assert(out@ =~= decimal_text(n as int));
        }
    }
    out
}

/// Whether a character is a decimal digit.
pub open spec fn is_digit(c: char) -> bool {
    exists|d: int| 0 <= d < 10 && c == digit_char(d)
}

/// Occurrences add up over concatenation.
pub proof fn lemma_count_concat(a: Seq<char>, b: Seq<char>, c: char)
    ensures
        count_char(a + b, c) == count_char(a, c) + count_char(b, c),
    decreases b.len(),
{
    if b.len() == 0 {
        assert(a + b =~= a);
    } else {
        assert((a + b).drop_last() =~= a + b.drop_last());
        lemma_count_concat(a, b.drop_last(), c);
    }
}

/// In a text of one character, that character occurs once and no other.
pub proof fn lemma_count_single(x: char, c: char)
    ensures
        count_char(seq![x], c) == if x == c {
            1nat
        } else {
            0nat
        },
{
    reveal_with_fuel(count_char, 2);
    assert(seq![x].drop_last() =~= Seq::<char>::empty());
}

/// A character that stands at no position of a text occurs zero times in it.
pub proof fn lemma_count_absent(text: Seq<char>, c: char)
    requires
        forall|i: int| 0 <= i < text.len() ==> text[i] != c,
    ensures
        count_char(text, c) == 0,
    decreases text.len(),
{
    if text.len() > 0 {
        lemma_count_absent(text.drop_last(), c);
    }
}

/// An escaped text holds no tab, no carriage return and no newline, whatever
/// the text was.
pub proof fn lemma_escaped_stays_in_field(text: Seq<char>)
    ensures
        count_char(escaped(text), '\t') == 0,
        count_char(escaped(text), '\r') == 0,
        count_char(escaped(text), '\n') == 0,
    decreases text.len(),
{
    if text.len() > 0 {
        let head = escaped(text.drop_last());
        let tail = escaped_char(text.last());
        lemma_escaped_stays_in_field(text.drop_last());
        lemma_count_absent(tail, '\t');
        lemma_count_absent(tail, '\r');
        lemma_count_absent(tail, '\n');
        lemma_count_concat(head, tail, '\t');
        lemma_count_concat(head, tail, '\r');
        lemma_count_concat(head, tail, '\n');
    }
}

/// Replacing semicolons leaves none behind, and changes the number of no
/// character other than the semicolon and the comma.
pub proof fn lemma_without_semicolons_counts(text: Seq<char>, c: char)
    ensures
        count_char(without_semicolons(text), ';') == 0,
        c != ';' && c != ',' ==> count_char(without_semicolons(text), c) == count_char(text, c),
    decreases text.len(),
{
    if text.len() > 0 {
        lemma_without_semicolons_counts(text.drop_last(), c);
        assert(without_semicolons(text).drop_last() =~= without_semicolons(text.drop_last()));
    }
}

/// Where no part holds the character `c`, the joined text holds it exactly
/// as often as the separators between the parts do.
pub proof fn lemma_joined_count(parts: Seq<Seq<char>>, sep: Seq<char>, c: char)
    requires
        forall|i: int| 0 <= i < parts.len() ==> count_char(#[trigger] parts[i], c) == 0,
    ensures
        parts.len() == 0 ==> count_char(joined(parts, sep), c) == 0,
        parts.len() > 0 ==> count_char(joined(parts, sep), c) == (parts.len() - 1) * count_char(
            sep,
            c,
        ),
    decreases parts.len(),
{
    let k = count_char(sep, c);
    if parts.len() == 1 {
        assert((parts.len() - 1) * k == 0) by (nonlinear_arith)
            requires
                parts.len() == 1,
        ;
    } else if parts.len() > 1 {
        let front = parts.drop_last();
        lemma_joined_count(front, sep, c);
        lemma_count_concat(joined(front, sep), sep, c);
        lemma_count_concat(joined(front, sep) + sep, parts.last(), c);
        assert((parts.len() - 1) * k == (front.len() - 1) * k + k) by (nonlinear_arith)
            requires
                front.len() == parts.len() - 1,
        ;
    }
}

/// A decimal notation is made of digits and, at most, a minus sign.
pub proof fn lemma_decimal_chars(n: int, c: char)
    requires
        !is_digit(c),
        c != '-',
    ensures
        count_char(decimal_text(n), c) == 0,
{
    if n < 0 {
        lemma_digits_chars((-n) as nat, c);
        lemma_count_absent(seq!['-'], c);
        lemma_count_concat(seq!['-'], decimal_digits((-n) as nat), c);
    } else {
        lemma_digits_chars(n as nat, c);
    }
}

proof fn lemma_digits_chars(n: nat, c: char)
    requires
        !is_digit(c),
    ensures
        count_char(decimal_digits(n), c) == 0,
    decreases n,
{
    if n < 10 {
        assert(is_digit(digit_char(n as int)));
        lemma_count_absent(decimal_digits(n), c);
    } else {
        lemma_digits_chars(n / 10, c);
        assert(is_digit(digit_char((n % 10) as int)));
        assert(decimal_digits(n).drop_last() =~= decimal_digits(n / 10));
    }
}

} // verus!
