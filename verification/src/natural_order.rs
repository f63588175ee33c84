//! Natural ordering of names.
//!
//! A name is cut into maximal runs of digits and of other characters. Two names are
//! compared run by run: two digit runs by the number they write, however long; two
//! other runs as lowercase text; the first pair of runs that differs decides. A name
//! that is a proper prefix of another, run for run, comes first.

use regex::Regex;
use std::cmp::Ordering;
use vstd::prelude::*;
use crate::text::chars_of;
use crate::text::texts;

verus! {

// ---------------------------------------------------------------------------
// Lexicographic order over an order of the elements
// ---------------------------------------------------------------------------

/// -1, 0 or 1 as `x` is below, equal to or above `y`.
pub open spec fn sign_order(x: int, y: int) -> int {
    if x < y {
        -1
    } else if x > y {
        1
    } else {
        0
    }
}

/// `ord` tells of any two elements which comes first (-1 or 1) or that they tie (0),
/// the same way round whichever is asked first, and "comes first or ties" is transitive.
pub open spec fn is_weak_order<T>(ord: spec_fn(T, T) -> int) -> bool {
    &&& forall|x: T, y: T| -1 <= #[trigger] ord(x, y) <= 1
    &&& forall|x: T, y: T| #[trigger] ord(x, y) == -ord(y, x)
    &&& forall|x: T, y: T, z: T| #[trigger]
        ord(x, y) <= 0 && #[trigger] ord(y, z) <= 0 ==> ord(x, z) <= 0
}

/// Compares two sequences position by position with `ord`. The first position at which
/// the elements do not tie decides. Where one sequence ends first and all before tied,
/// the shorter one comes first.
pub open spec fn lex_order<T>(a: Seq<T>, b: Seq<T>, ord: spec_fn(T, T) -> int) -> int
    decreases a.len(),
{
    if a.len() == 0 {
        if b.len() == 0 {
            0
        } else {
            -1
        }
    } else if b.len() == 0 {
        1
    } else if ord(a[0], b[0]) != 0 {
        ord(a[0], b[0])
    } else {
        lex_order(a.drop_first(), b.drop_first(), ord)
    }
}

/// Over a weak order, the comparison of two sequences is a sign, and turns round with
/// the two sequences.
pub proof fn lemma_lex_order_sign<T>(a: Seq<T>, b: Seq<T>, ord: spec_fn(T, T) -> int)
    requires
        is_weak_order(ord),
    ensures
        -1 <= lex_order(a, b, ord) <= 1,
        lex_order(a, b, ord) == -lex_order(b, a, ord),
    decreases a.len(),
{
    if a.len() > 0 && b.len() > 0 {
        lemma_lex_order_sign(a.drop_first(), b.drop_first(), ord);
    }
}

/// Over a weak order, "comes first or ties" is transitive among sequences too.
pub proof fn lemma_lex_order_transitive<T>(
    a: Seq<T>,
    b: Seq<T>,
    c: Seq<T>,
    ord: spec_fn(T, T) -> int,
)
    requires
        is_weak_order(ord),
        lex_order(a, b, ord) <= 0,
        lex_order(b, c, ord) <= 0,
    ensures
        lex_order(a, c, ord) <= 0,
    decreases a.len(),
{
    if a.len() > 0 && b.len() > 0 && c.len() > 0 {
        let ac = ord(a[0], c[0]);
        if ac == 0 {
            // c[0] ties with a[0], so b[0] is caught between the two
            lemma_lex_order_transitive(a.drop_first(), b.drop_first(), c.drop_first(), ord);
        }
    }
}

// ---------------------------------------------------------------------------
// Digit runs as numbers
// ---------------------------------------------------------------------------

/// One of the ten ASCII digits.
pub open spec fn is_digit(c: char) -> bool {
    '0' <= c && c <= '9'
}

/// Every character of `s` is a digit.
pub open spec fn all_digits(s: Seq<char>) -> bool {
    forall|i: int| 0 <= i < s.len() ==> is_digit(#[trigger] s[i])
}

/// The value of a digit; 0 for any other character.
pub open spec fn digit_of(c: char) -> nat {
    if is_digit(c) {
        (c as int - '0' as int) as nat
    } else {
        0
    }
}

/// The number written by `start` followed by the digits `more`, where `start` is the
/// number written so far.
pub open spec fn extend_number(start: nat, more: Seq<char>) -> nat
    decreases more.len(),
{
    if more.len() == 0 {
        start
    } else {
        extend_number(start, more.drop_last()) * 10 + digit_of(more.last())
    }
}

/// The number that a run of decimal digits writes. It has no upper limit.
pub open spec fn digits_value(digits: Seq<char>) -> nat {
    extend_number(0, digits)
}

/// Digits can be written in two goes.
pub proof fn lemma_extend_split(start: nat, a: Seq<char>, b: Seq<char>)
    ensures
        extend_number(start, a + b) == extend_number(extend_number(start, a), b),
    decreases b.len(),
{
    if b.len() > 0 {
        assert((a + b).drop_last() =~= a + b.drop_last());
        lemma_extend_split(start, a, b.drop_last());
    }
}

/// More digits keep the order of what was written before them: of two numbers
/// extended by as many digits each, the smaller one stays the smaller one; and no
/// number gets smaller by more digits.
pub proof fn lemma_extend_monotone(x: nat, y: nat, a: Seq<char>, b: Seq<char>)
    requires
        a.len() == b.len(),
        x <= y,
    ensures
        x < y ==> extend_number(x, a) < extend_number(y, b),
        a == b ==> extend_number(x, a) <= extend_number(y, b),
        extend_number(x, a) >= x,
    decreases a.len(),
{
    if a.len() > 0 {
        lemma_extend_monotone(x, y, a.drop_last(), b.drop_last());
    }
}

/// Zeros at the start write nothing.
proof fn lemma_extend_zeros(x: nat, zeros: Seq<char>)
    requires
        x == 0,
        forall|i: int| 0 <= i < zeros.len() ==> zeros[i] == '0',
    ensures
        extend_number(x, zeros) == 0,
    decreases zeros.len(),
{
    if zeros.len() > 0 {
        lemma_extend_zeros(x, zeros.drop_last());
    }
}

/// Digits that do not begin with a zero write a number that is not zero.
proof fn lemma_extend_first_digit(digits: Seq<char>)
    requires
        digits.len() > 0,
        is_digit(digits[0]),
        digits[0] != '0',
    ensures
        extend_number(0, digits) >= 1,
{
    assert(digits =~= seq![digits[0]] + digits.drop_first());
    lemma_extend_split(0, seq![digits[0]], digits.drop_first());
    let head = seq![digits[0]];
    lemma_extend_monotone(
        extend_number(0, head),
        extend_number(0, head),
        digits.drop_first(),
        digits.drop_first(),
    );
}

/// How many zeros `digits` begins with.
fn leading_zeros(digits: &Vec<char>) -> (n: usize)
    ensures
        n <= digits.len(),
        forall|i: int| 0 <= i < n ==> digits[i] == '0',
        n < digits.len() ==> digits[n as int] != '0',
{
    let mut n: usize = 0;
    while n < digits.len() && digits[n] == '0'
        invariant
            n <= digits.len(),
            forall|i: int| 0 <= i < n ==> digits[i] == '0',
        decreases digits.len() - n,
    {
        n += 1;
    }
    n
}

/// Compares the numbers that two runs of digits write. Neither needs to fit a machine
/// integer: leading zeros are passed over, then the longer run is the larger number, and
/// of two runs of one length the first differing digit decides.
pub fn order_numbers(a: &Vec<char>, b: &Vec<char>) -> (sign: i8)
    requires
        all_digits(a@),
        all_digits(b@),
    ensures
        sign == sign_order(digits_value(a@) as int, digits_value(b@) as int),
{
    let skip_a = leading_zeros(a);
    let skip_b = leading_zeros(b);
    let len_a = a.len() - skip_a;
    let len_b = b.len() - skip_b;
    let ghost tail_a = a@.skip(skip_a as int);
    let ghost tail_b = b@.skip(skip_b as int);
    proof {
        assert(a@ =~= a@.take(skip_a as int) + tail_a);
        assert(b@ =~= b@.take(skip_b as int) + tail_b);
        lemma_extend_split(0, a@.take(skip_a as int), tail_a);
        lemma_extend_split(0, b@.take(skip_b as int), tail_b);
        lemma_extend_zeros(0, a@.take(skip_a as int));
        lemma_extend_zeros(0, b@.take(skip_b as int));
    }
    if len_a < len_b {
        proof {
            let extra = (len_b - len_a) as int;
            let front = tail_b.take(extra);
            assert(tail_b =~= front + tail_b.skip(extra));
            lemma_extend_split(0, front, tail_b.skip(extra));
            lemma_extend_first_digit(front);
            lemma_extend_monotone(0, extend_number(0, front), tail_a, tail_b.skip(extra));
        }
        return -1;
    }
    if len_a > len_b {
        proof {
            let extra = (len_a - len_b) as int;
            let front = tail_a.take(extra);
            assert(tail_a =~= front + tail_a.skip(extra));
            lemma_extend_split(0, front, tail_a.skip(extra));
            lemma_extend_first_digit(front);
            lemma_extend_monotone(0, extend_number(0, front), tail_b, tail_a.skip(extra));
        }
        return 1;
    }
    let mut i: usize = 0;
    while i < len_a
        invariant
            i <= len_a,
            len_a == len_b,
            len_a == a.len() - skip_a,
            len_b == b.len() - skip_b,
            tail_a == a@.skip(skip_a as int),
            tail_b == b@.skip(skip_b as int),
            all_digits(a@),
            all_digits(b@),
            digits_value(a@) == extend_number(0, tail_a),
            digits_value(b@) == extend_number(0, tail_b),
            tail_a.take(i as int) == tail_b.take(i as int),
        decreases len_a - i,
    {
        let x = a[skip_a + i];
        let y = b[skip_b + i];
        if x != y {
            proof {
                let k = i as int;
                let front_a = tail_a.take(k + 1);
                let front_b = tail_b.take(k + 1);
                assert(front_a.drop_last() =~= tail_a.take(k));
                assert(front_b.drop_last() =~= tail_b.take(k));
                assert(tail_a =~= front_a + tail_a.skip(k + 1));
                assert(tail_b =~= front_b + tail_b.skip(k + 1));
                lemma_extend_split(0, front_a, tail_a.skip(k + 1));
                lemma_extend_split(0, front_b, tail_b.skip(k + 1));
                if x < y {
                    lemma_extend_monotone(
                        extend_number(0, front_a),
                        extend_number(0, front_b),
                        tail_a.skip(k + 1),
                        tail_b.skip(k + 1),
                    );
                } else {
                    lemma_extend_monotone(
                        extend_number(0, front_b),
                        extend_number(0, front_a),
                        tail_b.skip(k + 1),
                        tail_a.skip(k + 1),
                    );
                }
            }
            if x < y {
                return -1;
            } else {
                return 1;
            }
        }
        i += 1;
    }
    proof {
        assert(tail_a =~= tail_a.take(len_a as int));
        assert(tail_b =~= tail_b.take(len_b as int));
    }
    0
}

// ---------------------------------------------------------------------------
// Runs
// ---------------------------------------------------------------------------

/// How many characters at the start of `s` are digits (`digit`) or are not (`!digit`).
pub open spec fn run_len(s: Seq<char>, digit: bool) -> nat
    decreases s.len(),
{
    if s.len() > 0 && is_digit(s[0]) == digit {
        1 + run_len(s.drop_first(), digit)
    } else {
        0
    }
}

/// `s` cut into its maximal runs: each run is one or more digits, or one or more
/// characters none of which is a digit, and neighbouring runs are of different kinds.
pub open spec fn runs(s: Seq<char>) -> Seq<Seq<char>>
    decreases s.len(),
    via runs_decreases
{
    if s.len() == 0 {
        Seq::empty()
    } else {
        let n = run_len(s, is_digit(s[0])) as int;
        seq![s.take(n)] + runs(s.skip(n))
    }
}

/// The first run of a name is not empty, so what is left of the name is shorter.
#[via_fn]
proof fn runs_decreases(s: Seq<char>) {
    if s.len() > 0 {
        lemma_run_len(s, is_digit(s[0]));
    }
}

/// A run ends where the text ends or the kind of character changes, and not before.
pub proof fn lemma_run_len(s: Seq<char>, digit: bool)
    ensures
        run_len(s, digit) <= s.len(),
        s.len() > 0 && is_digit(s[0]) == digit ==> run_len(s, digit) >= 1,
        forall|i: int| 0 <= i < run_len(s, digit) ==> is_digit(#[trigger] s[i]) == digit,
        run_len(s, digit) < s.len() ==> is_digit(s[run_len(s, digit) as int]) != digit,
    decreases s.len(),
{
    if s.len() > 0 && is_digit(s[0]) == digit {
        let rest = s.drop_first();
        lemma_run_len(rest, digit);
        assert forall|i: int| 0 <= i < run_len(s, digit) implies is_digit(#[trigger] s[i])
            == digit by {
            if i > 0 {
                assert(s[i] == rest[i - 1]);
            }
        }
    }
}

/// No run is empty, and a run holds digits alone or none at all.
pub proof fn lemma_runs_shape(s: Seq<char>)
    ensures
        forall|i: int|
            0 <= i < runs(s).len() ==> {
                let run = #[trigger] runs(s)[i];
                &&& run.len() > 0
                &&& forall|j: int|
                    0 <= j < run.len() ==> is_digit(#[trigger] run[j]) == is_digit(run[0])
            },
    decreases s.len(),
{
    if s.len() > 0 {
        let n = run_len(s, is_digit(s[0])) as int;
        lemma_run_len(s, is_digit(s[0]));
        lemma_runs_shape(s.skip(n));
        let rest = runs(s.skip(n));
        assert forall|i: int| 0 <= i < runs(s).len() implies {
            let run = #[trigger] runs(s)[i];
            &&& run.len() > 0
            &&& forall|j: int|
                0 <= j < run.len() ==> is_digit(#[trigger] run[j]) == is_digit(run[0])
        } by {
            if i == 0 {
                assert(runs(s)[i] == s.take(n));
            } else {
                assert(runs(s)[i] == rest[i - 1]);
            }
        }
    }
}

/// The runs of a name, put together again, are the name; and of two runs that follow
/// one another, one holds digits and the other does not.
pub proof fn lemma_runs_cut_the_name(s: Seq<char>)
    ensures
        runs(s).flatten() == s,
        s.len() > 0 ==> runs(s).len() > 0 && runs(s)[0].len() > 0 && runs(s)[0][0] == s[0],
        forall|i: int|
            0 <= i && i + 1 < runs(s).len() ==> is_digit((#[trigger] runs(s)[i])[0]) != is_digit(
                runs(s)[i + 1][0],
            ),
    decreases s.len(),
{
    if s.len() > 0 {
        let n = run_len(s, is_digit(s[0])) as int;
        lemma_run_len(s, is_digit(s[0]));
        let rest = runs(s.skip(n));
        lemma_runs_cut_the_name(s.skip(n));
        assert(runs(s).drop_first() =~= rest);
    }
}

// ---------------------------------------------------------------------------
// Keys
// ---------------------------------------------------------------------------

/// What `str::to_lowercase` of the standard library returns for a text.
pub uninterp spec fn lowercase_of(text: Seq<char>) -> Seq<char>;

/// What a run counts as when names are compared.
pub enum RunKey {
    /// A run of digits counts as the number it writes.
    Number(nat),
    /// Any other run counts as its lowercase text.
    Text(Seq<char>),
}

/// The key of a run.
pub open spec fn run_key(run: Seq<char>) -> RunKey {
    if run.len() > 0 && is_digit(run[0]) {
        RunKey::Number(digits_value(run))
    } else {
        RunKey::Text(lowercase_of(run))
    }
}

/// The keys of the runs of `name`, in order.
pub open spec fn name_keys(name: Seq<char>) -> Seq<RunKey> {
    runs(name).map_values(|run: Seq<char>| run_key(run))
}

/// Characters are ordered by their code points.
pub open spec fn char_order() -> spec_fn(char, char) -> int {
    |x: char, y: char| sign_order(x as int, y as int)
}

/// Texts are ordered character by character, as strings are.
pub open spec fn text_order(s: Seq<char>, t: Seq<char>) -> int {
    lex_order(s, t, char_order())
}

/// A text that stands behind every run of digits: its first character is above `'9'`.
/// A text that is empty or begins at or below `'9'` stands before every run of digits.
pub open spec fn sorts_after_digits(text: Seq<char>) -> bool {
    text.len() > 0 && text[0] > '9'
}

/// Two numbers are ordered by value and two texts as strings. A number against a text
/// is decided by the first character of the text alone.
pub open spec fn key_order(a: RunKey, b: RunKey) -> int {
    match (a, b) {
        (RunKey::Number(x), RunKey::Number(y)) => sign_order(x as int, y as int),
        (RunKey::Text(s), RunKey::Text(t)) => text_order(s, t),
        (RunKey::Number(_), RunKey::Text(t)) => if sorts_after_digits(t) {
            -1
        } else {
            1
        },
        (RunKey::Text(s), RunKey::Number(_)) => if sorts_after_digits(s) {
            1
        } else {
            -1
        },
    }
}

/// The order of keys, as a function.
pub open spec fn key_order_fn() -> spec_fn(RunKey, RunKey) -> int {
    |a: RunKey, b: RunKey| key_order(a, b)
}

/// -1 where `a` comes before `b` in the natural order, 1 where it comes after, and 0
/// where neither comes before the other.
pub open spec fn natural_order(a: Seq<char>, b: Seq<char>) -> int {
    lex_order(name_keys(a), name_keys(b), key_order_fn())
}

/// The order of characters is a weak order.
pub proof fn lemma_char_order_is_weak()
    ensures
        is_weak_order(char_order()),
{
}

/// Against a text that does not begin with a digit, a run of digits stands where
/// comparing the two as strings would put it.
pub proof fn lemma_number_against_text(digits: Seq<char>, text: Seq<char>)
    requires
        digits.len() > 0,
        is_digit(digits[0]),
        text.len() > 0,
        !is_digit(text[0]),
    ensures
        key_order(RunKey::Number(digits_value(digits)), RunKey::Text(text)) == text_order(
            digits,
            text,
        ),
{
}

/// Texts that stand before the numbers come before texts that stand behind them, and
/// no text that stands behind the numbers comes before one that stands before them.
proof fn lemma_text_bands(s: Seq<char>, t: Seq<char>)
    ensures
        text_order(s, t) <= 0 && sorts_after_digits(s) ==> sorts_after_digits(t),
        !sorts_after_digits(s) && sorts_after_digits(t) ==> text_order(s, t) < 0,
{
}

/// The order of keys is a weak order, whatever lowercase texts are.
pub proof fn lemma_key_order_is_weak()
    ensures
        is_weak_order(key_order_fn()),
{
    let ord = key_order_fn();
    assert forall|x: RunKey, y: RunKey| -1 <= #[trigger] ord(x, y) <= 1 && ord(x, y) == -ord(
        y,
        x,
    ) by {
        match (x, y) {
            (RunKey::Text(s), RunKey::Text(t)) => {
                lemma_lex_order_sign(s, t, char_order());
            },
            _ => {},
        }
    }
    assert forall|x: RunKey, y: RunKey, z: RunKey| #[trigger]
        ord(x, y) <= 0 && #[trigger] ord(y, z) <= 0 implies ord(x, z) <= 0 by {
        match (x, y, z) {
            (RunKey::Text(s), RunKey::Text(t), RunKey::Text(u)) => {
                lemma_lex_order_transitive(s, t, u, char_order());
            },
            (RunKey::Number(_), RunKey::Text(t), RunKey::Text(u)) => {
                lemma_text_bands(t, u);
            },
            (RunKey::Text(s), RunKey::Number(_), RunKey::Text(u)) => {
                lemma_text_bands(s, u);
            },
            (RunKey::Text(s), RunKey::Text(t), RunKey::Number(_)) => {
                lemma_text_bands(s, t);
            },
            _ => {},
        }
    }
}

/// The natural order is a strict weak ordering of names. No name comes before itself;
/// of two names, one comes before the other exactly where the other comes after it;
/// coming before is transitive; so is being tied; and a name that ties with another
/// comes before and after the same names as the other.
pub proof fn lemma_natural_order_is_strict_weak(a: Seq<char>, b: Seq<char>, c: Seq<char>)
    ensures
        natural_order(a, a) == 0,
        -1 <= natural_order(a, b) <= 1,
        natural_order(a, b) == -natural_order(b, a),
        natural_order(a, b) < 0 && natural_order(b, c) < 0 ==> natural_order(a, c) < 0,
        natural_order(a, b) == 0 && natural_order(b, c) == 0 ==> natural_order(a, c) == 0,
        natural_order(a, b) < 0 && natural_order(b, c) == 0 ==> natural_order(a, c) < 0,
        natural_order(a, b) == 0 && natural_order(b, c) < 0 ==> natural_order(a, c) < 0,
{
    let ord = key_order_fn();
    let (ka, kb, kc) = (name_keys(a), name_keys(b), name_keys(c));
    lemma_key_order_is_weak();
    lemma_lex_order_sign(ka, ka, ord);
    lemma_lex_order_sign(ka, kb, ord);
    lemma_lex_order_sign(kb, kc, ord);
    lemma_lex_order_sign(ka, kc, ord);
    if natural_order(a, b) <= 0 && natural_order(b, c) <= 0 {
        lemma_lex_order_transitive(ka, kb, kc, ord);
        if natural_order(a, c) == 0 && (natural_order(a, b) < 0 || natural_order(b, c) < 0) {
            // then c ties with a, and b would stand on both sides of the pair
            lemma_lex_order_transitive(kc, ka, kb, ord);
            lemma_lex_order_transitive(kb, kc, ka, ord);
        }
    }
    if natural_order(a, b) == 0 && natural_order(b, c) == 0 {
        lemma_lex_order_transitive(kc, kb, ka, ord);
    }
}

// ---------------------------------------------------------------------------
// Comparing names
// ---------------------------------------------------------------------------

/// The pattern of a run: one or more characters that are no digits, or one or more digits.
pub const RUN_PATTERN: &'static str = "[^0-9]+|[0-9]+";

/// Calls `regex::Regex::new` and `Regex::find_iter`, and collects the text of each match.
///
/// `find_iter` yields the successive non-overlapping matches, each the leftmost one
/// after the match before it; `+` is greedy and an alternation prefers its left branch.
/// For the pattern of a run this makes the matches the maximal runs of digits and of
/// characters other than digits, from the start of `text` to its end, which is what
/// the contract claims. The pattern is a valid one, so `new` does not fail on it.
#[verifier::external_body]
fn find_runs(pattern: &str, text: &str) -> (found: Vec<String>)
    requires
        pattern@ == RUN_PATTERN@,
    ensures
        texts(found@) == runs(text@),
{
    let regex = Regex::new(pattern).unwrap();
    regex.find_iter(text).map(|found| found.as_str().to_owned()).collect()
}

/// Calls `str::to_lowercase` of the standard library. The result is named, not stated:
/// it depends on the text alone.
#[verifier::external_body]
fn lowercase(text: &str) -> (lower: String)
    ensures
        lower@ == lowercase_of(text@),
{
    text.to_lowercase()
}

/// A run, ready to be compared.
pub enum Token {
    /// The digits of a run of digits.
    Number(Vec<char>),
    /// The lowercase text of any other run.
    Text(Vec<char>),
}

impl Token {
    /// A number holds digits alone.
    pub open spec fn well_formed(self) -> bool {
        match self {
            Token::Number(digits) => all_digits(digits@),
            Token::Text(_) => true,
        }
    }

    /// The key of the run.
    pub open spec fn key(self) -> RunKey {
        match self {
            Token::Number(digits) => RunKey::Number(digits_value(digits@)),
            Token::Text(text) => RunKey::Text(text@),
        }
    }
}

/// The keys of a sequence of runs.
pub open spec fn token_keys(tokens: Seq<Token>) -> Seq<RunKey> {
    tokens.map_values(|token: Token| token.key())
}

/// Every number among `tokens` holds digits alone.
pub open spec fn all_well_formed(tokens: Seq<Token>) -> bool {
    forall|i: int| 0 <= i < tokens.len() ==> (#[trigger] tokens[i]).well_formed()
}

/// Tells whether `c` is a digit.
fn is_digit_char(c: char) -> (digit: bool)
    ensures
        digit == is_digit(c),
{
    '0' <= c && c <= '9'
}

/// Compares two texts character by character.
pub fn order_texts(a: &Vec<char>, b: &Vec<char>) -> (sign: i8)
    ensures
        sign == text_order(a@, b@),
{
    let mut i: usize = 0;
    proof {
        assert(a@.skip(0) =~= a@);
        assert(b@.skip(0) =~= b@);
    }
    loop
        invariant_except_break
            i <= a.len(),
            i <= b.len(),
            text_order(a@, b@) == text_order(a@.skip(i as int), b@.skip(i as int)),
        ensures
            sign_at_end(a@, b@, i as int, text_order(a@, b@)),
        decreases a.len() - i,
    {
        if i == a.len() || i == b.len() {
            break ;
        }
        let x = a[i];
        let y = b[i];
        proof {
            assert(a@.skip(i as int).drop_first() =~= a@.skip(i + 1));
            assert(b@.skip(i as int).drop_first() =~= b@.skip(i + 1));
        }
        if x < y {
            return -1;
        }
        if x > y {
            return 1;
        }
        i += 1;
    }
    if i < b.len() {
        -1
    } else if i < a.len() {
        1
    } else {
        0
    }
}

/// Where a position-by-position comparison stops because one sequence has ended, the
/// lengths decide.
pub open spec fn sign_at_end<T>(a: Seq<T>, b: Seq<T>, i: int, sign: int) -> bool {
    &&& 0 <= i <= a.len()
    &&& i <= b.len()
    &&& i == a.len() || i == b.len()
    &&& sign == if i < b.len() {
        -1int
    } else if i < a.len() {
        1
    } else {
        0
    }
}

/// Compares two runs by their keys.
pub fn order_keys(a: &Token, b: &Token) -> (sign: i8)
    requires
        a.well_formed(),
        b.well_formed(),
    ensures
        sign == key_order(a.key(), b.key()),
{
    match (a, b) {
        (Token::Number(x), Token::Number(y)) => order_numbers(x, y),
        (Token::Text(s), Token::Text(t)) => order_texts(s, t),
        (Token::Number(_), Token::Text(t)) => {
            if t.len() > 0 && t[0] > '9' {
                -1
            } else {
                1
            }
        },
        (Token::Text(s), Token::Number(_)) => {
            if s.len() > 0 && s[0] > '9' {
                1
            } else {
                -1
            }
        },
    }
}

/// Compares two names that have been cut into runs: the first pair of runs that do not
/// tie decides, and where all pairs tie the name with fewer runs comes first.
pub fn order_tokens(a: &Vec<Token>, b: &Vec<Token>) -> (sign: i8)
    requires
        all_well_formed(a@),
        all_well_formed(b@),
    ensures
        sign == lex_order(token_keys(a@), token_keys(b@), key_order_fn()),
{
    let ghost ka = token_keys(a@);
    let ghost kb = token_keys(b@);
    let mut i: usize = 0;
    proof {
        assert(ka.skip(0) =~= ka);
        assert(kb.skip(0) =~= kb);
    }
    loop
        invariant_except_break
            i <= a.len(),
            i <= b.len(),
            ka == token_keys(a@),
            kb == token_keys(b@),
            all_well_formed(a@),
            all_well_formed(b@),
            lex_order(ka, kb, key_order_fn()) == lex_order(
                ka.skip(i as int),
                kb.skip(i as int),
                key_order_fn(),
            ),
        ensures
            ka == token_keys(a@),
            kb == token_keys(b@),
            sign_at_end(ka, kb, i as int, lex_order(ka, kb, key_order_fn())),
        decreases a.len() - i,
    {
        if i == a.len() || i == b.len() {
            break ;
        }
        let sign = order_keys(&a[i], &b[i]);
        proof {
            assert(ka.skip(i as int).drop_first() =~= ka.skip(i + 1));
            assert(kb.skip(i as int).drop_first() =~= kb.skip(i + 1));
        }
        if sign != 0 {
            return sign;
        }
        i += 1;
    }
    if i < b.len() {
        -1
    } else if i < a.len() {
        1
    } else {
        0
    }
}

/// Cuts `name` into its runs and readies each for comparison.
pub fn tokens_of(name: &str) -> (tokens: Vec<Token>)
    ensures
        all_well_formed(tokens@),
        token_keys(tokens@) == name_keys(name@),
{
    let found = find_runs(RUN_PATTERN, name);
    let mut tokens: Vec<Token> = Vec::new();
    proof {
        lemma_runs_shape(name@);
    }
    let mut i: usize = 0;
    while i < found.len()
        invariant
            i <= found.len(),
            tokens.len() == i,
            texts(found@) == runs(name@),
            all_well_formed(tokens@),
            forall|k: int| 0 <= k < i ==> (#[trigger] tokens[k]).key() == run_key(runs(name@)[k]),
            forall|k: int|
                0 <= k < runs(name@).len() ==> {
                    let run = #[trigger] runs(name@)[k];
                    &&& run.len() > 0
                    &&& forall|j: int|
                        0 <= j < run.len() ==> is_digit(#[trigger] run[j]) == is_digit(run[0])
                },
        decreases found.len() - i,
    {
        let chars = chars_of(found[i].as_str());
        proof {
            assert(texts(found@)[i as int] == found@[i as int]@);
        }
        if is_digit_char(chars[0]) {
            tokens.push(Token::Number(chars));
        } else {
            let lower = lowercase(found[i].as_str());
            tokens.push(Token::Text(chars_of(lower.as_str())));
        }
        i += 1;
    }
    tokens
}

/// Compares two names in the natural order.
pub fn natural_sign(first: &str, second: &str) -> (sign: i8)
    ensures
        sign == natural_order(first@, second@),
{
    let a = tokens_of(first);
    let b = tokens_of(second);
    order_tokens(&a, &b)
}

/// Compares two names in the natural order: `Less` where `first_string` comes before
/// `second_string`, `Greater` where it comes after, `Equal` where neither comes first.
pub fn natural_order_strings(first_string: String, second_string: String) -> (order: Ordering)
    ensures
        match order {
            Ordering::Less => natural_order(first_string@, second_string@) == -1,
            Ordering::Equal => natural_order(first_string@, second_string@) == 0,
            Ordering::Greater => natural_order(first_string@, second_string@) == 1,
        },
{
    let sign = natural_sign(first_string.as_str(), second_string.as_str());
    proof {
        lemma_natural_order_is_strict_weak(first_string@, second_string@, first_string@);
    }
    if sign < 0 {
        Ordering::Less
    } else if sign == 0 {
        Ordering::Equal
    } else {
        Ordering::Greater
    }
}

} // verus!
