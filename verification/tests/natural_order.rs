use agni::natural_order::natural_order_strings;
use agni::natural_order::natural_sign;
use agni::natural_order::order_keys;
use agni::natural_order::order_numbers;
use agni::natural_order::order_texts;
use agni::natural_order::order_tokens;
use agni::natural_order::tokens_of;
use agni::natural_order::Token;
use std::cmp::Ordering;

fn compare(a: &str, b: &str) -> Ordering {
    natural_order_strings(a.to_string(), b.to_string())
}

#[test]
fn digit_runs_compare_by_value() {
    assert_eq!(compare("file2", "file10"), Ordering::Less);
    assert_eq!(compare("file10", "file2"), Ordering::Greater);
}

#[test]
fn a_name_ties_with_itself() {
    assert_eq!(compare("a", "a"), Ordering::Equal);
    assert_eq!(compare("", ""), Ordering::Equal);
    assert_eq!(compare("file10.mp4", "file10.mp4"), Ordering::Equal);
}

#[test]
fn a_prefix_comes_first() {
    assert_eq!(compare("a", "ab"), Ordering::Less);
    assert_eq!(compare("ab", "a"), Ordering::Greater);
    assert_eq!(compare("a", "a1"), Ordering::Less);
    assert_eq!(compare("", "a"), Ordering::Less);
}

#[test]
fn sign_matches_ordering() {
    assert_eq!(natural_sign("file2", "file10"), -1);
    assert_eq!(natural_sign("b", "a"), 1);
    assert_eq!(natural_sign("x9", "x09"), 0);
}

#[test]
fn letters_compare_without_case() {
    assert_eq!(compare("A", "a"), Ordering::Equal);
    assert_eq!(compare("Film", "fILM"), Ordering::Equal);
    assert_eq!(compare("B", "a"), Ordering::Greater);
    assert_eq!(compare("a", "B"), Ordering::Less);
    assert_eq!(compare("ÄB", "äb"), Ordering::Equal);
}

#[test]
fn leading_zeros_do_not_count() {
    assert_eq!(compare("a007", "a7"), Ordering::Equal);
    assert_eq!(compare("a007b", "a7a"), Ordering::Greater);
    assert_eq!(compare("000", "0"), Ordering::Equal);
    assert_eq!(compare("0", "00001"), Ordering::Less);
}

#[test]
fn digit_runs_may_be_longer_than_any_machine_integer() {
    let large = "1".repeat(60);
    let larger = format!("{}2", "1".repeat(59));
    assert_eq!(compare(&large, &larger), Ordering::Less);
    assert_eq!(compare(&larger, &large), Ordering::Greater);
    assert_eq!(compare(&large, "999999999999999999999999999999999999999"), Ordering::Greater);
    assert_eq!(compare(&format!("x{}", large), &format!("x0{}", large)), Ordering::Equal);
    assert_eq!(
        compare("340282366920938463463374607431768211456", "340282366920938463463374607431768211457"),
        Ordering::Less
    );
}

#[test]
fn a_number_against_a_text_goes_by_the_first_character() {
    assert_eq!(compare("1", "a"), Ordering::Less);
    assert_eq!(compare("a", "1"), Ordering::Greater);
    assert_eq!(compare("1", "!"), Ordering::Greater);
    assert_eq!(compare("!", "1"), Ordering::Less);
    assert_eq!(compare("9z", ":"), Ordering::Less);
    assert_eq!(compare("0", "/"), Ordering::Greater);
    assert_eq!(compare("1", ""), Ordering::Greater);
}

#[test]
fn the_first_pair_that_differs_decides() {
    assert_eq!(compare("a1b2", "a1b10"), Ordering::Less);
    assert_eq!(compare("a2b1", "a1b10"), Ordering::Greater);
    assert_eq!(compare("a1c", "a1b9"), Ordering::Greater);
    assert_eq!(compare("x1", "x1y"), Ordering::Less);
}

#[test]
fn the_order_is_a_strict_weak_ordering_on_samples() {
    let names = [
        "", "a", "A", "ab", "a1", "a01", "a001b", "a1b", "a2", "a10", "b", "1", "01", "10", "9",
        "!", "~", "file2", "file10", "File2", "Dfoo", "Ffoo", "D1", "F1", " 1", "1 ", "é", "É",
    ];
    let order: Vec<Vec<Ordering>> =
        names.iter().map(|a| names.iter().map(|b| compare(a, b)).collect()).collect();
    let count = names.len();
    for a in 0..count {
        assert_eq!(order[a][a], Ordering::Equal);
        for b in 0..count {
            assert_eq!(order[a][b], order[b][a].reverse());
            for c in 0..count {
                if order[a][b] != Ordering::Greater && order[b][c] != Ordering::Greater {
                    assert_ne!(order[a][c], Ordering::Greater);
                    if order[a][b] == Ordering::Less || order[b][c] == Ordering::Less {
                        assert_eq!(order[a][c], Ordering::Less);
                    }
                }
            }
        }
    }
}

fn chars(text: &str) -> Vec<char> {
    text.chars().collect()
}

#[test]
fn numbers_are_ordered_by_value() {
    assert_eq!(order_numbers(&chars("2"), &chars("10")), -1);
    assert_eq!(order_numbers(&chars("10"), &chars("2")), 1);
    assert_eq!(order_numbers(&chars("0010"), &chars("10")), 0);
    assert_eq!(order_numbers(&chars(""), &chars("0")), 0);
    assert_eq!(order_numbers(&chars("19"), &chars("21")), -1);
    assert_eq!(order_numbers(&chars("123456"), &chars("123455")), 1);
}

#[test]
fn texts_are_ordered_as_strings() {
    for (a, b) in [("", ""), ("", "a"), ("a", ""), ("ab", "ac"), ("b", "ab"), ("é", "z"), ("a", "a")] {
        let expected = match a.cmp(b) {
            Ordering::Less => -1,
            Ordering::Equal => 0,
            Ordering::Greater => 1,
        };
        assert_eq!(order_texts(&chars(a), &chars(b)), expected);
    }
}

#[test]
fn keys_are_ordered_by_kind_and_value() {
    let number = |text: &str| Token::Number(chars(text));
    let text = |text: &str| Token::Text(chars(text));
    assert_eq!(order_keys(&number("7"), &number("07")), 0);
    assert_eq!(order_keys(&text("a"), &text("b")), -1);
    assert_eq!(order_keys(&number("7"), &text("a")), -1);
    assert_eq!(order_keys(&text("a"), &number("7")), 1);
    assert_eq!(order_keys(&number("7"), &text("-")), 1);
    assert_eq!(order_keys(&number("7"), &text("")), 1);
    assert_eq!(order_keys(&text("5"), &number("7")), -1);
    assert_eq!(order_tokens(&vec![text("a"), number("1")], &vec![text("a")]), 1);
    assert_eq!(order_tokens(&vec![text("a")], &vec![text("a"), number("1")]), -1);
    assert_eq!(order_tokens(&vec![], &vec![]), 0);
    assert_eq!(order_tokens(&vec![text("a"), number("2")], &vec![text("a"), number("10")]), -1);
}

#[test]
fn a_name_is_cut_into_runs() {
    let tokens = tokens_of("Film 12b.MKV");
    assert_eq!(tokens.len(), 3);
    match (&tokens[0], &tokens[1], &tokens[2]) {
        (Token::Text(a), Token::Number(b), Token::Text(c)) => {
            assert_eq!(a, &chars("film "));
            assert_eq!(b, &chars("12"));
            assert_eq!(c, &chars("b.mkv"));
        }
        _ => panic!("a text, a number and a text"),
    }
    assert!(tokens_of("").is_empty());
    assert_eq!(tokens_of("007").len(), 1);
    assert_eq!(tokens_of("a\n1\n").len(), 3);
}

fn scanned(name: &str) -> Vec<(bool, String)> {
    let mut runs: Vec<(bool, String)> = Vec::new();
    for c in name.chars() {
        let digit = c.is_ascii_digit();
        match runs.last_mut() {
            Some((kind, run)) if *kind == digit => run.push(c),
            _ => runs.push((digit, c.to_string())),
        }
    }
    runs
}

#[test]
fn runs_are_maximal() {
    let names = [
        "", "a", "1", "a1", "1a", "abc123def456", "12 34", "\n1\n\n2", "٣4٣", "é1é", "1.5.10-rc2",
        "....", "0000", "a\u{0}1", "日本語123日本語", "x9y88z777",
    ];
    for name in names {
        let expected = scanned(name);
        let tokens = tokens_of(name);
        assert_eq!(tokens.len(), expected.len());
        for (token, (digit, run)) in tokens.iter().zip(expected.iter()) {
            match token {
                Token::Number(digits) => {
                    assert!(*digit);
                    assert_eq!(digits.iter().collect::<String>(), *run);
                }
                Token::Text(text) => {
                    assert!(!*digit);
                    assert_eq!(text.iter().collect::<String>(), run.to_lowercase());
                }
            }
        }
    }
}
