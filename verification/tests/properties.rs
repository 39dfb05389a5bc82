use naturalize::to_natural;

fn natural(s: &str) -> String {
    to_natural(s).unwrap()
}

fn text_of(s: &str) -> String {
    s.chars().filter(|c| !c.is_ascii_digit()).collect()
}

fn digit_runs(s: &str) -> Vec<String> {
    s.split(|c: char| !c.is_ascii_digit())
        .filter(|run| !run.is_empty())
        .map(|run| run.to_string())
        .collect()
}

const SAMPLES: [&str; 12] = [
    "",
    "7",
    "item9",
    "item10",
    "a1b22c333",
    "1234567890",
    "12345678901",
    "123456789",
    "x000y",
    "  12  ",
    "21.5",
    "chapter 3, verse 16",
];

#[test]
fn length_grows_by_the_shortfall_of_each_run() {
    assert_eq!(natural("a1b22c333").chars().count(), 9 + 9 + 8 + 7);
    for s in SAMPLES {
        let shortfall: usize = digit_runs(s).iter().map(|r| 10usize.saturating_sub(r.len())).sum();
        assert_eq!(natural(s).chars().count(), s.chars().count() + shortfall);
    }
}

#[test]
fn every_run_of_the_result_is_the_padded_run() {
    assert_eq!(
        digit_runs(&natural("a1b22c12345678901")),
        vec!["0000000001".to_string(), "0000000022".to_string(), "12345678901".to_string()]
    );
    for s in SAMPLES {
        let before = digit_runs(s);
        let after = digit_runs(&natural(s));
        assert_eq!(before.len(), after.len());
        for (b, a) in before.iter().zip(after.iter()) {
            assert_eq!(a.len(), b.len().max(10));
            assert!(a.ends_with(b.as_str()));
            assert!(a[..a.len() - b.len()].chars().all(|c| c == '0'));
        }
    }
}

#[test]
fn second_pass_changes_nothing() {
    assert_eq!(natural(&natural("a1b22")), "a0000000001b0000000022".to_string());
    for s in SAMPLES {
        let once = natural(s);
        assert_eq!(natural(&once), once);
    }
}

#[test]
fn wide_runs_are_left_alone() {
    assert_eq!(natural("a1234567890b12345678901c"), "a1234567890b12345678901c".to_string());
}

#[test]
fn text_keeps_its_characters_and_their_order() {
    assert_eq!(text_of(&natural("a1b22c333")), "abc".to_string());
    for s in SAMPLES {
        assert_eq!(text_of(&natural(s)), text_of(s));
    }
}

#[test]
fn text_between_runs_stays_together() {
    let out = natural("ab12cd345ef");
    let spans: Vec<&str> = out.split(|c: char| c.is_ascii_digit()).filter(|t| !t.is_empty()).collect();
    assert_eq!(spans, vec!["ab", "cd", "ef"]);
}

#[test]
fn order_of_results_is_order_of_numbers() {
    assert!("item9" > "item10");
    assert!(natural("item9") < natural("item10"));
    let numbers: [u64; 9] = [0, 1, 9, 10, 11, 99, 100, 123456789, 9999999999];
    for a in numbers {
        for b in numbers {
            let left = natural(&format!("file{}.txt", a));
            let right = natural(&format!("file{}.txt", b));
            assert_eq!(left < right, a < b);
            assert_eq!(left == right, a == b);
        }
    }
}

#[test]
fn order_holds_for_runs_of_one_length_beyond_the_width() {
    assert!(natural("v12345678901x") < natural("v12345678902x"));
    assert!(natural("v00000000002") > natural("v00000000001"));
}

#[test]
fn order_may_fail_where_widths_differ() {
    assert!(natural("5") > natural("00000000006"));
}

#[test]
fn pieces_cut_outside_a_run_are_naturalized_alone() {
    assert_eq!(natural("ab1c22"), format!("{}{}", natural("ab1c"), natural("22")));
    assert_eq!(natural("ab1c22"), format!("{}{}", natural("ab1"), natural("c22")));
    assert_ne!(natural("ab12"), format!("{}{}", natural("ab1"), natural("2")));
}

#[test]
fn every_input_succeeds() {
    for s in SAMPLES {
        assert!(to_natural(s).is_ok());
    }
    assert!(to_natural("\u{0}\n\t").is_ok());
}
