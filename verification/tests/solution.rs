use remote_worker::settings::{parse_usize_env, worker_settings, WorkerSettings};
use remote_worker::gcd::{
    case_pair_count, count_gcd_pairs, count_sorted_pairs, count_sorted_pairs_checked, doubles_fit_check, gcd,
    sort_by_parity,
};
use remote_worker::solution::{
    cases_in_range_check, input_in_range, mark_cases, parse_cases, parse_values, run_from_chars,
    run_from_input, text_in_range,
};
use remote_worker::text::{is_whitespace, nonblank_lines, parse_usize, trim_chars, words};

fn chars(s: &str) -> Vec<char> {
    s.chars().collect()
}

fn hit(signals: &[u8]) -> Vec<usize> {
    (0..signals.len()).filter(|&i| signals[i] == 1).collect()
}

#[test]
fn gcd_values() {
    assert_eq!(gcd(0, 0), 0);
    assert_eq!(gcd(0, 7), 7);
    assert_eq!(gcd(7, 0), 7);
    assert_eq!(gcd(12, 18), 6);
    assert_eq!(gcd(18, 12), 6);
    assert_eq!(gcd(17, 5), 1);
    assert_eq!(gcd(usize::MAX, usize::MAX - 1), 1);
}

#[test]
fn parity_sort_is_stable() {
    assert_eq!(sort_by_parity(&[3, 6, 5, 3]), vec![6, 3, 5, 3]);
    assert_eq!(sort_by_parity(&[1, 4, 2, 4, 1]), vec![4, 2, 4, 1, 1]);
    assert_eq!(sort_by_parity(&[]), Vec::<usize>::new());
}

#[test]
fn pair_counts_of_the_sample_cases() {
    assert_eq!(count_gcd_pairs(&[3, 6, 5, 3]), 4);
    assert_eq!(count_gcd_pairs(&[1, 7]), 0);
    assert_eq!(count_gcd_pairs(&[1, 4, 2, 4, 1]), 9);
    assert_eq!(count_gcd_pairs(&[]), 0);
    assert_eq!(count_gcd_pairs(&[5]), 0);
    // gcd(0, 0) is 0, which does not count.
    assert_eq!(count_sorted_pairs(&[0, 0]), 0);
    assert_eq!(count_sorted_pairs(&[0, 1]), 1);
}

#[test]
fn doubling_check() {
    assert!(doubles_fit_check(&[usize::MAX, 1]));
    assert!(!doubles_fit_check(&[1, usize::MAX / 2 + 1]));
    assert!(doubles_fit_check(&[1, usize::MAX / 2]));
}

#[test]
fn whitespace_and_trimming() {
    assert!(is_whitespace(' '));
    assert!(is_whitespace('\u{3000}'));
    assert!(is_whitespace('\u{85}'));
    assert!(!is_whitespace('x'));
    assert!(!is_whitespace('\u{180E}'));
    assert_eq!(trim_chars(&chars("\u{A0} a b\t\r")), chars("a b"));
    assert_eq!(trim_chars(&chars("   ")), chars(""));
}

#[test]
fn lines_and_words() {
    let lines = nonblank_lines(&chars("  3 \n\n\r\n4\r\n 1  2\t3 \n"));
    assert_eq!(lines, vec![chars("3"), chars("4"), chars("1  2\t3")]);
    assert_eq!(words(&chars(" 1  2\t3 ")), vec![chars("1"), chars("2"), chars("3")]);
    assert!(words(&chars("   ")).is_empty());
}

#[test]
fn usize_parsing() {
    assert_eq!(parse_usize(&chars("42")), Some(42));
    assert_eq!(parse_usize(&chars("+42")), Some(42));
    assert_eq!(parse_usize(&chars("007")), Some(7));
    assert_eq!(parse_usize(&chars("")), None);
    assert_eq!(parse_usize(&chars("+")), None);
    assert_eq!(parse_usize(&chars("-1")), None);
    assert_eq!(parse_usize(&chars("1a")), None);
    assert_eq!(parse_usize(&chars("++1")), None);
    assert_eq!(parse_usize(&chars(&usize::MAX.to_string())), Some(usize::MAX));
    assert_eq!(parse_usize(&chars(&format!("{}0", usize::MAX))), None);
    for s in ["0", "12345", "+9", "", "+", "x", "99999999999999999999999"] {
        assert_eq!(parse_usize(&chars(s)), s.parse::<usize>().ok());
    }
    assert_eq!(parse_values(&words(&chars("1 x 2 +3 -4"))), None);
    assert_eq!(parse_values(&words(&chars("1 2 +3"))), Some(vec![1, 2, 3]));
    assert_eq!(parse_values(&words(&chars(""))), Some(vec![]));
}

#[test]
fn run_on_the_sample_input() {
    let mut signals = vec![0u8; 16];
    let r = run_from_input(b"3\n4\n3 6 5 3\n2\n1 7\n5\n1 4 2 4 1\n", &mut signals);
    assert_eq!(r, Ok(()));
    assert_eq!(hit(&signals), vec![0, 1, 2, 3, 4, 5]);
}

#[test]
fn run_without_good_pairs() {
    let mut signals = vec![0u8; 16];
    assert_eq!(run_from_input(b"1\n2\n1 7", &mut signals), Ok(()));
    assert_eq!(hit(&signals), vec![0, 1, 2, 4, 5]);
}

#[test]
fn run_rejects_bad_input() {
    let mut signals = vec![0u8; 16];
    assert_eq!(run_from_input(&[0xff, 0xfe], &mut signals), Err(()));
    assert_eq!(hit(&signals), vec![0]);

    let mut signals = vec![0u8; 16];
    assert_eq!(run_from_input(b"x", &mut signals), Err(()));
    assert_eq!(hit(&signals), vec![0]);

    let mut signals = vec![0u8; 16];
    assert_eq!(run_from_input(b"", &mut signals), Err(()));
    assert_eq!(hit(&signals), vec![0]);

    // One good case, then a case whose line holds too few values.
    let mut signals = vec![0u8; 16];
    assert_eq!(run_from_input(b"2\n1\n5\n3\n1 2\n", &mut signals), Err(()));
    assert_eq!(hit(&signals), vec![0, 1, 4, 5]);

    // The count is read, but the first case is missing.
    let mut signals = vec![0u8; 16];
    assert_eq!(run_from_input(b"1\n", &mut signals), Err(()));
    assert_eq!(hit(&signals), vec![0, 5]);
}

#[test]
fn run_with_no_cases_and_a_short_map() {
    let mut signals = vec![0u8; 16];
    assert_eq!(run_from_input(b" 0 \n", &mut signals), Ok(()));
    assert_eq!(hit(&signals), vec![0, 5]);

    let mut small = vec![7u8, 7, 7];
    assert_eq!(run_from_chars(&chars("1\n2\n2 4"), &mut small), Ok(()));
    assert_eq!(small, vec![1, 1, 1]);
    let mut small = vec![7u8, 7, 7];
    assert_eq!(run_from_chars(&chars("1\n1\n2 4"), &mut small), Err(()));
    assert_eq!(small, vec![1, 7, 7]);
}

#[test]
fn run_reads_utf8_text() {
    // Non-ASCII whitespace separates values.
    let mut signals = vec![0u8; 16];
    let input = "1\n2\n4\u{3000}6\n".as_bytes();
    assert_eq!(run_from_input(input, &mut signals), Ok(()));
    assert_eq!(hit(&signals), vec![0, 1, 2, 3, 4, 5]);

    // A word that is not a number is a parse error.
    let mut signals = vec![0u8; 16];
    let input = "1\n2\n4\u{3000}6 zz\n".as_bytes();
    assert_eq!(run_from_input(input, &mut signals), Err(()));
    assert_eq!(hit(&signals), vec![0, 5]);
}

#[test]
fn run_rejects_an_unparsable_value() {
    let mut signals = vec![0u8; 16];
    assert_eq!(run_from_input(b"1\n1\n3 x\n", &mut signals), Err(()));
    assert_eq!(hit(&signals), vec![0, 5]);
}

#[test]
fn parsed_cases_and_range_checks() {
    let p = parse_cases(&chars("2\n2\n1 2\n1\n7\n"));
    assert!(p.header && p.ok);
    assert_eq!(p.cases, vec![vec![1, 2], vec![7]]);
    let p = parse_cases(&chars("3\n2\n1 2\n"));
    assert!(p.header && !p.ok);
    assert_eq!(p.cases, vec![vec![1, 2]]);
    let p = parse_cases(&chars("x"));
    assert!(!p.header && !p.ok && p.cases.is_empty());

    let big = format!("1\n2\n1 {}\n", usize::MAX);
    assert!(!text_in_range(&chars(&big)));
    assert!(!input_in_range(big.as_bytes()));
    // The first value after the parity sort is never doubled.
    let first = format!("1\n2\n{} 1\n", usize::MAX);
    assert!(text_in_range(&chars(&first)));
    let moved_first = format!("1\n2\n1 {}\n", usize::MAX - 1);
    assert!(text_in_range(&chars(&moved_first)));
    let second = format!("1\n2\n2 {}\n", usize::MAX);
    assert!(!text_in_range(&chars(&second)));
    assert!(input_in_range(b"1\n2\n3 4\n"));
    assert!(input_in_range(&[0xff]));
    assert!(cases_in_range_check(&vec![vec![1, 2], vec![]]));

    let mut signals = vec![0u8; 8];
    mark_cases(&vec![vec![5], vec![2, 4]], &mut signals);
    assert_eq!(hit(&signals), vec![1, 2, 3, 4]);
}

#[test]
fn worker_settings_defaults_and_overrides() {
    assert_eq!(parse_usize_env(None, 3), 3);
    assert_eq!(parse_usize_env(Some("5"), 3), 5);
    assert_eq!(parse_usize_env(Some("0"), 3), 3);
    assert_eq!(parse_usize_env(Some("x"), 3), 3);
    assert_eq!(
        worker_settings(8, None, None, None),
        WorkerSettings { workers: 7, jobs_per_input: 7, collect_batch: 7 }
    );
    assert_eq!(
        worker_settings(1, None, None, None),
        WorkerSettings { workers: 1, jobs_per_input: 2, collect_batch: 1 }
    );
    assert_eq!(
        worker_settings(4, Some("100"), Some("5"), None),
        WorkerSettings { workers: 8, jobs_per_input: 5, collect_batch: 8 }
    );
    assert_eq!(
        worker_settings(0, None, None, Some("9")),
        WorkerSettings { workers: 1, jobs_per_input: 2, collect_batch: 9 }
    );
}

#[test]
fn blank_lines_padding_and_trailing_text_change_nothing() {
    let mut plain = vec![0u8; 16];
    let r1 = run_from_input(b"1\n2\n1 7\n", &mut plain);
    let mut padded = vec![0u8; 16];
    let r2 = run_from_input(b"\n  1\n\n \t\n2  \n  1 7\n", &mut padded);
    assert_eq!(r1, r2);
    assert_eq!(plain, padded);
    let mut trailing = vec![0u8; 16];
    let r3 = run_from_input("1\n2\n1 7\nnot read \u{e9}\n".as_bytes(), &mut trailing);
    assert_eq!(r3, Ok(()));
    assert_eq!(plain, trailing);
}

#[test]
fn program_case_counts() {
    assert_eq!(case_pair_count(4, &[3, 6, 5, 3]), Some(4));
    assert_eq!(case_pair_count(5, &[1, 4, 2, 4, 1]), Some(9));
    // Only the first `n` sorted values count.
    assert_eq!(case_pair_count(2, &[3, 6, 5, 3]), Some(1));
    // A list shorter than `n` is read past once there is a pair.
    assert_eq!(case_pair_count(3, &[1, 2]), None);
    assert_eq!(case_pair_count(1, &[]), Some(0));
    assert_eq!(case_pair_count(0, &[]), Some(0));
    // A doubled value that overflows.
    assert_eq!(case_pair_count(2, &[1, usize::MAX]), None);
    assert_eq!(case_pair_count(1, &[1, usize::MAX]), Some(0));
    assert_eq!(count_sorted_pairs_checked(&[2, 4, 6]), Some(3));
    assert_eq!(count_sorted_pairs_checked(&[]), Some(0));
}

#[test]
fn blank_lines_in_invalid_input_change_nothing() {
    let mut plain = vec![0u8; 16];
    let r1 = run_from_input(b"1\n\xff\n", &mut plain);
    let mut padded = vec![0u8; 16];
    let r2 = run_from_input(b"1\n \t\n\xff\n", &mut padded);
    assert_eq!(r1, Err(()));
    assert_eq!(r1, r2);
    assert_eq!(plain, padded);
    assert_eq!(hit(&plain), vec![0]);
}
