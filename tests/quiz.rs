use quizrunner::ledger::Ledger;
use quizrunner::question::{hash_question, Question};
use quizrunner::quiz::{answer, parse_choice, parse_policy, select_file, AnswerOutcome};
use quizrunner::selection::{select, select_order, Policy};

fn question(text: &str, options: &[&str], answer: usize) -> Question {
    Question {
        question: text.to_string(),
        options: options.iter().map(|o| o.to_string()).collect(),
        answer,
        hash: None,
    }
}

fn with_hash(text: &str, hash: &str) -> Question {
    Question {
        question: text.to_string(),
        options: vec!["a".to_string(), "b".to_string()],
        answer: 1,
        hash: Some(hash.to_string()),
    }
}

fn count(ledger: &Ledger, id: &str) -> u64 {
    ledger.miss_count(&id.to_string())
}

#[test]
fn identity_is_sha256_of_text_and_options() {
    let q = question("What is 2+2?", &["3", "4"], 2);
    assert_eq!(
        hash_question(&q),
        "d3dba50a699f7a4355b4e5d984fc96340fa744af1a0e083bdc668b9cb0603ff4"
    );
    assert_eq!(q.hash_input(), "What is 2+2?34");
}

#[test]
fn identity_of_non_ascii_text() {
    let q = question("Größe?", &["a", "b"], 1);
    assert_eq!(
        hash_question(&q),
        "e143c9a3fb663f093d91b8ca7d3f3d6f6d0e7f1387688f4c3c3599483f28b346"
    );
}

#[test]
fn identity_of_empty_question() {
    let q = question("", &[], 1);
    assert_eq!(
        hash_question(&q),
        "e3b0c44298fc1c149afbf4c8996fb92427ae41e4649b934ca495991b7852b855"
    );
}

#[test]
fn identity_is_stable_across_calls() {
    let a = question("Capital of France?", &["Paris", "Rome"], 1);
    let b = question("Capital of France?", &["Paris", "Rome"], 1);
    let first = hash_question(&a);
    let _ = hash_question(&question("other", &["x"], 1));
    assert_eq!(first, hash_question(&a));
    assert_eq!(first, hash_question(&b));
    assert_eq!(first.len(), 64);
}

#[test]
fn identity_changes_with_option_order() {
    let a = question("Capital of France?", &["Paris", "Rome"], 1);
    let b = question("Capital of France?", &["Rome", "Paris"], 2);
    assert_ne!(hash_question(&a), hash_question(&b));
}

#[test]
fn precomputed_identity_is_used_verbatim() {
    let q = with_hash("anything", "my-id");
    assert_eq!(hash_question(&q), "my-id");
}

#[test]
fn missed_twice_then_correct_twice() {
    let mut ledger = Ledger::new();
    let id = "q1".to_string();
    ledger.record_result(id.clone(), "Q?".to_string(), false);
    ledger.record_result(id.clone(), "Q?".to_string(), false);
    ledger.record_result(id.clone(), "Q?".to_string(), true);
    assert_eq!(count(&ledger, "q1"), 1);
    assert_eq!(ledger.render(), "q1,1,\"Q?\"\n");
    ledger.record_result(id.clone(), "Q?".to_string(), true);
    assert_eq!(count(&ledger, "q1"), 0);
    assert_eq!(ledger.render(), "");
}

#[test]
fn correct_answers_never_go_below_zero() {
    let mut ledger = Ledger::new();
    for _ in 0..3 {
        ledger.record_result("q".to_string(), "t".to_string(), true);
    }
    assert_eq!(count(&ledger, "q"), 0);
    let e = ledger.entry(&"q".to_string()).unwrap();
    assert_eq!(e.miss_count, 0);
    assert_eq!(e.last_question_text, "t");
}

#[test]
fn wrong_answers_keep_adding() {
    let mut ledger = Ledger::new();
    for _ in 0..100 {
        ledger.record_result("q".to_string(), "t".to_string(), false);
    }
    assert_eq!(count(&ledger, "q"), 100);
}

#[test]
fn record_result_refreshes_text() {
    let mut ledger = Ledger::new();
    ledger.record_result("q".to_string(), "old".to_string(), false);
    ledger.record_result("q".to_string(), "new".to_string(), false);
    let e = ledger.entry(&"q".to_string()).unwrap();
    assert_eq!(e.miss_count, 2);
    assert_eq!(e.last_question_text, "new");
}

#[test]
fn count_saturates_at_largest_value() {
    let mut ledger = Ledger::new();
    ledger.insert("q".to_string(), u64::MAX, "t".to_string());
    ledger.record_result("q".to_string(), "t".to_string(), false);
    assert_eq!(count(&ledger, "q"), u64::MAX);
}

#[test]
fn unknown_identity_counts_zero() {
    let ledger = Ledger::new();
    assert_eq!(count(&ledger, "nope"), 0);
    assert!(ledger.entry(&"nope".to_string()).is_none());
}

#[test]
fn ledger_line_loads_to_entry() {
    let ledger = Ledger::parse("deadbeef,2,\"What is 2+2?\"");
    let e = ledger.entry(&"deadbeef".to_string()).unwrap();
    assert_eq!(e.identity, "deadbeef");
    assert_eq!(e.miss_count, 2);
    assert_eq!(e.last_question_text, "What is 2+2?");
}

#[test]
fn malformed_lines_are_skipped() {
    let content = "a,1,\"A\"\nonlyone\nb,x,\"B\"\nc,-3,\"C\"\nd,,\"D\"\n\ne,4,\"E\"\n";
    let ledger = Ledger::parse(content);
    assert_eq!(count(&ledger, "a"), 1);
    assert!(ledger.entry(&"onlyone".to_string()).is_none());
    assert!(ledger.entry(&"b".to_string()).is_none());
    assert!(ledger.entry(&"c".to_string()).is_none());
    assert!(ledger.entry(&"d".to_string()).is_none());
    assert_eq!(count(&ledger, "e"), 4);
}

#[test]
fn empty_text_loads_empty_ledger() {
    let ledger = Ledger::parse("");
    assert_eq!(ledger.render(), "");
    assert_eq!(ledger.entries.len(), 0);
}

#[test]
fn doubled_quotes_are_unescaped() {
    let ledger = Ledger::parse("x,3,\"He said \"\"hi\"\", twice\"\r\n");
    let e = ledger.entry(&"x".to_string()).unwrap();
    assert_eq!(e.miss_count, 3);
    assert_eq!(e.last_question_text, "He said \"hi\", twice");
}

#[test]
fn later_line_replaces_earlier() {
    let ledger = Ledger::parse("x,3,\"one\"\nx,5,\"two\"");
    let e = ledger.entry(&"x".to_string()).unwrap();
    assert_eq!(e.miss_count, 5);
    assert_eq!(e.last_question_text, "two");
}

#[test]
fn count_too_large_is_skipped() {
    let ledger = Ledger::parse("x,18446744073709551616,\"t\"\ny,18446744073709551615,\"t\"");
    assert!(ledger.entry(&"x".to_string()).is_none());
    assert_eq!(count(&ledger, "y"), u64::MAX);
}

#[test]
fn save_escapes_quotes_and_prunes_zero() {
    let mut ledger = Ledger::new();
    ledger.insert("a".to_string(), 2, "say \"x\"".to_string());
    ledger.insert("b".to_string(), 0, "gone".to_string());
    ledger.insert("c".to_string(), 10, "ten".to_string());
    assert_eq!(ledger.render(), "a,2,\"say \"\"x\"\"\"\nc,10,\"ten\"\n");
}

#[test]
fn save_then_load_keeps_positive_entries_only() {
    let mut ledger = Ledger::new();
    ledger.insert("a".to_string(), 2, "A \"quoted\" one".to_string());
    ledger.insert("b".to_string(), 0, "B".to_string());
    ledger.insert("c".to_string(), 7, "".to_string());
    let loaded = Ledger::parse(&ledger.render());
    assert_eq!(count(&loaded, "a"), 2);
    assert_eq!(loaded.entry(&"a".to_string()).unwrap().last_question_text, "A \"quoted\" one");
    assert!(loaded.entry(&"b".to_string()).is_none());
    assert_eq!(count(&loaded, "c"), 7);
    assert_eq!(loaded.entry(&"c".to_string()).unwrap().last_question_text, "");
    assert_eq!(loaded.entries.len(), 2);
}

fn three_questions() -> Vec<Question> {
    vec![
        with_hash("first", "h1"),
        with_hash("second", "h2"),
        with_hash("third", "h3"),
    ]
}

fn sorted(mut v: Vec<usize>) -> Vec<usize> {
    v.sort();
    v
}

#[test]
fn weighted_selection_puts_missed_first() {
    let qs = three_questions();
    let mut ledger = Ledger::new();
    ledger.insert("h1".to_string(), 1, "first".to_string());
    ledger.insert("h3".to_string(), 2, "third".to_string());
    for _ in 0..50 {
        let r = select(&qs, &ledger, Policy::MissWeighted);
        assert_eq!(r.len(), 3);
        let mut front: Vec<String> = vec![r[0].question.clone(), r[1].question.clone()];
        front.sort();
        assert_eq!(front, vec!["first".to_string(), "third".to_string()]);
        assert_eq!(r[2].question, "second");
    }
}

#[test]
fn zero_count_entry_goes_with_the_others() {
    let qs = three_questions();
    let mut ledger = Ledger::new();
    ledger.insert("h2".to_string(), 0, "second".to_string());
    ledger.insert("h3".to_string(), 1, "third".to_string());
    for _ in 0..20 {
        let order = select_order(&qs, &ledger, Policy::MissWeighted);
        assert_eq!(order[0], 2);
        assert_eq!(sorted(order), vec![0, 1, 2]);
    }
}

#[test]
fn random_selection_is_a_permutation() {
    let qs: Vec<Question> = (0..10).map(|i| with_hash(&format!("q{}", i), &format!("h{}", i))).collect();
    let ledger = Ledger::new();
    for _ in 0..20 {
        let order = select_order(&qs, &ledger, Policy::Random);
        assert_eq!(sorted(order), (0..10).collect::<Vec<usize>>());
        let r = select(&qs, &ledger, Policy::Random);
        let mut texts: Vec<String> = r.iter().map(|q| q.question.clone()).collect();
        texts.sort();
        let mut expected: Vec<String> = qs.iter().map(|q| q.question.clone()).collect();
        expected.sort();
        assert_eq!(texts, expected);
    }
}

#[test]
fn selection_of_empty_set() {
    let qs: Vec<Question> = Vec::new();
    let ledger = Ledger::new();
    assert!(select(&qs, &ledger, Policy::MissWeighted).is_empty());
    assert!(select(&qs, &ledger, Policy::Random).is_empty());
}

#[test]
fn selection_uses_computed_identities() {
    let qs = vec![question("A?", &["1", "2"], 1), question("B?", &["1", "2"], 2)];
    let mut ledger = Ledger::new();
    ledger.insert(hash_question(&qs[1]), 1, "B?".to_string());
    for _ in 0..20 {
        let r = select(&qs, &ledger, Policy::MissWeighted);
        assert_eq!(r[0].question, "B?");
        assert_eq!(r[1].question, "A?");
        assert_eq!(r[0].options, vec!["1".to_string(), "2".to_string()]);
        assert_eq!(r[0].answer, 2);
    }
}

#[test]
fn non_numeric_answer_changes_nothing() {
    let q = with_hash("Q", "h");
    let mut ledger = Ledger::new();
    ledger.insert("h".to_string(), 2, "Q".to_string());
    let mut score: u64 = 3;
    let r = answer(&mut ledger, &mut score, &q, "abc");
    assert!(matches!(r, AnswerOutcome::Invalid));
    assert_eq!(score, 3);
    assert_eq!(count(&ledger, "h"), 2);
    assert_eq!(ledger.render(), "h,2,\"Q\"\n");
}

#[test]
fn correct_answer_scores_and_decrements() {
    let q = with_hash("Q", "h");
    let mut ledger = Ledger::new();
    ledger.insert("h".to_string(), 2, "Q".to_string());
    let mut score: u64 = 0;
    let r = answer(&mut ledger, &mut score, &q, "1");
    assert!(matches!(r, AnswerOutcome::Correct));
    assert_eq!(score, 1);
    assert_eq!(count(&ledger, "h"), 1);
}

#[test]
fn wrong_answer_reports_correct_option() {
    let q = question("Q", &["a", "b", "c"], 3);
    let id = hash_question(&q);
    let mut ledger = Ledger::new();
    let mut score: u64 = 0;
    let r = answer(&mut ledger, &mut score, &q, "1");
    assert!(matches!(r, AnswerOutcome::Wrong { answer: 3 }));
    assert_eq!(score, 0);
    assert_eq!(ledger.miss_count(&id), 1);
}

#[test]
fn out_of_range_answer_counts_wrong() {
    let q = question("Q", &["a", "b"], 1);
    let mut ledger = Ledger::new();
    let mut score: u64 = 0;
    let r = answer(&mut ledger, &mut score, &q, "9");
    assert!(matches!(r, AnswerOutcome::Wrong { answer: 1 }));
    assert_eq!(ledger.miss_count(&hash_question(&q)), 1);
}

#[test]
fn choice_parsing() {
    assert_eq!(parse_choice("3"), Some(3));
    assert_eq!(parse_choice("007"), Some(7));
    assert_eq!(parse_choice("0"), None);
    assert_eq!(parse_choice(""), None);
    assert_eq!(parse_choice("abc"), None);
    assert_eq!(parse_choice("1a"), None);
    assert_eq!(parse_choice("-1"), None);
    assert_eq!(parse_choice("99999999999999999999"), None);
}

#[test]
fn mode_prompt_defaults_to_random() {
    assert!(matches!(parse_policy("2"), Policy::MissWeighted));
    assert!(matches!(parse_policy("1"), Policy::Random));
    assert!(matches!(parse_policy("x"), Policy::Random));
    assert!(matches!(parse_policy(""), Policy::Random));
}

#[test]
fn file_menu_choice() {
    assert_eq!(select_file("1", 2), Some(0));
    assert_eq!(select_file("2", 2), Some(1));
    assert_eq!(select_file("3", 2), None);
    assert_eq!(select_file("0", 2), None);
    assert_eq!(select_file("x", 2), None);
    assert_eq!(select_file("1", 0), None);
}
