use syspell::tokens::tokenize;
use syspell::{Checker, SpellingError};

fn collect_errors(mut seq: syspell::ErrorSequence) -> Vec<SpellingError> {
    let mut out = Vec::new();
    while let Some(e) = seq.next() {
        out.push(e);
    }
    out
}

fn verdicts_for(text: &str, bad: &[&str]) -> Vec<bool> {
    let toks = tokenize(text);
    let chars: Vec<char> = text.chars().collect();
    toks.iter()
        .map(|t| {
            let w: String = chars[t.start..t.start + t.length].iter().collect();
            bad.contains(&w.as_str())
        })
        .collect()
}

#[test]
fn whitespace_only_text_yields_no_errors() {
    let c = Checker::new();
    for text in ["", " ", " \t\r\n ", "\u{a0}\u{2003} \u{3000}"] {
        let verdicts = verdicts_for(text, &["anything"]);
        assert_eq!(verdicts.len(), 0);
        let mut seq = c.check(text, &verdicts);
        assert!(seq.next().is_none());
    }
}

#[test]
fn error_spans_match_source_text_and_do_not_overlap() {
    let text = "teh  quick brwn fox";
    let c = Checker::new();
    let verdicts = verdicts_for(text, &["teh", "brwn"]);
    let errors = collect_errors(c.check(text, &verdicts));
    assert_eq!(errors.len(), 2);
    let chars: Vec<char> = text.chars().collect();
    let mut prev_end = 0;
    for e in &errors {
        let (start, length) = e.pos();
        let span: String = chars[start..start + length].iter().collect();
        assert_eq!(span, e.text());
        assert!(start >= prev_end);
        prev_end = start + length;
    }
    assert_eq!(errors[0].text(), "teh");
    assert_eq!(errors[0].pos(), (0, 3));
    assert_eq!(errors[1].text(), "brwn");
    assert_eq!(errors[1].pos(), (11, 4));
}

#[test]
fn checking_twice_yields_identical_sequences() {
    let text = "one tow three foru";
    let c = Checker::new();
    let verdicts = verdicts_for(text, &["tow", "foru"]);
    let first = collect_errors(c.check(text, &verdicts));
    let second = collect_errors(c.check(text, &verdicts));
    assert_eq!(first.len(), second.len());
    for (a, b) in first.iter().zip(second.iter()) {
        assert_eq!(a.pos(), b.pos());
        assert_eq!(a.text(), b.text());
    }
}

#[test]
fn ignored_word_is_never_flagged_again_on_same_session() {
    let text = "relly relly good";
    let mut c = Checker::new();
    let verdicts = verdicts_for(text, &["relly"]);
    let before = collect_errors(c.check(text, &verdicts));
    assert_eq!(before.len(), 2);
    c.ignore("relly");
    assert!(c.is_ignored("relly"));
    let after = collect_errors(c.check(text, &verdicts));
    assert!(after.iter().all(|e| e.text() != "relly"));
    assert_eq!(after.len(), 0);
}

#[test]
fn fresh_session_is_unaffected_by_anothers_ignore() {
    let text = "relly good";
    let mut first = Checker::new();
    first.ignore("relly");
    let second = Checker::new();
    assert!(!second.is_ignored("relly"));
    let verdicts = verdicts_for(text, &["relly"]);
    let errors = collect_errors(second.check(text, &verdicts));
    assert_eq!(errors.len(), 1);
    assert_eq!(errors[0].text(), "relly");
}

#[test]
fn ignoring_the_empty_word_is_a_no_op() {
    let mut c = Checker::new();
    c.ignore("");
    assert!(!c.is_ignored(""));
}

#[test]
fn scenario_one_error_for_relly() {
    let text = "I relly like this.";
    let c = Checker::new();
    let verdicts = verdicts_for(text, &["relly"]);
    assert_eq!(verdicts.len(), 4);
    let errors = collect_errors(c.check(text, &verdicts));
    assert_eq!(errors.len(), 1);
    assert_eq!(errors[0].pos(), (2, 5));
    assert_eq!(errors[0].text(), "relly");
}

#[test]
fn dropping_a_sequence_partway_leaves_the_session_usable() {
    let text = "abc def ghi";
    let mut c = Checker::new();
    let verdicts = verdicts_for(text, &["abc", "def", "ghi"]);
    let mut seq = c.check(text, &verdicts);
    let first = seq.next().expect("one error expected");
    assert_eq!(first.text(), "abc");
    drop(seq);
    c.ignore("def");
    let rest = collect_errors(c.check(text, &verdicts));
    assert_eq!(rest.len(), 2);
    assert_eq!(rest[0].text(), "abc");
    assert_eq!(rest[1].text(), "ghi");
    let mut sugg = c.suggest("abc", vec!["abd".to_string(), "abe".to_string()]);
    assert_eq!(sugg.next().as_deref(), Some("abd"));
    drop(sugg);
    assert!(c.is_ignored("def"));
}

#[test]
fn suggestions_keep_engine_order_for_a_flagged_word() {
    let c = Checker::new();
    let verdicts = verdicts_for("teh", &["teh"]);
    let errors = collect_errors(c.check("teh", &verdicts));
    assert_eq!(errors.len(), 1);
    let candidates = vec!["the".to_string(), "ten".to_string(), "tech".to_string()];
    let mut seq = c.suggest(errors[0].text(), candidates);
    assert_eq!(seq.next().as_deref(), Some("the"));
    assert_eq!(seq.next().as_deref(), Some("ten"));
    assert_eq!(seq.next().as_deref(), Some("tech"));
    assert!(seq.next().is_none());
    assert!(seq.next().is_none());
}

#[test]
fn suggest_on_the_empty_word_is_empty() {
    let c = Checker::new();
    let mut seq = c.suggest("", vec!["the".to_string()]);
    assert!(seq.next().is_none());
    let mut wide = c.suggest_wide("", vec![syspell::wide::StrPtr::new(vec![97, 0])]);
    assert!(wide.next().is_none());
}

#[test]
fn default_session_is_fresh() {
    let c = Checker::default();
    assert!(!c.is_ignored("word"));
}

#[test]
fn tokenizer_finds_maximal_nonwhitespace_runs() {
    let toks = tokenize("  ab\tcd  e ");
    let spans: Vec<(usize, usize)> = toks.iter().map(|t| (t.start, t.length)).collect();
    assert_eq!(spans, vec![(2, 2), (5, 2), (9, 1)]);
    assert_eq!(tokenize("").len(), 0);
    let one = tokenize("word");
    assert_eq!(one.len(), 1);
    assert_eq!((one[0].start, one[0].length), (0, 4));
}

#[test]
fn tokenizer_counts_characters_not_bytes() {
    let toks = tokenize("héllo wörld");
    let spans: Vec<(usize, usize)> = toks.iter().map(|t| (t.start, t.length)).collect();
    assert_eq!(spans, vec![(0, 5), (6, 5)]);
}

#[test]
fn build_path_joins_root_and_name() {
    assert_eq!(syspell::build_path("/usr/share/dict", "index.aff"), "/usr/share/dict/index.aff");
    assert_eq!(syspell::build_path("", "index.dic"), "/index.dic");
}
