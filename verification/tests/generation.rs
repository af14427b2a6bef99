use smokey::layout::{prep_test, render_test, to_upper, Span, SpanStyle};
use smokey::punct::{choose_punctuation, pick_punctuation, Punctuation};
use smokey::reader::{extract_words, get_shuffled_words, shuffle_words, skip_plan, ReadStep};
use smokey::sampler::sample_sorted;

fn strings(words: &[&str]) -> Vec<String> {
    words.iter().map(|w| w.to_string()).collect()
}

fn lexicon() -> Vec<String> {
    strings(&[
        "the", "quick", "brown", "fox", "jumps", "over", "lazy", "dog", "pack", "my", "box",
        "with", "five", "dozen", "liquor", "jugs", "how", "vexingly", "daft", "zebras",
    ])
}

#[test]
fn sampler_respects_count_bound_and_order() {
    for _ in 0..20 {
        let s = sample_sorted(3, 10);
        assert_eq!(s.len(), 3);
        for &i in &s {
            assert!(i < 10);
        }
        for w in s.windows(2) {
            assert!(w[0] <= w[1]);
        }
    }
    let empty = sample_sorted(0, 5);
    assert!(empty.is_empty());
    let ones = sample_sorted(4, 1);
    assert_eq!(ones, vec![0, 0, 0, 0]);
}

#[test]
fn reader_never_advances_past_the_pool() {
    for _ in 0..20 {
        let s = sample_sorted(3, 10);
        let plan = skip_plan(&s);
        assert_eq!(plan.len(), 3);
        let mut reads = 0usize;
        for step in &plan {
            if let ReadStep::Advance(k) = step {
                reads += k + 1;
            }
        }
        assert!(reads <= 10);
        assert_eq!(reads, s[s.len() - 1] + 1);
    }
}

#[test]
fn skip_plan_encodes_gaps_and_repeats() {
    let plan = skip_plan(&vec![2, 2, 5]);
    assert_eq!(plan, vec![ReadStep::Advance(2), ReadStep::Reuse, ReadStep::Advance(2)]);
}

#[test]
fn extract_words_reuses_repeated_offsets() {
    let lines = strings(&["a", "b", "c", "d", "e", "f"]);
    let out = extract_words(&vec![2, 2, 5], &lines);
    assert_eq!(out, vec!["c", "c", "f"]);
    let single = extract_words(&vec![0], &lines);
    assert_eq!(single, vec!["a"]);
}

#[test]
fn shuffle_keeps_the_multiset_of_words() {
    let mut words = strings(&["one", "two", "two", "three", "four", "five"]);
    let mut expected = words.clone();
    shuffle_words(&mut words);
    assert_eq!(words.len(), expected.len());
    let mut got = words.clone();
    got.sort();
    expected.sort();
    assert_eq!(got, expected);
}

#[test]
fn shuffled_words_come_from_the_pool() {
    let lines = lexicon();
    let words = get_shuffled_words(&lines, 200, 10);
    assert_eq!(words.len(), 200);
    for w in &words {
        assert!(lines[..10].contains(w));
    }
}

#[test]
fn punctuation_buckets_have_exact_boundaries() {
    assert_eq!(pick_punctuation(0), Punctuation::End('.'));
    assert_eq!(pick_punctuation(64), Punctuation::End('.'));
    assert_eq!(pick_punctuation(65), Punctuation::End('?'));
    assert_eq!(pick_punctuation(71), Punctuation::End('!'));
    assert_eq!(pick_punctuation(74), Punctuation::Normal(','));
    assert_eq!(pick_punctuation(135), Punctuation::Normal(';'));
    assert_eq!(pick_punctuation(138), Punctuation::Normal(':'));
    assert_eq!(pick_punctuation(141), Punctuation::Paired('<', '>'));
    assert_eq!(pick_punctuation(143), Punctuation::Paired('(', ')'));
    assert_eq!(pick_punctuation(146), Punctuation::Paired('{', '}'));
    assert_eq!(pick_punctuation(148), Punctuation::Paired('[', ']'));
    assert_eq!(pick_punctuation(150), Punctuation::Paired('"', '"'));
    assert_eq!(pick_punctuation(163), Punctuation::Paired('\'', '\''));
    assert_eq!(pick_punctuation(173), Punctuation::DashLike('-'));
    assert_eq!(pick_punctuation(183), Punctuation::Null);
    assert_eq!(pick_punctuation(982), Punctuation::Null);
}

#[test]
fn drawn_punctuation_is_from_the_table() {
    for _ in 0..50 {
        let p = choose_punctuation();
        match p {
            Punctuation::End(c) => assert!(c == '.' || c == '?' || c == '!'),
            Punctuation::Normal(c) => assert!(c == ',' || c == ';' || c == ':'),
            Punctuation::Paired(a, z) => assert!(matches!(
                (a, z),
                ('<', '>') | ('(', ')') | ('{', '}') | ('[', ']') | ('"', '"') | ('\'', '\'')
            )),
            Punctuation::DashLike(c) => assert_eq!(c, '-'),
            Punctuation::Null => {}
        }
    }
}

#[test]
fn to_upper_handles_ascii() {
    assert_eq!(to_upper('a'), 'A');
    assert_eq!(to_upper('z'), 'Z');
    assert_eq!(to_upper('A'), 'A');
    assert_eq!(to_upper('-'), '-');
    assert_eq!(to_upper('é'), 'é');
}

fn contents(line: &[Span]) -> Vec<String> {
    line.iter().map(|s| s.content.iter().collect::<String>()).collect()
}

#[test]
fn render_lays_out_a_single_line() {
    let words = strings(&["cat", "dog"]);
    let puncts = vec![Punctuation::Null, Punctuation::Null];
    let lines = render_test(&words, &puncts, 100);
    assert_eq!(lines.len(), 1);
    assert_eq!(contents(&lines[0]), vec!["c", "a", "t", "", " ", "d", "o", "g"]);
    for span in &lines[0] {
        assert_eq!(span.style, SpanStyle::Pending);
    }
}

#[test]
fn render_breaks_lines_and_moves_the_last_line_first() {
    let words = strings(&["aa", "bb", "cc"]);
    let puncts = vec![Punctuation::Null, Punctuation::Null, Punctuation::Null];
    let lines = render_test(&words, &puncts, 5);
    assert_eq!(lines.len(), 2);
    // the final accumulated line, trimmed of its separator pair, comes first
    assert_eq!(contents(&lines[0]), vec!["b", "b", "", " ", "c", "c"]);
    assert_eq!(contents(&lines[1]), vec!["a", "a", "", " "]);
}

#[test]
fn sentence_end_capitalizes_only_the_next_word() {
    let words = strings(&["hello", "world", "again"]);
    let puncts = vec![Punctuation::End('.'), Punctuation::Null, Punctuation::Null];
    let lines = render_test(&words, &puncts, 100);
    assert_eq!(lines.len(), 1);
    assert_eq!(
        contents(&lines[0]),
        vec![
            "h", "e", "l", "l", "o", ".", "", " ", "W", "o", "r", "l", "d", "", " ", "a", "g",
            "a", "i", "n"
        ]
    );
}

#[test]
fn paired_punctuation_wraps_the_word() {
    let words = strings(&["x"]);
    let puncts = vec![Punctuation::Paired('(', ')')];
    let lines = render_test(&words, &puncts, 100);
    assert_eq!(lines.len(), 1);
    assert_eq!(contents(&lines[0]), vec!["(", "x", ")"]);
}

#[test]
fn dash_like_renders_nothing() {
    let words = strings(&["ab"]);
    let puncts = vec![Punctuation::DashLike('-')];
    let lines = render_test(&words, &puncts, 100);
    assert_eq!(contents(&lines[0]), vec!["a", "b"]);
}

#[test]
fn test_prep() {
    let lines_src = lexicon();
    let length = 200;
    let limit = 65;
    let words = get_shuffled_words(&lines_src, length, lines_src.len());
    let result = prep_test(&words, limit);

    let mut word_count = 1;
    for line in &result {
        let mut char_count = 0;
        for span in line {
            if span.content == vec![' '] {
                word_count += 1;
            }
            if !span.content.is_empty() {
                char_count += 1;
            }
        }
        // there can be a space at the end of a line; it carries no width
        assert!(char_count <= limit + 1);
    }
    assert_eq!(word_count, length);
}

#[test]
fn first_line_has_no_trailing_separator() {
    for _ in 0..10 {
        let words = get_shuffled_words(&lexicon(), 30, 20);
        let result = prep_test(&words, 30);
        let first = &result[0];
        let last = first.last().unwrap();
        assert_eq!(last.content.len(), 1);
        assert_ne!(last.content, vec![' ']);
    }
}
