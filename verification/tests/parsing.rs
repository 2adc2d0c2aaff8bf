use frogwatch_plotter::parsing::{split_line, CharClass, ParsedLine};

fn number(token: &str) -> Option<u64> {
    token.parse::<f64>().ok().map(|v| v.to_bits())
}

fn parse_line(line: &str) -> (Vec<f64>, Vec<String>) {
    let tokens = split_line(line);
    let outcomes: Vec<Option<u64>> = tokens.iter().map(|t| number(t)).collect();
    let parsed = ParsedLine::collect(&outcomes);
    let values = parsed.values.iter().map(|b| f64::from_bits(*b)).collect();
    let failed = parsed.failed.iter().map(|i| tokens[*i].clone()).collect();
    (values, failed)
}

#[test]
fn malformed_token_is_dropped_and_noted() {
    let (values, failed) = parse_line("[1, 2, bad, 4]");
    assert_eq!(values, vec![1.0, 2.0, 4.0]);
    assert_eq!(failed, vec!["bad".to_string()]);
}

#[test]
fn tokens_of_a_bracketed_line() {
    assert_eq!(split_line("[1, 2, bad, 4]"), vec!["1", "2", "bad", "4"]);
}

#[test]
fn tokens_of_a_plain_line() {
    assert_eq!(split_line("1,2"), vec!["1", "2"]);
    assert_eq!(split_line("3.5"), vec!["3.5"]);
}

#[test]
fn empty_line_has_one_empty_token() {
    assert_eq!(split_line(""), vec![""]);
    assert_eq!(split_line("\n"), vec![""]);
    assert_eq!(split_line("[]"), vec![""]);
    assert_eq!(split_line("[]\n"), vec![""]);
}

#[test]
fn empty_fields_are_tokens() {
    assert_eq!(split_line("1,,2"), vec!["1", "", "2"]);
    assert_eq!(split_line(","), vec!["", ""]);
    assert_eq!(split_line("[1,2,]"), vec!["1", "2", ""]);
    assert_eq!(split_line(",1"), vec!["", "1"]);
}

#[test]
fn every_newline_at_the_end_is_dropped() {
    assert_eq!(split_line("[1,2]\n"), vec!["1", "2"]);
    assert_eq!(split_line("[1,2]\n\n\n"), vec!["1", "2"]);
    assert_eq!(split_line("1\n2"), vec!["1\n2"]);
}

#[test]
fn every_bracket_at_the_ends_is_dropped() {
    assert_eq!(split_line("[[1,2]]"), vec!["1", "2"]);
    assert_eq!(split_line("]1,2["), vec!["1", "2"]);
    assert_eq!(split_line("[][1]"), vec!["1"]);
    assert_eq!(split_line("[[[[").len(), 1);
    assert_eq!(split_line("[[[["), vec![""]);
}

#[test]
fn brackets_inside_stay() {
    assert_eq!(split_line("[1],[2]"), vec!["1]", "[2"]);
    assert_eq!(split_line(" [1,2] "), vec!["[1", "2]"]);
    assert_eq!(split_line("[1,2]\r"), vec!["1", "2]"]);
}

#[test]
fn white_space_around_tokens_is_dropped() {
    assert_eq!(split_line("  1 ,\t2\t, 3 4 ,\r5"), vec!["1", "2", "3 4", "5"]);
    assert_eq!(split_line("[ 1 ]"), vec!["1"]);
    assert_eq!(split_line(" , "), vec!["", ""]);
    assert_eq!(split_line("\u{a0}1\u{3000},\u{2003}2\u{85}"), vec!["1", "2"]);
    assert_eq!(split_line("\u{200b}1"), vec!["\u{200b}1"]);
}

#[test]
fn tokens_match_the_string_methods() {
    let lines = [
        "[1, 2, bad, 4]",
        "[[ 1.5,2e3 ,, -7 ]]\n\n",
        "",
        " ",
        ",",
        "]x[",
        "[\n]",
        "a, [b] ,c]\n",
        "\t1\t,\u{2028}2\u{2029}",
        "[1,2]\r",
    ];
    for line in lines {
        let expected: Vec<String> = line
            .trim_end_matches('\n')
            .trim_matches(|c| c == '[' || c == ']')
            .split(',')
            .map(|p| p.trim().to_string())
            .collect();
        assert_eq!(split_line(line), expected);
    }
}

#[test]
fn white_space_class_is_the_unicode_property() {
    for code in 0..=0x10ffffu32 {
        if let Some(c) = char::from_u32(code) {
            assert_eq!(CharClass::WhiteSpace.contains(c), c.is_whitespace());
        }
    }
}

#[test]
fn newline_and_bracket_classes() {
    assert!(CharClass::Newline.contains('\n'));
    assert!(!CharClass::Newline.contains('\r'));
    assert!(!CharClass::Newline.contains(' '));
    assert!(CharClass::Bracket.contains('['));
    assert!(CharClass::Bracket.contains(']'));
    assert!(!CharClass::Bracket.contains('('));
    assert!(!CharClass::Bracket.contains('{'));
}

#[test]
fn collect_keeps_values_in_order() {
    let parsed = ParsedLine::collect(&vec![Some(3), None, Some(1), Some(2), None]);
    assert_eq!(parsed.values, vec![3, 1, 2]);
    assert_eq!(parsed.failed, vec![1, 4]);
}

#[test]
fn collect_of_nothing() {
    let parsed = ParsedLine::collect(&Vec::new());
    assert!(parsed.values.is_empty());
    assert!(parsed.failed.is_empty());
}

#[test]
fn line_of_failures_gives_no_value() {
    let (values, failed) = parse_line("[a, b, ]");
    assert!(values.is_empty());
    assert_eq!(failed, vec!["a".to_string(), "b".to_string(), "".to_string()]);
    let (values, failed) = parse_line("");
    assert!(values.is_empty());
    assert_eq!(failed, vec!["".to_string()]);
}

#[test]
fn numbers_in_every_notation() {
    let (values, failed) = parse_line("[ -1.5, 2e3, +4, .5, 7., inf ]\n");
    assert_eq!(values, vec![-1.5, 2000.0, 4.0, 0.5, 7.0, f64::INFINITY]);
    assert!(failed.is_empty());
}
