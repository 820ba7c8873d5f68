use go_webui::analysis::{is_analysis_line, looks_like_vertex, parse_kata_analyze, split_move_blocks};

fn number(text: &Option<String>) -> f64 {
    text.as_ref().map(|t| t.parse::<f64>().unwrap_or(0.0)).unwrap_or(0.0)
}

#[test]
fn parses_single_candidate() {
    let line = "info move Q16 visits 123 winrate 0.5432 scoreLead 1.23 pv Q16 D4 Q3";
    let result = parse_kata_analyze(line).expect("should parse");
    assert_eq!(result.candidates.len(), 1);
    let c = &result.candidates[0];
    assert_eq!(c.mv, "Q16");
    assert_eq!(c.visits, 123);
    assert!((number(&c.winrate) - 0.5432).abs() < 1e-9);
    assert!((number(&c.score_lead) - 1.23).abs() < 1e-9);
    assert_eq!(c.pv, vec!["Q16", "D4", "Q3"]);
}

#[test]
fn parses_multiple_candidates_and_ignores_unknown_fields() {
    let line = "info move Q16 visits 123 winrate 0.54 scoreLead 1.2 scoreStdev 4.5 prior 0.02 lcb 0.51 order 0 pv Q16 D4 info move D4 visits 90 winrate 0.49 scoreLead 0.9 pv D4 Q16";
    let result = parse_kata_analyze(line).expect("should parse");
    assert_eq!(result.candidates.len(), 2);
    assert_eq!(result.candidates[0].mv, "Q16");
    assert_eq!(result.candidates[1].mv, "D4");
    assert_eq!(result.candidates[1].pv, vec!["D4", "Q16"]);
}

#[test]
fn non_analysis_line_is_not_detected() {
    assert!(!is_analysis_line("= KataGo 1.13.0"));
    assert!(is_analysis_line("info move Q16 visits 1 winrate 0.5 pv Q16"));
}

#[test]
fn without_ownership_option_field_is_none() {
    let line = "info move Q16 visits 123 winrate 0.54 scoreLead 1.2 pv Q16 D4";
    let result = parse_kata_analyze(line).expect("should parse");
    assert_eq!(result.ownership, None);
}

#[test]
fn unknown_field_with_no_value_token_does_not_swallow_following_fields() {
    let line = "info move Q16 visits 123 winrate 0.54 scoreLead 1.2 isDuringSearch pv Q16 D4";
    let result = parse_kata_analyze(line).expect("should parse");
    assert_eq!(result.candidates.len(), 1);
    assert_eq!(result.candidates[0].pv, vec!["Q16", "D4"]);
}

#[test]
fn unknown_field_with_multiple_value_tokens_does_not_swallow_following_fields() {
    let line = "info move Q16 visits 123 pvVisits 10 8 6 4 winrate 0.54 scoreLead 1.2 pv Q16 D4";
    let result = parse_kata_analyze(line).expect("should parse");
    let c = &result.candidates[0];
    assert_eq!(c.visits, 123);
    assert!((number(&c.winrate) - 0.54).abs() < 1e-9);
    assert!((number(&c.score_lead) - 1.2).abs() < 1e-9);
    assert_eq!(c.pv, vec!["Q16", "D4"]);
}

#[test]
fn parses_trailing_ownership_field_on_last_block_only() {
    let line = "info move Q16 visits 123 winrate 0.54 scoreLead 1.2 pv Q16 D4 info move D4 visits 90 winrate 0.49 scoreLead 0.9 pv D4 Q16 ownership 0.1 -0.2 0.05 -1 1";
    let result = parse_kata_analyze(line).expect("should parse");
    assert_eq!(result.candidates.len(), 2);
    assert_eq!(result.candidates[0].pv, vec!["Q16", "D4"]);
    assert_eq!(result.candidates[1].pv, vec!["D4", "Q16"]);
    let ownership: Option<Vec<f64>> = result
        .ownership
        .map(|v| v.iter().map(|t| t.parse::<f64>().unwrap()).collect());
    assert_eq!(ownership, Some(vec![0.1, -0.2, 0.05, -1.0, 1.0]));
}

// Tests of this library's own.

#[test]
fn line_without_a_move_gives_nothing() {
    assert!(parse_kata_analyze("info visits 10 winrate 0.5 pv Q16").is_none());
    assert!(parse_kata_analyze("").is_none());
    assert!(parse_kata_analyze("info move").is_none());
}

#[test]
fn bad_visits_count_reads_as_zero_and_missing_values_stay_absent() {
    let result = parse_kata_analyze("info move C3 visits lots pv C3").expect("should parse");
    let c = &result.candidates[0];
    assert_eq!(c.visits, 0);
    assert_eq!(c.winrate, None);
    assert_eq!(c.score_lead, None);
    assert_eq!(result.move_number, 0);
}

#[test]
fn ownership_stops_at_the_first_word_that_is_no_number() {
    let result = parse_kata_analyze("info move A1 pv A1 ownership 0.5 1e-3 -INF x 0.2").expect("should parse");
    assert_eq!(result.ownership, Some(vec!["0.5".to_string(), "1e-3".to_string(), "-INF".to_string()]));
    let none = parse_kata_analyze("info move A1 pv A1 ownership abc").expect("should parse");
    assert_eq!(none.ownership, None);
}

#[test]
fn blocks_are_split_at_info_and_trimmed() {
    assert_eq!(
        split_move_blocks("info move A1 pv A1  info  move B2 visits 3 info "),
        vec!["move A1 pv A1", "move B2 visits 3"]
    );
    assert_eq!(split_move_blocks("no separator"), vec!["no separator"]);
}

#[test]
fn vertex_like_words() {
    assert!(looks_like_vertex("Q16"));
    assert!(looks_like_vertex("pass"));
    assert!(looks_like_vertex("RESIGN"));
    assert!(!looks_like_vertex("-0.3"));
    assert!(!looks_like_vertex("Q"));
    assert!(!looks_like_vertex("ownership"));
    assert!(!looks_like_vertex("Q1x"));
}
