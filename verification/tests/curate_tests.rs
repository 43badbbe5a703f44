use warc_curator::curate::{
    retained_text, score_analysis, score_outcome, Rejection, TARGET_SCRIPT_PATTERN,
};
use warc_curator::score::{score, tally, Score, Token};
use warc_curator::select::{merge, normalize, select_units, split_into_sentences};

fn rep(c: &str, n: usize) -> String {
    c.repeat(n)
}

fn token(surface: &str, pos: &str, detail: Option<&str>) -> Token {
    Token {
        surface: surface.to_string(),
        part_of_speech: Some(pos.to_string()),
        subcategory: detail.map(|d| d.to_string()),
    }
}

fn value(s: Score) -> f64 {
    s.num as f64 / s.den as f64
}

fn one() -> Score {
    Score { num: 1, den: 1 }
}

fn zero() -> Score {
    Score { num: 0, den: 1 }
}

#[test]
fn windows_keep_runs_and_short_gaps() {
    let text = rep("これはてすとのぶんしょうです。", 4);
    let kept = retained_text(TARGET_SCRIPT_PATTERN, &text).expect("kept");
    let expected: String = text.chars().take(59).collect();
    assert_eq!(kept, expected);
}

#[test]
fn first_run_brings_fifty_characters_of_context() {
    let text = rep("日", 10) + &rep("あ", 50);
    assert_eq!(retained_text(TARGET_SCRIPT_PATTERN, &text), Ok(text.clone()));
    let text = format!("{}\n\t{}{}", rep("月", 20), rep("日", 60), rep("あ", 140));
    let expected = rep("日", 50) + &rep("あ", 140);
    assert_eq!(retained_text(TARGET_SCRIPT_PATTERN, &text), Ok(expected));
}

#[test]
fn a_space_is_a_run_of_its_own() {
    let text = format!("{}\n {}{}", rep("月", 20), rep("日", 60), rep("あ", 140));
    let expected = rep("月", 20) + "\n" + &rep("あ", 140);
    assert_eq!(retained_text(TARGET_SCRIPT_PATTERN, &text), Ok(expected));
}

#[test]
fn thin_target_script_is_rejected() {
    let text = rep("日", 60) + &rep("あ", 40);
    assert_eq!(retained_text(TARGET_SCRIPT_PATTERN, &text), Err(Rejection::TooFewTargetScript));
}

#[test]
fn a_gap_of_more_than_25_characters_starts_a_window() {
    let text = rep("あ", 30) + &rep("日", 26) + &rep("い", 30);
    let expected = rep("あ", 30) + "\n" + &rep("い", 30);
    assert_eq!(retained_text(TARGET_SCRIPT_PATTERN, &text), Ok(expected));
}

#[test]
fn a_gap_of_25_characters_stays_in_the_window() {
    let text = rep("あ", 30) + &rep("日", 25) + &rep("い", 30);
    assert_eq!(retained_text(TARGET_SCRIPT_PATTERN, &text), Ok(text.clone()));
}

#[test]
fn gaps_are_counted_in_characters() {
    let text = rep("あ", 30) + &rep("日", 10) + &rep("い", 30);
    assert_eq!(retained_text(TARGET_SCRIPT_PATTERN, &text), Ok(text.clone()));
}

#[test]
fn gaps_are_trimmed() {
    let text = rep("あ", 30) + "\n\t日\u{3000}\n" + &rep("い", 30) + "\n\n";
    let expected = rep("あ", 30) + "日" + &rep("い", 30);
    assert_eq!(retained_text(TARGET_SCRIPT_PATTERN, &text), Ok(expected));
}

#[test]
fn windows_are_trimmed() {
    let text = format!("   {}   {}{}  ", rep("あ", 30), rep("日", 30), rep("い", 30));
    let expected = rep("あ", 30) + "\n" + &rep("い", 30);
    assert_eq!(retained_text(TARGET_SCRIPT_PATTERN, &text), Ok(expected));
}

#[test]
fn density_of_exactly_55_in_100_is_enough() {
    let text = rep("あ", 30) + &rep("日", 25) + &rep("い", 24) + &rep("日", 20) + "う";
    assert_eq!(text.chars().count(), 100);
    assert_eq!(retained_text(TARGET_SCRIPT_PATTERN, &text), Ok(text.clone()));
    let text = rep("あ", 30) + &rep("日", 25) + &rep("い", 23) + &rep("日", 21) + "う";
    assert_eq!(text.chars().count(), 100);
    assert_eq!(retained_text(TARGET_SCRIPT_PATTERN, &text), Err(Rejection::TooFewTargetScript));
}

#[test]
fn short_texts_are_rejected() {
    assert_eq!(retained_text(TARGET_SCRIPT_PATTERN, &rep("あ", 19)), Err(Rejection::TextTooShort));
    assert_eq!(retained_text(TARGET_SCRIPT_PATTERN, ""), Err(Rejection::TextTooShort));
    assert_eq!(retained_text(TARGET_SCRIPT_PATTERN, &rep("あ", 20)), Err(Rejection::KeptTooShort));
    assert_eq!(retained_text(TARGET_SCRIPT_PATTERN, &rep("あ", 49)), Err(Rejection::KeptTooShort));
    assert_eq!(retained_text(TARGET_SCRIPT_PATTERN, &rep("あ", 50)), Ok(rep("あ", 50)));
    assert_eq!(retained_text(TARGET_SCRIPT_PATTERN, &rep("日", 80)), Err(Rejection::KeptTooShort));
}

#[test]
fn a_bad_pattern_gives_no_runs() {
    assert_eq!(retained_text("(", &rep("あ", 80)), Err(Rejection::NoRuns));
}

#[test]
fn windowing_its_own_single_window_changes_nothing() {
    let text = rep("日", 70) + &rep("あ", 30) + &rep("日", 25) + &rep("い", 80) + &rep("日", 70);
    let kept = retained_text(TARGET_SCRIPT_PATTERN, &text).expect("kept");
    assert_eq!(kept, rep("日", 50) + &rep("あ", 30) + &rep("日", 25) + &rep("い", 80));
    assert_eq!(retained_text(TARGET_SCRIPT_PATTERN, &kept), Ok(kept.clone()));
}

#[test]
fn windowing_two_windows_again_joins_them() {
    let text = rep("あ", 30) + &rep("日", 26) + &rep("い", 30);
    let kept = retained_text(TARGET_SCRIPT_PATTERN, &text).expect("kept");
    assert_eq!(kept, rep("あ", 30) + "\n" + &rep("い", 30));
    assert_eq!(retained_text(TARGET_SCRIPT_PATTERN, &kept), Ok(rep("あ", 30) + &rep("い", 30)));
}

#[test]
fn sentences_are_the_last_words_between_full_stops() {
    assert_eq!(split_into_sentences("今日は晴れ。 明日は 雨。\n。"), vec!["今日は晴れ", "雨"]);
    assert_eq!(split_into_sentences("no stop at all"), vec!["all"]);
    assert_eq!(split_into_sentences(""), Vec::<String>::new());
    assert_eq!(split_into_sentences("。。  。"), Vec::<String>::new());
    assert_eq!(split_into_sentences("一。二。三"), vec!["一", "二", "三"]);
}

#[test]
fn length_brackets_have_their_weights() {
    let weight = |length: usize| score(0, 0, length, false);
    for (length, thousandths) in [(0, 0), (5, 0), (8, 0), (9, 0), (10, 1000), (19, 1000), (20, 1200), (40, 1200), (80, 1200), (81, 1000), (200, 1000), (201, 700), (100000, 700)] {
        let s = weight(length);
        assert_eq!((s.num, s.den), (thousandths, 1000), "length {}", length);
    }
}

#[test]
fn scores_follow_the_formula() {
    let s = score(3, 2, 40, false);
    assert_eq!((s.num, s.den), (43200, 25000));
    assert!((value(s) - 1.728).abs() < 1e-12);
    let s = score(1, 0, 10, true);
    assert_eq!((s.num, s.den), (10400, 5000));
    assert!((value(s) - 2.08).abs() < 1e-12);
    let s = score(0, 4, 100, false);
    assert!((value(s) - 0.6).abs() < 1e-12);
    let s = score(2, 0, 30, true);
    assert!((value(s) - 1.6 * 1.2 * 1.2 * 1.3).abs() < 1e-12);
    let s = score(1, 1, 300, true);
    assert!((value(s) - 1.1 * 0.7 * 1.3).abs() < 1e-12);
}

#[test]
fn length_from_5_to_40_raises_the_score_and_8_scores_nothing() {
    for (content, function) in [(0usize, 0usize), (1, 0), (0, 1), (3, 2), (10, 40)] {
        for digit in [false, true] {
            let short = score(content, function, 5, digit);
            let long = score(content, function, 40, digit);
            assert!(value(short) < value(long));
            assert_eq!(score(content, function, 8, digit).num, 0);
        }
    }
}

#[test]
fn tally_skips_leading_fillers_and_sorts_the_rest() {
    let tokens = vec![
        token("は", "助詞", None),
        token("、", "補助記号", None),
        token("今日", "名詞", Some("普通名詞")),
        token("は", "助詞", None),
        token("晴れ", "名詞", None),
        token("です", "助動詞", None),
        token("する", "動詞", None),
        token("ので", "接続詞", None),
    ];
    let counts = tally(&tokens);
    assert_eq!(counts.content, 2);
    assert_eq!(counts.function, 2);
    assert_eq!(counts.cleaned.iter().collect::<String>(), "今日は晴れですするので");
    let all_fillers = vec![token("が", "助詞", None), token(",", "記号", None)];
    let counts = tally(&all_fillers);
    assert_eq!((counts.content, counts.function, counts.cleaned.len()), (0, 0, 0));
}

fn sample_tokens(number: &str) -> Vec<Token> {
    vec![
        token("日本語の文章を解析する技術について", "名詞", Some("普通名詞")),
        token("は", "助詞", Some("係助詞")),
        token("詳しく", "副詞", None),
        token("説明", "名詞", Some("普通名詞")),
        token("します", "動詞", Some("非自立可能")),
        token(number, "名詞", Some("数詞")),
    ]
}

#[test]
fn a_sentence_is_scored_from_its_tokens() {
    let tokens = sample_tokens("2024");
    let sentence: String = tokens.iter().map(|t| t.surface.as_str()).collect();
    let (s, cleaned) = score_analysis(&sentence, &tokens, &vec![]);
    assert_eq!(cleaned, sentence);
    assert_eq!(cleaned.chars().count(), 30);
    assert_eq!((s.num, s.den), (71136, 30000));
}

#[test]
fn digits_of_any_script_count_as_digits() {
    let tokens = sample_tokens("２０２４");
    let sentence: String = tokens.iter().map(|t| t.surface.as_str()).collect();
    let (s, _) = score_analysis(&sentence, &tokens, &vec![]);
    assert_eq!((s.num, s.den), (71136, 30000));
    let tokens = sample_tokens("四桁の年");
    let sentence: String = tokens.iter().map(|t| t.surface.as_str()).collect();
    let (s, _) = score_analysis(&sentence, &tokens, &vec![]);
    assert_eq!((s.num, s.den), (38 * 1440, 30000));
}

#[test]
fn a_sentence_with_a_denied_phrase_scores_nothing() {
    let tokens = sample_tokens("2024");
    let sentence: String = tokens.iter().map(|t| t.surface.as_str()).collect();
    let denylist = vec!["ログイン".to_string(), "技術について".to_string()];
    let (s, cleaned) = score_analysis(&sentence, &tokens, &denylist);
    assert_eq!(s.num, 0);
    assert_eq!(cleaned, sentence);
    let other = vec!["ログイン".to_string()];
    assert!(score_analysis(&sentence, &tokens, &other).0.num > 0);
}

#[test]
fn a_sentence_of_mostly_ascii_scores_nothing() {
    let tokens = sample_tokens("2024");
    let (s, _) = score_analysis("abcdefghijklmnopqrstuvwxyz日本語の文章を解析する技術", &tokens, &vec![]);
    assert_eq!(s.num, 0);
    let (s, _) = score_analysis("abcdefghijk日本語の文章を解析する技術です", &tokens, &vec![]);
    assert_eq!(s.num, 0);
    let (s, _) = score_analysis("abcdefghij日本語の文章を解析する技術です", &tokens, &vec![]);
    assert!(s.num > 0);
}

#[test]
fn a_sentence_of_unbalanced_tokens_scores_nothing() {
    let nouns = vec![
        token("日本語の文章を解析する技術", "名詞", None),
        token("自然言語処理の研究開発", "名詞", None),
    ];
    let (s, cleaned) = score_analysis("日本語の文章を解析する技術自然言語処理の研究開発", &nouns, &vec![]);
    assert_eq!(s.num, 0);
    assert_eq!(cleaned.chars().count(), 24);
    let particles = vec![token("は", "助詞", None), token("が", "助詞", None)];
    assert_eq!(score_analysis("はが", &particles, &vec![]).0.num, 0);
}

fn sentence(k: usize, length: usize) -> String {
    let letters = ["あ", "い", "う", "え", "お", "か", "き"];
    rep(letters[k], length)
}

#[test]
fn neighbours_within_three_places_are_merged() {
    let mut scored = Vec::new();
    for k in 0..7 {
        let s = if k == 3 || k == 4 { zero() } else { one() };
        scored.push((s, sentence(k, 20)));
    }
    let units = select_units(scored, &vec![]);
    let first = format!("{}。{}。{}。", sentence(0, 20), sentence(1, 20), sentence(2, 20));
    let second = format!("{}。{}。", sentence(5, 20), sentence(6, 20));
    assert_eq!(units, vec![first, second]);
}

#[test]
fn one_low_sentence_between_two_kept_ones_does_not_part_them() {
    let scored = vec![(one(), sentence(0, 20)), (zero(), sentence(1, 20)), (one(), sentence(2, 20))];
    assert_eq!(select_units(scored, &vec![]), vec![format!("{}。{}。", sentence(0, 20), sentence(2, 20))]);
    let scored = vec![
        (one(), sentence(0, 30)),
        (zero(), sentence(1, 30)),
        (zero(), sentence(2, 30)),
        (one(), sentence(3, 30)),
    ];
    assert_eq!(
        select_units(scored, &vec![]),
        vec![format!("{}。", sentence(0, 30)), format!("{}。", sentence(3, 30))]
    );
}

#[test]
fn sentences_are_kept_from_half_the_best_score() {
    let scored = vec![
        (Score { num: 3, den: 1 }, sentence(0, 20)),
        (Score { num: 3, den: 2 }, sentence(1, 20)),
        (Score { num: 149, den: 100 }, sentence(2, 20)),
    ];
    assert_eq!(select_units(scored, &vec![]), vec![format!("{}。{}。", sentence(0, 20), sentence(1, 20))]);
    let none = vec![(zero(), sentence(0, 40)), (zero(), sentence(1, 40))];
    assert_eq!(select_units(none, &vec![]), Vec::<String>::new());
    assert_eq!(select_units(vec![], &vec![]), Vec::<String>::new());
}

#[test]
fn units_of_up_to_30_characters_are_dropped() {
    assert_eq!(select_units(vec![(one(), sentence(0, 29))], &vec![]), Vec::<String>::new());
    assert_eq!(select_units(vec![(one(), sentence(0, 30))], &vec![]), vec![format!("{}。", sentence(0, 30))]);
}

#[test]
fn a_unit_with_a_denied_phrase_is_dropped_whatever_its_score() {
    let boilerplate = format!("{}ログインしてください", sentence(0, 30));
    let scored = vec![
        (one(), boilerplate),
        (zero(), sentence(1, 30)),
        (zero(), sentence(2, 30)),
        (one(), sentence(3, 40)),
    ];
    let denylist = vec!["利用規約".to_string(), "ログイン".to_string()];
    assert_eq!(select_units(scored, &denylist), vec![format!("{}。", sentence(3, 40))]);
}

#[test]
fn a_denied_phrase_across_two_sentences_drops_the_unit() {
    let scored = vec![(one(), format!("{}ログ", sentence(0, 30))), (one(), format!("イン{}", sentence(1, 30)))];
    assert_eq!(select_units(scored, &vec!["ログ。イン".to_string()]), Vec::<String>::new());
}

#[test]
fn scores_are_set_against_the_best() {
    let scored = normalize(vec![
        (Score { num: 1, den: 2 }, "a".to_string()),
        (Score { num: 2, den: 1 }, "b".to_string()),
        (zero(), "c".to_string()),
    ]);
    assert_eq!(scored.len(), 3);
    assert_eq!(scored[0].position, 0);
    assert_eq!(scored[2].position, 2);
    assert_eq!((scored[0].raw_score.num, scored[0].raw_score.den), (1, 2));
    assert!((value(scored[0].normalized_score) - 0.25).abs() < 1e-12);
    assert!((value(scored[1].normalized_score) - 1.0).abs() < 1e-12);
    assert_eq!(scored[2].normalized_score.num, 0);
    assert_eq!(scored[1].text, "b");
    let units: Vec<String> = merge(&scored).into_iter().map(|u| u.into_iter().collect()).collect();
    assert_eq!(units, vec!["b。"]);
}

#[test]
fn a_failed_analysis_scores_nothing_and_has_no_text() {
    let (s, cleaned) = score_outcome("日本語の文章を解析する技術について", None, &vec![]);
    assert_eq!((s.num, s.den), (0, 1));
    assert_eq!(cleaned, "");
}

#[test]
fn an_analysis_that_came_back_is_scored() {
    let tokens = sample_tokens("2024");
    let sentence: String = tokens.iter().map(|t| t.surface.as_str()).collect();
    let (s, cleaned) = score_outcome(&sentence, Some(tokens), &vec![]);
    assert_eq!((s.num, s.den), (71136, 30000));
    assert_eq!(cleaned, sentence);
    let (s, cleaned) = score_outcome("", Some(vec![]), &vec![]);
    assert_eq!(s.num, 0);
    assert_eq!(cleaned, "");
}
