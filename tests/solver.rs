use wordle_solver::feedback::Mark;
use wordle_solver::model::ConstraintModel;
use wordle_solver::parse::{chars_of, FeedbackError};
use wordle_solver::rank::{sort_scores, Scored};
use wordle_solver::round::{choose_mode, init_filter, plan_round, rank_scores, score_pool, seed_pool, Mode, RoundPlan};
use wordle_solver::scoring::{count_matches, filter_pool, score_word, score_word_fast, Score};
use wordle_solver::simulate::{classify_guess, simulate};

fn w(s: &str) -> Vec<char> {
    s.chars().collect()
}

fn pool(words: &[&str]) -> Vec<Vec<char>> {
    words.iter().map(|s| w(s)).collect()
}

fn names(ws: &[Vec<char>]) -> Vec<String> {
    ws.iter().map(|v| v.iter().collect()).collect()
}

#[test]
fn avoid_field_excludes_every_word_with_an_avoided_symbol() {
    let mut m = ConstraintModel::new(5);
    assert_eq!(m.parse_input("?????,?????,crane"), Ok(()));
    let p = pool(&["crane", "slate", "rates", "least"]);
    let kept = filter_pool(&p, &m);
    // every word of this pool holds 'a' or 'e', both avoided
    assert!(kept.is_empty());
    let p2 = pool(&["crane", "slate", "moist"]);
    assert_eq!(names(&filter_pool(&p2, &m)), vec!["moist".to_string()]);
}

#[test]
fn placement_field_keeps_only_words_with_those_letters_in_place() {
    let mut m = ConstraintModel::new(5);
    assert_eq!(m.parse_input("sl???"), Ok(()));
    let p = pool(&["slate", "shale", "stale"]);
    assert_eq!(names(&filter_pool(&p, &m)), vec!["slate".to_string()]);
    assert_eq!(count_matches(&p, &m), 1);
}

#[test]
fn present_field_forbids_the_position_and_requires_the_symbol() {
    let mut m = ConstraintModel::new(5);
    assert_eq!(m.parse_input("?????,a????,"), Ok(()));
    assert!(m.matches(&w("crane")));
    assert!(!m.matches(&w("apple")));
    assert!(!m.matches(&w("moist")));
}

#[test]
fn absent_after_present_caps_the_count() {
    let mut m = ConstraintModel::new(5);
    assert_eq!(m.parse_input("?????,e????,e"), Ok(()));
    assert!(m.matches(&w("crane")));
    assert!(!m.matches(&w("geese")));
    assert!(!m.matches(&w("moist")));
}

#[test]
fn wrong_length_never_matches() {
    let m = ConstraintModel::new(5);
    assert!(m.matches(&w("crane")));
    assert!(!m.matches(&w("cranes")));
    assert!(!m.matches(&w("")));
}

#[test]
fn matches_is_repeatable_and_leaves_the_model() {
    let mut m = ConstraintModel::new(5);
    m.parse_input("s????,?a???,x").unwrap();
    let before = m.fixed_at.clone();
    let first = m.matches(&w("sandy"));
    let second = m.matches(&w("sandy"));
    assert_eq!(first, second);
    assert!(!first);
    assert!(m.matches(&w("snail")));
    assert_eq!(m.fixed_at, before);
}

#[test]
fn too_many_fields_is_refused_and_model_unchanged() {
    let mut m = ConstraintModel::new(5);
    assert_eq!(m.parse_input("?????,?????,c,r"), Err(FeedbackError::TooManyFields));
    assert!(m.letters.is_empty());
}

#[test]
fn placement_past_the_word_is_refused() {
    let mut m = ConstraintModel::new(5);
    assert_eq!(
        m.parse_input("??????"),
        Err(FeedbackError::PositionOutOfRange { field: 0, index: 5 })
    );
    assert_eq!(
        m.parse_input("?????,?????a"),
        Err(FeedbackError::PositionOutOfRange { field: 1, index: 5 })
    );
    assert_eq!(m.fixed_at, vec![None; 5]);
}

#[test]
fn chars_of_keeps_every_character() {
    assert_eq!(chars_of("a?é,"), vec!['a', '?', 'é', ',']);
    assert_eq!(chars_of(""), Vec::<char>::new());
}

#[test]
fn simulating_a_guess_against_itself_fixes_every_position() {
    let m = ConstraintModel::new(5);
    let r = simulate(&w("crane"), &w("crane"), &m);
    assert_eq!(r.fixed_at, vec![Some('c'), Some('r'), Some('a'), Some('n'), Some('e')]);
    assert_eq!(m.fixed_at, vec![None; 5]);
}

#[test]
fn a_single_occurrence_is_coloured_once() {
    let evs = classify_guess(&w("eject"), &w("slate"));
    let marks: Vec<Mark> = evs.iter().map(|e| e.mark).collect();
    assert_eq!(marks[0], Mark::Present);
    assert_eq!(marks[2], Mark::Absent);
    let evs = classify_guess(&w("sheep"), &w("crane"));
    assert_eq!(evs[2].mark, Mark::Present);
    assert_eq!(evs[3].mark, Mark::Absent);
}

#[test]
fn simulated_feedback_narrows_the_pool() {
    let m = ConstraintModel::new(5);
    let r = simulate(&w("slate"), &w("crane"), &m);
    let p = pool(&["slate", "crane", "moist"]);
    assert_eq!(names(&filter_pool(&p, &r)), vec!["crane".to_string()]);
}

#[test]
fn comprehensive_score_excludes_the_guess_itself_from_best_and_worst() {
    let m = ConstraintModel::new(5);
    let p = pool(&["slate"]);
    assert_eq!(score_word(&w("slate"), &p, &m), Score { total: 1, worst: None, best: None });
    let p = pool(&["slate", "crane"]);
    assert_eq!(
        score_word(&w("slate"), &p, &m),
        Score { total: 2, worst: Some(1), best: Some(1) }
    );
}

#[test]
fn fast_score_counts_shared_symbols() {
    let p = pool(&["slate", "crane"]);
    assert_eq!(
        score_word_fast(&w("slate"), &p),
        Score { total: 7, worst: Some(2), best: Some(2) }
    );
    assert_eq!(score_word_fast(&w("slate"), &[]), Score { total: 0, worst: None, best: None });
}

#[test]
fn seed_words_have_common_distinct_symbols() {
    assert!(init_filter(&w("slate"), 5));
    assert!(!init_filter(&w("slate"), 4));
    assert!(!init_filter(&w("jazzy"), 5));
    assert!(!init_filter(&w("hello"), 5));
    assert!(!init_filter(&w("nymph"), 5));
    let p = pool(&["slate", "hello", "vomit", "crane"]);
    assert_eq!(names(&seed_pool(&p, 5)), vec!["slate".to_string(), "crane".to_string()]);
}

#[test]
fn mode_follows_the_threshold() {
    assert_eq!(choose_mode(1600, 1600), Mode::Comprehensive);
    assert_eq!(choose_mode(1601, 1600), Mode::Fast);
}

#[test]
fn sort_is_ascending_and_keeps_every_entry() {
    let v = vec![
        Scored { index: 0, score: Score { total: 5, worst: Some(3), best: Some(1) } },
        Scored { index: 1, score: Score { total: 2, worst: Some(2), best: Some(1) } },
        Scored { index: 2, score: Score { total: 5, worst: Some(2), best: Some(2) } },
    ];
    let s = sort_scores(&v, false);
    let idx: Vec<usize> = s.iter().map(|x| x.index).collect();
    assert_eq!(idx, vec![1, 2, 0]);
}

#[test]
fn fast_ranking_collapses_equal_totals_and_truncates() {
    let mut v = Vec::new();
    for i in 0..30usize {
        v.push(Scored { index: i, score: Score { total: (i / 2) as u64, worst: None, best: None } });
    }
    let r = rank_scores(&v, Mode::Fast);
    assert_eq!(r.len(), 10);
    let totals: Vec<u64> = r.iter().map(|x| x.score.total).collect();
    assert_eq!(totals, vec![14, 13, 12, 11, 10, 9, 8, 7, 6, 5]);
    let r = rank_scores(&v, Mode::Comprehensive);
    let totals: Vec<u64> = r.iter().map(|x| x.score.total).collect();
    assert_eq!(totals, vec![0, 0, 1, 1, 2, 2, 3, 3, 4, 4]);
}

#[test]
fn scoring_an_empty_pool_gives_nothing() {
    let m = ConstraintModel::new(5);
    let p: Vec<Vec<char>> = Vec::new();
    assert!(score_pool(&p, &m, Mode::Comprehensive).is_empty());
    assert!(rank_scores(&Vec::new(), Mode::Comprehensive).is_empty());
}

#[test]
fn score_pool_scores_each_word_in_order() {
    let m = ConstraintModel::new(5);
    let p = pool(&["slate", "crane"]);
    let s = score_pool(&p, &m, Mode::Fast);
    assert_eq!(s.len(), 2);
    assert_eq!(s[0].index, 0);
    assert_eq!(s[1].index, 1);
    assert_eq!(s[0].score.total, 7);
}

#[test]
fn accumulated_feedback_never_grows_the_pool() {
    let p = pool(&["crane", "slate", "moist", "shout", "spiny", "sound", "stomp"]);
    let mut m = ConstraintModel::new(5);
    let before = count_matches(&p, &m);
    m.parse_input("?????,?????,crane").unwrap();
    let after_one = count_matches(&p, &m);
    m.parse_input("s????,?o???,").unwrap();
    let after_two = count_matches(&p, &m);
    assert_eq!(before, 7);
    assert_eq!(after_one, 3);
    assert_eq!(after_two, 2);
    assert_eq!(names(&filter_pool(&p, &m)), vec!["shout".to_string(), "stomp".to_string()]);
}

#[test]
fn accepted_words_meet_each_recorded_constraint() {
    let mut m = ConstraintModel::new(5);
    m.parse_input("??a??,e????,s").unwrap();
    let p = pool(&["crane", "trace", "beach", "leash", "ocean"]);
    for word in filter_pool(&p, &m) {
        assert_eq!(word[2], 'a');
        assert_ne!(word[0], 'e');
        assert!(word.contains(&'e'));
        assert!(!word.contains(&'s'));
    }
    assert_eq!(names(&filter_pool(&p, &m)), vec!["crane".to_string(), "trace".to_string(), "beach".to_string()]);
}

#[test]
fn first_round_swaps_a_large_pool_for_the_seed_list() {
    assert_eq!(
        plan_round(5000, 900, true, 1600),
        RoundPlan { use_seed: true, mode: Mode::Comprehensive }
    );
    assert_eq!(
        plan_round(5000, 2000, true, 1600),
        RoundPlan { use_seed: true, mode: Mode::Fast }
    );
    assert_eq!(
        plan_round(5000, 900, false, 1600),
        RoundPlan { use_seed: false, mode: Mode::Fast }
    );
    assert_eq!(
        plan_round(100, 900, true, 1600),
        RoundPlan { use_seed: false, mode: Mode::Comprehensive }
    );
}
