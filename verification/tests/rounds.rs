use eqfit::filter::Filter;
use eqfit::rounds::{
    does_reach, is_below, select, Choice, Coordinator, Fitted, Outcome, Score,
};

#[test]
fn select_takes_the_strictly_lowest() {
    let results = vec![Score::Known(9), Score::Known(4), Score::Known(6)];
    assert_eq!(select(Score::Known(8), &results), Choice::Worker(1));
}

#[test]
fn select_keeps_the_previous_on_a_tie() {
    let results = vec![Score::Known(8), Score::Known(8)];
    assert_eq!(select(Score::Known(8), &results), Choice::Previous);
}

#[test]
fn select_keeps_the_first_of_equal_results() {
    let results = vec![Score::Known(7), Score::Unknown, Score::Known(4), Score::Known(4)];
    assert_eq!(select(Score::Known(7), &results), Choice::Worker(2));
}

#[test]
fn select_keeps_the_previous_when_nothing_is_lower() {
    let results = vec![Score::Known(9), Score::Known(10)];
    assert_eq!(select(Score::Known(8), &results), Choice::Previous);
    assert_eq!(select(Score::Known(8), &Vec::new()), Choice::Previous);
}

#[test]
fn select_passes_over_unknown_results() {
    let results = vec![Score::Unknown, Score::Known(3), Score::Unknown];
    assert_eq!(select(Score::Known(8), &results), Choice::Worker(1));
    assert_eq!(select(Score::Known(8), &vec![Score::Unknown]), Choice::Previous);
}

#[test]
fn select_never_replaces_an_unknown_previous() {
    let results = vec![Score::Known(0), Score::Known(3)];
    assert_eq!(select(Score::Unknown, &results), Choice::Previous);
}

#[test]
fn comparisons_of_scores() {
    assert!(is_below(Score::Known(1), Score::Known(2)));
    assert!(!is_below(Score::Known(2), Score::Known(2)));
    assert!(!is_below(Score::Unknown, Score::Known(2)));
    assert!(!is_below(Score::Known(2), Score::Unknown));
    assert!(does_reach(Score::Known(2), Score::Known(2)));
    assert!(does_reach(Score::Known(1), Score::Known(2)));
    assert!(!does_reach(Score::Known(3), Score::Known(2)));
    assert!(!does_reach(Score::Unknown, Score::Unknown));
}

fn bank(mark: u64) -> Vec<Filter> {
    vec![Filter::new(mark, mark + 1, mark + 2)]
}

fn fitted(errors: &[Option<u64>]) -> Vec<Fitted> {
    errors
        .iter()
        .map(|e| match e {
            Some(rank) => Fitted { bank: bank(*rank), score: Score::Known(*rank) },
            None => Fitted { bank: bank(0), score: Score::Unknown },
        })
        .collect()
}

#[test]
fn coordinator_starts_before_the_first_round() {
    let search = Coordinator::new(3, Score::Known(10), bank(100), Score::Known(100));
    assert!(!search.finished());
    assert_eq!(search.round(), 0);
    assert_eq!(search.shrinks(), 0);
    assert_eq!(search.best(), Score::Known(100));
    assert_eq!(search.bank(), &bank(100));
}

#[test]
fn coordinator_without_rounds_is_finished() {
    let search = Coordinator::new(0, Score::Known(10), bank(100), Score::Known(100));
    assert!(search.finished());
    assert_eq!(search.finish(), bank(100));
}

#[test]
fn coordinator_runs_a_round_even_when_the_start_reaches_the_limit() {
    let mut search = Coordinator::new(2, Score::Known(10), bank(5), Score::Known(5));
    assert!(!search.finished());
    let outcome = search.close_round(fitted(&[Some(7)]));
    assert_eq!(outcome, Outcome { choice: Choice::Previous, shrink: false });
    assert!(search.finished());
    assert_eq!(search.round(), 1);
    assert_eq!(search.bank(), &bank(5));
}

#[test]
fn coordinator_stops_early_at_the_limit() {
    let mut search = Coordinator::new(5, Score::Known(10), bank(100), Score::Known(100));
    let outcome = search.close_round(fitted(&[Some(50), Some(40)]));
    assert_eq!(outcome, Outcome { choice: Choice::Worker(1), shrink: true });
    assert!(!search.finished());
    assert_eq!(search.best(), Score::Known(40));
    assert_eq!(search.bank(), &bank(40));
    assert_eq!(search.shrinks(), 1);
    let outcome = search.close_round(fitted(&[Some(10), Some(45)]));
    assert_eq!(outcome, Outcome { choice: Choice::Worker(0), shrink: false });
    assert!(search.finished());
    assert_eq!(search.best(), Score::Known(10));
    assert_eq!(search.round(), 2);
    assert_eq!(search.shrinks(), 1);
    assert_eq!(search.finish(), bank(10));
}

#[test]
fn coordinator_ends_after_its_rounds() {
    let mut search = Coordinator::new(2, Score::Known(10), bank(100), Score::Known(100));
    let outcome = search.close_round(fitted(&[Some(120)]));
    assert_eq!(outcome, Outcome { choice: Choice::Previous, shrink: true });
    assert!(!search.finished());
    assert_eq!(search.bank(), &bank(100));
    let outcome = search.close_round(fitted(&[Some(90)]));
    assert_eq!(outcome, Outcome { choice: Choice::Worker(0), shrink: true });
    assert!(search.finished());
    assert_eq!(search.round(), 2);
    assert_eq!(search.shrinks(), 2);
    assert_eq!(search.best(), Score::Known(90));
    assert_eq!(search.bank(), &bank(90));
}

#[test]
fn coordinator_keeps_the_first_of_equal_results() {
    let mut search = Coordinator::new(1, Score::Known(0), bank(100), Score::Known(100));
    let results = vec![
        Fitted { bank: bank(1), score: Score::Known(30) },
        Fitted { bank: bank(2), score: Score::Known(20) },
        Fitted { bank: bank(3), score: Score::Known(20) },
    ];
    let outcome = search.close_round(results);
    assert_eq!(outcome.choice, Choice::Worker(1));
    assert_eq!(search.bank(), &bank(2));
}

#[test]
fn coordinator_changes_nothing_once_finished() {
    let mut search = Coordinator::new(1, Score::Known(10), bank(100), Score::Known(100));
    search.close_round(fitted(&[Some(90)]));
    assert!(search.finished());
    let outcome = search.close_round(fitted(&[Some(1)]));
    assert_eq!(outcome, Outcome { choice: Choice::Previous, shrink: false });
    assert_eq!(search.best(), Score::Known(90));
    assert_eq!(search.bank(), &bank(90));
    assert_eq!(search.round(), 1);
    assert_eq!(search.shrinks(), 1);
}

#[test]
fn coordinator_with_an_unknown_limit_never_stops_early() {
    let mut search = Coordinator::new(2, Score::Unknown, bank(100), Score::Known(100));
    search.close_round(fitted(&[Some(0)]));
    assert!(!search.finished());
    search.close_round(fitted(&[Some(0)]));
    assert!(search.finished());
}

#[test]
fn best_error_never_rises_over_the_rounds() {
    let rounds: Vec<Vec<Option<u64>>> = vec![
        vec![Some(120), Some(95), None],
        vec![Some(97), Some(96)],
        vec![None],
        vec![Some(95), Some(60), Some(60)],
        vec![Some(61)],
    ];
    let mut search = Coordinator::new(rounds.len(), Score::Known(10), bank(100), Score::Known(100));
    let mut last: u64 = 100;
    for errors in rounds.iter() {
        search.close_round(fitted(errors));
        match search.best() {
            Score::Known(now) => {
                assert!(now <= last);
                assert_eq!(search.bank(), &bank(now));
                last = now;
            }
            Score::Unknown => panic!("the best error was known before"),
        }
    }
    assert_eq!(last, 60);
}
