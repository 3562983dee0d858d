use octal_games::game::Game;
use octal_games::period::PeriodSearch;

fn game_with_values(rules_str: &str, values: Vec<u16>) -> Game {
    let mut g = Game::new(rules_str, values.len(), 0).unwrap();
    g.nimbers.g = values;
    g
}

fn computed(rules_str: &str, max: usize) -> Game {
    let mut g = Game::new(rules_str, max, 0).unwrap();
    g.init();
    for n in g.rules.len()..max {
        g.calc_rc(n);
    }
    g
}

#[test]
fn alternating_values_have_period_two() {
    let mut values = vec![0u16];
    for k in 1..20 {
        values.push(if k % 2 == 1 { 1 } else { 2 });
    }
    let g = game_with_values("0.1", values);
    assert_eq!(g.find_period(20), PeriodSearch::Found { start: 1, period: 2 });
    assert!(g.check_period(20));
    // 2 * 1 + 2 * 2 + 2 - 1 = 7 values confirm it, 6 do not.
    assert_eq!(g.find_period(7), PeriodSearch::Found { start: 1, period: 2 });
    assert_eq!(g.find_period(6), PeriodSearch::NotFound { longest: 3 });
    assert!(!g.check_period(6));
}

#[test]
fn values_without_a_repeat_have_no_period() {
    let g = game_with_values("0.1", vec![0, 1, 2, 3, 4, 5]);
    assert_eq!(g.find_period(6), PeriodSearch::NotFound { longest: 0 });
    let g = game_with_values("0.1", vec![0, 1, 0, 1, 5, 1]);
    assert_eq!(g.find_period(6), PeriodSearch::NotFound { longest: 1 });
    assert_eq!(g.find_period(0), PeriodSearch::NotFound { longest: 0 });
    assert_eq!(g.find_period(1), PeriodSearch::NotFound { longest: 0 });
}

#[test]
fn more_rules_need_more_values() {
    let values: Vec<u16> = (0..12).map(|k| (k % 3) as u16).collect();
    // Period 3 from the start: 12 values confirm it for up to 7 rules.
    assert_eq!(
        game_with_values("0.123456", values.clone()).find_period(12),
        PeriodSearch::Found { start: 0, period: 3 }
    );
    assert_eq!(
        game_with_values("0.1234567", values).find_period(12),
        PeriodSearch::NotFound { longest: 9 }
    );
}

#[test]
fn kayles_has_period_twelve() {
    let g = computed("0.77", 400);
    assert_eq!(g.find_period(400), PeriodSearch::Found { start: 71, period: 12 });
    assert!(!g.check_period(100));
}

#[test]
fn dawsons_kayles_has_period_thirty_four() {
    let g = computed("0.07", 400);
    assert_eq!(g.find_period(400), PeriodSearch::Found { start: 53, period: 34 });
}

use octal_games::period::{period_probe, Probe};

fn probed(values: &[u16], rules: usize) -> PeriodSearch {
    let last = values.len();
    if last / 2 < 1 {
        return PeriodSearch::NotFound { longest: 0 };
    }
    let mut state = (1, last - 1, 0);
    let mut equal = None;
    loop {
        let (period, start, longest, probe) =
            period_probe(last, rules, state.0, state.1, state.2, equal);
        state = (period, start, longest);
        match probe {
            Probe::Compare { left, right } => equal = Some(values[left] == values[right]),
            Probe::Found { start, period } => return PeriodSearch::Found { start, period },
            Probe::NotFound { longest } => return PeriodSearch::NotFound { longest },
        }
    }
}

#[test]
fn steps_of_the_search() {
    // 20 values, 2 rules, period 2 with the stretch from heap 5 on so far.
    assert_eq!(
        period_probe(20, 2, 2, 5, 0, None),
        (2, 5, 0, Probe::Compare { left: 4, right: 6 })
    );
    assert_eq!(
        period_probe(20, 2, 2, 5, 0, Some(true)),
        (2, 4, 0, Probe::Compare { left: 3, right: 5 })
    );
    // The stretch ends at heap 5: 20 >= 2 * 5 + 2 * 2 + 2 - 1.
    assert_eq!(
        period_probe(20, 2, 2, 5, 0, Some(false)),
        (2, 5, 13, Probe::Found { start: 5, period: 2 })
    );
    assert_eq!(
        period_probe(20, 2, 2, 1, 0, Some(true)),
        (2, 0, 18, Probe::Found { start: 0, period: 2 })
    );
    // A stretch from heap 9 on does not confirm: the search goes on to period 3.
    assert_eq!(
        period_probe(20, 2, 2, 9, 4, Some(false)),
        (3, 17, 9, Probe::Compare { left: 16, right: 19 })
    );
    assert_eq!(
        period_probe(20, 2, 10, 10, 4, Some(false)),
        (10, 10, 4, Probe::NotFound { longest: 4 })
    );
}

#[test]
fn step_by_step_is_the_search_at_once() {
    for (rules_str, max) in [("0.77", 400), ("0.07", 400), ("0.034", 300), ("0.45", 64)] {
        let g = computed(rules_str, max);
        for n in [0, 1, 2, 7, 50, max] {
            assert_eq!(probed(&g.nimbers.g[0..n], g.rules.len()), g.find_period(n));
        }
    }
    let mut values = vec![0u16];
    for k in 1..20 {
        values.push(if k % 2 == 1 { 1 } else { 2 });
    }
    assert_eq!(probed(&values, 2), PeriodSearch::Found { start: 1, period: 2 });
    assert_eq!(probed(&values[0..6], 2), PeriodSearch::NotFound { longest: 3 });
}
