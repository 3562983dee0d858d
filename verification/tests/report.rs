use octal_games::game::Game;
use octal_games::pow2::{is_power_of_two, next_power_of_two};
use octal_games::game::Bits;
use octal_games::report::{Freq, Reports, StatsLine};
use octal_games::rules::Rule;

#[test]
fn least_power_of_two() {
    let expected = [1usize, 1, 2, 4, 4, 8, 8, 8, 8, 16];
    for (n, p) in expected.iter().enumerate() {
        assert_eq!(next_power_of_two(n), *p);
    }
    assert_eq!(next_power_of_two(65537), 131072);
    assert_eq!(next_power_of_two(1 << 20), 1 << 20);
}

#[test]
fn powers_of_two() {
    assert!(!is_power_of_two(0));
    assert!(is_power_of_two(1));
    assert!(is_power_of_two(2));
    assert!(!is_power_of_two(3));
    assert!(is_power_of_two(1 << 40));
    assert!(!is_power_of_two((1 << 40) + 1));
    assert!(!is_power_of_two(usize::MAX));
}

#[test]
fn digits_are_read_by_their_bits() {
    assert_eq!(Rule::from_char('0'), Some(Rule { all: false, some: false, divide: false }));
    assert_eq!(Rule::from_char('5'), Some(Rule { all: true, some: false, divide: true }));
    assert_eq!(Rule::from_char('7'), Some(Rule { all: true, some: true, divide: true }));
    assert_eq!(Rule::from_char('8'), None);
    assert_eq!(Rule::from_char('.'), None);
    assert_eq!(Rule::from_char('/'), None);
}

#[test]
fn table_of_the_counters() {
    let mut g = Game::new("0.034", 16, 0).unwrap();
    g.init();
    assert_eq!(
        g.dump_freqs(),
        vec![
            Freq { nimber: 0, frequency: 2, rare: true },
            Freq { nimber: 1, frequency: 2, rare: false },
            Freq { nimber: 2, frequency: 0, rare: false },
            Freq { nimber: 3, frequency: 0, rare: true },
        ]
    );
}

#[test]
fn reports_that_are_due() {
    let g = Game::new("0.034", 1000, 0).unwrap();
    assert_eq!(g.occasional_info(250), Reports { stats: false, freqs: false, progress: Some(25) });
    assert_eq!(g.occasional_info(256), Reports { stats: false, freqs: true, progress: None });
    assert_eq!(g.occasional_info(0), Reports { stats: true, freqs: false, progress: Some(0) });
    assert_eq!(g.occasional_info(1000), Reports { stats: false, freqs: false, progress: Some(100) });
    let small = Game::new("0.034", 50, 0).unwrap();
    assert_eq!(small.occasional_info(8), Reports { stats: false, freqs: true, progress: None });
    assert_eq!(
        g.occasional_info_back(200000),
        Reports { stats: true, freqs: false, progress: None }
    );
    assert_eq!(g.occasional_info_back(4096), Reports { stats: false, freqs: true, progress: None });
}

#[test]
fn a_game_that_is_no_game() {
    assert!(Game::new("0.08", 4, 0).is_err());
    assert!(Game::new("0.34x", 4, 0).is_err());
    assert!(Game::new("0.034", 4, 0).is_ok());
}

#[test]
fn figures_of_a_heap() {
    let mut g = Game::new("0.034", 16, 4).unwrap();
    g.init();
    for n in 4..16 {
        g.calc_rc(n);
    }
    let rares = g.nimbers.rare.len() + 1;
    assert_eq!(
        g.dump_stats(9),
        StatsLine {
            prev_values: g.stats.prev_values,
            largest_nimber: 4,
            largest_nimber_index: 12,
            rares,
            latest_rare: g.stats.latest_rare as usize,
            latest_rare_index: g.stats.latest_rare_index,
            index: 9,
            value: 4,
        }
    );
    g.nimbers.copy_to_g_back();
    let line = g.dump_stats_back(17);
    assert_eq!((line.index, line.value), (17, 3));
}

#[test]
fn as_many_scratch_sets_as_workers() {
    let bits = Bits::with_workers(3, 5);
    assert_eq!(bits.partial.len(), 5);
    assert_eq!(bits.rare.len(), 10);
    assert_eq!(bits.seen.count_unset(), 10);
    assert_eq!(bits.partial[4].count_unset(), 10);
    assert_eq!(Bits::with_workers(0, 0).partial.len(), 0);
}

#[test]
fn a_game_without_scratch_sets_computes_alone() {
    let mut g = Game::new("0.034", 16, 0).unwrap();
    g.bits = Bits::with_workers(0, 0);
    g.init();
    assert_eq!(g.bits.partial.len() <= 64, true);
    for n in 4..16 {
        g.calc_rc(n);
    }
    assert_eq!(g.nimbers.g, vec![0, 0, 1, 1, 0, 2, 2, 3, 1, 4, 0, 1, 4, 3, 1, 2]);
}
