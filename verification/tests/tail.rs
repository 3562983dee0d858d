use octal_games::game::Game;
use octal_games::nimber::Nimber;
use octal_games::tail::TailError;

fn full_run(rules_str: &str, max: usize) -> Vec<Nimber> {
    let mut g = Game::new(rules_str, max, 0).unwrap();
    g.init();
    for n in g.rules.len()..max {
        g.calc_rc(n);
    }
    g.nimbers.g
}

fn filled_prefix(rules_str: &str, prefix: usize, ring: usize) -> Game {
    let mut g = Game::new(rules_str, prefix, ring).unwrap();
    g.init();
    for n in g.rules.len()..prefix {
        g.calc_rc(n);
    }
    g.nimbers.copy_to_g_back();
    g
}

fn tail_run(rules_str: &str, prefix: usize, upto: usize) -> (Vec<Nimber>, Option<TailError>) {
    let mut g = filled_prefix(rules_str, prefix, prefix);
    let mut values = g.nimbers.g.clone();
    for n in prefix..upto {
        match g.rc_back(n) {
            Ok(nim) => {
                if let Err(e) = g.set_next_g_back(n, nim) {
                    return (values, Some(e));
                }
                values.push(nim);
            }
            Err(e) => return (values, Some(e)),
        }
    }
    (values, None)
}

#[test]
fn ring_holds_the_last_values_of_the_prefix() {
    let mut g = Game::new("0.034", 12, 4).unwrap();
    g.init();
    for n in g.rules.len()..12 {
        g.calc_rc(n);
    }
    g.nimbers.copy_to_g_back();
    assert_eq!(g.nimbers.g, vec![0, 0, 1, 1, 0, 2, 2, 3, 1, 4, 0, 1]);
    assert_eq!(g.nimbers.g_back, vec![1, 4, 0, 1]);
    assert_eq!(g.nimbers.last(9), 4);
    assert_eq!(g.nimbers.last(11), 1);
}

#[test]
fn each_value_stands_at_the_place_of_its_heap() {
    let mut g = Game::new("0.034", 12, 5).unwrap();
    g.init();
    for n in g.rules.len()..12 {
        g.calc_rc(n);
    }
    g.nimbers.copy_to_g_back();
    // The heaps 7 to 11 have the values 3, 1, 4, 0, 1 and the places 2, 3, 4, 0, 1.
    assert_eq!(g.nimbers.g_back, vec![0, 1, 3, 1, 4]);
    for n in 7..12 {
        assert_eq!(g.nimbers.last(n), g.nimbers.g[n]);
    }
    let mut small = Game::new("0.6", 3, 2).unwrap();
    small.nimbers.g = vec![0, 5, 7];
    small.nimbers.copy_to_g_back();
    assert_eq!(small.nimbers.g_back, vec![7, 5]);
    assert_eq!(small.nimbers.g, vec![0, 5, 7]);
}

#[test]
fn an_empty_ring_takes_nothing() {
    let mut g = Game::new("0.6", 3, 0).unwrap();
    g.nimbers.g = vec![0, 5, 7];
    g.nimbers.copy_to_g_back();
    assert!(g.nimbers.g_back.is_empty());
}

#[test]
fn tail_continues_a_periodic_game() {
    for rules_str in ["0.45", "0.77"] {
        let (values, err) = tail_run(rules_str, 200, 600);
        assert_eq!(err, None);
        assert_eq!(values.len(), 600);
        assert_eq!(values, full_run(rules_str, 600));
    }
}

#[test]
fn tail_ends_on_a_new_largest_value() {
    let (values, err) = tail_run("0.16", 1000, 3000);
    assert_eq!(err, Some(TailError::MaxNimberGrewInTail { index: 1170, value: 15 }));
    assert_eq!(values.len(), 1170);
    let full = full_run("0.16", 1171);
    assert_eq!(values, &full[0..1170]);
    assert_eq!(full[1170], 15);
    assert!(full[0..1170].iter().all(|&v| v < 15));
}

#[test]
fn tail_records_a_rare_value() {
    let mut g = filled_prefix("0.16", 1000, 1000);
    let full = full_run("0.16", 1163);
    for n in 1000..1162 {
        assert_eq!(g.calc_rc_back(n), Ok(()));
    }
    let entries = g.nimbers.rare.len();
    assert!(g.bits.rare.get(6));
    assert_eq!(g.rc_back(1162), Ok(6));
    assert_eq!(full[1162], 6);
    assert_eq!((g.stats.latest_rare, g.stats.latest_rare_index), (6, 1162));
    assert_eq!(g.set_next_g_back(1162, 6), Ok(()));
    assert_eq!(g.nimbers.rare.len(), entries + 1);
    assert_eq!(g.nimbers.rare[entries], (1162, 6));
    assert_eq!(g.nimbers.last(1162), 6);
}

#[test]
fn a_common_value_leaves_the_latest_rare_one() {
    let mut g = filled_prefix("0.45", 200, 200);
    let before = (g.stats.latest_rare, g.stats.latest_rare_index);
    let entries = g.nimbers.rare.len();
    let nim = g.rc_back(200).unwrap();
    assert_eq!(nim, full_run("0.45", 201)[200]);
    assert!(!g.bits.rare.get(nim as usize));
    assert_eq!((g.stats.latest_rare, g.stats.latest_rare_index), before);
    assert_eq!(g.set_next_g_back(200, nim), Ok(()));
    assert_eq!(g.nimbers.rare.len(), entries);
}

#[test]
fn tail_refuses_a_new_largest_value() {
    let mut g = filled_prefix("0.45", 200, 200);
    let largest = g.stats.largest_nimber;
    let ring = g.nimbers.g_back.clone();
    let counters = g.stats.frequencies.clone();
    assert_eq!(
        g.set_next_g_back(200, largest + 1),
        Err(TailError::MaxNimberGrewInTail { index: 200, value: largest as usize + 1 })
    );
    assert_eq!(g.nimbers.g_back, ring);
    assert_eq!(g.stats.frequencies, counters);
    assert_eq!(g.stats.largest_nimber, largest);
}

#[test]
fn tail_records_in_the_ring_and_counts() {
    let mut g = filled_prefix("0.45", 200, 200);
    let before = g.stats.frequencies.clone();
    let largest = g.stats.largest_nimber;
    assert_eq!(g.set_next_g_back(203, largest), Ok(()));
    assert_eq!(g.nimbers.g_back[3], largest);
    assert_eq!(g.nimbers.last(203), largest);
    assert_eq!(g.stats.frequencies[largest as usize], before[largest as usize] + 1);
    assert_eq!(g.stats.largest_nimber_index, 203);
}

#[test]
fn calc_rc_back_matches_the_full_run() {
    let mut g = filled_prefix("0.45", 200, 200);
    let full = full_run("0.45", 260);
    for n in 200..260 {
        assert_eq!(g.calc_rc_back(n), Ok(()));
        assert_eq!(g.nimbers.last(n), full[n]);
    }
}

#[test]
fn a_failed_step_records_nothing() {
    let mut g = filled_prefix("0.16", 1000, 1000);
    for n in 1000..1170 {
        assert_eq!(g.calc_rc_back(n), Ok(()));
    }
    let ring = g.nimbers.g_back.clone();
    let index = g.nimbers.rare.clone();
    let counters = g.stats.frequencies.clone();
    let latest = (g.stats.latest_rare, g.stats.latest_rare_index, g.stats.prev_values);
    assert_eq!(
        g.calc_rc_back(1170),
        Err(TailError::MaxNimberGrewInTail { index: 1170, value: 15 })
    );
    assert_eq!(g.nimbers.g_back, ring);
    assert_eq!(g.nimbers.rare, index);
    assert_eq!(g.stats.frequencies, counters);
    assert_eq!((g.stats.latest_rare, g.stats.latest_rare_index, g.stats.prev_values), latest);
}

#[test]
fn a_step_counts_the_value_it_records() {
    let mut g = filled_prefix("0.45", 200, 200);
    let before = g.stats.frequencies.clone();
    assert_eq!(g.calc_rc_back(200), Ok(()));
    let value = g.nimbers.last(200) as usize;
    assert_eq!(value as u16, full_run("0.45", 201)[200]);
    let mut after = before;
    after[value] += 1;
    assert_eq!(g.stats.frequencies, after);
}

#[test]
fn marks_of_single_heaps_come_from_the_ring() {
    let mut g = filled_prefix("0.6", 64, 64);
    g.bits.seen.zero_bits();
    g.set_seen_bits_from_some_moves_back(64);
    // 0.6 lets one token be taken and one heap left: the heap of 63.
    let left = g.nimbers.g[63] as usize;
    for v in 0..g.bits.seen.len() {
        assert_eq!(g.bits.seen.get(v), v == left);
    }
}

#[test]
fn a_full_prefix_is_continued_in_its_ring() {
    let mut g = Game::new("0.45", 200, 200).unwrap();
    assert_eq!(g.solve(), 200);
    assert_eq!(g.continue_in_ring(600), (600, None));
    let full = full_run("0.45", 600);
    assert_eq!(g.nimbers.g, &full[0..200]);
    assert_eq!(g.nimbers.g_back, &full[400..600]);
    assert_eq!(g.continue_in_ring(100), (200, None));
}

#[test]
fn a_continuation_reports_what_ends_it() {
    let mut g = Game::new("0.16", 1000, 1000).unwrap();
    assert_eq!(g.solve(), 1000);
    assert_eq!(
        g.continue_in_ring(3000),
        (1170, Some(TailError::MaxNimberGrewInTail { index: 1170, value: 15 }))
    );
    let full = full_run("0.16", 1170);
    for n in 1000..1170 {
        assert_eq!(g.nimbers.last(n), full[n]);
    }
}

#[test]
fn a_ring_of_any_length_continues() {
    let mut g = Game::new("0.45", 200, 70).unwrap();
    assert_eq!(g.solve(), 200);
    let full = full_run("0.45", 200);
    let (reached, _) = g.continue_in_ring(203);
    assert!(reached >= 200 && reached <= 203);
    for n in reached - 70..200 {
        assert_eq!(g.nimbers.last(n), full[n]);
    }
}
