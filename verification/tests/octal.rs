use octal_games::game::Game;
use octal_games::nimber::Nimber;

/// Initial values taken from Achim Flammenkamp's table of octal games:
/// http://wwwhomes.uni-bielefeld.de/achim/octal.html
fn games_nimbers() -> Vec<(&'static str, [Nimber; 16])> {
    vec![
        ("0.004", [0, 0, 0, 0, 0, 1, 1, 1, 1, 2, 2, 2, 0, 3, 3, 3]),
        ("0.005", [0, 0, 0, 1, 0, 1, 1, 2, 2, 2, 0, 3, 3, 4, 1, 1]),
        ("0.006", [0, 0, 0, 0, 1, 1, 1, 2, 2, 2, 0, 3, 3, 1, 1, 1]),
        ("0.007", [0, 0, 0, 1, 1, 1, 2, 2, 0, 3, 3, 1, 1, 1, 0, 4]),
        ("0.014", [0, 0, 1, 0, 0, 1, 0, 1, 2, 2, 1, 2, 3, 4, 0, 1]),
        ("0.015", [0, 0, 1, 1, 0, 1, 0, 2, 1, 2, 2, 3, 0, 1, 4, 2]),
        ("0.016", [0, 0, 1, 0, 1, 2, 2, 2, 0, 1, 0, 1, 4, 4, 2, 2]),
        ("0.024", [0, 0, 0, 1, 1, 2, 2, 3, 0, 4, 1, 1, 2, 5, 3, 2]),
        ("0.026", [0, 0, 0, 1, 1, 2, 2, 3, 0, 4, 1, 1, 2, 5, 3, 3]),
        ("0.034", [0, 0, 1, 1, 0, 2, 2, 3, 1, 4, 0, 1, 4, 3, 1, 2]),
        ("0.04", [0, 0, 0, 0, 1, 1, 1, 2, 2, 0, 3, 3, 1, 1, 1, 0]),
        ("0.054", [0, 0, 1, 0, 1, 2, 2, 2, 3, 4, 4, 1, 1, 1, 6, 3]),
        ("0.055", [0, 0, 1, 1, 1, 2, 2, 2, 3, 1, 1, 1, 4, 4, 4, 3]),
        ("0.06", [0, 0, 0, 1, 1, 2, 2, 0, 3, 1, 1, 2, 2, 3, 3, 4]),
        ("0.064", [0, 0, 0, 1, 1, 2, 2, 3, 3, 4, 1, 1, 5, 5, 3, 3]),
        ("0.104", [0, 1, 0, 0, 0, 1, 0, 2, 2, 1, 2, 2, 4, 1, 0, 4]),
        ("0.106", [0, 1, 0, 0, 0, 1, 2, 2, 2, 1, 4, 4, 0, 1, 0, 6]),
        ("0.114", [0, 1, 1, 0, 0, 1, 1, 2, 0, 2, 1, 2, 0, 4, 1, 1]),
        ("0.125", [0, 1, 0, 2, 1, 1, 0, 2, 1, 3, 0, 1, 1, 3, 0, 2]),
        ("0.126", [0, 1, 0, 0, 2, 1, 3, 3, 2, 1, 0, 4, 2, 5, 0, 3]),
        ("0.127", [0, 1, 0, 2, 2, 1, 0, 4, 4, 1, 2, 2, 0, 1, 4, 4]),
        ("0.135", [0, 1, 1, 2, 0, 1, 1, 2, 0, 3, 1, 1, 0, 3, 1, 2]),
        ("0.136", [0, 1, 1, 0, 0, 2, 1, 3, 0, 2, 1, 1, 0, 2, 2, 3]),
        ("0.14", [0, 1, 0, 0, 1, 0, 2, 1, 2, 2, 1, 0, 4, 1, 4, 4]),
        ("0.142", [0, 1, 0, 0, 2, 2, 2, 1, 1, 0, 3, 3, 2, 4, 1, 0]),
        ("0.143", [0, 1, 0, 1, 2, 2, 2, 0, 1, 0, 4, 2, 2, 1, 5, 0]),
        ("0.146", [0, 1, 0, 0, 2, 2, 2, 4, 1, 1, 1, 3, 3, 2, 4, 4]),
        ("0.156", [0, 1, 1, 0, 2, 2, 2, 4, 4, 1, 1, 1, 3, 2, 2, 4]),
        ("0.16", [0, 1, 0, 0, 1, 2, 2, 1, 4, 0, 1, 4, 2, 1, 4, 0]),
        ("0.161", [0, 1, 0, 2, 1, 0, 2, 1, 3, 2, 1, 3, 2, 4, 3, 0]),
        ("0.162", [0, 1, 0, 0, 2, 2, 3, 1, 1, 0, 4, 2, 2, 6, 1, 0]),
        ("0.163", [0, 1, 0, 2, 2, 3, 1, 0, 4, 2, 2, 6, 1, 0, 4, 2]),
        ("0.164", [0, 1, 0, 0, 1, 2, 2, 3, 4, 4, 5, 1, 1, 6, 3, 2]),
        ("0.165", [0, 1, 0, 2, 1, 3, 2, 1, 3, 4, 4, 3, 6, 2, 3, 1]),
        ("0.166", [0, 1, 0, 0, 2, 2, 3, 4, 1, 1, 6, 6, 2, 2, 4, 4]),
        ("0.167", [0, 1, 0, 2, 2, 3, 4, 1, 1, 6, 2, 2, 4, 4, 1, 1]),
        ("0.172", [0, 1, 1, 0, 2, 2, 3, 0, 1, 1, 3, 2, 2, 4, 4, 0]),
        ("0.174", [0, 1, 1, 0, 2, 1, 3, 2, 2, 1, 4, 4, 5, 6, 4, 2]),
        ("0.204", [0, 0, 1, 0, 1, 2, 0, 1, 0, 1, 2, 3, 1, 2, 1, 2]),
        ("0.205", [0, 0, 1, 2, 0, 1, 0, 1, 2, 3, 1, 2, 3, 1, 3, 4]),
        ("0.206", [0, 0, 1, 0, 1, 2, 3, 2, 0, 1, 0, 1, 2, 3, 2, 3]),
        ("0.207", [0, 0, 1, 2, 1, 2, 0, 3, 0, 1, 2, 4, 5, 3, 1, 2]),
        ("0.224", [0, 0, 1, 2, 0, 1, 2, 3, 1, 2, 3, 1, 4, 3, 0, 4]),
        ("0.244", [0, 0, 1, 0, 1, 2, 3, 2, 3, 4, 5, 1, 5, 6, 7, 3]),
        ("0.245", [0, 0, 1, 2, 1, 2, 3, 4, 5, 1, 5, 6, 7, 3, 2, 1]),
        ("0.264", [0, 0, 1, 2, 3, 4, 5, 1, 6, 3, 2, 5, 1, 8, 6, 7]),
        ("0.314", [0, 1, 2, 0, 1, 2, 0, 2, 1, 2, 3, 1, 2, 4, 5, 3]),
        ("0.324", [0, 1, 0, 2, 1, 3, 0, 1, 3, 4, 0, 2, 3, 4, 2, 1]),
        ("0.334", [0, 1, 2, 0, 1, 2, 0, 3, 1, 2, 3, 1, 2, 4, 3, 5]),
        ("0.336", [0, 1, 2, 0, 3, 1, 2, 4, 0, 3, 1, 2, 0, 3, 4, 1]),
        ("0.342", [0, 1, 0, 1, 2, 3, 2, 0, 1, 0, 3, 2, 3, 4, 5, 0]),
        ("0.344", [0, 1, 0, 1, 2, 3, 2, 4, 5, 1, 4, 6, 2, 3, 2, 1]),
        ("0.346", [0, 1, 0, 1, 2, 3, 2, 4, 5, 1, 6, 7, 2, 3, 2, 1]),
        ("0.354", [0, 1, 2, 0, 1, 2, 4, 3, 1, 2, 3, 5, 2, 4, 3, 5]),
        ("0.356", [0, 1, 2, 0, 2, 1, 2, 4, 5, 1, 6, 7, 5, 1, 2, 8]),
        ("0.36", [0, 1, 0, 2, 1, 0, 2, 1, 3, 2, 1, 3, 2, 4, 3, 0]),
        ("0.362", [0, 1, 0, 2, 3, 4, 1, 0, 2, 3, 4, 1, 5, 2, 3, 7]),
        ("0.364", [0, 1, 0, 2, 1, 3, 2, 1, 3, 4, 5, 3, 4, 2, 3, 1]),
        ("0.366", [0, 1, 0, 2, 3, 4, 5, 1, 6, 2, 3, 4, 5, 7, 6, 8]),
        ("0.37", [0, 1, 2, 0, 1, 2, 3, 1, 2, 3, 4, 0, 3, 4, 2, 1]),
        ("0.371", [0, 1, 2, 3, 1, 0, 3, 2, 4, 0, 2, 3, 4, 0, 1, 2]),
        ("0.374", [0, 1, 2, 0, 1, 2, 4, 3, 1, 2, 3, 5, 2, 4, 3, 5]),
        ("0.376", [0, 1, 2, 0, 3, 1, 2, 4, 3, 5, 2, 4, 3, 5, 1, 4]),
        ("0.404", [0, 0, 0, 1, 1, 2, 2, 3, 3, 4, 1, 1, 5, 6, 3, 3]),
        ("0.414", [0, 0, 1, 1, 0, 2, 2, 3, 4, 4, 0, 1, 1, 3, 2, 2]),
        ("0.416", [0, 0, 1, 1, 2, 2, 3, 4, 1, 1, 6, 6, 3, 2, 2, 1]),
        ("0.444", [0, 0, 0, 1, 1, 2, 2, 3, 3, 4, 1, 1, 5, 6, 3, 3]),
        ("0.45", [0, 0, 1, 1, 2, 2, 3, 1, 1, 4, 4, 3, 2, 2, 1, 1]),
        ("0.454", [0, 0, 1, 1, 2, 2, 3, 4, 1, 1, 6, 6, 3, 2, 2, 1]),
        ("0.56", [0, 1, 0, 2, 2, 4, 1, 1, 3, 2, 4, 4, 6, 6, 2, 1]),
        ("0.564", [0, 1, 0, 2, 2, 4, 4, 1, 1, 3, 2, 5, 4, 7, 6, 8]),
        ("0.6", [0, 0, 1, 2, 0, 1, 2, 3, 1, 2, 3, 4, 0, 3, 4, 2]),
        ("0.604", [0, 0, 1, 2, 0, 1, 2, 3, 1, 2, 3, 4, 5, 3, 4, 5]),
        ("0.606", [0, 0, 1, 2, 3, 4, 0, 1, 2, 3, 4, 5, 1, 2, 3, 4]),
        ("0.64", [0, 0, 1, 2, 3, 4, 1, 5, 3, 2, 1, 5, 4, 2, 6, 8]),
        ("0.644", [0, 0, 1, 2, 3, 4, 5, 1, 6, 3, 2, 5, 8, 9, 6, 10]),
        ("0.74", [0, 1, 0, 1, 2, 3, 2, 4, 1, 4, 6, 2, 3, 2, 1, 5]),
        ("0.744", [0, 1, 0, 1, 2, 3, 2, 4, 5, 1, 6, 7, 2, 3, 2, 1]),
        ("0.76", [0, 1, 0, 2, 3, 4, 1, 6, 2, 3, 4, 1, 6, 7, 3, 2]),
        ("0.764", [0, 1, 0, 2, 3, 4, 5, 1, 6, 2, 3, 4, 5, 7, 6, 8]),
        ("0.774", [0, 1, 2, 3, 1, 4, 5, 6, 7, 1, 3, 2, 8, 9, 5, 4]),
        ("0.776", [0, 1, 2, 3, 4, 1, 6, 3, 2, 1, 6, 7, 4, 5, 8, 1]),
    ]
}

#[test]
fn test_initialize() {
    for (rules_str, res) in games_nimbers() {
        let initial_len = rules_str.len() - 1; // -1 for '.'

        let mut g = Game::new(rules_str, initial_len, 0).unwrap();
        g.init();

        assert_eq!(g.nimbers.g, res[0..initial_len]);
    }
}

#[test]
fn test_naive() {
    for (rules_str, res) in games_nimbers() {
        let max = 16;
        let mut g = Game::new(rules_str, max, 0).unwrap();
        g.init();

        for n in g.rules.len()..max {
            let nim = g.naive(n);
            g.set_next_g_n(n, nim);
        }

        assert_eq!(g.nimbers.g, res);
    }
}

#[test]
fn rc_agrees_with_naive_on_every_game() {
    for (rules_str, _res) in games_nimbers() {
        let max = 400;
        let mut g = Game::new(rules_str, max, 0).unwrap();
        g.init();

        for n in g.rules.len()..max {
            let nim_naive = g.naive(n);
            let nim_rc = g.rc(n);
            g.set_next_g_n(n, nim_rc);
            assert_eq!(nim_naive, nim_rc, " for game {} at {}", rules_str, n);
        }
    }
}

#[test]
fn rare_side_obeys_the_rules_on_every_game() {
    for (rules_str, _res) in games_nimbers() {
        let max = 400;
        let mut g = Game::new(rules_str, max, 0).unwrap();
        g.init();

        for n in g.rules.len()..max {
            let nim_rc = g.rc(n);
            g.set_next_g_n(n, nim_rc);
        }

        for x in 0..(g.stats.largest_nimber + 1).next_power_of_two() {
            for y in 0..(g.stats.largest_nimber + 1).next_power_of_two() {
                let x_rare = g.bits.rare.get(x as usize);
                let y_rare = g.bits.rare.get(y as usize);

                let loc = (x ^ y) as usize;
                if x_rare && y_rare {
                    assert!(g.bits.rare.get(loc));
                }

                if !x_rare && !y_rare {
                    assert!(g.bits.rare.get(loc));
                }

                if x_rare && !y_rare {
                    assert!(!g.bits.rare.get(loc));
                }
                if !x_rare && y_rare {
                    assert!(!g.bits.rare.get(loc));
                }
            }
        }
    }
}

#[test]
fn rc_computes_the_published_values() {
    for (rules_str, res) in games_nimbers() {
        let max = 16;
        let mut g = Game::new(rules_str, max, 0).unwrap();
        g.init();
        for n in g.rules.len()..max {
            g.calc_rc(n);
        }
        assert_eq!(g.nimbers.g, res);
    }
}

#[test]
fn kayles_like_game_at_index_nine() {
    let mut g = Game::new("0.034", 16, 0).unwrap();
    g.init();
    for n in g.rules.len()..16 {
        g.calc_rc(n);
    }
    assert_eq!(g.nimbers.g[9], 4);
    assert_eq!(g.nimbers.g, vec![0, 0, 1, 1, 0, 2, 2, 3, 1, 4, 0, 1, 4, 3, 1, 2]);
}

fn values_with_workers(threads: usize, rules_str: &str, max: usize) -> Vec<Nimber> {
    let pool = rayon::ThreadPoolBuilder::new().num_threads(threads).build().unwrap();
    pool.install(|| {
        let mut g = Game::new(rules_str, max, 0).unwrap();
        assert_eq!(g.bits.partial.len(), threads);
        g.init();
        for n in g.rules.len()..max {
            g.calc_rc(n);
        }
        g.nimbers.g
    })
}

#[test]
fn values_do_not_depend_on_the_number_of_workers() {
    for rules_str in ["0.034", "0.106", "0.644", "0.774", "0.007"] {
        let one = values_with_workers(1, rules_str, 3000);
        for threads in [2, 4, 10] {
            assert_eq!(values_with_workers(threads, rules_str, 3000), one);
        }
    }
}

#[test]
fn workers_share_long_walks() {
    let one = values_with_workers(1, "0.034", 20000);
    let two = values_with_workers(2, "0.034", 20000);
    assert_eq!(one, two);
    assert_eq!(&one[0..16], &[0, 0, 1, 1, 0, 2, 2, 3, 1, 4, 0, 1, 4, 3, 1, 2]);
}

#[test]
fn solve_fills_the_prefix() {
    for (rules_str, res) in games_nimbers() {
        let mut g = Game::new(rules_str, 16, 0).unwrap();
        assert_eq!(g.solve(), 16);
        assert_eq!(g.nimbers.g, res);
    }
}

#[test]
fn solve_leaves_a_game_that_cannot_start() {
    let mut g = Game::new("0.034", 3, 0).unwrap();
    assert_eq!(g.solve(), 0);
    assert_eq!(g.nimbers.g, vec![Nimber::MAX; 3]);
    let mut none = Game::new(".", 3, 0).unwrap();
    assert_eq!(none.solve(), 0);
    let mut exact = Game::new("0.034", 4, 0).unwrap();
    assert_eq!(exact.solve(), 4);
    assert_eq!(exact.nimbers.g, vec![0, 0, 1, 1]);
}

#[test]
fn marks_of_the_first_phases() {
    let mut g = Game::new("0.034", 16, 0).unwrap();
    g.init();
    for n in 4..9 {
        g.calc_rc(n);
    }
    // G = 0 0 1 1 0 2 2 3 1; from 9 tokens, taking 2 leaves the heap of 7.
    g.bits.seen.zero_bits();
    g.set_seen_bits_from_some_moves(9);
    let marked: Vec<usize> = (0..g.bits.seen.len()).filter(|&v| g.bits.seen.get(v)).collect();
    assert_eq!(marked, vec![3]);
    // Taking 3 leaves 6 tokens, which split into 3 and 3.
    g.set_0th_bit_if_can_be_divided_in_half(9);
    let marked: Vec<usize> = (0..g.bits.seen.len()).filter(|&v| g.bits.seen.get(v)).collect();
    assert_eq!(marked, vec![0, 3]);
    g.bits.seen.zero_bits();
    g.set_0th_bit_if_can_be_divided_in_half(8);
    assert_eq!(g.bits.seen.count_unset(), g.bits.seen.len());
    // The pairs with a heap of rare value: the heaps of the index beside the
    // rest of the 6 tokens.
    g.iterate_over_r_xor_c(9);
    let mut expected = vec![false; g.bits.seen.len()];
    for &(heap, value) in &g.nimbers.rare {
        if heap + 3 < 9 {
            expected[(value ^ g.nimbers.g[6 - heap]) as usize] = true;
        }
    }
    let got: Vec<bool> = (0..g.bits.seen.len()).map(|v| g.bits.seen.get(v)).collect();
    assert_eq!(got, expected);
    assert_eq!(g.naive(9), 4);
    assert_eq!(g.rc(9), 4);
}
