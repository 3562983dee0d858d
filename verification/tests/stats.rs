use octal_games::bitset::Bin;
use octal_games::game::{Bits, Game};
use octal_games::nimbers::Nimbers;
use octal_games::stats::Stats;

fn rare_values(b: &Bin) -> Vec<usize> {
    (0..b.len()).filter(|&i| b.get(i)).collect()
}

fn stats_with(largest: u16, frequencies: Vec<usize>) -> Stats {
    let mut s = Stats::new();
    s.largest_nimber = largest;
    s.frequencies = frequencies;
    s
}

#[test]
fn new_stats_are_empty() {
    let s = Stats::new();
    assert_eq!(s.largest_nimber, 0);
    assert!(s.frequencies.is_empty());
    assert_eq!((s.largest_nimber_index, s.prev_values, s.latest_rare, s.latest_rare_index), (0, 0, 0, 0));
}

#[test]
fn largest_value_of_the_start() {
    let mut s = Stats::new();
    s.set_largest_nimber(&vec![9, 3, 1, 7, 2], 4);
    assert_eq!(s.largest_nimber, 7);
    s.set_largest_nimber(&vec![9, 3, 1, 7, 2], 2);
    assert_eq!(s.largest_nimber, 3);
    s.set_largest_nimber(&vec![9, 3, 1, 7, 2], 1);
    assert_eq!(s.largest_nimber, 2);
    s.set_largest_nimber(&vec![0, 0, 1], 3);
    assert_eq!(s.largest_nimber, 1);
}

#[test]
fn counters_are_sized_by_the_largest_value() {
    for (largest, len) in [(0u16, 2usize), (1, 4), (2, 4), (3, 8), (6, 8), (7, 16), (100, 128)] {
        let mut s = stats_with(largest, vec![]);
        s.resize_frequencies();
        assert_eq!(s.frequencies, vec![0; len]);
    }
    let mut s = stats_with(5, vec![4, 3, 2, 1]);
    s.resize_frequencies();
    assert_eq!(s.frequencies, vec![4, 3, 2, 1, 0, 0, 0, 0]);
    s.largest_nimber = 0;
    s.resize_frequencies();
    assert_eq!(s.frequencies, vec![4, 3]);
}

#[test]
fn counting_adds_to_the_counters() {
    let mut s = stats_with(2, vec![1, 0, 0, 5]);
    s.initialize_frequencies(&vec![0, 1, 1, 3, 2, 2], 5);
    assert_eq!(s.frequencies, vec![2, 2, 1, 6]);
}

#[test]
fn initialize_takes_largest_and_counts() {
    let mut s = Stats::new();
    s.initialize(&vec![0, 0, 1, 1, 9], 4);
    assert_eq!(s.largest_nimber, 1);
    assert_eq!(s.frequencies, vec![2, 2, 0, 0]);
}

#[test]
fn rare_side_follows_the_counts() {
    assert_eq!(rare_values(&stats_with(2, vec![5, 3, 1, 1]).gen_rares()), vec![0, 3]);
    assert_eq!(rare_values(&stats_with(2, vec![0, 0, 9, 0]).gen_rares()), vec![0, 3]);
    assert_eq!(rare_values(&stats_with(2, vec![1, 2, 3, 4]).gen_rares()), vec![0, 1]);
    assert_eq!(rare_values(&stats_with(2, vec![1, 4, 3, 2]).gen_rares()), vec![0, 3]);
    assert_eq!(rare_values(&stats_with(2, vec![7, 7, 7, 7]).gen_rares()), vec![0, 3]);
    assert_eq!(stats_with(2, vec![7, 7, 7, 7]).gen_rares().len(), 6);
}

#[test]
fn rare_side_of_no_counts_is_zero_alone() {
    assert_eq!(rare_values(&stats_with(0, vec![]).gen_rares()), vec![0]);
    assert_eq!(rare_values(&stats_with(0, vec![3]).gen_rares()), vec![0]);
    assert_eq!(rare_values(&stats_with(0, vec![3, 1]).gen_rares()), vec![0]);
}

#[test]
fn rare_side_is_closed_for_eight_values() {
    // The walk by falling count is 5, 6, 3, then the rest: 5 and 6 become
    // common, so 3 = 5 ^ 6 is rare, and 1 joins the common side.
    let rares = stats_with(6, vec![0, 1, 0, 7, 0, 9, 8, 0]).gen_rares();
    assert_eq!(rares.len(), 18);
    assert_eq!(rare_values(&rares), vec![0, 3, 4, 7]);
    for x in 0..8usize {
        for y in 0..8usize {
            assert_eq!(rares.get(x ^ y), rares.get(x) == rares.get(y));
        }
    }
}

#[test]
fn bits_are_sized_with_the_workers() {
    let pool = rayon::ThreadPoolBuilder::new().num_threads(3).build().unwrap();
    let bits = pool.install(Bits::new);
    assert_eq!(bits.partial.len(), 3);
    assert_eq!(bits.rare.len(), 4);
    assert_eq!(bits.seen.len(), 4);
    let mut bits = bits;
    pool.install(|| bits.resize(5));
    assert_eq!(bits.partial.len(), 3);
    assert_eq!(bits.rare.len(), 18);
    assert_eq!(bits.partial[2].len(), 18);
    assert_eq!(bits.seen.count_unset(), 18);
}

#[test]
fn new_storage_is_unfilled() {
    let n = Nimbers::new(3, 2);
    assert_eq!(n.g, vec![u16::MAX; 3]);
    assert_eq!(n.g_back, vec![u16::MAX; 2]);
    assert!(n.rare.is_empty());
}

#[test]
fn start_sets_up_counters_split_and_index() {
    let mut g = Game::new("0.034", 16, 0).unwrap();
    g.init();
    assert_eq!(&g.nimbers.g[0..4], &[0, 0, 1, 1]);
    assert_eq!(g.stats.largest_nimber, 1);
    assert_eq!(g.stats.frequencies, vec![2, 2, 0, 0]);
    // 0 and 1 tie at two heaps each: 1 becomes common, then 2, so 3 is rare.
    assert_eq!(rare_values(&g.bits.rare), vec![0, 3]);
    assert_eq!(g.nimbers.rare, vec![(1, 0)]);
}

#[test]
fn record_of_a_value_keeps_everything_up_to_date() {
    let mut g = Game::new("0.034", 16, 0).unwrap();
    g.init();
    for n in 4..10 {
        g.calc_rc(n);
    }
    assert_eq!(&g.nimbers.g[0..10], &[0, 0, 1, 1, 0, 2, 2, 3, 1, 4]);
    assert_eq!(g.stats.largest_nimber, 4);
    assert_eq!(g.stats.largest_nimber_index, 9);
    assert_eq!(g.stats.frequencies, vec![3, 3, 2, 1, 1, 0, 0, 0]);
    let rare = rare_values(&g.bits.rare);
    let index: Vec<(usize, u16)> = (1..10usize)
        .filter(|&i| rare.contains(&(g.nimbers.g[i] as usize)))
        .map(|i| (i, g.nimbers.g[i]))
        .collect();
    assert_eq!(g.nimbers.rare, index);
    assert_eq!(g.bits.rare.len(), 10);
}

#[test]
fn a_single_rule_gives_every_heap_the_value_zero() {
    let mut g = Game::new("0.", 8, 0).unwrap();
    g.init();
    assert_eq!(g.stats.largest_nimber, 2);
    for n in 1..8 {
        g.calc_rc(n);
    }
    assert_eq!(g.nimbers.g, vec![0; 8]);
    assert_eq!(g.stats.frequencies, vec![8, 0, 0, 0]);
}

#[test]
fn rare_side_of_any_number_of_counters() {
    // Three counters: the split is that of the four values below 4.
    assert_eq!(rare_values(&stats_with(2, vec![5, 3, 1]).gen_rares()), vec![0, 3]);
    assert_eq!(rare_values(&stats_with(2, vec![1, 3, 5]).gen_rares()), vec![0, 3]);
    // Five counters lead to the split {0, 3, 5, 6} of the eight values below 8;
    // a bit set of four bits has room for 0 and 3.
    let rares = stats_with(0, vec![9, 8, 7, 6, 5]).gen_rares();
    assert_eq!(rares.len(), 4);
    assert_eq!(rare_values(&rares), vec![0, 3]);
    assert_eq!(rare_values(&stats_with(6, vec![9, 8, 7, 6, 5]).gen_rares()), vec![0, 3, 5, 6]);
}
