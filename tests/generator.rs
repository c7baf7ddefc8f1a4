use bingo::combination::column_combinations;
use bingo::configuration::valid_configurations;
use bingo::generator::{self, Generator};

fn column_range(c: usize) -> (u32, u32) {
    let lo = if c == 0 { 1 } else { 10 * c as u32 };
    let hi = if c == 8 { 90 } else { 10 * c as u32 + 9 };
    (lo, hi)
}

#[test]
fn same_seed_gives_same_tickets() {
    for seed in [0u8, 1, 42, 255] {
        let mut a = Generator::new(seed);
        let mut b = Generator::new(seed);
        for _ in 0..200 {
            assert_eq!(a.generate(), b.generate());
        }
    }
}

#[test]
fn seed_zero_first_ticket_is_reproducible() {
    let first = Generator::new(0).generate();
    let again = Generator::new(0).generate();
    assert_eq!(first, again);
    let report = generator::run(&generator::Config { size: 1, seed: 0, verbose: false });
    assert_eq!(report.tickets.len(), 1);
    assert_eq!(report.tickets[0], first);
    assert!(report.max_tickets.is_none());
}

#[test]
fn different_seeds_give_different_streams() {
    let a = generator::run(&generator::Config { size: 5, seed: 0, verbose: false });
    let b = generator::run(&generator::Config { size: 5, seed: 1, verbose: false });
    assert_ne!(a.tickets, b.tickets);
}

#[test]
fn tickets_have_fifteen_distinct_numbers_in_column_ranges() {
    let mut g = Generator::new(3);
    for _ in 0..500 {
        let t = g.generate();
        assert_eq!(t.len(), 15);
        for i in 0..15 {
            assert!(t[i] >= 1 && t[i] <= 90);
            if i > 0 {
                assert!(t[i - 1] < t[i]);
            }
        }
        let mut per_column = [0usize; 9];
        for &n in t.iter() {
            let c = (0..9).find(|&c| {
                let (lo, hi) = column_range(c);
                lo <= n && n <= hi
            });
            per_column[c.unwrap()] += 1;
        }
        for c in 0..9 {
            assert!(per_column[c] >= 1 && per_column[c] <= 3);
        }
    }
}

#[test]
fn shorter_run_is_prefix_of_longer_run() {
    let short = generator::run(&generator::Config { size: 3, seed: 9, verbose: false });
    let long = generator::run(&generator::Config { size: 10, seed: 9, verbose: false });
    assert_eq!(&long.tickets[..3], &short.tickets[..]);
}

#[test]
fn configuration_count_and_sizes() {
    let confs = valid_configurations();
    assert_eq!(confs.len(), 1554);
    for conf in confs.iter() {
        let total: usize = conf.iter().map(|s| s + 1).sum();
        assert_eq!(total, 15);
        assert!(conf.iter().all(|&s| s < 3));
    }
}

#[test]
fn configurations_are_lexicographic() {
    let confs = valid_configurations();
    assert_eq!(confs[0], [0, 0, 0, 0, 0, 0, 2, 2, 2]);
    assert_eq!(confs[confs.len() - 1], [2, 2, 2, 0, 0, 0, 0, 0, 0]);
    for w in confs.windows(2) {
        assert!(w[0] < w[1]);
    }
}

#[test]
fn max_ticket_estimate_is_fixed_and_positive() {
    let a = Generator::new(0).max_ticket_estimate();
    let b = Generator::new(200).max_ticket_estimate();
    assert_eq!(a, 6080082602343750);
    assert_eq!(a, b);
    let report = generator::run(&generator::Config { size: 0, seed: 4, verbose: true });
    assert_eq!(report.max_tickets, Some(6080082602343750));
    assert!(report.tickets.is_empty());
}

#[test]
fn root_run_matches_generator_run() {
    let a = bingo::run(&bingo::Config { size: 4, seed: 17, verbose: false });
    let b = generator::run(&generator::Config { size: 4, seed: 17, verbose: false });
    assert_eq!(a.tickets, b.tickets);
}

#[test]
fn column_combinations_are_lexicographic_subsets() {
    let pairs = column_combinations(0, 2);
    assert_eq!(pairs.len(), 36);
    assert_eq!(pairs[0], vec![1, 2]);
    assert_eq!(pairs[1], vec![1, 3]);
    assert_eq!(pairs[35], vec![8, 9]);
    let triples = column_combinations(8, 3);
    assert_eq!(triples.len(), 165);
    assert_eq!(triples[0], vec![80, 81, 82]);
    assert_eq!(triples[164], vec![88, 89, 90]);
    assert_eq!(column_combinations(4, 1).len(), 10);
    assert_eq!(column_combinations(4, 1)[0], vec![40]);
}
