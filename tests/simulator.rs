use bingo::simulator::{self, run_draw, Config, RaffleError};
use bingo::ticket::{parse_ticket_line, parse_tickets, parse_token, LineError};

fn disjoint_pool() -> Vec<[u32; 15]> {
    let a: [u32; 15] = [1, 2, 3, 4, 5, 6, 7, 8, 9, 10, 11, 12, 13, 14, 15];
    let b: [u32; 15] = [16, 17, 18, 19, 20, 21, 22, 23, 24, 25, 26, 27, 28, 29, 30];
    vec![a, b]
}

fn chars(s: &str) -> Vec<char> {
    s.chars().collect()
}

#[test]
fn two_disjoint_tickets_seed_five() {
    let config = Config { size: 1, seed: 5, verbose: false, tickets: disjoint_pool() };
    let numbers = config.get_shuffle_numbers(5);
    let last_needed = |t: &[u32; 15]| {
        t.iter().map(|n| numbers.iter().position(|d| d == n).unwrap() + 1).max().unwrap()
    };
    let pool = disjoint_pool();
    let expected = last_needed(&pool[0]).min(last_needed(&pool[1]));
    let outcomes = match simulator::run(&config) {
        Ok(o) => o,
        Err(_) => panic!("raffle failed"),
    };
    assert_eq!(outcomes.len(), 1);
    assert_eq!(outcomes[0].drawn, expected);
    assert_eq!(outcomes[0].winners.len(), 1);
    let winner = outcomes[0].winners[0];
    assert_eq!(last_needed(&winner), expected);
}

#[test]
fn shuffled_numbers_are_a_permutation() {
    let config = Config { size: 1, seed: 0, verbose: false, tickets: disjoint_pool() };
    let numbers = config.get_shuffle_numbers(0);
    let mut sorted = numbers.to_vec();
    sorted.sort();
    assert_eq!(sorted, (1..91).collect::<Vec<u32>>());
    let in_order: Vec<u32> = (1..91).collect();
    assert_ne!(numbers.to_vec(), in_order);
    assert_eq!(numbers, config.get_shuffle_numbers(0));
    assert_ne!(numbers, config.get_shuffle_numbers(1));
}

#[test]
fn raffles_stop_within_ninety_draws_after_a_hit() {
    let pool = disjoint_pool();
    for seed in 0..=255u8 {
        let config = Config { size: 1, seed, verbose: false, tickets: pool.clone() };
        let numbers = config.get_shuffle_numbers(seed);
        let outcome = run_draw(&pool, &numbers);
        assert!(outcome.drawn <= 90);
        assert!(!outcome.winners.is_empty());
        for w in outcome.winners.iter() {
            assert!(numbers[..outcome.drawn].iter().any(|d| w.contains(d)));
            assert!(w.iter().all(|n| numbers[..outcome.drawn].contains(n)));
        }
    }
}

#[test]
fn raffle_seeds_wrap() {
    let config = Config { size: 3, seed: 254, verbose: false, tickets: disjoint_pool() };
    let outcomes = match simulator::run(&config) {
        Ok(o) => o,
        Err(_) => panic!("raffle failed"),
    };
    assert_eq!(outcomes.len(), 3);
    for (r, seed) in [254u8, 255, 0].iter().enumerate() {
        let numbers = config.get_shuffle_numbers(*seed);
        let alone = run_draw(&config.tickets, &numbers);
        assert_eq!(outcomes[r].drawn, alone.drawn);
    }
}

#[test]
fn equal_tickets_win_once() {
    let t: [u32; 15] = [1, 2, 3, 4, 5, 6, 7, 8, 9, 10, 11, 12, 13, 14, 15];
    let pool = vec![t, t];
    let draws: Vec<u32> = (1..91).collect();
    let outcome = run_draw(&pool, &draws);
    assert_eq!(outcome.drawn, 15);
    assert_eq!(outcome.winners, vec![t]);
}

#[test]
fn tied_tickets_all_win() {
    let a: [u32; 15] = [1, 2, 3, 4, 5, 6, 7, 8, 9, 10, 11, 12, 13, 14, 90];
    let b: [u32; 15] = [16, 17, 18, 19, 20, 21, 22, 23, 24, 25, 26, 27, 28, 29, 90];
    let mut draws: Vec<u32> = (1..30).collect();
    draws.push(90);
    let outcome = run_draw(&vec![a, b], &draws);
    assert_eq!(outcome.drawn, 30);
    assert_eq!(outcome.winners.len(), 2);
}

#[test]
fn empty_pool_is_refused() {
    let config = Config { size: 2, seed: 0, verbose: false, tickets: Vec::new() };
    assert!(matches!(simulator::run(&config), Err(RaffleError::NoTickets)));
}

#[test]
fn ticket_with_repeated_numbers_never_wins() {
    let config = Config { size: 2, seed: 0, verbose: false, tickets: vec![[7u32; 15]] };
    assert!(matches!(simulator::run(&config), Err(RaffleError::NoWinner { raffle: 0 })));
    let numbers = config.get_shuffle_numbers(0);
    let outcome = run_draw(&config.tickets, &numbers);
    assert_eq!(outcome.drawn, 90);
    assert!(outcome.winners.is_empty());
}

#[test]
fn malformed_line_is_skipped() {
    let lines = vec![
        chars("1 2 3 4 5 6 7 8 9 10 11 12 13 14"),
        chars("1 12 23 34 45 56 67 78 89 2 13 24 35 46 57"),
    ];
    let load = parse_tickets(&lines);
    assert_eq!(load.tickets.len(), 1);
    assert_eq!(load.tickets[0], [1, 12, 23, 34, 45, 56, 67, 78, 89, 2, 13, 24, 35, 46, 57]);
    assert_eq!(load.rejected, vec![(1, LineError::TokenCount { found: 14 })]);
}

#[test]
fn line_with_a_token_that_is_no_number_is_refused() {
    let line = chars("  1\t2 x 3 4 5 6 7 8 9 10 11 12 13 14 15\u{a0}");
    assert_eq!(parse_ticket_line(&line), Err(LineError::TokenCount { found: 16 }));
    let line = chars("1 2 x 4 5 6 7 8 9 10 11 12 13 14 15");
    assert_eq!(parse_ticket_line(&line), Err(LineError::NotANumber { token: 2 }));
    let line = chars("1 2 3 4 5 6 7 8 9 10 11 12 13 14 -15");
    assert_eq!(parse_ticket_line(&line), Err(LineError::NotANumber { token: 14 }));
    assert_eq!(parse_ticket_line(&chars("")), Err(LineError::TokenCount { found: 0 }));
    assert_eq!(parse_ticket_line(&chars("1 2 3")), Err(LineError::TokenCount { found: 3 }));
}

#[test]
fn well_formed_line_with_other_whitespace_is_read() {
    let line = chars("  1\t2 +3 4 5 6 7 8 9 10 11 12 13 14\u{a0}15\r");
    assert_eq!(parse_ticket_line(&line), Ok([1, 2, 3, 4, 5, 6, 7, 8, 9, 10, 11, 12, 13, 14, 15]));
}

#[test]
fn file_whose_only_line_has_an_extra_token_gives_no_ticket() {
    let lines = vec![chars("1 2 3 4 5 6 7 8 9 10 11 12 13 14 15 x")];
    let load = parse_tickets(&lines);
    assert!(load.tickets.is_empty());
    assert_eq!(load.rejected, vec![(1, LineError::TokenCount { found: 16 })]);
}

#[test]
fn token_reading() {
    assert_eq!(parse_token(&chars("42")), Some(42));
    assert_eq!(parse_token(&chars("+7")), Some(7));
    assert_eq!(parse_token(&chars("007")), Some(7));
    assert_eq!(parse_token(&chars("4294967295")), Some(4294967295));
    assert_eq!(parse_token(&chars("4294967296")), None);
    assert_eq!(parse_token(&chars("-1")), None);
    assert_eq!(parse_token(&chars("+")), None);
    assert_eq!(parse_token(&chars("1a")), None);
    assert_eq!(parse_token(&chars("")), None);
}
