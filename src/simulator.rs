//! Raffles over a ticket pool: draw numbers until some ticket has all of its numbers drawn.
use vstd::prelude::*;
use crate::generator::ticket_views;
use crate::rng::{chacha_shuffle, permute, reordered, SeededRng};

verus! {

/// Settings of a simulation: how many raffles, the seed of the first, whether winning tickets
/// are to be shown, and the ticket pool.
pub struct Config {
    pub size: u8,
    pub seed: u8,
    pub verbose: bool,
    pub tickets: Vec<[u32; 15]>,
}

/// What one raffle ended with.
pub struct RaffleOutcome {
    /// The distinct tickets that had all of their numbers drawn when the draw stopped.
    pub winners: Vec<[u32; 15]>,
    /// How many numbers were drawn.
    pub drawn: usize,
}

pub enum RaffleError {
    /// The pool holds no ticket, so no raffle can start.
    NoTickets,
    /// A raffle drew every number and no ticket won: some ticket lacks fifteen distinct
    /// numbers among those drawn.
    NoWinner { raffle: u8 },
}

/// The numbers 1 to 90 in ascending order.
pub open spec fn ball_numbers() -> Seq<u32> {
    Seq::new(90, |i: int| (i + 1) as u32)
}

/// The order in which a raffle seeded with `seed` draws the numbers: 1 to 90 shuffled by a
/// fresh stream from that seed.
pub open spec fn draw_order(seed: u8) -> Seq<u32> {
    permute(ball_numbers(), chacha_shuffle(seed, Seq::empty(), 90))
}

/// The seed of raffle `r` of a simulation seeded with `seed`: their sum, wrapping at 256.
pub open spec fn raffle_seed(seed: u8, r: int) -> u8 {
    ((seed + r) % 256) as u8
}

/// How many of the first `p` drawn numbers ticket `t` holds.
pub open spec fn hits(t: Seq<u32>, draws: Seq<u32>, p: nat) -> nat
    decreases p,
{
    if p == 0 {
        0
    } else {
        hits(t, draws, (p - 1) as nat) + if t.contains(draws[p - 1]) { 1nat } else { 0nat }
    }
}

/// Ticket `t` has fifteen of its numbers among the first `p` drawn.
pub open spec fn wins(t: Seq<u32>, draws: Seq<u32>, p: nat) -> bool {
    hits(t, draws, p) == 15
}

pub open spec fn any_wins(tickets: Seq<Seq<u32>>, draws: Seq<u32>, p: nat) -> bool {
    exists|j: int| 0 <= j < tickets.len() && wins(#[trigger] tickets[j], draws, p)
}

/// The first count of drawn numbers, above `p`, after which some ticket wins; all the
/// numbers if none does.
pub open spec fn first_win_from(tickets: Seq<Seq<u32>>, draws: Seq<u32>, p: nat) -> nat
    decreases draws.len() - p,
{
    if p >= draws.len() {
        draws.len()
    } else if any_wins(tickets, draws, p + 1) {
        p + 1
    } else {
        first_win_from(tickets, draws, p + 1)
    }
}

/// How many numbers a raffle draws: it stops after the first number that completes a ticket.
pub open spec fn raffle_length(tickets: Seq<Seq<u32>>, draws: Seq<u32>) -> nat {
    first_win_from(tickets, draws, 0)
}

/// `o` is what a raffle over `tickets` that draws `draws` ends with: it stops as soon as a
/// ticket wins, and its winners are exactly the distinct tickets that have won by then.
pub open spec fn outcome_of(o: RaffleOutcome, tickets: Seq<Seq<u32>>, draws: Seq<u32>) -> bool {
    &&& o.drawn == raffle_length(tickets, draws)
    &&& ticket_views(o.winners@).no_duplicates()
    &&& forall|t: Seq<u32>| #[trigger] ticket_views(o.winners@).contains(t)
        <==> (tickets.contains(t) && wins(t, draws, o.drawn as nat))
}

proof fn lemma_hits_step(t: Seq<u32>, draws: Seq<u32>, p: nat)
    ensures
        hits(t, draws, p + 1) == hits(t, draws, p) + if t.contains(draws[p as int]) { 1nat } else { 0nat },
{
}

/// A ticket that holds any drawn number holds one of the first `p` drawn.
pub proof fn lemma_hits_need_a_draw(t: Seq<u32>, draws: Seq<u32>, p: nat)
    requires
        hits(t, draws, p) > 0,
    ensures
        exists|i: int| 0 <= i < p && t.contains(#[trigger] draws[i]),
    decreases p,
{
    if !t.contains(draws[p - 1]) {
        lemma_hits_need_a_draw(t, draws, (p - 1) as nat);
    }
}

proof fn lemma_first_win_bounds(tickets: Seq<Seq<u32>>, draws: Seq<u32>, p: nat)
    requires
        p <= draws.len(),
    ensures
        p <= first_win_from(tickets, draws, p) <= draws.len(),
    decreases draws.len() - p,
{
    if p < draws.len() && !any_wins(tickets, draws, p + 1) {
        lemma_first_win_bounds(tickets, draws, p + 1);
    }
}

/// A raffle draws at most every number once, and reports a winner only after at least one of
/// that ticket's numbers has been drawn.
pub proof fn lemma_raffle_bounds(o: RaffleOutcome, tickets: Seq<Seq<u32>>, draws: Seq<u32>, t: Seq<u32>)
    requires
        outcome_of(o, tickets, draws),
        ticket_views(o.winners@).contains(t),
    ensures
        o.drawn <= draws.len(),
        exists|i: int| 0 <= i < o.drawn && t.contains(#[trigger] draws[i]),
{
    lemma_first_win_bounds(tickets, draws, 0);
    lemma_hits_need_a_draw(t, draws, o.drawn as nat);
}

/// Where `x` stands among the drawn numbers.
pub open spec fn position(draws: Seq<u32>, x: u32) -> int {
    choose|i: int| 0 <= i < draws.len() && draws[i] == x
}

/// How many numbers have been drawn once the last of the first `n` numbers of `t` is.
pub open spec fn last_needed_upto(t: Seq<u32>, draws: Seq<u32>, n: nat) -> int
    decreases n,
{
    if n == 0 {
        0
    } else {
        let prev = last_needed_upto(t, draws, (n - 1) as nat);
        let here = position(draws, t[n - 1]) + 1;
        if here > prev { here } else { prev }
    }
}

/// How many numbers a raffle must draw before every number of ticket `t` is drawn.
pub open spec fn last_needed(t: Seq<u32>, draws: Seq<u32>) -> int {
    last_needed_upto(t, draws, t.len())
}

spec fn count_before(t: Seq<u32>, draws: Seq<u32>, p: int, n: nat) -> nat
    decreases n,
{
    if n == 0 {
        0
    } else {
        count_before(t, draws, p, (n - 1) as nat) + if position(draws, t[n - 1]) < p { 1nat } else { 0nat }
    }
}

spec fn count_at(t: Seq<u32>, draws: Seq<u32>, p: int, n: nat) -> nat
    decreases n,
{
    if n == 0 {
        0
    } else {
        count_at(t, draws, p, (n - 1) as nat) + if position(draws, t[n - 1]) == p { 1nat } else { 0nat }
    }
}

/// Every number of `t` is drawn, once, and `t` holds no number twice.
pub open spec fn fully_drawn(t: Seq<u32>, draws: Seq<u32>) -> bool {
    &&& t.no_duplicates()
    &&& draws.no_duplicates()
    &&& forall|j: int| 0 <= j < t.len() ==> draws.contains(#[trigger] t[j])
}

proof fn lemma_position(draws: Seq<u32>, x: u32)
    requires
        draws.contains(x),
    ensures
        0 <= position(draws, x) < draws.len(),
        draws[position(draws, x)] == x,
{
}

proof fn lemma_count_split(t: Seq<u32>, draws: Seq<u32>, p: int, n: nat)
    requires
        n <= t.len(),
    ensures
        count_before(t, draws, p + 1, n) == count_before(t, draws, p, n) + count_at(t, draws, p, n),
    decreases n,
{
    if n > 0 {
        lemma_count_split(t, draws, p, (n - 1) as nat);
    }
}

proof fn lemma_count_at(t: Seq<u32>, draws: Seq<u32>, p: int, n: nat)
    requires
        fully_drawn(t, draws),
        0 <= p < draws.len(),
        n <= t.len(),
    ensures
        count_at(t, draws, p, n) == if t.take(n as int).contains(draws[p]) { 1nat } else { 0nat },
    decreases n,
{
    if n > 0 {
        lemma_count_at(t, draws, p, (n - 1) as nat);
        let x = t[n - 1];
        lemma_position(draws, x);
        let prev = t.take(n - 1);
        assert(t.take(n as int) == prev.push(x));
        if position(draws, x) == p {
            assert(x == draws[p]);
            if prev.contains(draws[p]) {
                let j = choose|j: int| 0 <= j < prev.len() && prev[j] == draws[p];
                assert(t[j] == t[n - 1]);
            }
            assert(t.take(n as int)[n - 1] == draws[p]);
        } else {
            assert(x != draws[p]) by {
                if x == draws[p] {
                    assert(draws[position(draws, x)] == draws[p]);
                }
            }
            if t.take(n as int).contains(draws[p]) {
                let j = choose|j: int| 0 <= j < n && t.take(n as int)[j] == draws[p];
                assert(prev[j] == draws[p]);
            }
            if prev.contains(draws[p]) {
                let j = choose|j: int| 0 <= j < prev.len() && prev[j] == draws[p];
                assert(t.take(n as int)[j] == draws[p]);
            }
        }
    }
}

proof fn lemma_hits_count(t: Seq<u32>, draws: Seq<u32>, p: nat)
    requires
        fully_drawn(t, draws),
        p <= draws.len(),
    ensures
        hits(t, draws, p) == count_before(t, draws, p as int, t.len()),
    decreases p,
{
    if p == 0 {
        lemma_count_zero(t, draws, t.len());
    } else {
        lemma_hits_count(t, draws, (p - 1) as nat);
        lemma_count_split(t, draws, p - 1, t.len());
        lemma_count_at(t, draws, p - 1, t.len());
        assert(t.take(t.len() as int) == t);
    }
}

proof fn lemma_count_zero(t: Seq<u32>, draws: Seq<u32>, n: nat)
    requires
        fully_drawn(t, draws),
        n <= t.len(),
    ensures
        count_before(t, draws, 0, n) == 0,
    decreases n,
{
    if n > 0 {
        lemma_count_zero(t, draws, (n - 1) as nat);
        lemma_position(draws, t[n - 1]);
    }
}

proof fn lemma_count_full(t: Seq<u32>, draws: Seq<u32>, p: int, n: nat)
    requires
        fully_drawn(t, draws),
        0 <= p,
        n <= t.len(),
    ensures
        count_before(t, draws, p, n) <= n,
        count_before(t, draws, p, n) == n <==> last_needed_upto(t, draws, n) <= p,
    decreases n,
{
    if n > 0 {
        lemma_count_full(t, draws, p, (n - 1) as nat);
        lemma_last_needed_nonneg(t, draws, (n - 1) as nat);
    }
}

proof fn lemma_last_needed_nonneg(t: Seq<u32>, draws: Seq<u32>, n: nat)
    requires
        fully_drawn(t, draws),
        n <= t.len(),
    ensures
        0 <= last_needed_upto(t, draws, n) <= draws.len(),
        n > 0 ==> exists|j: int| 0 <= j < n && last_needed_upto(t, draws, n) == position(draws, #[trigger] t[j]) + 1,
    decreases n,
{
    if n > 0 {
        lemma_last_needed_nonneg(t, draws, (n - 1) as nat);
        lemma_position(draws, t[n - 1]);
    }
}

/// A ticket of distinct numbers, all of them drawn once, wins after `p` draws exactly when its
/// last needed number is among them.
pub proof fn lemma_wins_iff_last_needed(t: Seq<u32>, draws: Seq<u32>, p: nat)
    requires
        t.len() == 15,
        fully_drawn(t, draws),
        p <= draws.len(),
    ensures
        wins(t, draws, p) <==> last_needed(t, draws) <= p,
{
    lemma_hits_count(t, draws, p);
    lemma_count_full(t, draws, p as int, 15);
}

proof fn lemma_first_win_pair(t1: Seq<u32>, t2: Seq<u32>, draws: Seq<u32>, q: nat)
    requires
        t1.len() == 15,
        t2.len() == 15,
        fully_drawn(t1, draws),
        fully_drawn(t2, draws),
        q < last_needed(t1, draws),
        q < last_needed(t2, draws),
    ensures
        first_win_from(seq![t1, t2], draws, q) == if last_needed(t1, draws) < last_needed(t2, draws) {
            last_needed(t1, draws)
        } else {
            last_needed(t2, draws)
        },
    decreases draws.len() - q,
{
    let ts = seq![t1, t2];
    lemma_last_needed_nonneg(t1, draws, 15);
    lemma_last_needed_nonneg(t2, draws, 15);
    lemma_wins_iff_last_needed(t1, draws, q + 1);
    lemma_wins_iff_last_needed(t2, draws, q + 1);
    assert(any_wins(ts, draws, q + 1) <==> (wins(t1, draws, q + 1) || wins(t2, draws, q + 1))) by {
        if any_wins(ts, draws, q + 1) {
            let j = choose|j: int| 0 <= j < ts.len() && wins(#[trigger] ts[j], draws, q + 1);
        }
        if wins(t1, draws, q + 1) {
            assert(wins(ts[0], draws, q + 1));
        }
        if wins(t2, draws, q + 1) {
            assert(wins(ts[1], draws, q + 1));
        }
    }
    if !any_wins(ts, draws, q + 1) {
        lemma_first_win_pair(t1, t2, draws, q + 1);
    }
}

/// Two tickets with no number in common, each of fifteen distinct numbers that are all drawn
/// once: the raffle stops when the first of them has its last needed number drawn, and exactly
/// that one wins.
pub proof fn lemma_disjoint_pair_raffle(t1: Seq<u32>, t2: Seq<u32>, draws: Seq<u32>)
    requires
        t1.len() == 15,
        t2.len() == 15,
        fully_drawn(t1, draws),
        fully_drawn(t2, draws),
        forall|i: int, j: int| 0 <= i < 15 && 0 <= j < 15 ==> t1[i] != t2[j],
    ensures
        last_needed(t1, draws) != last_needed(t2, draws),
        raffle_length(seq![t1, t2], draws) == if last_needed(t1, draws) < last_needed(t2, draws) {
            last_needed(t1, draws)
        } else {
            last_needed(t2, draws)
        },
        wins(t1, draws, raffle_length(seq![t1, t2], draws)) <==> last_needed(t1, draws) < last_needed(t2, draws),
        wins(t2, draws, raffle_length(seq![t1, t2], draws)) <==> last_needed(t2, draws) < last_needed(t1, draws),
{
    lemma_last_needed_nonneg(t1, draws, 15);
    lemma_last_needed_nonneg(t2, draws, 15);
    let i = choose|j: int| 0 <= j < 15 && last_needed_upto(t1, draws, 15) == position(draws, #[trigger] t1[j]) + 1;
    let j = choose|j: int| 0 <= j < 15 && last_needed_upto(t2, draws, 15) == position(draws, #[trigger] t2[j]) + 1;
    lemma_position(draws, t1[i]);
    lemma_position(draws, t2[j]);
    lemma_first_win_pair(t1, t2, draws, 0);
    let d = raffle_length(seq![t1, t2], draws);
    lemma_wins_iff_last_needed(t1, draws, d);
    lemma_wins_iff_last_needed(t2, draws, d);
}

/// Whether ticket `t` holds the number `x`.
pub fn ticket_contains(t: &[u32; 15], x: u32) -> (r: bool)
    ensures
        r == t@.contains(x),
{
    let mut i: usize = 0;
    while i < 15
        invariant
            i <= 15,
            forall|j: int| 0 <= j < i ==> t@[j] != x,
        decreases 15 - i,
    {
        if t[i] == x {
            assert(t@[i as int] == x);
            return true;
        }
        i = i + 1;
    }
    false
}

/// Whether two tickets hold the same numbers in the same order.
pub fn same_ticket(a: &[u32; 15], b: &[u32; 15]) -> (r: bool)
    ensures
        r == (a@ == b@),
{
    let mut i: usize = 0;
    while i < 15
        invariant
            i <= 15,
            forall|j: int| 0 <= j < i ==> a@[j] == b@[j],
        decreases 15 - i,
    {
        if a[i] != b[i] {
            return false;
        }
        i = i + 1;
    }
    assert(a@ =~= b@);
    true
}

proof fn lemma_push_contains<A>(s: Seq<A>, v: A)
    ensures
        forall|x: A| #[trigger] s.push(v).contains(x) <==> (s.contains(x) || x == v),
{
    assert forall|x: A| #[trigger] s.push(v).contains(x) <==> (s.contains(x) || x == v) by {
        if s.contains(x) {
            let j = choose|j: int| 0 <= j < s.len() && s[j] == x;
            assert(s.push(v)[j] == x);
        }
        if x == v {
            assert(s.push(v)[s.len() as int] == x);
        }
        if s.push(v).contains(x) {
            let j = choose|j: int| 0 <= j < s.len() + 1 && s.push(v)[j] == x;
            if j < s.len() {
                assert(s[j] == x);
            }
        }
    }
}

/// The tickets of `tickets`, each once, in the order of their first appearance.
pub fn distinct_tickets(tickets: &Vec<[u32; 15]>) -> (r: Vec<[u32; 15]>)
    ensures
        ticket_views(r@).no_duplicates(),
        forall|t: Seq<u32>| #[trigger] ticket_views(r@).contains(t) <==> ticket_views(tickets@).contains(t),
{
    let mut pool: Vec<[u32; 15]> = Vec::new();
    let mut i: usize = 0;
    while i < tickets.len()
        invariant
            i <= tickets@.len(),
            ticket_views(pool@).no_duplicates(),
            forall|t: Seq<u32>| #[trigger] ticket_views(pool@).contains(t)
                <==> ticket_views(tickets@.take(i as int)).contains(t),
        decreases tickets@.len() - i,
    {
        let t: [u32; 15] = tickets[i];
        let mut k: usize = 0;
        let mut seen: bool = false;
        while k < pool.len()
            invariant
                k <= pool@.len(),
                seen == exists|j: int| 0 <= j < k && pool@[j]@ == t@,
            decreases pool@.len() - k,
        {
            if same_ticket(&pool[k], &t) {
                seen = true;
            }
            k = k + 1;
        }
        let ghost before = pool@;
        assert(ticket_views(tickets@.take(i as int + 1)) == ticket_views(tickets@.take(i as int)).push(t@));
        proof {
            lemma_push_contains(ticket_views(tickets@.take(i as int)), t@);
            lemma_push_contains(ticket_views(before), t@);
        }
        if !seen {
            pool.push(t);
            assert(ticket_views(pool@) == ticket_views(before).push(t@));
            assert forall|x: Seq<u32>| #[trigger] ticket_views(before).contains(x) implies x != t@ by {
                let j = choose|j: int| 0 <= j < ticket_views(before).len() && ticket_views(before)[j] == x;
                assert(before[j]@ == x);
            }
        } else {
            proof {
                let j = choose|j: int| 0 <= j < k && pool@[j]@ == t@;
                assert(ticket_views(pool@)[j] == t@);
            }
        }
        i = i + 1;
    }
    assert(tickets@.take(i as int) == tickets@);
    pool
}

/// Runs one raffle over `tickets`, drawing the numbers of `draws` in order: after each number
/// every ticket that holds it counts one more match, and the draw stops after the first number
/// that brings some ticket to fifteen.
pub fn run_draw(tickets: &Vec<[u32; 15]>, draws: &[u32]) -> (r: RaffleOutcome)
    ensures
        outcome_of(r, ticket_views(tickets@), draws@),
{
    let pool = distinct_tickets(tickets);
    let ghost tv = ticket_views(tickets@);
    let ghost pv = ticket_views(pool@);
    let mut counts: Vec<u32> = Vec::new();
    let mut k: usize = 0;
    while k < pool.len()
        invariant
            k <= pool@.len(),
            counts@.len() == k,
            forall|j: int| 0 <= j < k ==> counts@[j] == 0,
        decreases pool@.len() - k,
    {
        counts.push(0);
        k = k + 1;
    }
    let mut winners: Vec<[u32; 15]> = Vec::new();
    let mut p: usize = 0;
    while p < draws.len() && winners.len() == 0
        invariant
            pv == ticket_views(pool@),
            tv == ticket_views(tickets@),
            pv.no_duplicates(),
            forall|t: Seq<u32>| #[trigger] pv.contains(t) <==> tv.contains(t),
            p <= draws@.len(),
            counts@.len() == pool@.len(),
            forall|j: int| 0 <= j < counts@.len() ==> #[trigger] counts@[j] == hits(pv[j], draws@, p as nat),
            winners@.len() == 0 ==> {
                &&& forall|j: int| 0 <= j < pv.len() ==> #[trigger] hits(pv[j], draws@, p as nat) < 15
                &&& raffle_length(tv, draws@) == first_win_from(tv, draws@, p as nat)
            },
            winners@.len() > 0 ==> {
                &&& p == raffle_length(tv, draws@)
                &&& ticket_views(winners@).no_duplicates()
                &&& forall|t: Seq<u32>| #[trigger] ticket_views(winners@).contains(t)
                    <==> (tv.contains(t) && wins(t, draws@, p as nat))
            },
        decreases draws@.len() - p,
    {
        let d: u32 = draws[p];
        let mut k: usize = 0;
        while k < pool.len()
            invariant
                pv == ticket_views(pool@),
                pv.no_duplicates(),
                p < draws@.len(),
                d == draws@[p as int],
                k <= pool@.len(),
                counts@.len() == pool@.len(),
                forall|j: int| 0 <= j < pv.len() ==> #[trigger] hits(pv[j], draws@, p as nat) < 15,
                forall|j: int| 0 <= j < k ==> #[trigger] counts@[j] == hits(pv[j], draws@, p as nat + 1),
                forall|j: int| k <= j < counts@.len() ==> #[trigger] counts@[j] == hits(pv[j], draws@, p as nat),
                ticket_views(winners@).no_duplicates(),
                forall|t: Seq<u32>| #[trigger] ticket_views(winners@).contains(t)
                    <==> exists|j: int| 0 <= j < k && pv[j] == t && wins(t, draws@, p as nat + 1),
            decreases pool@.len() - k,
        {
            proof {
                lemma_hits_step(pv[k as int], draws@, p as nat);
            }
            assert(pool@[k as int]@ == pv[k as int]);
            if ticket_contains(&pool[k], d) {
                let c: u32 = counts[k] + 1;
                counts.set(k, c);
                if c == 15 {
                    let ghost before = winners@;
                    winners.push(pool[k]);
                    proof {
                        assert(ticket_views(winners@) == ticket_views(before).push(pv[k as int]));
                        lemma_push_contains(ticket_views(before), pv[k as int]);
                        assert forall|x: Seq<u32>| #[trigger] ticket_views(before).contains(x) implies x != pv[k as int] by {
                            let j = choose|j: int| 0 <= j < k && pv[j] == x && wins(x, draws@, p as nat + 1);
                        }
                        let wv = ticket_views(winners@);
                        let bv = ticket_views(before);
                        assert forall|i: int, j: int| 0 <= i < wv.len() && 0 <= j < wv.len() && i != j implies wv[i] != wv[j] by {
                            if i == bv.len() {
                                assert(bv.contains(wv[j]));
                            } else if j == bv.len() {
                                assert(bv.contains(wv[i]));
                            } else {
                                assert(wv[i] == bv[i] && wv[j] == bv[j]);
                            }
                        }
                        assert forall|t: Seq<u32>| #[trigger] ticket_views(winners@).contains(t)
                            <==> exists|j: int| 0 <= j < k + 1 && pv[j] == t && wins(t, draws@, p as nat + 1) by {
                            if t == pv[k as int] {
                                assert(pv[k as int] == t);
                            }
                        }
                    }
                } else {
                    proof {
                        assert forall|t: Seq<u32>| #[trigger] ticket_views(winners@).contains(t)
                            <==> exists|j: int| 0 <= j < k + 1 && pv[j] == t && wins(t, draws@, p as nat + 1) by {
                            if exists|j: int| 0 <= j < k + 1 && pv[j] == t && wins(t, draws@, p as nat + 1) {
                                let j = choose|j: int| 0 <= j < k + 1 && pv[j] == t && wins(t, draws@, p as nat + 1);
                                assert(j != k);
                            }
                        }
                    }
                }
            } else {
                proof {
                    assert forall|t: Seq<u32>| #[trigger] ticket_views(winners@).contains(t)
                        <==> exists|j: int| 0 <= j < k + 1 && pv[j] == t && wins(t, draws@, p as nat + 1) by {
                        if exists|j: int| 0 <= j < k + 1 && pv[j] == t && wins(t, draws@, p as nat + 1) {
                            let j = choose|j: int| 0 <= j < k + 1 && pv[j] == t && wins(t, draws@, p as nat + 1);
                            assert(j != k);
                        }
                    }
                }
            }
            k = k + 1;
        }
        proof {
            let q = (p + 1) as nat;
            assert forall|t: Seq<u32>| #[trigger] ticket_views(winners@).contains(t)
                <==> (tv.contains(t) && wins(t, draws@, q)) by {
                if tv.contains(t) && wins(t, draws@, q) {
                    assert(pv.contains(t));
                    let j = choose|j: int| 0 <= j < pv.len() && pv[j] == t;
                    assert(ticket_views(winners@).contains(t));
                }
                if ticket_views(winners@).contains(t) {
                    let j = choose|j: int| 0 <= j < pool@.len() && pv[j] == t && wins(t, draws@, q);
                    assert(pv.contains(t));
                }
            }
            if any_wins(tv, draws@, q) {
                let j = choose|j: int| 0 <= j < tv.len() && wins(#[trigger] tv[j], draws@, q);
                assert(tv.contains(tv[j]));
                assert(ticket_views(winners@).contains(tv[j]));
            } else {
                assert forall|x: Seq<u32>| !ticket_views(winners@).contains(x) by {
                    if ticket_views(winners@).contains(x) {
                        let j = choose|j: int| 0 <= j < tv.len() && tv[j] == x;
                    }
                }
                if winners@.len() > 0 {
                    assert(ticket_views(winners@).contains(ticket_views(winners@)[0]));
                }
                assert forall|j: int| 0 <= j < pv.len() implies #[trigger] hits(pv[j], draws@, q) < 15 by {
                    lemma_hits_step(pv[j], draws@, p as nat);
                    if hits(pv[j], draws@, q) == 15 {
                        assert(pv.contains(pv[j]));
                        assert(tv.contains(pv[j]));
                        let i = choose|i: int| 0 <= i < tv.len() && tv[i] == pv[j];
                        assert(wins(tv[i], draws@, q));
                    }
                }
            }
        }
        p = p + 1;
    }
    proof {
        if winners@.len() == 0 {
            assert(first_win_from(tv, draws@, p as nat) == draws@.len());
            assert forall|t: Seq<u32>| #[trigger] ticket_views(winners@).contains(t)
                <==> (tv.contains(t) && wins(t, draws@, p as nat)) by {
                if tv.contains(t) && wins(t, draws@, p as nat) {
                    assert(pv.contains(t));
                    let j = choose|j: int| 0 <= j < pv.len() && pv[j] == t;
                    assert(hits(pv[j], draws@, p as nat) < 15);
                }
            }
        }
    }
    RaffleOutcome { winners, drawn: p }
}

/// A raffle over `tickets` seeded with `seed` ends with a winner.
pub open spec fn raffle_completes(tickets: Seq<Seq<u32>>, seed: u8) -> bool {
    any_wins(tickets, draw_order(seed), raffle_length(tickets, draw_order(seed)))
}

impl Config {
    /// The numbers 1 to 90 in the order in which a raffle seeded with `seed` draws them.
    pub fn get_shuffle_numbers(&self, seed: u8) -> (r: [u32; 90])
        ensures
            reordered(ball_numbers(), r@, chacha_shuffle(seed, Seq::empty(), 90)),
            r@.to_multiset() == ball_numbers().to_multiset(),
    {
        let mut numbers: Vec<u32> = Vec::new();
        let mut n: u32 = 1;
        while n <= 90
            invariant
                1 <= n <= 91,
                numbers@ == ball_numbers().take(n - 1),
            decreases 91 - n,
        {
            numbers.push(n);
            assert(numbers@ =~= ball_numbers().take(n as int));
            n = n + 1;
        }
        assert(numbers@ =~= ball_numbers());
        let mut rng = SeededRng::new(seed);
        rng.shuffle(&mut numbers);
        let mut drawn: [u32; 90] = [0; 90];
        let mut i: usize = 0;
        while i < 90
            invariant
                numbers@.len() == 90,
                i <= 90,
                forall|j: int| 0 <= j < i ==> drawn@[j] == numbers@[j],
            decreases 90 - i,
        {
            drawn[i] = numbers[i];
            i = i + 1;
        }
        assert(drawn@ =~= numbers@);
        drawn
    }
}

proof fn lemma_completes_iff_winners(o: RaffleOutcome, tickets: Seq<Seq<u32>>, draws: Seq<u32>)
    requires
        outcome_of(o, tickets, draws),
    ensures
        o.winners@.len() > 0 <==> any_wins(tickets, draws, raffle_length(tickets, draws)),
{
    let wv = ticket_views(o.winners@);
    if o.winners@.len() > 0 {
        assert(wv.contains(wv[0]));
        let i = choose|i: int| 0 <= i < tickets.len() && tickets[i] == wv[0];
        assert(wins(tickets[i], draws, o.drawn as nat));
    }
    if any_wins(tickets, draws, raffle_length(tickets, draws)) {
        let j = choose|j: int| 0 <= j < tickets.len() && wins(#[trigger] tickets[j], draws, o.drawn as nat);
        assert(tickets.contains(tickets[j]));
        assert(wv.contains(tickets[j]));
    }
}

/// Runs the configured number of raffles over the pool; raffle `r` draws in the order seeded by
/// the configured seed plus `r`, wrapping at 256.
pub fn run(config: &Config) -> (r: Result<Vec<RaffleOutcome>, RaffleError>)
    ensures
        config.tickets@.len() == 0 ==> r == Err::<Vec<RaffleOutcome>, RaffleError>(RaffleError::NoTickets),
        config.tickets@.len() > 0 ==> {
            let tv = ticket_views(config.tickets@);
            &&& r is Ok <==> forall|i: int| 0 <= i < config.size ==> raffle_completes(tv, #[trigger] raffle_seed(config.seed, i))
            &&& r matches Ok(v) ==> {
                &&& v@.len() == config.size
                &&& forall|i: int| 0 <= i < v@.len() ==> outcome_of(#[trigger] v@[i], tv, draw_order(raffle_seed(config.seed, i)))
            }
            &&& r matches Err(e) ==> e matches RaffleError::NoWinner { raffle } && {
                &&& raffle < config.size
                &&& !raffle_completes(tv, raffle_seed(config.seed, raffle as int))
                &&& forall|i: int| 0 <= i < raffle ==> raffle_completes(tv, #[trigger] raffle_seed(config.seed, i))
            }
        },
{
    if config.tickets.len() == 0 {
        return Err(RaffleError::NoTickets);
    }
    let ghost tv = ticket_views(config.tickets@);
    let mut outcomes: Vec<RaffleOutcome> = Vec::new();
    let mut raffle: u8 = 0;
    while raffle < config.size
        invariant
            tv == ticket_views(config.tickets@),
            config.tickets@.len() > 0,
            raffle <= config.size,
            outcomes@.len() == raffle,
            forall|i: int| 0 <= i < raffle ==> raffle_completes(tv, #[trigger] raffle_seed(config.seed, i)),
            forall|i: int| 0 <= i < outcomes@.len() ==> outcome_of(#[trigger] outcomes@[i], tv, draw_order(raffle_seed(config.seed, i))),
        decreases config.size - raffle,
    {
        let seed: u8 = ((config.seed as u16 + raffle as u16) % 256) as u8;
        assert(seed == raffle_seed(config.seed, raffle as int));
        let numbers: [u32; 90] = config.get_shuffle_numbers(seed);
        let draws: &[u32] = numbers.as_slice();
        let outcome = run_draw(&config.tickets, draws);
        proof {
            lemma_completes_iff_winners(outcome, tv, draws@);
        }
        if outcome.winners.len() == 0 {
            return Err(RaffleError::NoWinner { raffle });
        }
        outcomes.push(outcome);
        raffle = raffle + 1;
    }
    Ok(outcomes)
}

} // verus!
