//! The ticket generator: 27 cycling combination buckets and one cycling configuration list.
use vstd::prelude::*;
use vstd::arithmetic::div_mod::{lemma_fundamental_div_mod_converse, lemma_mod_pos_bound};
use crate::combination::{
    ascending_within, binom, column_combinations, column_combos, column_hi, column_lo, column_width,
    lemma_binom_bounds, lemma_combos_len, lemma_combos_shape, COLUMNS, MAX_PER_COLUMN,
};
use crate::configuration::{all_configs, lemma_size_total, size_total, is_valid_config, lemma_all_configs_count, lemma_all_configs_len, lemma_all_configs_nonempty, lemma_all_configs_valid, valid_configurations, views_of};
use crate::cyclic::CyclicSelector;
use crate::rng::{chacha_shuffle, indices_below, lemma_multiset_map, lemma_permute_map, permute, SeededRng};

verus! {

broadcast use vstd::seq_lib::group_to_multiset_ensures;

/// Number of combination buckets: one per column and size.
pub const BUCKETS: usize = 27;

/// Settings of a generation run: how many tickets, from which seed, and whether the
/// statistic on the largest ticket set is wanted too.
pub struct Config {
    pub size: usize,
    pub seed: u8,
    pub verbose: bool,
}

/// The bucket of column `c` and size class `s` (size `s + 1`).
pub open spec fn bucket_index(c: int, s: int) -> int {
    3 * c + s
}

pub open spec fn bucket_column(b: int) -> int {
    b / 3
}

pub open spec fn bucket_class(b: int) -> int {
    b % 3
}

/// All combinations that bucket `b` holds, in lexicographic order.
pub open spec fn bucket_combos(b: int) -> Seq<Seq<u32>> {
    column_combos(bucket_column(b), (bucket_class(b) + 1) as nat)
}

/// The lengths of the lists that the stream has shuffled before bucket `b`.
pub open spec fn lengths_before(b: int) -> Seq<nat> {
    Seq::new(b as nat, |j: int| bucket_combos(j).len())
}

/// What a generator holds: the 27 shuffled buckets, with their cursors, and the shuffled
/// configurations, with theirs.
pub struct GeneratorModel {
    pub buckets: Seq<Seq<Seq<u32>>>,
    pub cursors: Seq<nat>,
    pub configs: Seq<Seq<usize>>,
    pub config_cursor: nat,
}

/// The state in which a generator built from `seed` starts.
pub open spec fn initial_model(seed: u8) -> GeneratorModel {
    GeneratorModel {
        buckets: Seq::new(27, |b: int| permute(bucket_combos(b), chacha_shuffle(seed, lengths_before(b), bucket_combos(b).len()))),
        cursors: Seq::new(27, |b: int| 0nat),
        configs: permute(all_configs(), chacha_shuffle(seed, lengths_before(27), all_configs().len())),
        config_cursor: 0,
    }
}

/// A ticket: fifteen numbers within 1..=90, strictly ascending (so pairwise distinct).
pub open spec fn valid_ticket(t: Seq<u32>) -> bool {
    &&& t.len() == 15
    &&& ascending_within(t, 1, 91)
}

impl GeneratorModel {
    pub open spec fn wf(self) -> bool {
        &&& self.buckets.len() == 27
        &&& self.cursors.len() == 27
        &&& forall|b: int| 0 <= b < 27 ==> #[trigger] self.cursors[b] < self.buckets[b].len()
        &&& forall|b: int| 0 <= b < 27 ==> (#[trigger] self.buckets[b]).len() == bucket_combos(b).len()
        &&& forall|b: int, i: int| 0 <= b < 27 && 0 <= i < self.buckets[b].len() ==> {
            &&& (#[trigger] self.buckets[b][i]).len() == bucket_class(b) + 1
            &&& ascending_within(self.buckets[b][i], column_lo(bucket_column(b)), column_hi(bucket_column(b)))
        }
        &&& forall|b: int| 0 <= b < 27 ==> (#[trigger] self.buckets[b]).to_multiset() == bucket_combos(b).to_multiset()
        &&& self.configs.len() == all_configs().len()
        &&& self.configs.to_multiset() == all_configs().to_multiset()
        &&& self.config_cursor < self.configs.len()
        &&& forall|j: int| 0 <= j < self.configs.len() ==> is_valid_config(#[trigger] self.configs[j])
    }

    /// The configuration that the next ticket follows.
    pub open spec fn config(self) -> Seq<usize> {
        self.configs[self.config_cursor as int]
    }

    /// The bucket that column `c` of the next ticket comes from.
    pub open spec fn bucket_of(self, c: int) -> int {
        bucket_index(c, self.config()[c] as int)
    }

    /// The combination that column `c` of the next ticket takes.
    pub open spec fn pick(self, c: int) -> Seq<u32> {
        self.buckets[self.bucket_of(c)][self.cursors[self.bucket_of(c)] as int]
    }

    /// The numbers of the first `n` columns of the next ticket.
    pub open spec fn ticket_prefix(self, n: nat) -> Seq<u32>
        decreases n,
    {
        if n == 0 { Seq::empty() } else { self.ticket_prefix((n - 1) as nat) + self.pick(n - 1) }
    }

    pub open spec fn next_ticket(self) -> Seq<u32> {
        self.ticket_prefix(9)
    }

    /// Where the cursor of bucket `b` stands after the next ticket: one further, cyclically,
    /// if the bucket gives the ticket a combination.
    pub open spec fn next_cursor(self, b: int) -> nat {
        if self.config()[bucket_column(b)] == bucket_class(b) {
            (self.cursors[b] + 1) as nat % self.buckets[b].len()
        } else {
            self.cursors[b]
        }
    }

    /// The state after one ticket: each bucket that gave a combination moves on by one, and
    /// so does the configuration list.
    pub open spec fn advance(self) -> GeneratorModel {
        GeneratorModel {
            buckets: self.buckets,
            cursors: Seq::new(self.cursors.len(), |b: int| self.next_cursor(b)),
            configs: self.configs,
            config_cursor: (self.config_cursor + 1) as nat % self.configs.len(),
        }
    }

    /// The state after `n` tickets.
    pub open spec fn advanced(self, n: nat) -> GeneratorModel
        decreases n,
    {
        if n == 0 { self } else { self.advanced((n - 1) as nat).advance() }
    }

    /// The first `n` tickets.
    pub open spec fn stream(self, n: nat) -> Seq<Seq<u32>>
        decreases n,
    {
        if n == 0 {
            Seq::empty()
        } else {
            self.stream((n - 1) as nat).push(self.advanced((n - 1) as nat).next_ticket())
        }
    }
}

proof fn lemma_bucket_index(c: int, s: int)
    requires
        0 <= s < 3,
    ensures
        bucket_column(bucket_index(c, s)) == c,
        bucket_class(bucket_index(c, s)) == s,
{
    lemma_fundamental_div_mod_converse(3 * c + s, 3, c, s);
}

/// Bucket `b` of column `c` and class `s` holds combinations of `s + 1` values of column `c`.
proof fn lemma_bucket_combos(b: int)
    requires
        0 <= b < 27,
    ensures
        0 <= bucket_column(b) < 9,
        0 <= bucket_class(b) < 3,
        b == bucket_index(bucket_column(b), bucket_class(b)),
        bucket_combos(b).len() == binom(column_width(bucket_column(b)), (bucket_class(b) + 1) as nat),
        1 <= bucket_combos(b).len() <= 2048,
        forall|i: int| 0 <= i < bucket_combos(b).len() ==> {
            &&& (#[trigger] bucket_combos(b)[i]).len() == bucket_class(b) + 1
            &&& ascending_within(bucket_combos(b)[i], column_lo(bucket_column(b)), column_hi(bucket_column(b)))
        },
{
    let c = bucket_column(b);
    let k = (bucket_class(b) + 1) as nat;
    lemma_combos_len(column_lo(c), column_hi(c), k);
    lemma_combos_shape(column_lo(c), column_hi(c), k);
    lemma_binom_bounds(column_width(c), k);
    assert(crate::combination::pow2(11) == 2048) by {
        reveal_with_fuel(crate::combination::pow2, 12);
    }
}

/// Two ascending runs over adjacent ranges make one ascending run.
proof fn lemma_concat_ascending(a: Seq<u32>, b: Seq<u32>, lo: int, mid: int, hi: int)
    requires
        ascending_within(a, lo, mid),
        ascending_within(b, mid, hi),
        lo <= mid <= hi,
    ensures
        ascending_within(a + b, lo, hi),
{
    assert forall|i: int, j: int| 0 <= i < j < (a + b).len() implies (a + b)[i] < (a + b)[j] by {
        if j < a.len() {
        } else if i >= a.len() {
            assert((a + b)[i] == b[i - a.len()]);
            assert((a + b)[j] == b[j - a.len()]);
        } else {
            assert((a + b)[i] == a[i]);
            assert((a + b)[j] == b[j - a.len()]);
        }
    }
    assert forall|j: int| 0 <= j < (a + b).len() implies lo <= #[trigger] (a + b)[j] < hi by {
        if j < a.len() {
            assert((a + b)[j] == a[j]);
        } else {
            assert((a + b)[j] == b[j - a.len()]);
        }
    }
}

/// Column `c` of the next ticket comes from the bucket of column `c` and the configured size.
proof fn lemma_pick(m: GeneratorModel, c: int)
    requires
        m.wf(),
        0 <= c < 9,
    ensures
        0 <= m.bucket_of(c) < 27,
        bucket_column(m.bucket_of(c)) == c,
        bucket_class(m.bucket_of(c)) == m.config()[c],
        m.pick(c).len() == m.config()[c] + 1,
        ascending_within(m.pick(c), column_lo(c), column_hi(c)),
{
    assert(is_valid_config(m.configs[m.config_cursor as int]));
    lemma_bucket_index(c, m.config()[c] as int);
}

proof fn lemma_size_prefix(s: Seq<usize>, k: int)
    requires
        0 <= k <= s.len(),
    ensures
        size_total(s.take(k)) + (s.len() - k) <= size_total(s),
    decreases s.len(),
{
    if k < s.len() {
        assert(s.drop_last().take(k) == s.take(k));
        lemma_size_prefix(s.drop_last(), k);
    } else {
        assert(s.take(k) == s);
    }
}

proof fn lemma_ticket_prefix(m: GeneratorModel, n: nat)
    requires
        m.wf(),
        n <= 9,
    ensures
        m.ticket_prefix(n).len() == size_total(m.config().take(n as int)),
        ascending_within(m.ticket_prefix(n), 1, if n == 0 { 1 } else { column_hi(n - 1) }),
    decreases n,
{
    if n > 0 {
        lemma_ticket_prefix(m, (n - 1) as nat);
        lemma_pick(m, n - 1);
        assert(is_valid_config(m.configs[m.config_cursor as int]));
        assert(m.config().take(n as int).drop_last() == m.config().take(n - 1));
        lemma_concat_ascending(
            m.ticket_prefix((n - 1) as nat),
            m.pick(n - 1),
            1,
            column_lo(n - 1),
            column_hi(n - 1),
        );
    }
}

/// Every ticket that a generator yields has fifteen distinct numbers in 1..=90, in ascending
/// order, and the numbers of each column lie in that column's range, as many as the
/// configuration gives it.
pub proof fn lemma_ticket_valid(m: GeneratorModel)
    requires
        m.wf(),
    ensures
        valid_ticket(m.next_ticket()),
        forall|c: int| 0 <= c < 9 ==> {
            &&& (#[trigger] m.pick(c)).len() == m.config()[c] + 1
            &&& ascending_within(m.pick(c), column_lo(c), column_hi(c))
        },
        m.next_ticket() == m.ticket_prefix(8) + m.pick(8),
{
    lemma_ticket_prefix(m, 9);
    assert(is_valid_config(m.configs[m.config_cursor as int]));
    assert(m.config().take(9) == m.config());
    lemma_size_total(m.config());
    assert forall|c: int| 0 <= c < 9 implies {
        &&& (#[trigger] m.pick(c)).len() == m.config()[c] + 1
        &&& ascending_within(m.pick(c), column_lo(c), column_hi(c))
    } by {
        lemma_pick(m, c);
    }
}

/// A generator keeps its invariant from one ticket to the next.
pub proof fn lemma_advance_wf(m: GeneratorModel)
    requires
        m.wf(),
    ensures
        m.advance().wf(),
{
    let a = m.advance();
    assert forall|b: int| 0 <= b < 27 implies #[trigger] a.cursors[b] < a.buckets[b].len() by {
        lemma_bucket_combos(b);
        lemma_mod_pos_bound((m.cursors[b] + 1) as int, m.buckets[b].len() as int);
        assert(a.cursors[b] == m.next_cursor(b));
    }
}


/// The number of tickets that configuration `conf` allows over its first `n` columns: the
/// product of the sizes of the buckets it picks.
pub open spec fn config_product(conf: Seq<usize>, n: nat) -> nat
    decreases n,
{
    if n == 0 {
        1
    } else {
        config_product(conf, (n - 1) as nat) * binom(column_width(n - 1), (conf[n - 1] + 1) as nat)
    }
}

pub open spec fn product_sum(confs: Seq<Seq<usize>>) -> nat
    decreases confs.len(),
{
    if confs.len() == 0 { 0 } else { product_sum(confs.drop_last()) + config_product(confs.last(), 9) }
}

/// The largest ticket set statistic: over every configuration, the product of the sizes of the
/// buckets it picks, summed. Configurations that give the same numbers are not merged, so
/// this is an upper bound on the distinct tickets.
pub open spec fn max_ticket_count() -> nat {
    product_sum(all_configs())
}

spec fn product_bound(n: nat) -> nat
    decreases n,
{
    if n == 0 { 1 } else { product_bound((n - 1) as nat) * 2048 }
}

proof fn lemma_config_product_positive(conf: Seq<usize>, n: nat)
    requires
        is_valid_config(conf),
        n <= 9,
    ensures
        config_product(conf, n) >= 1,
    decreases n,
{
    if n > 0 {
        lemma_config_product_positive(conf, (n - 1) as nat);
        lemma_binom_bounds(column_width(n - 1), (conf[n - 1] + 1) as nat);
        let a = config_product(conf, (n - 1) as nat);
        let b = binom(column_width(n - 1), (conf[n - 1] + 1) as nat);
        assert(a * b >= 1) by (nonlinear_arith)
            requires
                a >= 1,
                b >= 1,
        ;
    }
}

proof fn lemma_product_sum_positive(confs: Seq<Seq<usize>>)
    requires
        confs.len() > 0,
        forall|j: int| 0 <= j < confs.len() ==> is_valid_config(#[trigger] confs[j]),
    ensures
        product_sum(confs) >= 1,
{
    lemma_config_product_positive(confs.last(), 9);
}

/// The largest ticket set statistic is positive; it depends on the bucket sizes alone, never
/// on a seed.
pub proof fn lemma_max_ticket_count_positive()
    ensures
        max_ticket_count() > 0,
{
    lemma_all_configs_nonempty();
    lemma_all_configs_valid();
    lemma_product_sum_positive(all_configs());
}

proof fn lemma_product_bound_mono(n: nat)
    requires
        n <= 9,
    ensures
        product_bound(n) <= product_bound(9),
        product_bound(n + 1) == product_bound(n) * 2048,
    decreases 9 - n,
{
    if n < 9 {
        lemma_product_bound_mono(n + 1);
    }
}

proof fn lemma_stream_len(g: GeneratorModel, n: nat)
    ensures
        g.stream(n).len() == n,
    decreases n,
{
    if n > 0 {
        lemma_stream_len(g, (n - 1) as nat);
    }
}

/// Two generators, whatever their seeds, hold the same configurations and the same
/// combinations in each bucket: only the order differs.
pub proof fn lemma_seed_changes_order_only(a: GeneratorModel, b: GeneratorModel)
    requires
        a.wf(),
        b.wf(),
    ensures
        a.configs.len() == b.configs.len(),
        a.configs.to_multiset() == b.configs.to_multiset(),
        forall|k: int| 0 <= k < 27 ==> (#[trigger] a.buckets[k]).to_multiset() == b.buckets[k].to_multiset(),
{
}

/// Pulling `m` tickets yields the first `m` of any longer pull.
pub proof fn lemma_stream_prefix(g: GeneratorModel, m: nat, n: nat)
    requires
        m <= n,
    ensures
        g.stream(n).take(m as int) == g.stream(m),
    decreases n,
{
    lemma_stream_len(g, n);
    if m < n {
        lemma_stream_prefix(g, m, (n - 1) as nat);
        assert(g.stream(n).take(m as int) =~= g.stream((n - 1) as nat).take(m as int));
    } else {
        assert(g.stream(n).take(m as int) =~= g.stream(n));
    }
}

/// Two generators built from the same seed yield the same tickets, for every number of pulls.
pub proof fn lemma_same_seed_same_tickets(a: GeneratorModel, b: GeneratorModel, seed: u8, n: nat)
    requires
        a == initial_model(seed),
        b == initial_model(seed),
    ensures
        a.stream(n) == b.stream(n),
{
}

/// A generator keeps its configuration list: every configuration gives fifteen numbers, and
/// the list holds each valid configuration once, whatever the seed.
pub proof fn lemma_configurations(m: GeneratorModel)
    requires
        m.wf(),
    ensures
        m.configs.len() == all_configs().len(),
        m.configs.len() == 1554,
        m.configs.to_multiset() == all_configs().to_multiset(),
        forall|j: int| 0 <= j < m.configs.len() ==> size_total(#[trigger] m.configs[j]) == 15,
{
    lemma_all_configs_count();
    assert forall|j: int| 0 <= j < m.configs.len() implies size_total(#[trigger] m.configs[j]) == 15 by {
        lemma_size_total(m.configs[j]);
    }
}

/// Ticket generator: built once from a seed, it then yields tickets for ever.
pub struct Generator {
    columns: Vec<CyclicSelector<Vec<u32>>>,
    configurations: CyclicSelector<[usize; 9]>,
}

impl View for Generator {
    type V = GeneratorModel;

    closed spec fn view(&self) -> GeneratorModel {
        GeneratorModel {
            buckets: Seq::new(self.columns@.len(), |b: int| self.columns@[b].items().map_values(|v: Vec<u32>| v@)),
            cursors: Seq::new(self.columns@.len(), |b: int| self.columns@[b].cursor()),
            configs: views_of(self.configurations.items()),
            config_cursor: self.configurations.cursor(),
        }
    }
}

impl Generator {
    pub closed spec fn wf(&self) -> bool {
        &&& self.columns@.len() == 27
        &&& forall|b: int| 0 <= b < 27 ==> (#[trigger] self.columns@[b]).wf()
        &&& self.configurations.wf()
        &&& self@.wf()
    }

    /// Builds the buckets and the configuration list, and shuffles them with one stream seeded
    /// by `seed`: for each column in order its buckets of sizes 1, 2 and 3, then the
    /// configurations.
    pub fn new(seed: u8) -> (r: Generator)
        ensures
            r.wf(),
            r@.wf(),
            r@ == initial_model(seed),
    {
        let mut rng = SeededRng::new(seed);
        let mut columns: Vec<CyclicSelector<Vec<u32>>> = Vec::new();
        let mut c: usize = 0;
        while c < COLUMNS
            invariant
                c <= 9,
                columns@.len() == 3 * c,
                rng.seed() == seed,
                rng.shuffled() == lengths_before(3 * c),
                forall|b: int| 0 <= b < columns@.len() ==> {
                    &&& (#[trigger] columns@[b]).wf()
                    &&& columns@[b].cursor() == 0
                    &&& columns@[b].items().map_values(|v: Vec<u32>| v@) == initial_model(seed).buckets[b]
                    &&& indices_below(chacha_shuffle(seed, lengths_before(b), bucket_combos(b).len()), bucket_combos(b).len())
                    &&& initial_model(seed).buckets[b].to_multiset() == bucket_combos(b).to_multiset()
                },
            decreases 9 - c,
        {
            let mut s: usize = 0;
            while s < MAX_PER_COLUMN
                invariant
                    c < 9,
                    s <= 3,
                    columns@.len() == 3 * c + s,
                    rng.seed() == seed,
                    rng.shuffled() == lengths_before(3 * c + s),
                    forall|b: int| 0 <= b < columns@.len() ==> {
                        &&& (#[trigger] columns@[b]).wf()
                        &&& columns@[b].cursor() == 0
                        &&& columns@[b].items().map_values(|v: Vec<u32>| v@) == initial_model(seed).buckets[b]
                    &&& indices_below(chacha_shuffle(seed, lengths_before(b), bucket_combos(b).len()), bucket_combos(b).len())
                    &&& initial_model(seed).buckets[b].to_multiset() == bucket_combos(b).to_multiset()
                    },
                decreases 3 - s,
            {
                let ghost b = bucket_index(c as int, s as int);
                proof {
                    lemma_bucket_index(c as int, s as int);
                    lemma_bucket_combos(b);
                }
                let mut bucket = column_combinations(c, s + 1);
                let ghost before = bucket@;
                rng.shuffle(&mut bucket);
                assert(lengths_before(b).push(bucket_combos(b).len()) == lengths_before(b + 1));
                assert(before.map_values(|v: Vec<u32>| v@) == bucket_combos(b));
                proof {
                    lemma_permute_map(before, chacha_shuffle(seed, lengths_before(b), before.len()), |v: Vec<u32>| v@);
                    lemma_multiset_map(bucket@, before, |v: Vec<u32>| v@);
                }
                assert(bucket@.map_values(|v: Vec<u32>| v@) == initial_model(seed).buckets[b]);
                columns.push(CyclicSelector::new(bucket));
                s = s + 1;
            }
            c = c + 1;
        }
        let mut configs = valid_configurations();
        let ghost before = configs@;
        rng.shuffle(&mut configs);
        proof {
            lemma_all_configs_valid();
            lemma_all_configs_nonempty();
            lemma_permute_map(before, chacha_shuffle(seed, lengths_before(27), before.len()), |a: [usize; 9]| a@);
            lemma_multiset_map(configs@, before, |a: [usize; 9]| a@);
        }
        assert(views_of(configs@) == initial_model(seed).configs);
        let r = Generator { columns, configurations: CyclicSelector::new(configs) };
        let ghost m = initial_model(seed);
        assert(r@.buckets =~= m.buckets);
        assert(r@.cursors =~= m.cursors);
        proof {
            assert forall|b: int, i: int| 0 <= b < 27 && 0 <= i < m.buckets[b].len() implies {
                &&& (#[trigger] m.buckets[b][i]).len() == bucket_class(b) + 1
                &&& ascending_within(m.buckets[b][i], column_lo(bucket_column(b)), column_hi(bucket_column(b)))
            } by {
                lemma_bucket_combos(b);
                let order = chacha_shuffle(seed, lengths_before(b), bucket_combos(b).len());
                assert(m.buckets[b][i] == bucket_combos(b)[order[i]]);
            }
            assert forall|b: int| 0 <= b < 27 implies #[trigger] m.cursors[b] < m.buckets[b].len() by {
                lemma_bucket_combos(b);
            }
            assert forall|j: int| 0 <= j < m.configs.len() implies is_valid_config(#[trigger] m.configs[j]) by {
                let order = chacha_shuffle(seed, lengths_before(27), all_configs().len());
                assert(m.configs[j] == all_configs()[order[j]]);
            }
        }
        r
    }

    /// The largest ticket set statistic, computed from this generator's bucket sizes.
    pub fn max_ticket_estimate(&self) -> (r: u128)
        requires
            self.wf(),
        ensures
            r == max_ticket_count(),
            r > 0,
    {
        let confs = valid_configurations();
        proof {
            lemma_all_configs_len();
            lemma_all_configs_valid();
            lemma_max_ticket_count_positive();
            reveal_with_fuel(product_bound, 10);
        }
        let ghost all = views_of(confs@);
        let mut sum: u128 = 0;
        let mut i: usize = 0;
        while i < confs.len()
            invariant
                self.wf(),
                all == views_of(confs@),
                all == all_configs(),
                confs@.len() <= 19683,
                forall|j: int| 0 <= j < all.len() ==> is_valid_config(#[trigger] all[j]),
                i <= confs@.len(),
                sum == product_sum(all.take(i as int)),
                sum <= i * 633825300114114700748351602688,
                product_bound(9) == 633825300114114700748351602688,
            decreases confs@.len() - i,
        {
            let conf: &[usize; 9] = &confs[i];
            assert(conf@ == all[i as int]);
            let mut mult: u128 = 1;
            let mut c: usize = 0;
            while c < COLUMNS
                invariant
                    self.wf(),
                    is_valid_config(conf@),
                    c <= 9,
                    mult == config_product(conf@, c as nat),
                    mult <= product_bound(c as nat),
                    product_bound(9) == 633825300114114700748351602688,
                decreases 9 - c,
            {
                let b: usize = 3 * c + conf[c];
                proof {
                    lemma_bucket_index(c as int, conf@[c as int] as int);
                    lemma_bucket_combos(b as int);
                    lemma_product_bound_mono(c as nat);
                }
                let len: usize = self.columns[b].len();
                assert(len == self@.buckets[b as int].len());
                let ghost old_mult = mult;
                assert(old_mult * len <= product_bound(c as nat) * 2048) by (nonlinear_arith)
                    requires
                        old_mult <= product_bound(c as nat),
                        len <= 2048,
                ;
                mult = mult * len as u128;
                c = c + 1;
            }
            assert(all.take(i as int + 1).drop_last() == all.take(i as int));
            sum = sum + mult;
            i = i + 1;
        }
        assert(all.take(i as int) == all);
        sum
    }

    /// The next ticket: the configuration list moves on once, and for each column in order
    /// the bucket that the configuration picks gives its next combination.
    pub fn generate(&mut self) -> (r: [u32; 15])
        requires
            old(self).wf(),
        ensures
            final(self).wf(),
            final(self)@.wf(),
            r@ == old(self)@.next_ticket(),
            final(self)@ == old(self)@.advance(),
            valid_ticket(r@),
    {
        let ghost m = self@;
        let conf: [usize; 9] = *self.configurations.current();
        assert(conf@ == m.config());
        proof {
            lemma_ticket_valid(m);
            lemma_advance_wf(m);
        }
        let mut ticket: [u32; 15] = [0; 15];
        let mut idx: usize = 0;
        let mut c: usize = 0;
        while c < COLUMNS
            invariant
                m == old(self)@,
                m.wf(),
                conf@ == m.config(),
                c <= 9,
                idx == m.ticket_prefix(c as nat).len(),
                ticket@.take(idx as int) == m.ticket_prefix(c as nat),
                self.configurations == old(self).configurations,
                self.columns@.len() == 27,
                forall|b: int| 0 <= b < 27 ==> {
                    &&& (#[trigger] self.columns@[b]).wf()
                    &&& self.columns@[b].items() == old(self).columns@[b].items()
                    &&& self.columns@[b].cursor() == if bucket_column(b) < c && m.config()[bucket_column(b)] == bucket_class(b) {
                        (m.cursors[b] + 1) as nat % m.buckets[b].len()
                    } else {
                        m.cursors[b]
                    }
                },
            decreases 9 - c,
        {
            proof {
                lemma_pick(m, c as int);
                lemma_ticket_prefix(m, (c + 1) as nat);
                lemma_ticket_prefix(m, 9);
                lemma_size_prefix(m.config(), c as int + 1);
                assert(m.config().take(9) == m.config());
                lemma_size_total(m.config());
            }
            let b: usize = 3 * c + conf[c];
            let comb: &Vec<u32> = self.columns[b].current();
            assert(comb@ == m.pick(c as int));
            let mut j: usize = 0;
            while j < comb.len()
                invariant
                    j <= comb@.len(),
                    comb@ == m.pick(c as int),
                    idx == m.ticket_prefix(c as nat).len() + j,
                    m.ticket_prefix(c as nat).len() + comb@.len() <= 15,
                    ticket@.take(idx as int) == m.ticket_prefix(c as nat) + comb@.take(j as int),
                decreases comb@.len() - j,
            {
                let ghost before = ticket@;
                ticket[idx] = comb[j];
                assert(ticket@.take(idx as int + 1) =~= before.take(idx as int).push(comb@[j as int]));
                assert(comb@.take(j as int + 1) =~= comb@.take(j as int).push(comb@[j as int]));
                assert((m.ticket_prefix(c as nat) + comb@.take(j as int)).push(comb@[j as int])
                    =~= m.ticket_prefix(c as nat) + comb@.take(j as int + 1));
                idx = idx + 1;
                j = j + 1;
            }
            assert(comb@.take(j as int) == comb@);
            let ghost before = self.columns@;
            self.columns[b].advance();
            proof {
                assert forall|b2: int| 0 <= b2 < 27 && b2 != b implies self.columns@[b2] == before[b2] by {}
                assert forall|b2: int| 0 <= b2 < 27 implies bucket_column(b2) == c && m.config()[bucket_column(b2)] == bucket_class(b2) ==> b2 == b by {
                    lemma_bucket_combos(b2);
                }
            }
            c = c + 1;
        }
        self.configurations.advance();
        proof {
            assert(ticket@.take(15) == ticket@);
            assert(self@.buckets =~= m.advance().buckets);
            assert forall|b: int| 0 <= b < 27 implies self@.cursors[b] == m.advance().cursors[b] by {
                lemma_bucket_combos(b);
                assert(self@.cursors[b] == self.columns@[b].cursor());
                assert(m.buckets[b].len() == old(self).columns@[b].items().len());
            }
            assert(self@.cursors =~= m.advance().cursors);
            assert(self@.configs == m.advance().configs);
        }
        ticket
    }
}

/// What a generation run yields: the statistic when it was asked for, and the tickets.
pub struct GenerationReport {
    pub max_tickets: Option<u128>,
    pub tickets: Vec<[u32; 15]>,
}

pub open spec fn ticket_views(s: Seq<[u32; 15]>) -> Seq<Seq<u32>> {
    s.map_values(|t: [u32; 15]| t@)
}

/// Builds a generator from the configured seed and pulls the configured number of tickets;
/// in verbose mode the largest ticket set statistic comes too.
pub fn run(config: &Config) -> (r: GenerationReport)
    ensures
        r.max_tickets == (if config.verbose { Some(max_ticket_count() as u128) } else { None::<u128> }),
        ticket_views(r.tickets@) == initial_model(config.seed).stream(config.size as nat),
        forall|i: int| 0 <= i < r.tickets@.len() ==> valid_ticket(#[trigger] r.tickets@[i]@),
{
    let mut generator = Generator::new(config.seed);
    let max_tickets = if config.verbose { Some(generator.max_ticket_estimate()) } else { None };
    let ghost start = generator@;
    let mut tickets: Vec<[u32; 15]> = Vec::new();
    let mut k: usize = 0;
    while k < config.size
        invariant
            start == initial_model(config.seed),
            generator.wf(),
            k <= config.size,
            generator@ == start.advanced(k as nat),
            ticket_views(tickets@) == start.stream(k as nat),
            forall|i: int| 0 <= i < tickets@.len() ==> valid_ticket(#[trigger] tickets@[i]@),
        decreases config.size - k,
    {
        let ticket = generator.generate();
        tickets.push(ticket);
        assert(ticket_views(tickets@) =~= start.stream(k as nat + 1));
        k = k + 1;
    }
    GenerationReport { max_tickets, tickets }
}

} // verus!
