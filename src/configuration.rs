//! The size-configurations of a ticket: how many values each column gives.
use vstd::prelude::*;
use crate::combination::COLUMNS;

verus! {

/// Sum of the size classes of a configuration (class `s` means `s + 1` values).
pub open spec fn class_sum(s: Seq<usize>) -> int
    decreases s.len(),
{
    if s.len() == 0 { 0 } else { class_sum(s.drop_last()) + s.last() }
}

/// A configuration: one size class in {0, 1, 2} per column, the classes summing to 6, so that
/// the column sizes sum to 15.
pub open spec fn is_valid_config(s: Seq<usize>) -> bool {
    &&& s.len() == 9
    &&& forall|i: int| 0 <= i < 9 ==> #[trigger] s[i] < 3
    &&& class_sum(s) == 6
}

/// Sum of the column sizes of a configuration.
pub open spec fn size_total(s: Seq<usize>) -> int
    decreases s.len(),
{
    if s.len() == 0 { 0 } else { size_total(s.drop_last()) + s.last() + 1 }
}

/// The valid configurations that extend `prefix`, in lexicographic order.
pub open spec fn configs_from(prefix: Seq<usize>) -> Seq<Seq<usize>>
    decreases 9 - prefix.len(),
{
    if prefix.len() >= 9 {
        if class_sum(prefix) == 6 { seq![prefix] } else { Seq::empty() }
    } else {
        configs_from(prefix.push(0)) + configs_from(prefix.push(1)) + configs_from(prefix.push(2))
    }
}

/// Every valid configuration, in lexicographic order; it depends on nothing.
pub open spec fn all_configs() -> Seq<Seq<usize>> {
    configs_from(Seq::empty())
}

pub proof fn lemma_size_total(s: Seq<usize>)
    ensures
        size_total(s) == class_sum(s) + s.len(),
    decreases s.len(),
{
    if s.len() > 0 {
        lemma_size_total(s.drop_last());
    }
}

proof fn lemma_configs_from_valid(prefix: Seq<usize>)
    requires
        prefix.len() <= 9,
        forall|i: int| 0 <= i < prefix.len() ==> #[trigger] prefix[i] < 3,
    ensures
        forall|j: int| 0 <= j < configs_from(prefix).len() ==> is_valid_config(#[trigger] configs_from(prefix)[j]),
    decreases 9 - prefix.len(),
{
    if prefix.len() < 9 {
        let p0 = prefix.push(0);
        let p1 = prefix.push(1);
        let p2 = prefix.push(2);
        assert(forall|i: int| 0 <= i < p0.len() ==> #[trigger] p0[i] < 3);
        assert(forall|i: int| 0 <= i < p1.len() ==> #[trigger] p1[i] < 3);
        assert(forall|i: int| 0 <= i < p2.len() ==> #[trigger] p2[i] < 3);
        lemma_configs_from_valid(p0);
        lemma_configs_from_valid(p1);
        lemma_configs_from_valid(p2);
        let a = configs_from(p0);
        let b = configs_from(p1);
        let c = configs_from(p2);
        assert forall|j: int| 0 <= j < configs_from(prefix).len() implies is_valid_config(#[trigger] configs_from(prefix)[j]) by {
            if j < a.len() {
                assert(configs_from(prefix)[j] == a[j]);
            } else if j < a.len() + b.len() {
                assert(configs_from(prefix)[j] == b[j - a.len()]);
            } else {
                assert(configs_from(prefix)[j] == c[j - a.len() - b.len()]);
            }
        }
    }
}

proof fn lemma_configs_from_nonempty(prefix: Seq<usize>)
    requires
        prefix.len() <= 9,
        class_sum(prefix) <= 6,
        class_sum(prefix) + 2 * (9 - prefix.len()) >= 6,
    ensures
        configs_from(prefix).len() > 0,
    decreases 9 - prefix.len(),
{
    if prefix.len() < 9 {
        let d: usize = if class_sum(prefix) <= 4 { 2 } else { (6 - class_sum(prefix)) as usize };
        let next = prefix.push(d);
        assert(next.drop_last() == prefix);
        lemma_configs_from_nonempty(next);
    }
}

pub open spec fn pow3(n: nat) -> nat
    decreases n,
{
    if n == 0 { 1 } else { 3 * pow3((n - 1) as nat) }
}

proof fn lemma_configs_from_len(prefix: Seq<usize>)
    requires
        prefix.len() <= 9,
    ensures
        configs_from(prefix).len() <= pow3((9 - prefix.len()) as nat),
    decreases 9 - prefix.len(),
{
    if prefix.len() < 9 {
        lemma_configs_from_len(prefix.push(0));
        lemma_configs_from_len(prefix.push(1));
        lemma_configs_from_len(prefix.push(2));
    }
}

/// There are at most 3^9 configurations.
pub proof fn lemma_all_configs_len()
    ensures
        all_configs().len() <= 19683,
{
    lemma_configs_from_len(Seq::empty());
    reveal_with_fuel(pow3, 10);
}

/// The number of tuples of `n` size classes, each in {0, 1, 2}, that sum to `s`.
pub open spec fn tuple_count(n: nat, s: int) -> nat
    decreases n,
{
    if s < 0 {
        0
    } else if n == 0 {
        if s == 0 { 1 } else { 0 }
    } else {
        tuple_count((n - 1) as nat, s) + tuple_count((n - 1) as nat, s - 1) + tuple_count((n - 1) as nat, s - 2)
    }
}

proof fn lemma_configs_from_count(prefix: Seq<usize>)
    requires
        prefix.len() <= 9,
        forall|i: int| 0 <= i < prefix.len() ==> #[trigger] prefix[i] < 3,
    ensures
        configs_from(prefix).len() == tuple_count((9 - prefix.len()) as nat, 6 - class_sum(prefix)),
    decreases 9 - prefix.len(),
{
    lemma_class_sum_nonneg(prefix);
    if prefix.len() < 9 {
        let p0 = prefix.push(0);
        let p1 = prefix.push(1);
        let p2 = prefix.push(2);
        assert(p0.drop_last() == prefix && p1.drop_last() == prefix && p2.drop_last() == prefix);
        assert(forall|i: int| 0 <= i < p0.len() ==> #[trigger] p0[i] < 3);
        assert(forall|i: int| 0 <= i < p1.len() ==> #[trigger] p1[i] < 3);
        assert(forall|i: int| 0 <= i < p2.len() ==> #[trigger] p2[i] < 3);
        lemma_configs_from_count(p0);
        lemma_configs_from_count(p1);
        lemma_configs_from_count(p2);
    }
}

proof fn lemma_class_sum_nonneg(s: Seq<usize>)
    ensures
        class_sum(s) >= 0,
    decreases s.len(),
{
    if s.len() > 0 {
        lemma_class_sum_nonneg(s.drop_last());
    }
}

/// There are exactly 1554 valid configurations.
pub proof fn lemma_all_configs_count()
    ensures
        all_configs().len() == 1554,
{
    lemma_configs_from_count(Seq::empty());
    assert(tuple_count(0, -1) == 0);
    assert(tuple_count(0, -2) == 0);
    assert(tuple_count(1, -1) == 0);
    assert(tuple_count(1, -2) == 0);
    assert(tuple_count(2, -1) == 0);
    assert(tuple_count(2, -2) == 0);
    assert(tuple_count(3, -1) == 0);
    assert(tuple_count(3, -2) == 0);
    assert(tuple_count(4, -1) == 0);
    assert(tuple_count(4, -2) == 0);
    assert(tuple_count(5, -1) == 0);
    assert(tuple_count(5, -2) == 0);
    assert(tuple_count(6, -1) == 0);
    assert(tuple_count(6, -2) == 0);
    assert(tuple_count(7, -1) == 0);
    assert(tuple_count(7, -2) == 0);
    assert(tuple_count(8, -1) == 0);
    assert(tuple_count(8, -2) == 0);
    assert(tuple_count(0, 0) == 1);
    assert(tuple_count(0, 1) == 0);
    assert(tuple_count(0, 2) == 0);
    assert(tuple_count(0, 3) == 0);
    assert(tuple_count(0, 4) == 0);
    assert(tuple_count(0, 5) == 0);
    assert(tuple_count(0, 6) == 0);
    assert(tuple_count(1, 0) == 1);
    assert(tuple_count(1, 1) == 1);
    assert(tuple_count(1, 2) == 1);
    assert(tuple_count(1, 3) == 0);
    assert(tuple_count(1, 4) == 0);
    assert(tuple_count(1, 5) == 0);
    assert(tuple_count(1, 6) == 0);
    assert(tuple_count(2, 0) == 1);
    assert(tuple_count(2, 1) == 2);
    assert(tuple_count(2, 2) == 3);
    assert(tuple_count(2, 3) == 2);
    assert(tuple_count(2, 4) == 1);
    assert(tuple_count(2, 5) == 0);
    assert(tuple_count(2, 6) == 0);
    assert(tuple_count(3, 0) == 1);
    assert(tuple_count(3, 1) == 3);
    assert(tuple_count(3, 2) == 6);
    assert(tuple_count(3, 3) == 7);
    assert(tuple_count(3, 4) == 6);
    assert(tuple_count(3, 5) == 3);
    assert(tuple_count(3, 6) == 1);
    assert(tuple_count(4, 0) == 1);
    assert(tuple_count(4, 1) == 4);
    assert(tuple_count(4, 2) == 10);
    assert(tuple_count(4, 3) == 16);
    assert(tuple_count(4, 4) == 19);
    assert(tuple_count(4, 5) == 16);
    assert(tuple_count(4, 6) == 10);
    assert(tuple_count(5, 0) == 1);
    assert(tuple_count(5, 1) == 5);
    assert(tuple_count(5, 2) == 15);
    assert(tuple_count(5, 3) == 30);
    assert(tuple_count(5, 4) == 45);
    assert(tuple_count(5, 5) == 51);
    assert(tuple_count(5, 6) == 45);
    assert(tuple_count(6, 0) == 1);
    assert(tuple_count(6, 1) == 6);
    assert(tuple_count(6, 2) == 21);
    assert(tuple_count(6, 3) == 50);
    assert(tuple_count(6, 4) == 90);
    assert(tuple_count(6, 5) == 126);
    assert(tuple_count(6, 6) == 141);
    assert(tuple_count(7, 0) == 1);
    assert(tuple_count(7, 1) == 7);
    assert(tuple_count(7, 2) == 28);
    assert(tuple_count(7, 3) == 77);
    assert(tuple_count(7, 4) == 161);
    assert(tuple_count(7, 5) == 266);
    assert(tuple_count(7, 6) == 357);
    assert(tuple_count(8, 0) == 1);
    assert(tuple_count(8, 1) == 8);
    assert(tuple_count(8, 2) == 36);
    assert(tuple_count(8, 3) == 112);
    assert(tuple_count(8, 4) == 266);
    assert(tuple_count(8, 5) == 504);
    assert(tuple_count(8, 6) == 784);
    assert(tuple_count(9, 0) == 1);
    assert(tuple_count(9, 1) == 9);
    assert(tuple_count(9, 2) == 45);
    assert(tuple_count(9, 3) == 156);
    assert(tuple_count(9, 4) == 414);
    assert(tuple_count(9, 5) == 882);
    assert(tuple_count(9, 6) == 1554);
}

/// There is at least one valid configuration.
pub proof fn lemma_all_configs_nonempty()
    ensures
        all_configs().len() > 0,
{
    lemma_configs_from_nonempty(Seq::empty());
}

/// Every configuration of the list is valid: one to three values per column, fifteen in all.
pub proof fn lemma_all_configs_valid()
    ensures
        forall|j: int| 0 <= j < all_configs().len() ==> is_valid_config(#[trigger] all_configs()[j]),
        forall|j: int| 0 <= j < all_configs().len() ==> size_total(#[trigger] all_configs()[j]) == 15,
{
    lemma_configs_from_valid(Seq::empty());
    assert forall|j: int| 0 <= j < all_configs().len() implies size_total(#[trigger] all_configs()[j]) == 15 by {
        lemma_size_total(all_configs()[j]);
    }
}

fn class_sum_exec(a: &[usize; 9]) -> (r: usize)
    requires
        forall|i: int| 0 <= i < 9 ==> #[trigger] a@[i] < 3,
    ensures
        r == class_sum(a@),
{
    let mut s: usize = 0;
    let mut i: usize = 0;
    while i < COLUMNS
        invariant
            i <= 9,
            forall|j: int| 0 <= j < 9 ==> #[trigger] a@[j] < 3,
            s == class_sum(a@.take(i as int)),
            s <= 2 * i,
        decreases 9 - i,
    {
        assert(a@.take(i as int + 1).drop_last() == a@.take(i as int));
        s = s + a[i];
        i = i + 1;
    }
    assert(a@.take(9) == a@);
    s
}

pub open spec fn views_of(s: Seq<[usize; 9]>) -> Seq<Seq<usize>> {
    s.map_values(|a: [usize; 9]| a@)
}

fn collect_configs(prefix: &mut [usize; 9], depth: usize, out: &mut Vec<[usize; 9]>)
    requires
        depth <= 9,
        forall|i: int| 0 <= i < depth ==> #[trigger] old(prefix)@[i] < 3,
    ensures
        views_of(final(out)@) == views_of(old(out)@) + configs_from(old(prefix)@.take(depth as int)),
        final(prefix)@.take(depth as int) == old(prefix)@.take(depth as int),
    decreases 9 - depth,
{
    if depth == COLUMNS {
        assert(old(prefix)@.take(9) == old(prefix)@);
        if class_sum_exec(prefix) == 6 {
            out.push(*prefix);
            assert(views_of(out@) == views_of(old(out)@).push(prefix@));
        } else {
            assert(views_of(out@) == views_of(old(out)@) + Seq::<Seq<usize>>::empty());
        }
    } else {
        let ghost p = old(prefix)@.take(depth as int);
        let ghost start = views_of(out@);
        prefix[depth] = 0;
        assert(prefix@.take(depth + 1) == p.push(0));
        assert(forall|i: int| 0 <= i < depth + 1 ==> #[trigger] prefix@[i] == p.push(0)[i]);
        collect_configs(prefix, depth + 1, out);
        assert(prefix@.take(depth as int) == prefix@.take(depth + 1).take(depth as int));
        assert(p.push(0).take(depth as int) == p);
        prefix[depth] = 1;
        assert(prefix@.take(depth + 1) == p.push(1));
        assert(forall|i: int| 0 <= i < depth + 1 ==> #[trigger] prefix@[i] == p.push(1)[i]);
        collect_configs(prefix, depth + 1, out);
        assert(prefix@.take(depth as int) == prefix@.take(depth + 1).take(depth as int));
        assert(p.push(1).take(depth as int) == p);
        prefix[depth] = 2;
        assert(prefix@.take(depth + 1) == p.push(2));
        assert(forall|i: int| 0 <= i < depth + 1 ==> #[trigger] prefix@[i] == p.push(2)[i]);
        collect_configs(prefix, depth + 1, out);
        assert(prefix@.take(depth as int) == prefix@.take(depth + 1).take(depth as int));
        assert(p.push(2).take(depth as int) == p);
        assert(views_of(out@) == start + configs_from(p));
    }
}

/// Every valid configuration, in lexicographic order (the first column varies slowest).
pub fn valid_configurations() -> (r: Vec<[usize; 9]>)
    ensures
        views_of(r@) == all_configs(),
{
    let mut prefix: [usize; 9] = [0; 9];
    let mut out: Vec<[usize; 9]> = Vec::new();
    collect_configs(&mut prefix, 0, &mut out);
    assert(prefix@.take(0) == Seq::<usize>::empty());
    assert(views_of(Seq::<[usize; 9]>::empty()) == Seq::<Seq<usize>>::empty());
    out
}

} // verus!
