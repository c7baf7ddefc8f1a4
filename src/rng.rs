//! The seeded pseudo-random stream and the shuffles drawn from it.
use vstd::prelude::*;
use rand::seq::SliceRandom;
use rand::SeedableRng;
use rand_chacha::ChaCha20Rng;

verus! {

#[verifier::external_type_specification]
#[verifier::external_body]
pub struct ExChaCha20Rng(ChaCha20Rng);

/// The order in which a shuffle of `len` items leaves them, as the index that each position
/// takes its item from, when the stream was seeded with `seed` and has already shuffled
/// lists of the lengths in `earlier`, in that order.
pub uninterp spec fn chacha_shuffle(seed: u8, earlier: Seq<nat>, len: nat) -> Seq<int>;

/// The items of `s` taken in the order of the indices in `order`.
pub open spec fn permute<A>(s: Seq<A>, order: Seq<int>) -> Seq<A> {
    Seq::new(s.len(), |i: int| s[order[i]])
}

/// Each of the first `len` entries of `order` is an index below `len`.
pub open spec fn indices_below(order: Seq<int>, len: nat) -> bool {
    forall|i: int| 0 <= i < len ==> 0 <= #[trigger] order[i] < len
}

/// `t` is `s` taken in the order of `order`, which picks only indices of `s`.
pub open spec fn reordered<A>(s: Seq<A>, t: Seq<A>, order: Seq<int>) -> bool {
    &&& indices_below(order, s.len())
    &&& t == permute(s, order)
}

/// Reordering commutes with mapping each item.
pub proof fn lemma_permute_map<A, B>(s: Seq<A>, order: Seq<int>, f: spec_fn(A) -> B)
    requires
        indices_below(order, s.len()),
    ensures
        permute(s, order).map_values(f) == permute(s.map_values(f), order),
{
    assert(permute(s, order).map_values(f) =~= permute(s.map_values(f), order));
}

/// Two lists with the same items keep the same items when each is mapped.
pub proof fn lemma_multiset_map<A, B>(a: Seq<A>, b: Seq<A>, f: spec_fn(A) -> B)
    requires
        a.to_multiset() == b.to_multiset(),
    ensures
        a.map_values(f).to_multiset() == b.map_values(f).to_multiset(),
    decreases a.len(),
{
    broadcast use vstd::seq_lib::group_to_multiset_ensures;
    if a.len() == 0 {
        assert(a.to_multiset().len() == 0);
        assert(b.to_multiset().len() == b.len());
        assert(a.map_values(f) =~= b.map_values(f));
    } else {
        let x = a.last();
        let a1 = a.drop_last();
        assert(a == a1.push(x));
        assert(b.to_multiset().count(x) > 0);
        assert(b.contains(x));
        let i = choose|i: int| 0 <= i < b.len() && b[i] == x;
        let b1 = b.remove(i);
        assert(b1.to_multiset() =~= a1.to_multiset());
        lemma_multiset_map(a1, b1, f);
        assert(a.map_values(f) =~= a1.map_values(f).push(f(x)));
        let bm = b.map_values(f);
        assert(bm.remove(i) =~= b1.map_values(f));
        assert(bm[i] == f(x));
        assert(bm.remove(i).to_multiset() == bm.to_multiset().remove(f(x)));
        assert(bm.to_multiset() =~= b1.map_values(f).to_multiset().insert(f(x)));
    }
}

/// A ChaCha20 stream built from one seed byte, used for nothing but shuffles.
///
/// Besides the stream it records, for proofs only, its seed and the lengths of the lists that
/// it has shuffled so far: that is all that the next shuffle depends on.
pub struct SeededRng {
    rng: ChaCha20Rng,
    seed: Ghost<u8>,
    shuffled: Ghost<Seq<nat>>,
}

impl SeededRng {
    pub closed spec fn seed(&self) -> u8 {
        self.seed@
    }

    /// The lengths of the lists shuffled so far, oldest first.
    pub closed spec fn shuffled(&self) -> Seq<nat> {
        self.shuffled@
    }

    /// Relies on `SeedableRng::from_seed` of `ChaCha20Rng`, with the seed byte repeated over
    /// the 32 bytes of the key: a fresh stream that depends on the seed alone.
    #[verifier::external_body]
    pub fn new(seed: u8) -> (r: SeededRng)
        ensures
            r.seed() == seed,
            r.shuffled() == Seq::<nat>::empty(),
    {
        SeededRng {
            rng: ChaCha20Rng::from_seed([seed; 32]),
            seed: Ghost(seed),
            shuffled: Ghost(Seq::empty()),
        }
    }

    /// Relies on `SliceRandom::shuffle`: it permutes the items in place, and which
    /// permutation it picks depends on the list's length and the stream's state alone.
    #[verifier::external_body]
    pub fn shuffle<T>(&mut self, v: &mut Vec<T>)
        ensures
            final(v)@.to_multiset() == old(v)@.to_multiset(),
            reordered(old(v)@, final(v)@, chacha_shuffle(old(self).seed(), old(self).shuffled(), old(v)@.len())),
            final(self).seed() == old(self).seed(),
            final(self).shuffled() == old(self).shuffled().push(old(v)@.len()),
    {
        v.shuffle(&mut self.rng);
    }
}

} // verus!
