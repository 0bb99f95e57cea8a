//! Tiny self-contained PRNG (xorshift64*) so dealing is reproducible.
use vstd::prelude::*;

verus! {

/// Added to the seed so that seed 0 does not start at the all-zero fixed point.
pub const SEED_MIX: u64 = 0x9E37_79B9_7F4A_7C15;

/// Output multiplier of xorshift64*.
pub const OUTPUT_MULT: u64 = 0x2545_F491_4F6C_DD1D;

/// One xorshift step of the state.
pub open spec fn xorshift(x: u64) -> u64 {
    let a = x ^ (x >> 12u64);
    let b = a ^ (a << 25u64);
    b ^ (b >> 27u64)
}

/// The output drawn from a state: the state times `OUTPUT_MULT`, modulo 2^64.
pub open spec fn scramble(x: u64) -> u64 {
    ((x as nat * OUTPUT_MULT as nat) % 0x1_0000_0000_0000_0000) as u64
}

/// Swap the items at `i` and `j`.
pub open spec fn swap_seq<T>(s: Seq<T>, i: int, j: int) -> Seq<T> {
    s.update(i, s[j]).update(j, s[i])
}

/// Fisher-Yates from position `i` down to 1, starting at state `state`:
/// the final state and the shuffled sequence.
pub open spec fn shuffle_from<T>(state: u64, s: Seq<T>, i: int) -> (u64, Seq<T>)
    decreases i,
{
    if i < 1 {
        (state, s)
    } else {
        let st = xorshift(state);
        let j = (scramble(st) % ((i + 1) as u64)) as int;
        shuffle_from(st, swap_seq(s, i, j), i - 1)
    }
}

/// The state and sequence after shuffling all of `s` from state `state`.
pub open spec fn shuffled<T>(state: u64, s: Seq<T>) -> (u64, Seq<T>) {
    shuffle_from(state, s, s.len() - 1)
}

/// Shuffling keeps the length and keeps every item that satisfies `p`
/// satisfying it, wherever it lands.
pub proof fn lemma_shuffle_keeps<T>(state: u64, s: Seq<T>, i: int, p: spec_fn(T) -> bool)
    requires
        i < s.len(),
        s.len() < 0x1_0000_0000_0000_0000,
        forall|k: int| 0 <= k < s.len() ==> #[trigger] p(s[k]),
    ensures
        shuffle_from(state, s, i).1.len() == s.len(),
        forall|k: int| 0 <= k < s.len() ==> #[trigger] p(shuffle_from(state, s, i).1[k]),
    decreases i,
{
    if i >= 1 {
        let st = xorshift(state);
        let j = (scramble(st) % ((i + 1) as u64)) as int;
        let t = swap_seq(s, i, j);
        assert forall|k: int| 0 <= k < t.len() implies #[trigger] p(t[k]) by {
            if k == j {
                assert(t[k] == s[i]);
            } else if k == i {
                assert(t[k] == s[j]);
            } else {
                assert(t[k] == s[k]);
            }
        }
        lemma_shuffle_keeps(st, t, i - 1, p);
    }
}

/// Shuffling down to position `i` leaves every position above `i` alone.
proof fn lemma_shuffle_keeps_above<T>(state: u64, s: Seq<T>, i: int, k: int)
    requires
        i < k < s.len(),
        s.len() < 0x1_0000_0000_0000_0000,
    ensures
        shuffle_from(state, s, i).1.len() == s.len(),
        shuffle_from(state, s, i).1[k] == s[k],
    decreases i,
{
    if i >= 1 {
        let st = xorshift(state);
        let j = (scramble(st) % ((i + 1) as u64)) as int;
        assert(0 <= j <= i);
        lemma_shuffle_keeps_above(st, swap_seq(s, i, j), i - 1, k);
    }
}

/// Shuffling `n >= 2` items settles the last position first: it ends up
/// holding the item at index `x % n` of the input, where `x` is the
/// generator's first output (so the last item may stay where it is), and the
/// generator has stepped once per position from the last down to 1.
pub proof fn lemma_shuffle_last<T>(state: u64, s: Seq<T>)
    requires
        2 <= s.len() < 0x1_0000_0000_0000_0000,
    ensures
        shuffled(state, s).1.len() == s.len(),
        shuffled(state, s).1[s.len() - 1] == s[(scramble(xorshift(state)) % (s.len() as u64)) as int],
        shuffled(state, s).0 == xorshift_n(state, (s.len() - 1) as nat),
{
    let n = s.len() as int;
    let st = xorshift(state);
    let j = (scramble(st) % (n as u64)) as int;
    assert(((n - 1) + 1) as u64 == n as u64);
    assert(0 <= j < n);
    let t = swap_seq(s, n - 1, j);
    assert(shuffled(state, s) == shuffle_from(st, t, n - 2));
    lemma_shuffle_keeps_above(st, t, n - 2, n - 1);
    lemma_shuffle_state(st, t, n - 2);
    assert(xorshift_n(state, (n - 1) as nat) == xorshift_n(st, (n - 2) as nat)) by {
        lemma_xorshift_n_shift(state, (n - 2) as nat);
    }
}

/// Shuffling down from position `i` steps the generator `i` times.
proof fn lemma_shuffle_state<T>(state: u64, s: Seq<T>, i: int)
    requires
        i < s.len(),
        s.len() < 0x1_0000_0000_0000_0000,
    ensures
        shuffle_from(state, s, i).0 == xorshift_n(state, (if i < 1 { 0 } else { i }) as nat),
    decreases i,
{
    if i >= 1 {
        let st = xorshift(state);
        let j = (scramble(st) % ((i + 1) as u64)) as int;
        assert(0 <= j <= i);
        assert(swap_seq(s, i, j).len() == s.len());
        lemma_shuffle_state(st, swap_seq(s, i, j), i - 1);
        lemma_xorshift_n_shift(state, (i - 1) as nat);
    }
}

/// Stepping `n + 1` times is one step followed by `n` more.
proof fn lemma_xorshift_n_shift(x: u64, n: nat)
    ensures
        xorshift_n(x, n + 1) == xorshift_n(xorshift(x), n),
    decreases n,
{
    if n > 0 {
        lemma_xorshift_n_shift(x, (n - 1) as nat);
        assert(xorshift_n(x, n + 1) == xorshift(xorshift_n(x, n)));
        assert(xorshift_n(xorshift(x), n) == xorshift(xorshift_n(xorshift(x), (n - 1) as nat)));
    } else {
        assert(xorshift_n(x, 1) == xorshift(xorshift_n(x, 0)));
    }
}

/// Swapping two items keeps the multiset of items.
pub proof fn lemma_swap_keeps_multiset<A>(s: Seq<A>, i: int, j: int)
    requires
        0 <= i < s.len(),
        0 <= j < s.len(),
    ensures
        s.update(i, s[j]).update(j, s[i]).to_multiset() == s.to_multiset(),
{
    broadcast use vstd::seq_lib::to_multiset_update;
    broadcast use vstd::multiset::group_multiset_axioms;
    broadcast use vstd::seq_lib::to_multiset_contains;

    if i != j {
        let m = s.to_multiset();
        let t = s.update(i, s[j]);
        assert(t[j] == s[j]);
        assert(t.to_multiset() == m.insert(s[j]).remove(s[i]));
        assert(t.update(j, s[i]).to_multiset() == t.to_multiset().insert(s[i]).remove(t[j]));
        assert(s.contains(s[i]));
        assert(m.count(s[i]) > 0);
        assert(m.insert(s[j]).remove(s[i]).insert(s[i]).remove(s[j]) =~= m);
    } else {
        assert(s.update(i, s[j]).update(j, s[i]) =~= s);
    }
}

/// Shuffling only rearranges: the shuffled sequence holds the same items,
/// each as often as before.
pub proof fn lemma_shuffle_permutes<T>(state: u64, s: Seq<T>, i: int)
    requires
        i < s.len(),
        s.len() < 0x1_0000_0000_0000_0000,
    ensures
        shuffle_from(state, s, i).1.to_multiset() == s.to_multiset(),
    decreases i,
{
    if i >= 1 {
        let st = xorshift(state);
        let j = (scramble(st) % ((i + 1) as u64)) as int;
        assert(0 <= j <= i);
        lemma_swap_keeps_multiset(s, i, j);
        assert(swap_seq(s, i, j).len() == s.len());
        lemma_shuffle_permutes(st, swap_seq(s, i, j), i - 1);
    }
}

/// A xorshift step sends the zero state to itself and every other state to a
/// nonzero one.
pub proof fn lemma_xorshift_zero(x: u64)
    ensures
        (xorshift(x) == 0) == (x == 0),
{
    assert(x != 0 ==> x ^ (x >> 12u64) != 0) by (bit_vector);
    let a = x ^ (x >> 12u64);
    assert(a != 0 ==> a ^ (a << 25u64) != 0) by (bit_vector);
    let b = a ^ (a << 25u64);
    assert(b != 0 ==> b ^ (b >> 27u64) != 0) by (bit_vector);
    assert(x == 0 ==> xorshift(x) == 0) by (bit_vector);
}

/// The output multiplier is odd, so an output is zero exactly when the state
/// it is drawn from is.
pub proof fn lemma_scramble_zero(x: u64)
    ensures
        (scramble(x) == 0) == (x == 0),
{
    // 0x5907_1d96_d81e_cd35 is the inverse of `OUTPUT_MULT` modulo 2^64.
    assert((((x * 0x2545_F491_4F6C_DD1Du64) % 0x1_0000_0000_0000_0000) * 0x5907_1d96_d81e_cd35u64) % 0x1_0000_0000_0000_0000 == x) by (bit_vector);
}

/// The state after `n` xorshift steps from `x`.
pub open spec fn xorshift_n(x: u64, n: nat) -> u64
    decreases n,
{
    if n == 0 {
        x
    } else {
        xorshift(xorshift_n(x, (n - 1) as nat))
    }
}

proof fn lemma_xorshift_n_zero(x: u64, n: nat)
    ensures
        (xorshift_n(x, n) == 0) == (x == 0),
    decreases n,
{
    if n > 0 {
        lemma_xorshift_n_zero(x, (n - 1) as nat);
        lemma_xorshift_zero(xorshift_n(x, (n - 1) as nat));
    }
}

/// A generator made by `Rng::new(seed)` hands out, as its `n`th output
/// (counting from 1), `scramble(xorshift_n(seed ^ SEED_MIX, n))`. Every such
/// output is zero when `seed` is `SEED_MIX`, and none is zero otherwise.
pub proof fn lemma_outputs_nonzero(seed: u64, n: nat)
    requires
        n >= 1,
    ensures
        (scramble(xorshift_n(seed ^ SEED_MIX, n)) == 0) == (seed == SEED_MIX),
{
    assert(((seed ^ 0x9E37_79B9_7F4A_7C15u64) == 0) == (seed == 0x9E37_79B9_7F4A_7C15u64)) by (bit_vector);
    lemma_xorshift_n_zero(seed ^ SEED_MIX, n);
    lemma_scramble_zero(xorshift_n(seed ^ SEED_MIX, n));
}

/// Swap two items of a slice by calling `<[T]>::swap`. Trusted: the contract
/// claims that afterwards the slice is the old one with the items at `i` and
/// `j` exchanged (and unchanged when `i == j`), as std documents; `swap`
/// panics when an index is out of bounds, which `requires` rules out.
#[verifier::external_body]
fn swap_items<T>(slice: &mut [T], i: usize, j: usize)
    requires
        i < old(slice)@.len(),
        j < old(slice)@.len(),
    ensures
        final(slice)@ == swap_seq(old(slice)@, i as int, j as int),
{
    slice.swap(i, j)
}

/// A xorshift64* generator.
pub struct Rng(u64);

impl Rng {
    /// The generator's current state.
    pub closed spec fn state(&self) -> u64 {
        self.0
    }

    /// A generator seeded with `seed`.
    pub fn new(seed: u64) -> (r: Self)
        ensures
            r.state() == seed ^ SEED_MIX,
    {
        Rng(seed ^ SEED_MIX)
    }

    /// Advance the state and return the next output.
    pub fn next_u64(&mut self) -> (x: u64)
        ensures
            final(self).state() == xorshift(old(self).state()),
            x == scramble(final(self).state()),
    {
        let mut x = self.0;
        x ^= x >> 12;
        x ^= x << 25;
        x ^= x >> 27;
        self.0 = x;
        proof {
            assert(scramble(x) == vstd::wrapping::u64_specs::wrapping_mul(x, OUTPUT_MULT));
        }
        x.wrapping_mul(OUTPUT_MULT)
    }

    /// Uniform-ish integer in `0..n`.
    pub fn below(&mut self, n: usize) -> (r: usize)
        requires
            n > 0,
        ensures
            final(self).state() == xorshift(old(self).state()),
            r == scramble(final(self).state()) % (n as u64),
            r < n,
    {
        (self.next_u64() % n as u64) as usize
    }

    /// In-place Fisher-Yates shuffle.
    pub fn shuffle<T>(&mut self, slice: &mut [T])
        ensures
            (final(self).state(), final(slice)@) == shuffled(old(self).state(), old(slice)@),
    {
        broadcast use vstd::slice::group_slice_axioms;

        let len = slice.len();
        let mut i = len;
        while i > 1
            invariant
                i <= len,
                1 <= len ==> 1 <= i,
                len == slice@.len(),
                shuffled(old(self).state(), old(slice)@) == shuffle_from(self.state(), slice@, i - 1),
            decreases i,
        {
            let ii = i - 1;
            let j = self.below(ii + 1);
            swap_items(&mut *slice, ii, j);
            i = ii;
        }
    }
}

} // verus!
