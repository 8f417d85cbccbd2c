//! A pseudorandom secret-number generator with a sliding window over the last
//! four price changes.

use std::collections::HashMap;
use std::collections::VecDeque;
use vstd::prelude::*;

verus! {

/// The modulus that keeps a secret within 24 bits.
pub const PRUNE_MODULUS: u64 = 16777216;

/// One shift-xor-mask substep with a left shift: `(s ^ (s << k)) & 0xffffff`.
pub open spec fn mix_shl(s: u64, k: u64) -> u64 {
    (s ^ (s << k)) & 0xffffff
}

/// One shift-xor-mask substep with a right shift: `(s ^ (s >> k)) & 0xffffff`.
pub open spec fn mix_shr(s: u64, k: u64) -> u64 {
    (s ^ (s >> k)) & 0xffffff
}

/// The secret that follows `s`: three shift-xor-mask substeps in a row.
pub open spec fn next_secret(s: u64) -> u64 {
    mix_shl(mix_shr(mix_shl(s, 6), 5), 11)
}

/// The secret after `n` evolutions of `s`.
pub open spec fn nth_secret(s: u64, n: nat) -> u64
    decreases n,
{
    if n == 0 {
        s
    } else {
        next_secret(nth_secret(s, (n - 1) as nat))
    }
}

/// The difference between the last decimal digits of two secrets.
pub open spec fn price_change(prev: u64, next: u64) -> int {
    (next % 10) as int - (prev % 10) as int
}

/// What a window holds after `value` is pushed: the value is appended, and
/// the oldest entry leaves once more than four are held.
pub open spec fn window_after_push(window: Seq<i8>, value: i8) -> Seq<i8> {
    let grown = window.push(value);
    if grown.len() > 4 {
        grown.drop_first()
    } else {
        grown
    }
}

/// The low eight bits of a change, as an unsigned value.
pub open spec fn byte_of(value: i8) -> u32 {
    (value as u32) & 0xff
}

/// Four changes packed into one word, the oldest in the highest byte.
pub open spec fn pack(window: Seq<i8>) -> u32
    recommends
        window.len() >= 4,
{
    (byte_of(window[0]) << 24) | (byte_of(window[1]) << 16) | (byte_of(window[2]) << 8) | byte_of(
        window[3],
    )
}

/// The four changes that a packed word holds, the highest byte first.
pub open spec fn unpack(value: u32) -> Seq<i8> {
    seq![
        ((value >> 24) & 0xff) as i8,
        ((value >> 16) & 0xff) as i8,
        ((value >> 8) & 0xff) as i8,
        (value & 0xff) as i8,
    ]
}

/// Packing the four changes that a word unpacks into gives the word back.
pub proof fn lemma_pack_unpack(value: u32)
    ensures
        pack(unpack(value)) == value,
{
    let a = ((value >> 24) & 0xff) as i8;
    let b = ((value >> 16) & 0xff) as i8;
    let c = ((value >> 8) & 0xff) as i8;
    let d = (value & 0xff) as i8;
    assert(unpack(value)[0] == a && unpack(value)[1] == b && unpack(value)[2] == c && unpack(value)[3] == d);
    assert((((((value >> 24) & 0xff) as i8) as u32) & 0xff) << 24 | (((((value >> 16) & 0xff) as i8) as u32) & 0xff)
        << 16 | (((((value >> 8) & 0xff) as i8) as u32) & 0xff) << 8 | ((((value & 0xff) as i8) as u32) & 0xff)
        == value) by (bit_vector);
}

/// Unpacking the word that four changes pack into gives the changes back.
pub proof fn lemma_unpack_pack(window: Seq<i8>)
    requires
        window.len() == 4,
    ensures
        unpack(pack(window)) == window,
{
    let a = window[0];
    let b = window[1];
    let c = window[2];
    let d = window[3];
    let word = (((a as u32) & 0xff) << 24) | (((b as u32) & 0xff) << 16) | (((c as u32) & 0xff) << 8) | ((d as u32)
        & 0xff);
    assert(pack(window) == word);
    assert(((word >> 24) & 0xff) as i8 == a && ((word >> 16) & 0xff) as i8 == b && ((word >> 8) & 0xff) as i8 == c
        && (word & 0xff) as i8 == d) by (bit_vector)
        requires
            word == (((a as u32) & 0xff) << 24) | (((b as u32) & 0xff) << 16) | (((c as u32) & 0xff) << 8) | ((
            d as u32) & 0xff),
    ;
    assert(unpack(word) =~= window);
}

/// A sliding window over the most recent price changes.
#[derive(Debug)]
pub struct Changes {
    pub inner: VecDeque<i8>,
}

impl Changes {
    /// A window that holds no changes yet.
    pub fn new() -> (res: Self)
        ensures
            res.inner@ == Seq::<i8>::empty(),
    {
        Self { inner: VecDeque::new() }
    }

    /// Pushes a change: see `window_after_push`.
    pub fn push(&mut self, value: i8)
        ensures
            final(self).inner@ == window_after_push(old(self).inner@, value),
    {
        self.inner.push_back(value);
        if self.inner.len() > 4 {
            let _ = self.inner.pop_front();
        }
    }

    /// The four changes of a full window packed into one word: see `pack`.
    pub fn packed(&self) -> (res: Option<u32>)
        ensures
            self.inner@.len() < 4 ==> res is None,
            self.inner@.len() >= 4 ==> res == Some(pack(self.inner@)),
    {
        if self.inner.len() < 4 {
            None
        } else {
            Some(
                (((self.inner[0] as u32) & 0xff) << 24) | (((self.inner[1] as u32) & 0xff) << 16)
                    | (((self.inner[2] as u32) & 0xff) << 8) | ((self.inner[3] as u32) & 0xff),
            )
        }
    }
}

impl From<u32> for Changes {
    /// Unpacks a word into the four changes it holds.
    fn from(value: u32) -> (res: Self)
        ensures
            res.inner@ == unpack(value),
    {
        let mut inner: VecDeque<i8> = VecDeque::new();
        let mut value = value;
        let ghost start = value;
        let mut i: usize = 0;
        while i < 4
            invariant
                i <= 4,
                i == 0 ==> value == start && inner@ == Seq::<i8>::empty(),
                i == 1 ==> value == start >> 8 && inner@ == seq![(start & 0xff) as i8],
                i == 2 ==> value == (start >> 8) >> 8 && inner@ == seq![
                    ((start >> 8) & 0xff) as i8,
                    (start & 0xff) as i8,
                ],
                i == 3 ==> value == ((start >> 8) >> 8) >> 8 && inner@ == seq![
                    (((start >> 8) >> 8) & 0xff) as i8,
                    ((start >> 8) & 0xff) as i8,
                    (start & 0xff) as i8,
                ],
                i == 4 ==> inner@ == seq![
                    ((((start >> 8) >> 8) >> 8) & 0xff) as i8,
                    (((start >> 8) >> 8) & 0xff) as i8,
                    ((start >> 8) & 0xff) as i8,
                    (start & 0xff) as i8,
                ],
            decreases 4 - i,
        {
            let ghost before = inner@;
            inner.push_front((value & 0xff) as i8);
            assert(inner@ =~= seq![(value & 0xff) as i8] + before);
            value = value >> 8;
            i += 1;
        }
        assert((start >> 8) >> 8 == start >> 16) by (bit_vector);
        assert(((start >> 8) >> 8) >> 8 == start >> 24) by (bit_vector);
        assert(inner@ =~= unpack(start));
        Self { inner }
    }
}

impl vstd::std_specs::convert::FromSpecImpl<u32> for Changes {
    /// A window is known by its contents alone, which `from` states itself.
    open spec fn obeys_from_spec() -> bool {
        false
    }

    open spec fn from_spec(value: u32) -> Self {
        arbitrary()
    }
}

/// The generator: the current secret and the window of recent changes.
pub struct Prng {
    pub secret: u64,
    pub changes: Changes,
}

impl Prng {
    /// A generator that starts from `seed`.
    pub fn from(seed: u64) -> (res: Self)
        ensures
            res.secret == seed,
            res.changes.inner@ == Seq::<i8>::empty(),
    {
        Self { secret: seed, changes: Changes::new() }
    }

    /// Mixes `value` into the secret by bitwise exclusive or.
    pub fn mix(&mut self, value: u64)
        ensures
            final(self).secret == old(self).secret ^ value,
            final(self).changes == old(self).changes,
    {
        self.secret = self.secret ^ value;
    }

    /// Prunes the secret to its low 24 bits.
    pub fn prune(&mut self)
        ensures
            final(self).secret == old(self).secret % PRUNE_MODULUS,
            final(self).secret == old(self).secret & 0xffffff,
            final(self).secret < PRUNE_MODULUS,
            final(self).changes == old(self).changes,
    {
        let s = self.secret;
        assert(s % 16777216 == s & 0xffffff) by (bit_vector);
        self.secret = self.secret % PRUNE_MODULUS;
    }

    /// Advances the generator by one step and records the price change.
    pub fn evolve(&mut self)
        ensures
            final(self).secret == next_secret(old(self).secret),
            final(self).secret < PRUNE_MODULUS,
            final(self).changes.inner@ == window_after_push(
                old(self).changes.inner@,
                price_change(old(self).secret, final(self).secret) as i8,
            ),
    {
        let prev = self.secret;

        self.mix(self.secret << 6);
        self.prune();
        let ghost first = self.secret;
        assert(first == mix_shl(prev, 6));

        let quotient = self.secret / 32;
        assert(quotient == first >> 5) by (bit_vector)
            requires
                quotient == first / 32,
        ;
        self.mix(quotient);
        self.prune();
        let ghost second = self.secret;
        assert(second == mix_shr(first, 5));

        let product = self.secret * 2048;
        assert(product == second << 11) by (bit_vector)
            requires
                second < 16777216,
                product == second * 2048,
        ;
        self.mix(product);
        self.prune();

        let change = ((self.secret % 10) as i32) - ((prev % 10) as i32);
        self.changes.push(change as i8);
    }
}

/// The window of changes after `n` evolutions of `s`, where it was
/// `window` before them.
pub open spec fn nth_window(s: u64, window: Seq<i8>, n: nat) -> Seq<i8>
    decreases n,
{
    if n == 0 {
        window
    } else {
        window_after_push(
            nth_window(s, window, (n - 1) as nat),
            price_change(nth_secret(s, (n - 1) as nat), nth_secret(s, n)) as i8,
        )
    }
}

impl Prng {
    /// Advances the generator by `n` steps, and records the price change
    /// of each.
    pub fn evolve_n(&mut self, n: usize)
        ensures
            final(self).secret == nth_secret(old(self).secret, n as nat),
            n > 0 ==> final(self).secret < PRUNE_MODULUS,
            final(self).changes.inner@ == nth_window(old(self).secret, old(self).changes.inner@, n as nat),
    {
        let mut i: usize = 0;
        while i < n
            invariant
                i <= n,
                self.secret == nth_secret(old(self).secret, i as nat),
                i > 0 ==> self.secret < PRUNE_MODULUS,
                self.changes.inner@ == nth_window(old(self).secret, old(self).changes.inner@, i as nat),
            decreases n - i,
        {
            self.evolve();
            i += 1;
        }
    }
}

/// The secrets that the first `k` seeds reach after `n` steps, summed.
pub open spec fn secrets_sum(seeds: Seq<u64>, n: nat, k: int) -> int
    decreases k,
{
    if k <= 0 {
        0
    } else {
        secrets_sum(seeds, n, k - 1) + nth_secret(seeds[k - 1], n)
    }
}

/// The sum of the secrets that the seeds reach after `n` steps.
pub fn sum_of_secrets(seeds: &Vec<u64>, n: usize) -> (total: u128)
    ensures
        total == secrets_sum(seeds@, n as nat, seeds.len() as int),
{
    let mut total: u128 = 0;
    let mut k: usize = 0;
    while k < seeds.len()
        invariant
            k <= seeds.len(),
            total == secrets_sum(seeds@, n as nat, k as int),
            total <= k * 0x1_0000_0000_0000_0000,
        decreases seeds.len() - k,
    {
        let mut prng = Prng::from(seeds[k]);
        prng.evolve_n(n);
        total = total + prng.secret as u128;
        k += 1;
    }
    total
}

/// The window of changes after `t` evolutions of `seed`.
pub open spec fn window_at(seed: u64, t: nat) -> Seq<i8>
    decreases t,
{
    if t == 0 {
        Seq::empty()
    } else {
        window_after_push(
            window_at(seed, (t - 1) as nat),
            price_change(nth_secret(seed, (t - 1) as nat), nth_secret(seed, t)) as i8,
        )
    }
}

/// Whether the window after `t` evolutions of `seed` is full and packs to `p`.
pub open spec fn shows(seed: u64, t: nat, p: u32) -> bool {
    window_at(seed, t).len() >= 4 && pack(window_at(seed, t)) == p
}

/// The price at which a buyer with `seed` sells when told to sell at the
/// changes `p`: the price right after the first time that the window
/// shows `p` within `t` evolutions, if it ever does.
pub open spec fn first_price(seed: u64, p: u32, t: nat) -> Option<u64>
    decreases t,
{
    if t == 0 {
        None
    } else {
        match first_price(seed, p, (t - 1) as nat) {
            Some(v) => Some(v),
            None => if shows(seed, t, p) {
                Some((nth_secret(seed, t) % 10) as u64)
            } else {
                None
            },
        }
    }
}

/// What a sale at the changes `p` brings from one buyer.
pub open spec fn gain(seed: u64, p: u32, t: nat) -> int {
    match first_price(seed, p, t) {
        Some(v) => v as int,
        None => 0,
    }
}

/// What a sale at the changes `p` brings from the first `k` buyers.
pub open spec fn gains(seeds: Seq<u64>, p: u32, t: nat, k: int) -> int
    decreases k,
{
    if k <= 0 {
        0
    } else {
        gains(seeds, p, t, k - 1) + gain(seeds[k - 1], p, t)
    }
}

/// The entry of a table, or nothing where it has none.
pub open spec fn entry(totals: Map<u32, u128>, p: u32) -> int {
    if totals.contains_key(p) {
        totals[p] as int
    } else {
        0
    }
}

/// A window never holds more than four changes, and no gain exceeds nine.
pub proof fn lemma_window(seed: u64, p: u32, t: nat)
    ensures
        window_at(seed, t).len() <= 4,
        0 <= gain(seed, p, t) <= 9,
    decreases t,
{
    if t > 0 {
        lemma_window(seed, p, (t - 1) as nat);
    }
}

/// The most that a sale at one sequence of four changes brings from all
/// buyers together, each buyer watched for `steps` evolutions.
pub fn best_bananas(seeds: &Vec<u64>, steps: usize) -> (best: u128)
    requires
        seeds.len() < usize::MAX,
    ensures
        forall|p: u32| #[trigger] gains(seeds@, p, steps as nat, seeds.len() as int) <= best,
        exists|p: u32| #[trigger] gains(seeds@, p, steps as nat, seeds.len() as int) == best,
{
    broadcast use vstd::std_specs::hash::group_hash_axioms;

    let mut totals: HashMap<u32, u128> = HashMap::new();
    let mut last: HashMap<u32, usize> = HashMap::new();
    let mut best: u128 = 0;
    let ghost mut at: u32 = 0;
    let mut i: usize = 0;
    while i < seeds.len()
        invariant
            i <= seeds.len(),
            seeds.len() < usize::MAX,
            forall|p: u32|
                #![trigger entry(totals@, p)]
                #![trigger gains(seeds@, p, steps as nat, i as int)]
                entry(totals@, p) == gains(seeds@, p, steps as nat, i as int),
            forall|p: u32| #[trigger] entry(totals@, p) <= 9 * i,
            forall|p: u32| #[trigger] last@.contains_key(p) ==> last@[p] <= i,
            forall|p: u32| #[trigger] entry(totals@, p) <= best,
            entry(totals@, at) == best,
        decreases seeds.len() - i,
    {
        let seed = seeds[i];
        let mut prng = Prng::from(seed);
        let mut t: usize = 0;
        while t < steps
            invariant
                i < seeds.len(),
                seeds.len() < usize::MAX,
                seed == seeds[i as int],
                t <= steps,
                prng.secret == nth_secret(seed, t as nat),
                prng.changes.inner@ == window_at(seed, t as nat),
                forall|p: u32| #[trigger]
                    entry(totals@, p) == gains(seeds@, p, steps as nat, i as int) + gain(seed, p, t as nat),
                forall|p: u32| #[trigger] entry(totals@, p) <= 9 * i + 9,
                forall|p: u32| #[trigger] last@.contains_key(p) ==> last@[p] <= i + 1,
                forall|p: u32|
                    #![trigger last@.contains_key(p)]
                    #![trigger first_price(seed, p, t as nat)]
                    (last@.contains_key(p) && last@[p] == i + 1) <==> first_price(seed, p, t as nat) is Some,
                forall|p: u32| #[trigger] entry(totals@, p) <= best,
                entry(totals@, at) == best,
            decreases steps - t,
        {
            prng.evolve();
            let ghost old_totals = totals@;
            let ghost old_last = last@;
            proof {
                lemma_window(seed, 0, (t + 1) as nat);
            }
            if let Some(packed) = prng.changes.packed() {
                let sold = match last.get(&packed) {
                    Some(who) => *who == i + 1,
                    None => false,
                };
                if !sold {
                    let price = (prng.secret % 10) as u128;
                    let so_far = match totals.get(&packed) {
                        Some(v) => *v,
                        None => 0,
                    };
                    proof {
                        lemma_window(seed, packed, t as nat);
                        assert(entry(old_totals, packed) == so_far);
                    }
                    let now = so_far + price;
                    totals.insert(packed, now);
                    last.insert(packed, i + 1);
                    if now > best {
                        best = now;
                        proof {
                            at = packed;
                        }
                    }
                }
            }
            proof {
                assert forall|p: u32| #[trigger]
                    entry(totals@, p) == gains(seeds@, p, steps as nat, i as int) + gain(
                        seed,
                        p,
                        (t + 1) as nat,
                    ) by {
                    assert(entry(old_totals, p) == gains(seeds@, p, steps as nat, i as int) + gain(seed, p, t as nat));
                }
                assert forall|p: u32|
                    #![trigger last@.contains_key(p)]
                    #![trigger first_price(seed, p, (t + 1) as nat)]
                    (last@.contains_key(p) && last@[p] == i + 1) <==> first_price(
                        seed,
                        p,
                        (t + 1) as nat,
                    ) is Some by {
                    assert((old_last.contains_key(p) && old_last[p] == i + 1) <==> first_price(seed, p, t as nat) is Some);
                }
                assert forall|p: u32| #[trigger] entry(totals@, p) <= 9 * i + 9 by {
                    lemma_window(seed, p, (t + 1) as nat);
                    lemma_gains_bound(seeds@, p, steps as nat, i as int);
                }
                assert forall|p: u32| #[trigger] last@.contains_key(p) implies last@[p] <= i + 1 by {
                    if old_last.contains_key(p) {
                        assert(old_last[p] <= i + 1);
                    }
                }
                assert forall|p: u32| #[trigger] entry(totals@, p) <= best by {
                    assert(entry(old_totals, p) <= best);
                }
            }
            t += 1;
        }
        proof {
            assert forall|p: u32| #[trigger] entry(totals@, p) <= 9 * (i + 1) by {
                lemma_gains_bound(seeds@, p, steps as nat, i + 1);
            }
        }
        i += 1;
    }
    proof {
        assert(gains(seeds@, at, steps as nat, seeds.len() as int) == best);
        assert forall|p: u32| #[trigger] gains(seeds@, p, steps as nat, seeds.len() as int) <= best by {
            assert(entry(totals@, p) <= best);
        }
    }
    best
}

/// No more than nine times the buyers is gained.
pub proof fn lemma_gains_bound(seeds: Seq<u64>, p: u32, t: nat, k: int)
    requires
        0 <= k,
    ensures
        0 <= gains(seeds, p, t, k) <= 9 * k,
    decreases k,
{
    if k > 0 {
        lemma_gains_bound(seeds, p, t, k - 1);
        lemma_window(seeds[k - 1], p, t);
    }
}

} // verus!
