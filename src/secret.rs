//! Pseudo-random secret numbers: each is derived from the previous one by
//! three mix-and-prune rounds, and its last decimal digit is a price.
use vstd::prelude::*;

verus! {

/// Secrets are kept below this bound by pruning.
pub const PRUNE_MODULUS: u64 = 16777216;

/// The secret that follows `s`.
pub open spec fn next_secret(s: u64) -> u64 {
    let a = ((s ^ ((s * 64) as u64)) % PRUNE_MODULUS) as u64;
    let b = ((a ^ (a / 32)) % PRUNE_MODULUS) as u64;
    ((b ^ ((b * 2048) as u64)) % PRUNE_MODULUS) as u64
}

/// Mixes `input` into `secret`: their bitwise exclusive or.
pub fn mix(secret: u64, input: u64) -> (r: u64)
    ensures
        r == secret ^ input,
{
    secret ^ input
}

/// Prunes a secret: its remainder modulo 16777216.
pub fn prune(input: u64) -> (r: u64)
    ensures
        r == input % PRUNE_MODULUS,
        r < PRUNE_MODULUS,
{
    input % PRUNE_MODULUS
}

/// The secret that follows `secret`: mix in 64 times it and prune, mix in
/// a 32nd of it and prune, mix in 2048 times it and prune.
pub fn next(secret: u64) -> (r: u64)
    requires
        secret <= u64::MAX / 64,
    ensures
        r == next_secret(secret),
        r < PRUNE_MODULUS,
{
    let mut res = secret;
    res = prune(mix(res, res * 64));
    res = prune(mix(res, res / 32));
    res = prune(mix(res, res * 2048));
    res
}

/// The first `count` secrets of the sequence that starts at `secret`.
pub fn next_iter(secret: u64, count: usize) -> (r: Vec<u64>)
    requires
        count > 1 ==> secret <= u64::MAX / 64,
    ensures
        r.len() == count,
        count > 0 ==> r[0] == secret,
        forall|i: int| 0 <= i < count - 1 ==> #[trigger] r[i + 1] == next_secret(r[i]),
{
    let mut r: Vec<u64> = Vec::new();
    if count == 0 {
        return r;
    }
    r.push(secret);
    let mut cur = secret;
    while r.len() < count
        invariant
            1 <= r.len() <= count,
            r[0] == secret,
            cur == r[r.len() - 1],
            r.len() > 1 ==> cur < PRUNE_MODULUS,
            count > 1 ==> secret <= u64::MAX / 64,
            forall|i: int| 0 <= i < r.len() - 1 ==> #[trigger] r[i + 1] == next_secret(r[i]),
        decreases count - r.len(),
    {
        cur = next(cur);
        r.push(cur);
    }
    r
}

/// The price a secret offers: its last decimal digit.
pub fn price(secret: u64) -> (r: i8)
    ensures
        r == secret % 10,
{
    (secret % 10) as i8
}

/// Shifts every element of `seq` one place towards the front and puts
/// `end` last.
pub fn push_shift<T: Copy, const N: usize>(seq: &mut [T; N], end: T)
    requires
        N > 0,
    ensures
        final(seq)@ == old(seq)@.drop_first().push(end),
{
    let mut i: usize = 0;
    while i + 1 < N
        invariant
            N > 0,
            0 <= i < N,
            seq@.len() == N,
            forall|k: int| 0 <= k < i ==> seq@[k] == old(seq)@[k + 1],
            forall|k: int| i <= k < N ==> seq@[k] == old(seq)@[k],
        decreases N - i,
    {
        let v = seq[i + 1];
        seq[i] = v;
        i = i + 1;
    }
    seq[N - 1] = end;
    assert(seq@ =~= old(seq)@.drop_first().push(end));
}

/// The change of price from step `j - 1` to step `j`.
pub open spec fn price_change(prices: Seq<i8>, j: int) -> int {
    prices[j] - prices[j - 1]
}

/// For each price from the fifth on, the price together with the last four
/// changes of price that led to it, oldest first.
pub fn changes(prices: &Vec<i8>) -> (r: Vec<(i8, [i8; 4])>)
    requires
        forall|j: int| 0 < j < prices.len() ==> i8::MIN <= #[trigger] price_change(prices@, j) <= i8::MAX,
    ensures
        r.len() == if prices.len() >= 4 { prices.len() - 4 } else { 0 },
        forall|k: int| 0 <= k < r.len() ==> (#[trigger] r[k]).0 == prices[k + 4]
            && r[k].1@ == seq![
                price_change(prices@, k + 1) as i8,
                price_change(prices@, k + 2) as i8,
                price_change(prices@, k + 3) as i8,
                price_change(prices@, k + 4) as i8,
            ],
{
    let mut r: Vec<(i8, [i8; 4])> = Vec::new();
    if prices.len() < 5 {
        return r;
    }
    let mut window: [i8; 4] = [0i8; 4];
    let mut j: usize = 1;
    while j < 4
        invariant
            1 <= j <= 4,
            prices.len() >= 5,
            window@.len() == 4,
            forall|j: int| 0 < j < prices.len() ==> i8::MIN <= #[trigger] price_change(prices@, j) <= i8::MAX,
            forall|m: int| 4 - j + 1 <= m < 4 ==> window@[m] == price_change(prices@, m - 4 + j) as i8,
        decreases 4 - j,
    {
        assert(i8::MIN <= price_change(prices@, j as int) <= i8::MAX);
        let diff = prices[j] - prices[j - 1];
        push_shift(&mut window, diff);
        j = j + 1;
    }
    while j < prices.len()
        invariant
            4 <= j <= prices.len(),
            window@.len() == 4,
            forall|j: int| 0 < j < prices.len() ==> i8::MIN <= #[trigger] price_change(prices@, j) <= i8::MAX,
            forall|m: int| 1 <= m < 4 ==> window@[m] == price_change(prices@, m - 4 + j) as i8,
            r.len() == j - 4,
            forall|k: int| 0 <= k < r.len() ==> (#[trigger] r[k]).0 == prices[k + 4]
                && r[k].1@ == seq![
                    price_change(prices@, k + 1) as i8,
                    price_change(prices@, k + 2) as i8,
                    price_change(prices@, k + 3) as i8,
                    price_change(prices@, k + 4) as i8,
                ],
        decreases prices.len() - j,
    {
        assert(i8::MIN <= price_change(prices@, j as int) <= i8::MAX);
        let diff = prices[j] - prices[j - 1];
        push_shift(&mut window, diff);
        r.push((prices[j], window));
        proof {
            let k = r.len() - 1;
            assert(r[k].1@ =~= seq![
                price_change(prices@, k + 1) as i8,
                price_change(prices@, k + 2) as i8,
                price_change(prices@, k + 3) as i8,
                price_change(prices@, k + 4) as i8,
            ]);
        }
        j = j + 1;
    }
    r
}

} // verus!
