//! The server's default crypto provider: the correlated randomness (Beaver triples,
//! quotients, random numbers) that it deals out when preprocessing has run out.
//! The random draws are taken as arguments; each must lie below the bound named.
use vstd::prelude::*;
use crate::common::{number_to_bits, padded_bits};

verus! {

/// Possible fallback for when preprocessing elements are depleted.
pub struct CryptoProviderHandlers {}

/// The parameters of a request for random numbers.
pub struct NumbersParams {
    pub count: u64,
    pub bit: Option<bool>,
    pub min: Option<u64>,
    pub max: Option<u64>,
    pub number: Option<u64>,
    pub bitLength: Option<u64>,
}

/// The lower bound of the numbers: `min`, or 0.
pub open spec fn numbers_min(params: NumbersParams) -> nat {
    match params.min {
        Some(m) => m as nat,
        None => 0,
    }
}

/// The upper bound of the numbers: 2 for bits, else `max`, or `Zp`.
pub open spec fn numbers_max(params: NumbersParams, Zp: u64) -> nat {
    if params.bit == Some(true) {
        2
    } else {
        match params.max {
            Some(m) => m as nat,
            None => Zp as nat,
        }
    }
}

/// The `c`-th number: the fixed `number`, or the `c`-th draw shifted by `min`.
pub open spec fn numbers_item(params: NumbersParams, draws: Seq<u64>, c: int) -> nat {
    match params.number {
        Some(n) => n as nat,
        None => (draws[c] + numbers_min(params)) as nat,
    }
}

/// The secrets for the first `k` numbers: each number, or its bits when a bit length is set.
pub open spec fn numbers_spec(params: NumbersParams, draws: Seq<u64>, k: nat) -> Seq<u64>
    decreases k,
{
    if k == 0 {
        Seq::empty()
    } else {
        let n = numbers_item(params, draws, k - 1);
        numbers_spec(params, draws, (k - 1) as nat) + match params.bitLength {
            None => seq![n as u64],
            Some(l) => padded_bits(n, Some(l)),
        }
    }
}

/// Without a bit length, the numbers are the items themselves, one per request.
proof fn lemma_numbers_plain(params: NumbersParams, draws: Seq<u64>, k: nat)
    requires
        params.bitLength is None,
    ensures
        numbers_spec(params, draws, k).len() == k,
        forall|c: int| 0 <= c < k ==> #[trigger] numbers_spec(params, draws, k)[c] == numbers_item(
            params,
            draws,
            c,
        ) as u64,
    decreases k,
{
    if k > 0 {
        lemma_numbers_plain(params, draws, (k - 1) as nat);
    }
}

/// Each number dealt without a fixed value is its draw raised by `min`, so it lies in
/// `[min, max)` (below 2 for bits, below `Zp` when no `max` is given); a fixed value is
/// dealt as it is, `count` times.
pub proof fn law_numbers_in_range(params: NumbersParams, Zp: u64, draws: Seq<u64>, r: Seq<u64>)
    requires
        params.bitLength is None,
        params.number is None ==> draws.len() == params.count,
        params.number is None ==> forall|c: int|
            0 <= c < draws.len() ==> #[trigger] draws[c] + numbers_min(params) < numbers_max(params, Zp),
        r == numbers_spec(params, draws, params.count as nat),
    ensures
        r.len() == params.count,
        forall|c: int| 0 <= c < r.len() ==> {
            &&& params.number is Some ==> #[trigger] r[c] == params.number->0
            &&& params.number is None && params.min is Some ==> r[c] == draws[c] + params.min->0
                && params.min->0 <= r[c]
            &&& params.number is None && params.min is None ==> r[c] == draws[c]
            &&& params.number is None && params.bit == Some(true) ==> r[c] < 2
            &&& params.number is None && params.bit != Some(true) && params.max is Some ==> r[c]
                < params.max->0
            &&& params.number is None && params.bit != Some(true) && params.max is None ==> r[c] < Zp
        },
{
    lemma_numbers_plain(params, draws, params.count as nat);
    assert forall|c: int| 0 <= c < r.len() implies {
        &&& params.number is Some ==> #[trigger] r[c] == params.number->0
        &&& params.number is None && params.min is Some ==> r[c] == draws[c] + params.min->0
            && params.min->0 <= r[c]
        &&& params.number is None && params.min is None ==> r[c] == draws[c]
        &&& params.number is None && params.bit == Some(true) ==> r[c] < 2
        &&& params.number is None && params.bit != Some(true) && params.max is Some ==> r[c]
            < params.max->0
        &&& params.number is None && params.bit != Some(true) && params.max is None ==> r[c] < Zp
    } by {
        assert(r[c] == numbers_item(params, draws, c) as u64);
        if params.number is None {
            assert(draws[c] + numbers_min(params) < numbers_max(params, Zp));
        }
    }
}

impl CryptoProviderHandlers {
    /// A Beaver triple `[a, b, a * b mod Zp]` from the random draws `a` and `b` below `Zp`.
    pub fn triplet(Zp: u64, a: u64, b: u64) -> (r: Vec<u64>)
        requires
            a < Zp,
            b < Zp,
            a * b <= u64::MAX,
        ensures
            r@ == seq![a, b, ((a * b) % (Zp as int)) as u64],
    {
        let c = (a * b) % Zp;
        let mut r = Vec::new();
        r.push(a);
        r.push(b);
        r.push(c);
        assert(r@ =~= seq![a, b, ((a * b) % (Zp as int)) as u64]);
        r
    }

    /// A random `noise` below `Zp` and its quotient by the public `constant`.
    pub fn quotient(Zp: u64, constant: u64, noise: u64) -> (r: Vec<u64>)
        requires
            constant != 0,
            noise < Zp,
        ensures
            r@ == seq![noise, noise / constant],
    {
        let quotient = noise / constant;
        let mut r = Vec::new();
        r.push(noise);
        r.push(quotient);
        assert(r@ =~= seq![noise, noise / constant]);
        r
    }

    /// `count` random numbers in `[min, max)` (or the fixed `number`), each turned into
    /// its bits when a bit length is given. The `c`-th draw is a random number below
    /// `max - min`; no draws are needed when `number` is fixed.
    pub fn numbers(params: &NumbersParams, Zp: u64, draws: &Vec<u64>) -> (r: Vec<u64>)
        requires
            params.number is None ==> draws@.len() == params.count,
            params.number is None ==> forall|c: int|
                0 <= c < draws@.len() ==> #[trigger] draws@[c] + numbers_min(*params) < numbers_max(
                    *params,
                    Zp,
                ),
        ensures
            r@ == numbers_spec(*params, draws@, params.count as nat),
            params.bitLength is None ==> r@.len() == params.count,
            params.bitLength is None && params.number is None ==> forall|c: int|
                0 <= c < params.count ==> #[trigger] r@[c] == draws@[c] + numbers_min(*params)
                    && numbers_min(*params) <= r@[c] < numbers_max(*params, Zp),
    {
        let min: u64 = match params.min {
            Some(m) => m,
            None => 0,
        };
        let mut numbers: Vec<u64> = Vec::new();
        let mut c: u64 = 0;
        while c < params.count
            invariant
                c <= params.count,
                min == numbers_min(*params),
                params.number is None ==> draws@.len() == params.count,
                params.number is None ==> forall|k: int|
                    0 <= k < draws@.len() ==> #[trigger] draws@[k] + numbers_min(*params)
                        < numbers_max(*params, Zp),
                numbers@ == numbers_spec(*params, draws@, c as nat),
            decreases params.count - c,
        {
            let n: u64 = match params.number {
                Some(v) => {
                    assert(v == numbers_item(*params, draws@, c as int));
                    v
                },
                None => {
                    assert(draws@[c as int] + min < numbers_max(*params, Zp));
                    assert(numbers_max(*params, Zp) <= u64::MAX);
                    assert((c as int) < draws.len());
                    let d = draws[c as usize];
                    assert(d + min == numbers_item(*params, draws@, c as int));
                    d + min
                },
            };
            match params.bitLength {
                None => {
                    numbers.push(n);
                },
                Some(l) => {
                    let mut bits = number_to_bits(n, Some(l));
                    numbers.append(&mut bits);
                },
            }
            c = c + 1;
        }
        proof {
            if params.bitLength is None {
                lemma_numbers_plain(*params, draws@, params.count as nat);
            }
        }
        numbers
    }
}

} // verus!
