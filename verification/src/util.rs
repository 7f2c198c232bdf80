//! The prime source: the first `n` primes by ascending trial division.
use vstd::prelude::*;
use crate::arith::{
    divides, first_primes, int_view, is_first_primes, is_prime, lemma_first_primes_prefix,
    lemma_first_primes_unique, primes_fit,
};

verus! {

/// Tries to collect the first `n` primes by trial division over ascending
/// candidates starting at 2. Returns `None` only when fewer than `n` primes
/// fit strictly below `i128::MAX`.
pub fn try_get_n_primes(n: usize) -> (r: Option<Vec<i128>>)
    ensures
        match r {
            Some(v) => {
                &&& v@.len() == n
                &&& forall|i: int| 0 <= i < n ==> is_prime(#[trigger] v@[i] as int)
                &&& forall|i: int, j: int| 0 <= i < j < n ==> v@[i] < v@[j]
                &&& int_view(v@) == first_primes(n as nat)
                &&& is_first_primes(first_primes(n as nat))
                &&& first_primes(n as nat).len() == n
                &&& primes_fit(n as nat)
            },
            None => !primes_fit(n as nat),
        },
{
    let mut primes: Vec<i128> = Vec::new();
    let mut num: i128 = 2;
    while primes.len() < n && num < i128::MAX
        invariant
            2 <= num <= i128::MAX,
            primes@.len() <= n,
            forall|i: int| 0 <= i < primes@.len() ==> is_prime(#[trigger] primes@[i] as int),
            forall|i: int, j: int| 0 <= i < j < primes@.len() ==> primes@[i] < primes@[j],
            forall|i: int| 0 <= i < primes@.len() ==> #[trigger] primes@[i] < num,
            forall|q: int|
                #[trigger] is_prime(q) && q < num ==> int_view(primes@).contains(q),
        decreases i128::MAX - num,
    {
        let mut is_p = true;
        let mut d: i128 = 2;
        while d < num && is_p
            invariant
                2 <= d <= num,
                2 <= num < i128::MAX,
                is_p <==> (forall|e: int| 2 <= e < d ==> !(#[trigger] divides(e, num as int))),
            decreases num - d,
        {
            if num % d == 0 {
                proof {
                    assert(divides(d as int, num as int));
                }
                is_p = false;
            } else {
                proof {
                    assert(!divides(d as int, num as int));
                }
            }
            d = d + 1;
        }
        if is_p {
            proof {
                assert(is_prime(num as int));
            }
            let ghost old_primes = primes@;
            primes.push(num);
            proof {
                assert(forall|k: int|
                    0 <= k < old_primes.len()
                        ==> int_view(primes@)[k] == #[trigger] int_view(old_primes)[k]);
                assert(int_view(primes@)[primes@.len() - 1] == num as int);
                assert(forall|q: int|
                    #[trigger] is_prime(q) && q < num + 1 ==> int_view(primes@).contains(q)) by {
                    assert(forall|q: int|
                        int_view(old_primes).contains(q) ==> int_view(primes@).contains(q));
                    assert(int_view(primes@).contains(num as int));
                }
            }
        } else {
            proof {
                assert(!is_prime(num as int));
            }
        }
        num = num + 1;
    }
    proof {
        let w = int_view(primes@);
        assert(is_first_primes(w)) by {
            assert(forall|q: int|
                #[trigger] is_prime(q) && w.len() > 0 && q < w[w.len() - 1] ==> w.contains(q)) by {
                assert(w.len() > 0 ==> w[w.len() - 1] < num as int);
            }
        }
    }
    if primes.len() >= n {
        proof {
            let w = int_view(primes@);
            assert(exists|ps: Seq<int>| ps.len() == n as nat && is_first_primes(ps)) by {
                assert(w.len() == n as nat && is_first_primes(w));
            }
            let fp = first_primes(n as nat);
            assert(fp.len() == n as nat && is_first_primes(fp));
            lemma_first_primes_unique(w, fp);
            assert(primes_fit(n as nat)) by {
                if n > 0 {
                    assert(w[n - 1] < num as int <= i128::MAX);
                    assert(w.len() == n as nat && is_first_primes(w) && w[n - 1] < i128::MAX);
                }
            }
        }
        Some(primes)
    } else {
        proof {
            // The search exhausted every candidate below `i128::MAX`, so the
            // primes found are all the primes below it, and there are too few.
            let w = int_view(primes@);
            assert(!primes_fit(n as nat)) by {
                if primes_fit(n as nat) {
                    let ps = choose|ps: Seq<int>|
                        ps.len() == n as nat && is_first_primes(ps) && (n == 0 || ps[n - 1]
                            < i128::MAX);
                    let l = w.len() as int;
                    lemma_first_primes_prefix(ps, w, l);
                    assert(ps[l] <= ps[n - 1] < i128::MAX);
                    assert(is_prime(ps[l]) && ps[l] < num as int);
                    assert(w.contains(ps[l]));
                    let j = choose|j: int| 0 <= j < w.len() && w[j] == ps[l];
                    assert(w[j] == ps[j]);
                    assert(ps[j] < ps[l]);
                    assert(false);
                }
            }
        }
        None
    }
}

/// Returns the first `n` prime numbers, in ascending order, found by trial
/// division. The precondition asks exactly that `n` primes fit in `i128`.
pub fn get_n_primes(n: usize) -> (r: Vec<i128>)
    requires
        primes_fit(n as nat),
    ensures
        r@.len() == n,
        forall|i: int| 0 <= i < n ==> is_prime(#[trigger] r@[i] as int),
        forall|i: int, j: int| 0 <= i < j < n ==> r@[i] < r@[j],
        int_view(r@) == first_primes(n as nat),
        is_first_primes(first_primes(n as nat)),
        first_primes(n as nat).len() == n,
{
    match try_get_n_primes(n) {
        Some(v) => v,
        None => vstd::pervasive::unreached(),
    }
}

} // verus!
