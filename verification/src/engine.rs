//! The rewrite engine: one step multiplies the accumulator by the first
//! fraction whose denominator divides it; the run loop repeats this until no
//! fraction applies, recording a trace.
use vstd::prelude::*;
use crate::arith::{divides, first_primes, int_view, is_first_primes, is_prime, primes_fit};
use crate::ast::{Name, Rule};
use crate::codec::decode_rec;
use crate::util::get_n_primes;
use vstd::arithmetic::div_mod::lemma_fundamental_div_mod;

verus! {

/// A compiled rewrite rule: numerator over denominator, both prime products.
#[derive(Debug, Clone, Copy, PartialEq, Eq, Structural)]
pub struct Frac {
    pub num: i128,
    pub den: i128,
}

/// Both parts of a fraction are positive, as every prime product is.
pub open spec fn frac_valid(f: Frac) -> bool {
    f.num >= 1 && f.den >= 1
}

pub open spec fn fracs_valid(fs: Seq<Frac>) -> bool {
    forall|i: int| 0 <= i < fs.len() ==> frac_valid(#[trigger] fs[i])
}

/// The first fraction, in declaration order, whose denominator divides `acc`.
pub open spec fn first_applicable(acc: int, fracs: Seq<Frac>) -> Option<Frac>
    decreases fracs.len(),
{
    if fracs.len() == 0 {
        None
    } else if divides(fracs[0].den as int, acc) {
        Some(fracs[0])
    } else {
        first_applicable(acc, fracs.drop_first())
    }
}

/// The exact value of one rewrite step by fraction `f`.
pub open spec fn step_result(acc: int, f: Frac) -> int {
    acc / (f.den as int) * (f.num as int)
}

/// The one step the machine can refuse: its exact result must fit in `i128`.
pub open spec fn step_fits(acc: int, fracs: Seq<Frac>) -> bool {
    match first_applicable(acc, fracs) {
        None => true,
        Some(f) => step_result(acc, f) <= i128::MAX,
    }
}

/// Finds the first fraction whose denominator divides `acc`.
fn find_match(acc: i128, fracs: &Vec<Frac>) -> (r: Option<usize>)
    requires
        acc >= 1,
        fracs_valid(fracs@),
    ensures
        match r {
            Some(i) => i < fracs@.len() && first_applicable(acc as int, fracs@) == Some(
                fracs@[i as int],
            ) && divides(fracs@[i as int].den as int, acc as int),
            None => first_applicable(acc as int, fracs@) is None,
        },
{
    let mut i: usize = 0;
    proof {
        assert(fracs@.skip(0) =~= fracs@);
    }
    while i < fracs.len()
        invariant
            i <= fracs@.len(),
            acc >= 1,
            fracs_valid(fracs@),
            first_applicable(acc as int, fracs@) == first_applicable(
                acc as int,
                fracs@.skip(i as int),
            ),
        decreases fracs@.len() - i,
    {
        let f = fracs[i];
        proof {
            assert(fracs@.skip(i as int)[0] == fracs@[i as int]);
        }
        if acc % f.den == 0 {
            proof {
                assert(divides(f.den as int, acc as int));
            }
            return Some(i);
        }
        proof {
            assert(!divides(f.den as int, acc as int));
            assert(fracs@.skip(i as int).drop_first() =~= fracs@.skip(i as int + 1));
        }
        i = i + 1;
    }
    proof {
        assert(fracs@.skip(fracs@.len() as int).len() == 0);
    }
    None
}

/// Executes one step: scan the fractions in order and apply the first whose
/// denominator evenly divides `acc`; if none applies, `acc` is unchanged and
/// no fraction is returned.
pub fn step(acc: i128, fracs: &Vec<Frac>) -> (r: (i128, Option<Frac>))
    requires
        acc >= 1,
        fracs_valid(fracs@),
        step_fits(acc as int, fracs@),
    ensures
        match first_applicable(acc as int, fracs@) {
            None => r.0 == acc && r.1 is None,
            Some(f) => {
                &&& r.0 as int == step_result(acc as int, f)
                &&& r.1 == Some(f)
                &&& divides(f.den as int, acc as int)
            },
        },
        r.0 >= 1,
{
    match find_match(acc, fracs) {
        None => (acc, None),
        Some(i) => {
            let f = fracs[i];
            let q = acc / f.den;
            proof {
                lemma_fundamental_div_mod(acc as int, f.den as int);
                assert(q >= 1 && q * f.num >= 1) by (nonlinear_arith)
                    requires
                        acc as int == (f.den as int) * ((acc as int) / (f.den as int)) + 0,
                        q == (acc as int) / (f.den as int),
                        acc >= 1,
                        f.den >= 1,
                        f.num >= 1,
                ;
            }
            (q * f.num, Some(f))
        },
    }
}

impl Frac {
    /// Creates a new fraction with the given numerator and denominator.
    pub fn new(num: i128, den: i128) -> (r: Frac)
        ensures
            r.num == num,
            r.den == den,
    {
        Frac { num, den }
    }

    /// Converts a fraction back to a symbolic rule by decoding both parts.
    pub fn to_rule(&self, names: &Vec<Name>) -> (r: Rule)
        requires
            self.num >= 1,
            self.den >= 1,
            primes_fit(names@.len() as nat),
        ensures
            r.left.deep_view() == decode_rec(
                self.den as int,
                first_primes(names@.len() as nat),
                names.deep_view(),
            ),
            r.right.deep_view() == decode_rec(
                self.num as int,
                first_primes(names@.len() as nat),
                names.deep_view(),
            ),
    {
        Rule::new(to_names(self.den, names), to_names(self.num, names))
    }
}

/// Decodes a prime product back to the list of names it encodes, walking the
/// (prime, name) pairs in alphabet order.
pub fn to_names(prime_product: i128, names: &Vec<Name>) -> (r: Vec<Name>)
    requires
        prime_product >= 1,
        primes_fit(names@.len() as nat),
    ensures
        r.deep_view() == decode_rec(
            prime_product as int,
            first_primes(names@.len() as nat),
            names.deep_view(),
        ),
{
    let primes = get_n_primes(names.len());
    let ghost ps = first_primes(names@.len() as nat);
    let ghost ndv = names.deep_view();
    proof {
        assert(ndv.len() == names@.len());
    }
    let mut v: i128 = prime_product;
    let mut result: Vec<Name> = Vec::new();
    let mut i: usize = 0;
    proof {
        assert(ps.skip(0) =~= ps);
        assert(ndv.skip(0) =~= ndv);
        assert(result.deep_view() =~= Seq::<Seq<char>>::empty());
        assert(Seq::<Seq<char>>::empty() + decode_rec(prime_product as int, ps, ndv)
            =~= decode_rec(prime_product as int, ps, ndv));
    }
    while i < names.len()
        invariant
            i <= names@.len(),
            v >= 1,
            primes@.len() == names@.len(),
            int_view(primes@) == ps,
            ps == first_primes(names@.len() as nat),
            is_first_primes(ps),
            ps.len() == names@.len(),
            ndv == names.deep_view(),
            ndv.len() == names@.len(),
            prime_product >= 1,
            decode_rec(prime_product as int, ps, ndv) == result.deep_view() + decode_rec(
                v as int,
                ps.skip(i as int),
                ndv.skip(i as int),
            ),
        decreases names@.len() - i,
    {
        let p = primes[i];
        proof {
            assert(p as int == ps[i as int]);
            assert(is_prime(ps[i as int]));
            assert(ps.skip(i as int)[0] == ps[i as int]);
            assert(ndv.skip(i as int)[0] == ndv[i as int]);
        }
        while v % p == 0
            invariant
                v >= 1,
                2 <= p,
                i < names@.len(),
                primes@.len() == names@.len(),
                int_view(primes@) == ps,
                is_first_primes(ps),
                ps.len() == names@.len(),
                ndv == names.deep_view(),
                ndv.len() == names@.len(),
                p as int == ps[i as int],
                prime_product >= 1,
                decode_rec(prime_product as int, ps, ndv) == result.deep_view() + decode_rec(
                    v as int,
                    ps.skip(i as int),
                    ndv.skip(i as int),
                ),
            decreases v,
        {
            let ghost old_v = v as int;
            let ghost old_dv = result.deep_view();
            proof {
                assert(divides(p as int, v as int));
                lemma_fundamental_div_mod(v as int, p as int);
                assert((v as int) / (p as int) >= 1 && ((v as int) / (p as int)) < (v as int))
                    by (nonlinear_arith)
                    requires
                        v as int == (p as int) * ((v as int) / (p as int)) + 0,
                        v >= 1,
                        p >= 2,
                ;
            }
            v = v / p;
            result.push(names[i].clone());
            proof {
                assert(result.deep_view() =~= old_dv.push(ndv[i as int]));
                assert(decode_rec(old_v, ps.skip(i as int), ndv.skip(i as int)) == seq![
                    ndv.skip(i as int)[0],
                ] + decode_rec(old_v / p as int, ps.skip(i as int), ndv.skip(i as int)));
                assert(old_dv + (seq![ndv[i as int]] + decode_rec(
                    v as int,
                    ps.skip(i as int),
                    ndv.skip(i as int),
                )) =~= result.deep_view() + decode_rec(
                    v as int,
                    ps.skip(i as int),
                    ndv.skip(i as int),
                ));
            }
        }
        proof {
            assert(!divides(p as int, v as int));
            assert(ps.skip(i as int).drop_first() =~= ps.skip(i as int + 1));
            assert(ndv.skip(i as int).drop_first() =~= ndv.skip(i as int + 1));
            assert(decode_rec(v as int, ps.skip(i as int), ndv.skip(i as int)) == decode_rec(
                v as int,
                ps.skip(i as int + 1),
                ndv.skip(i as int + 1),
            ));
        }
        i = i + 1;
    }
    proof {
        assert(ps.skip(names@.len() as int).len() == 0);
        assert(result.deep_view() + decode_rec(
            v as int,
            ps.skip(names@.len() as int),
            ndv.skip(names@.len() as int),
        ) =~= result.deep_view());
    }
    result
}

/// One recorded rewrite step: the accumulator before, the fraction applied,
/// and the accumulator after.
#[derive(Debug, Clone, Copy, PartialEq, Eq, Structural)]
pub struct StepRec {
    pub before: i128,
    pub frac: Frac,
    pub after: i128,
}

/// Why a run returned: the program reached a stuck state, the step ceiling
/// was reached, or the next step's exact value would not fit in `i128`.
#[derive(Debug, Clone, Copy, PartialEq, Eq, Structural)]
pub enum RunStatus {
    Halted,
    StepLimit,
    Overflow,
}

/// A single trace entry is a correct application of the first matching rule.
pub open spec fn step_rec_ok(rec: StepRec, fracs: Seq<Frac>) -> bool {
    &&& first_applicable(rec.before as int, fracs) == Some(rec.frac)
    &&& divides(rec.frac.den as int, rec.before as int)
    &&& rec.after as int == step_result(rec.before as int, rec.frac)
}

/// A trace chains correct steps from `start` to `end`.
pub open spec fn trace_ok(start: int, fracs: Seq<Frac>, tr: Seq<StepRec>, end: int) -> bool {
    &&& (if tr.len() == 0 {
        end == start
    } else {
        tr[0].before as int == start && end == tr[tr.len() - 1].after as int
    })
    &&& forall|i: int| 0 <= i < tr.len() ==> step_rec_ok(#[trigger] tr[i], fracs)
    &&& forall|i: int| 0 <= i < tr.len() - 1 ==> #[trigger] tr[i + 1].before == tr[i].after
}

/// Runs the rewrite loop: repeatedly apply the first matching fraction until
/// none applies, the step ceiling is reached, or a value no longer fits.
pub fn run(acc: i128, fracs: &Vec<Frac>, max_steps: usize) -> (r: (i128, Vec<StepRec>, RunStatus))
    requires
        acc >= 1,
        fracs_valid(fracs@),
    ensures
        trace_ok(acc as int, fracs@, r.1@, r.0 as int),
        r.1@.len() <= max_steps,
        r.0 >= 1,
        r.2 is Halted ==> first_applicable(r.0 as int, fracs@) is None,
        r.2 is StepLimit ==> r.1@.len() == max_steps,
        r.2 is Overflow ==> match first_applicable(r.0 as int, fracs@) {
            Some(f) => step_result(r.0 as int, f) > i128::MAX,
            None => false,
        },
{
    let mut cur = acc;
    let mut trace: Vec<StepRec> = Vec::new();
    let mut steps: usize = 0;
    while steps < max_steps
        invariant
            steps <= max_steps,
            trace@.len() == steps,
            cur >= 1,
            acc >= 1,
            fracs_valid(fracs@),
            trace_ok(acc as int, fracs@, trace@, cur as int),
        decreases max_steps - steps,
    {
        match find_match(cur, fracs) {
            None => {
                return (cur, trace, RunStatus::Halted);
            },
            Some(idx) => {
                let f = fracs[idx];
                let q = cur / f.den;
                proof {
                    lemma_fundamental_div_mod(cur as int, f.den as int);
                    assert(q >= 1) by (nonlinear_arith)
                        requires
                            cur as int == (f.den as int) * ((cur as int) / (f.den as int)) + 0,
                            q == (cur as int) / (f.den as int),
                            cur >= 1,
                            f.den >= 1,
                    ;
                }
                match q.checked_mul(f.num) {
                    None => {
                        proof {
                            assert(step_result(cur as int, f) > i128::MAX) by (nonlinear_arith)
                                requires
                                    ((q as int) * (f.num as int) > i128::MAX) || ((q as int) * (
                                    f.num as int) < i128::MIN),
                                    q as int == (cur as int) / (f.den as int),
                                    q >= 1,
                                    f.num >= 1,
                                    step_result(cur as int, f) == (q as int) * (f.num as int),
                            ;
                        }
                        return (cur, trace, RunStatus::Overflow);
                    },
                    Some(next) => {
                        proof {
                            assert(next >= 1) by (nonlinear_arith)
                                requires
                                    next as int == (q as int) * (f.num as int),
                                    q >= 1,
                                    f.num >= 1,
                            ;
                        }
                        let ghost old_tr = trace@;
                        let rec = StepRec { before: cur, frac: f, after: next };
                        trace.push(rec);
                        proof {
                            assert(trace@ =~= old_tr.push(rec));
                            assert(step_rec_ok(rec, fracs@));
                            assert(forall|i: int|
                                0 <= i < old_tr.len() ==> trace@[i] == #[trigger] old_tr[i]);
                            assert(trace_ok(acc as int, fracs@, trace@, next as int));
                        }
                        cur = next;
                        steps = steps + 1;
                    },
                }
            },
        }
    }
    (cur, trace, RunStatus::StepLimit)
}

} // verus!
