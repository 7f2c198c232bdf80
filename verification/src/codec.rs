//! The symbol codec, in specification form: multisets of names encode to
//! prime-product integers, and decoding walks the prime list, stripping
//! factors. The round-trip law is proved here from unique factorization.
use vstd::prelude::*;
use crate::arith::{
    divides, first_primes, is_first_primes, is_prime, lemma_pow_mul_div,
    lemma_prime_not_div_prod_pows, lemma_prod_pows_bump, lemma_prod_pows_pos, pow, primes_fit,
    prod_pows,
};

verus! {

/// No two elements of the sequence are equal.
pub open spec fn all_distinct<T>(s: Seq<T>) -> bool {
    forall|i: int, j: int| 0 <= i < j < s.len() ==> s[i] != s[j]
}

/// How many times `x` occurs in `s`.
pub open spec fn occurrences<T>(s: Seq<T>, x: T) -> nat
    decreases s.len(),
{
    if s.len() == 0 {
        0
    } else {
        (if s[0] == x {
            1nat
        } else {
            0nat
        }) + occurrences(s.drop_first(), x)
    }
}

/// The position of the first occurrence of `x` in `s`.
pub open spec fn first_index<T>(s: Seq<T>, x: T) -> int
    decreases s.len(),
{
    if s.len() == 0 {
        0
    } else if s[0] == x {
        0
    } else {
        1 + first_index(s.drop_first(), x)
    }
}

pub proof fn lemma_first_index<T>(s: Seq<T>, x: T)
    requires
        s.contains(x),
    ensures
        0 <= first_index(s, x) < s.len(),
        s[first_index(s, x)] == x,
    decreases s.len(),
{
    if s[0] != x {
        let i = choose|i: int| 0 <= i < s.len() && s[i] == x;
        assert(s.drop_first()[i - 1] == x);
        lemma_first_index(s.drop_first(), x);
    }
}

/// Every name of `m` appears in the alphabet `names`.
pub open spec fn covered(m: Seq<Seq<char>>, names: Seq<Seq<char>>) -> bool {
    forall|k: int| 0 <= k < m.len() ==> names.contains(#[trigger] m[k])
}

/// If `x` first appears at `j`, `first_index` finds exactly `j`.
pub proof fn lemma_first_index_at<T>(s: Seq<T>, x: T, j: int)
    requires
        0 <= j < s.len(),
        s[j] == x,
        forall|k: int| 0 <= k < j ==> s[k] != x,
    ensures
        first_index(s, x) == j,
        s.contains(x),
    decreases j,
{
    if j > 0 {
        assert(forall|k: int| 0 <= k < j - 1 ==> s.drop_first()[k] != x);
        assert(s.drop_first()[j - 1] == x);
        lemma_first_index_at(s.drop_first(), x, j - 1);
    }
}

/// The prime-product encoding of the multiset `m` under alphabet `names`,
/// whose `i`-th name is assigned the prime `ps[i]`.
pub open spec fn encode_rec(m: Seq<Seq<char>>, names: Seq<Seq<char>>, ps: Seq<int>) -> int
    decreases m.len(),
{
    if m.len() == 0 {
        1
    } else {
        ps[first_index(names, m[0])] * encode_rec(m.drop_first(), names, ps)
    }
}

/// An encoding of covered names under positive primes is at least 1.
pub proof fn lemma_encode_pos(m: Seq<Seq<char>>, names: Seq<Seq<char>>, ps: Seq<int>)
    requires
        ps.len() == names.len(),
        forall|i: int| 0 <= i < ps.len() ==> #[trigger] ps[i] >= 1,
        covered(m, names),
    ensures
        encode_rec(m, names, ps) >= 1,
    decreases m.len(),
{
    if m.len() > 0 {
        lemma_first_index(names, m[0]);
        assert(covered(m.drop_first(), names)) by {
            assert(forall|k: int|
                0 <= k < m.drop_first().len() ==> names.contains(#[trigger] m.drop_first()[k]));
        }
        lemma_encode_pos(m.drop_first(), names, ps);
        let p = ps[first_index(names, m[0])];
        assert(p * encode_rec(m.drop_first(), names, ps) >= 1) by (nonlinear_arith)
            requires
                p >= 1,
                encode_rec(m.drop_first(), names, ps) >= 1,
        ;
    }
}

/// Decoding a prime-product integer: walk the (prime, name) pairs in order;
/// while the current prime divides the value, emit the name and divide.
pub open spec fn decode_rec(v: int, ps: Seq<int>, names: Seq<Seq<char>>) -> Seq<Seq<char>>
    decreases ps.len(), v,
    via decode_rec_dec
{
    if ps.len() == 0 || names.len() == 0 || v < 1 {
        Seq::empty()
    } else if ps[0] >= 2 && divides(ps[0], v) {
        seq![names[0]] + decode_rec(v / ps[0], ps, names)
    } else {
        decode_rec(v, ps.drop_first(), names.drop_first())
    }
}

#[via_fn]
proof fn decode_rec_dec(v: int, ps: Seq<int>, names: Seq<Seq<char>>) {
    if !(ps.len() == 0 || names.len() == 0 || v < 1) && ps[0] >= 2 && divides(ps[0], v) {
        vstd::arithmetic::div_mod::lemma_fundamental_div_mod(v, ps[0]);
        let q = v / ps[0];
        assert(0 <= q < v) by (nonlinear_arith)
            requires
                v == ps[0] * q,
                v >= 1,
                ps[0] >= 2,
        ;
    }
}

/// `k` copies of `x`.
pub open spec fn rep<T>(x: T, k: nat) -> Seq<T>
    decreases k,
{
    if k == 0 {
        Seq::empty()
    } else {
        seq![x] + rep(x, (k - 1) as nat)
    }
}

/// For each name in order, that many copies of it: the canonical, grouped
/// form of a multiset over a duplicate-free alphabet.
pub open spec fn concat_reps(names: Seq<Seq<char>>, es: Seq<nat>) -> Seq<Seq<char>>
    decreases names.len(),
{
    if names.len() == 0 || es.len() == 0 {
        Seq::empty()
    } else {
        rep(names[0], es[0]) + concat_reps(names.drop_first(), es.drop_first())
    }
}

/// The multiplicity of each alphabet name in `m`.
pub open spec fn counts_of(m: Seq<Seq<char>>, names: Seq<Seq<char>>) -> Seq<nat> {
    Seq::new(names.len(), |i: int| occurrences(m, names[i]))
}

proof fn lemma_prod_pows_all_zero(ps: Seq<int>, es: Seq<nat>)
    requires
        forall|i: int| 0 <= i < es.len() ==> #[trigger] es[i] == 0,
    ensures
        prod_pows(ps, es) == 1,
    decreases ps.len(),
{
    if ps.len() > 0 && es.len() > 0 {
        lemma_prod_pows_all_zero(ps.drop_first(), es.drop_first());
    }
}

/// Encoding is the product of the assigned primes raised to multiplicities.
pub proof fn lemma_encode_prod_pows(m: Seq<Seq<char>>, names: Seq<Seq<char>>, ps: Seq<int>)
    requires
        ps.len() == names.len(),
        forall|i: int| 0 <= i < ps.len() ==> #[trigger] ps[i] >= 1,
        all_distinct(names),
        forall|k: int| 0 <= k < m.len() ==> names.contains(#[trigger] m[k]),
    ensures
        encode_rec(m, names, ps) == prod_pows(ps, counts_of(m, names)),
    decreases m.len(),
{
    if m.len() == 0 {
        lemma_prod_pows_all_zero(ps, counts_of(m, names));
    } else {
        let m2 = m.drop_first();
        assert(forall|k: int| 0 <= k < m2.len() ==> names.contains(#[trigger] m2[k]));
        lemma_encode_prod_pows(m2, names, ps);
        assert(names.contains(m[0]));
        let j = first_index(names, m[0]);
        lemma_first_index(names, m[0]);
        let cs2 = counts_of(m2, names);
        assert(counts_of(m, names) =~= cs2.update(j, (cs2[j] + 1) as nat)) by {
            assert(forall|i: int|
                0 <= i < names.len() && i != j ==> names[i] != m[0]);
            assert(forall|i: int|
                0 <= i < names.len() ==> occurrences(m, #[trigger] names[i]) == (if names[i]
                    == m[0] {
                    1nat
                } else {
                    0nat
                }) + occurrences(m2, names[i]));
        }
        lemma_prod_pows_bump(ps, cs2, j);
    }
}

/// Repeated division by the leading prime strips exactly its full power.
proof fn lemma_decode_strip(p: int, e: nat, r: int, ps: Seq<int>, names: Seq<Seq<char>>)
    requires
        ps.len() == names.len(),
        ps.len() >= 1,
        ps[0] == p,
        is_prime(p),
        r >= 1,
        !divides(p, r),
    ensures
        decode_rec(pow(p, e) * r, ps, names) == rep(names[0], e) + decode_rec(r, ps, names),
    decreases e,
{
    if e == 0 {
        assert(pow(p, 0nat) * r == r);
        assert(rep(names[0], 0nat) + decode_rec(r, ps, names) =~= decode_rec(r, ps, names));
    } else {
        lemma_pow_mul_div(p, e, r);
        lemma_decode_strip(p, (e - 1) as nat, r, ps, names);
        assert(decode_rec(pow(p, e) * r, ps, names) == seq![names[0]] + decode_rec(
            pow(p, (e - 1) as nat) * r,
            ps,
            names,
        ));
        assert(seq![names[0]] + (rep(names[0], (e - 1) as nat) + decode_rec(r, ps, names))
            =~= rep(names[0], e) + decode_rec(r, ps, names));
    }
}

/// Decoding a product of prime powers yields each name with its exponent.
pub proof fn lemma_decode_prod_pows(ps: Seq<int>, es: Seq<nat>, names: Seq<Seq<char>>)
    requires
        ps.len() == es.len(),
        ps.len() == names.len(),
        forall|i: int| 0 <= i < ps.len() ==> is_prime(#[trigger] ps[i]),
        all_distinct(ps),
    ensures
        decode_rec(prod_pows(ps, es), ps, names) == concat_reps(names, es),
    decreases ps.len(),
{
    if ps.len() == 0 {
        assert(decode_rec(1, ps, names) =~= Seq::<Seq<char>>::empty());
    } else {
        let ps2 = ps.drop_first();
        let es2 = es.drop_first();
        let names2 = names.drop_first();
        let r = prod_pows(ps2, es2);
        assert(forall|i: int|
            0 <= i < ps2.len() ==> is_prime(#[trigger] ps2[i]) && ps2[i] != ps[0]);
        lemma_prime_not_div_prod_pows(ps[0], ps2, es2);
        lemma_decode_strip(ps[0], es[0], r, ps, names);
        assert(decode_rec(r, ps, names) == decode_rec(r, ps2, names2));
        lemma_decode_prod_pows(ps2, es2, names2);
    }
}

pub proof fn lemma_occ_push<T>(s: Seq<T>, y: T, x: T)
    ensures
        occurrences(s.push(y), x) == occurrences(s, x) + (if x == y {
            1nat
        } else {
            0nat
        }),
    decreases s.len(),
{
    let sp = s.push(y);
    assert(sp.len() == s.len() + 1);
    if s.len() == 0 {
        assert(sp[0] == y);
        assert(sp.drop_first() =~= Seq::<T>::empty());
        assert(occurrences(sp, x) == (if sp[0] == x {
            1nat
        } else {
            0nat
        }) + occurrences(sp.drop_first(), x));
        assert(occurrences(sp.drop_first(), x) == 0);
    } else {
        assert(sp[0] == s[0]);
        assert(sp.drop_first() =~= s.drop_first().push(y));
        lemma_occ_push(s.drop_first(), y, x);
        assert(occurrences(sp, x) == (if sp[0] == x {
            1nat
        } else {
            0nat
        }) + occurrences(sp.drop_first(), x));
        assert(occurrences(s, x) == (if s[0] == x {
            1nat
        } else {
            0nat
        }) + occurrences(s.drop_first(), x));
    }
}

pub proof fn lemma_occ_add<T>(a: Seq<T>, b: Seq<T>, x: T)
    ensures
        occurrences(a + b, x) == occurrences(a, x) + occurrences(b, x),
    decreases a.len(),
{
    if a.len() == 0 {
        assert(a + b =~= b);
    } else {
        assert((a + b).drop_first() =~= a.drop_first() + b);
        assert((a + b)[0] == a[0]);
        lemma_occ_add(a.drop_first(), b, x);
    }
}

proof fn lemma_occ_rep<T>(y: T, k: nat, x: T)
    ensures
        occurrences(rep(y, k), x) == if x == y {
            k
        } else {
            0nat
        },
    decreases k,
{
    if k > 0 {
        lemma_occ_rep(y, (k - 1) as nat, x);
        assert(rep(y, k)[0] == y);
        assert(rep(y, k).drop_first() =~= rep(y, (k - 1) as nat));
    }
}

/// In the grouped form, `x` occurs exactly its assigned exponent many times.
proof fn lemma_occ_concat_reps(names: Seq<Seq<char>>, es: Seq<nat>, x: Seq<char>)
    requires
        names.len() == es.len(),
        all_distinct(names),
    ensures
        occurrences(concat_reps(names, es), x) == if names.contains(x) {
            es[first_index(names, x)]
        } else {
            0nat
        },
    decreases names.len(),
{
    if names.len() == 0 {
        assert(!names.contains(x));
    } else {
        let names2 = names.drop_first();
        let es2 = es.drop_first();
        lemma_occ_add(rep(names[0], es[0]), concat_reps(names2, es2), x);
        lemma_occ_rep(names[0], es[0], x);
        lemma_occ_concat_reps(names2, es2, x);
        if x == names[0] {
            assert(!names2.contains(x)) by {
                if names2.contains(x) {
                    let i = choose|i: int| 0 <= i < names2.len() && names2[i] == x;
                    assert(names[i + 1] == x);
                }
            }
            assert(first_index(names, x) == 0);
        } else {
            if names2.contains(x) {
                assert(names.contains(x)) by {
                    let i = choose|i: int| 0 <= i < names2.len() && names2[i] == x;
                    assert(names[i + 1] == x);
                }
                assert(first_index(names, x) == 1 + first_index(names2, x));
                lemma_first_index(names2, x);
            } else {
                assert(!names.contains(x)) by {
                    if names.contains(x) {
                        let i = choose|i: int| 0 <= i < names.len() && names[i] == x;
                        assert(names2[i - 1] == x);
                    }
                }
            }
        }
    }
}

proof fn lemma_occ_zero(m: Seq<Seq<char>>, names: Seq<Seq<char>>, x: Seq<char>)
    requires
        forall|k: int| 0 <= k < m.len() ==> names.contains(#[trigger] m[k]),
        !names.contains(x),
    ensures
        occurrences(m, x) == 0,
    decreases m.len(),
{
    if m.len() > 0 {
        assert(forall|k: int|
            0 <= k < m.drop_first().len() ==> names.contains(#[trigger] m.drop_first()[k]));
        lemma_occ_zero(m.drop_first(), names, x);
    }
}

/// A sequence's multiset counts each value its number of occurrences.
pub proof fn lemma_occ_to_multiset<T>(s: Seq<T>, x: T)
    ensures
        s.to_multiset().count(x) == occurrences(s, x),
    decreases s.len(),
{
    broadcast use vstd::seq_lib::group_to_multiset_ensures;
    broadcast use vstd::multiset::group_multiset_axioms;

    if s.len() == 0 {
        assert(!s.contains(x));
    } else {
        lemma_occ_to_multiset(s.drop_last(), x);
        assert(s =~= s.drop_last().push(s.last()));
        lemma_occ_push(s.drop_last(), s.last(), x);
    }
}

/// The round-trip law: decoding the encoding of a multiset of alphabet names
/// returns the same multiset, up to reordering.
pub proof fn lemma_encode_decode_round_trip(
    m: Seq<Seq<char>>,
    names: Seq<Seq<char>>,
    ps: Seq<int>,
)
    requires
        ps.len() == names.len(),
        forall|i: int| 0 <= i < ps.len() ==> is_prime(#[trigger] ps[i]),
        all_distinct(ps),
        all_distinct(names),
        forall|k: int| 0 <= k < m.len() ==> names.contains(#[trigger] m[k]),
    ensures
        decode_rec(encode_rec(m, names, ps), ps, names).to_multiset() == m.to_multiset(),
{
    assert(forall|i: int| 0 <= i < ps.len() ==> #[trigger] ps[i] >= 1);
    let cs = counts_of(m, names);
    lemma_encode_prod_pows(m, names, ps);
    lemma_decode_prod_pows(ps, cs, names);
    let decoded = concat_reps(names, cs);
    assert forall|x: Seq<char>|
        decoded.to_multiset().count(x) == m.to_multiset().count(x) by {
        lemma_occ_to_multiset(decoded, x);
        lemma_occ_to_multiset(m, x);
        lemma_occ_concat_reps(names, cs, x);
        if names.contains(x) {
            let j = first_index(names, x);
            lemma_first_index(names, x);
            assert(cs[j] == occurrences(m, names[j]));
        } else {
            lemma_occ_zero(m, names, x);
        }
    }
    assert(decoded.to_multiset() =~= m.to_multiset());
}

/// The round-trip law at the library's own prime assignment: whenever the
/// first primes fit the machine, decoding the encoding of any multiset of
/// alphabet names returns that multiset, up to reordering.
pub proof fn lemma_round_trip_first_primes(m: Seq<Seq<char>>, names: Seq<Seq<char>>)
    requires
        primes_fit(names.len()),
        all_distinct(names),
        covered(m, names),
    ensures
        decode_rec(
            encode_rec(m, names, first_primes(names.len())),
            first_primes(names.len()),
            names,
        ).to_multiset() == m.to_multiset(),
{
    let n = names.len();
    let w = choose|ps: Seq<int>|
        ps.len() == n && is_first_primes(ps) && (n == 0 || ps[n - 1] < i128::MAX);
    assert(exists|ps: Seq<int>| ps.len() == n && is_first_primes(ps)) by {
        assert(w.len() == n && is_first_primes(w));
    }
    let fp = first_primes(n);
    assert(fp.len() == n && is_first_primes(fp));
    assert(all_distinct(fp));
    lemma_encode_decode_round_trip(m, names, fp);
}

} // verus!
