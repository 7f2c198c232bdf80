//! Programs and rules: a rule rewrites one multiset of names into another,
//! and a program is an initial state plus an ordered list of rules. The
//! alphabet of a program is the list of names the rules use, in order of
//! first appearance.
use vstd::prelude::*;
use crate::arith::{first_primes, int_view, is_prime, primes_fit};
use crate::codec::{
    all_distinct, covered, decode_rec, encode_rec, first_index, lemma_encode_pos,
    lemma_first_index_at, occurrences,
};
use crate::engine::{
    first_applicable, frac_valid, fracs_valid, run, step_result, to_names, trace_ok, Frac,
    RunStatus, StepRec,
};
use crate::util::{get_n_primes, try_get_n_primes};

verus! {

/// The atomic token of the language: an opaque string identifier.
pub type Name = String;

/// A rewrite rule: consume the left multiset, produce the right one.
pub struct Rule {
    pub left: Vec<Name>,
    pub right: Vec<Name>,
}

/// A program: an initial state multiset and an ordered list of rules.
pub struct Prog {
    pub state: Vec<Name>,
    pub rules: Vec<Rule>,
}

/// The names a rule mentions: left side first, then right side.
pub open spec fn rule_names_spec(r: &Rule) -> Seq<Seq<char>> {
    r.left.deep_view() + r.right.deep_view()
}

/// All names of all rules, in program order.
pub open spec fn all_names(rules: Seq<Rule>) -> Seq<Seq<char>>
    decreases rules.len(),
{
    if rules.len() == 0 {
        Seq::empty()
    } else {
        rule_names_spec(&rules[0]) + all_names(rules.drop_first())
    }
}

/// Keep each name's first appearance, skipping later duplicates.
pub open spec fn dedup_first(s: Seq<Seq<char>>) -> Seq<Seq<char>>
    decreases s.len(),
{
    if s.len() == 0 {
        Seq::empty()
    } else {
        let p = dedup_first(s.drop_last());
        if p.contains(s.last()) {
            p
        } else {
            p.push(s.last())
        }
    }
}

pub proof fn lemma_dedup_props(s: Seq<Seq<char>>)
    ensures
        all_distinct(dedup_first(s)),
        forall|x: Seq<char>| dedup_first(s).contains(x) <==> s.contains(x),
    decreases s.len(),
{
    if s.len() > 0 {
        lemma_dedup_props(s.drop_last());
        let p = dedup_first(s.drop_last());
        assert forall|x: Seq<char>| dedup_first(s).contains(x) <==> s.contains(x) by {
            assert(s.contains(x) <==> (s.drop_last().contains(x) || s.last() == x)) by {
                if s.contains(x) {
                    let i = choose|i: int| 0 <= i < s.len() && s[i] == x;
                    if i < s.len() - 1 {
                        assert(s.drop_last()[i] == x);
                    }
                }
                if s.drop_last().contains(x) {
                    let i = choose|i: int| 0 <= i < s.drop_last().len() && s.drop_last()[i] == x;
                    assert(s[i] == x);
                }
                if s.last() == x {
                    assert(s[s.len() - 1] == x);
                }
            }
            if p.contains(s.last()) {
            } else {
                assert(dedup_first(s) == p.push(s.last()));
                assert(p.push(s.last()).contains(x) <==> (p.contains(x) || s.last() == x)) by {
                    if p.push(s.last()).contains(x) {
                        let i = choose|i: int|
                            0 <= i < p.push(s.last()).len() && p.push(s.last())[i] == x;
                        if i < p.len() {
                            assert(p[i] == x);
                        }
                    }
                    if p.contains(x) {
                        let i = choose|i: int| 0 <= i < p.len() && p[i] == x;
                        assert(p.push(s.last())[i] == x);
                    }
                    assert(p.push(s.last())[p.len() as int] == s.last());
                }
            }
        }
        if !p.contains(s.last()) {
            assert(all_distinct(p.push(s.last()))) by {
                assert(forall|i: int|
                    0 <= i < p.len() ==> p.push(s.last())[i] == #[trigger] p[i]);
            }
        }
    }
}

pub proof fn lemma_all_names_push(rules: Seq<Rule>, r: Rule)
    ensures
        all_names(rules.push(r)) == all_names(rules) + rule_names_spec(&r),
    decreases rules.len(),
{
    if rules.len() == 0 {
        assert(rules.push(r).len() == 1);
        assert(rules.push(r)[0] == r);
        assert(rules.push(r).drop_first() =~= Seq::<Rule>::empty());
        assert(all_names(rules.push(r)) == rule_names_spec(&(rules.push(r)[0])) + all_names(
            rules.push(r).drop_first(),
        ));
        assert(all_names(rules.push(r).drop_first()) == Seq::<Seq<char>>::empty());
        assert(all_names(rules) == Seq::<Seq<char>>::empty());
        assert(rule_names_spec(&(rules.push(r)[0])) + Seq::<Seq<char>>::empty() =~= Seq::<
            Seq<char>,
        >::empty() + rule_names_spec(&r));
    } else {
        assert(rules.push(r)[0] == rules[0]);
        assert(rules.push(r).drop_first() =~= rules.drop_first().push(r));
        lemma_all_names_push(rules.drop_first(), r);
        assert(rule_names_spec(&rules[0]) + (all_names(rules.drop_first()) + rule_names_spec(&r))
            =~= (rule_names_spec(&rules[0]) + all_names(rules.drop_first())) + rule_names_spec(
            &r,
        ));
    }
}

/// Every name a rule mentions occurs somewhere in the program's name list.
pub proof fn lemma_all_names_index(rules: Seq<Rule>, i: int)
    requires
        0 <= i < rules.len(),
    ensures
        forall|x: Seq<char>|
            rule_names_spec(&rules[i]).contains(x) ==> all_names(rules).contains(x),
    decreases i,
{
    if i == 0 {
        assert forall|x: Seq<char>|
            rule_names_spec(&rules[0]).contains(x) implies all_names(rules).contains(x) by {
            let k = choose|k: int|
                0 <= k < rule_names_spec(&rules[0]).len() && rule_names_spec(&rules[0])[k] == x;
            assert(all_names(rules)[k] == x);
        }
    } else {
        lemma_all_names_index(rules.drop_first(), i - 1);
        assert(rules.drop_first()[i - 1] == rules[i]);
        assert forall|x: Seq<char>|
            rule_names_spec(&rules[i]).contains(x) implies all_names(rules).contains(x) by {
            assert(all_names(rules.drop_first()).contains(x));
            let k = choose|k: int|
                0 <= k < all_names(rules.drop_first()).len() && all_names(rules.drop_first())[k]
                    == x;
            assert(all_names(rules)[rule_names_spec(&rules[0]).len() + k] == x);
        }
    }
}

/// Does the vector hold a name with this view?
pub fn contains_name(v: &Vec<Name>, x: &Name) -> (b: bool)
    ensures
        b == v.deep_view().contains(x@),
{
    let mut j: usize = 0;
    while j < v.len()
        invariant
            j <= v@.len(),
            forall|k: int| 0 <= k < j ==> v.deep_view()[k] != x@,
        decreases v@.len() - j,
    {
        if v[j] == *x {
            proof {
                assert(v.deep_view()[j as int] == x@);
            }
            return true;
        }
        j = j + 1;
    }
    proof {
        if v.deep_view().contains(x@) {
            let i = choose|i: int| 0 <= i < v.deep_view().len() && v.deep_view()[i] == x@;
            assert(false);
        }
    }
    false
}

/// The zero-based position of a name's first occurrence in the alphabet.
pub fn index_of_name(names: &Vec<Name>, x: &Name) -> (r: usize)
    requires
        names.deep_view().contains(x@),
    ensures
        r < names@.len(),
        r as int == first_index(names.deep_view(), x@),
        names.deep_view()[r as int] == x@,
{
    let mut j: usize = 0;
    while j < names.len()
        invariant
            j <= names@.len(),
            names.deep_view().contains(x@),
            forall|k: int| 0 <= k < j ==> names.deep_view()[k] != x@,
        decreases names@.len() - j,
    {
        if names[j] == *x {
            proof {
                assert(names.deep_view()[j as int] == x@);
                lemma_first_index_at(names.deep_view(), x@, j as int);
            }
            return j;
        }
        j = j + 1;
    }
    proof {
        let i = choose|i: int|
            0 <= i < names.deep_view().len() && names.deep_view()[i] == x@;
        assert(false);
    }
    vstd::pervasive::unreached()
}

/// Tries to encode a multiset of names as its prime product; `None` exactly
/// when the exact product would exceed `i128::MAX`.
pub fn try_to_prime_product(vec: &Vec<Name>, names: &Vec<Name>) -> (r: Option<i128>)
    requires
        primes_fit(names@.len() as nat),
        covered(vec.deep_view(), names.deep_view()),
    ensures
        ({
            let e = encode_rec(vec.deep_view(), names.deep_view(), first_primes(
                names@.len() as nat,
            ));
            match r {
                Some(v) => v as int == e && v >= 1,
                None => e > i128::MAX,
            }
        }),
{
    let primes = get_n_primes(names.len());
    let ghost ps = first_primes(names@.len() as nat);
    let ghost vdv = vec.deep_view();
    let ghost ndv = names.deep_view();
    proof {
        assert(forall|i: int| 0 <= i < ps.len() ==> is_prime(#[trigger] ps[i]));
        assert(forall|i: int| 0 <= i < ps.len() ==> #[trigger] ps[i] >= 1);
    }
    let mut acc: i128 = 1;
    let mut k: usize = 0;
    proof {
        assert(vdv.skip(0) =~= vdv);
    }
    while k < vec.len()
        invariant
            k <= vec@.len(),
            acc >= 1,
            vdv == vec.deep_view(),
            ndv == names.deep_view(),
            vdv.len() == vec@.len(),
            primes@.len() == names@.len(),
            int_view(primes@) == ps,
            ps == first_primes(names@.len() as nat),
            ps.len() == names@.len(),
            ndv.len() == names@.len(),
            forall|i: int| 0 <= i < ps.len() ==> #[trigger] ps[i] >= 1,
            covered(vdv, ndv),
            primes_fit(names@.len() as nat),
            acc as int * encode_rec(vdv.skip(k as int), ndv, ps) == encode_rec(vdv, ndv, ps),
        decreases vec@.len() - k,
    {
        proof {
            assert(ndv.contains(vdv[k as int]));
            assert(vec[k as int]@ == vdv[k as int]);
        }
        let idx = index_of_name(names, &vec[k]);
        let p = primes[idx];
        let ghost rest = encode_rec(vdv.skip(k as int + 1), ndv, ps);
        proof {
            assert(p as int == ps[idx as int]);
            assert(vdv.skip(k as int)[0] == vdv[k as int]);
            assert(vdv.skip(k as int).drop_first() =~= vdv.skip(k as int + 1));
            assert(encode_rec(vdv.skip(k as int), ndv, ps) == ps[first_index(ndv, vdv[k as int])]
                * rest);
            assert(covered(vdv.skip(k as int + 1), ndv)) by {
                assert(forall|j: int|
                    0 <= j < vdv.skip(k as int + 1).len() ==> ndv.contains(
                        #[trigger] vdv.skip(k as int + 1)[j],
                    ));
            }
            lemma_encode_pos(vdv.skip(k as int + 1), ndv, ps);
            assert(p >= 1);
        }
        match acc.checked_mul(p) {
            None => {
                proof {
                    assert(encode_rec(vdv, ndv, ps) > i128::MAX) by (nonlinear_arith)
                        requires
                            ((acc as int) * (p as int) > i128::MAX) || ((acc as int) * (p as int)
                                < i128::MIN),
                            acc >= 1,
                            p >= 1,
                            rest >= 1,
                            encode_rec(vdv, ndv, ps) == acc as int * (p as int * rest),
                    ;
                }
                return None;
            },
            Some(a2) => {
                proof {
                    assert(a2 as int * rest == encode_rec(vdv, ndv, ps) && a2 >= 1)
                        by (nonlinear_arith)
                        requires
                            a2 as int == acc as int * p as int,
                            acc >= 1,
                            p >= 1,
                            encode_rec(vdv, ndv, ps) == acc as int * (p as int * rest),
                    ;
                }
                acc = a2;
            },
        }
        k = k + 1;
    }
    proof {
        assert(vdv.skip(vdv.len() as int).len() == 0);
    }
    Some(acc)
}

/// Encodes a multiset of names as the product of each name's assigned prime;
/// the empty multiset encodes to 1.
pub fn to_prime_product(vec: &Vec<Name>, names: &Vec<Name>) -> (r: i128)
    requires
        primes_fit(names@.len() as nat),
        covered(vec.deep_view(), names.deep_view()),
        encode_rec(vec.deep_view(), names.deep_view(), first_primes(names@.len() as nat))
            <= i128::MAX,
    ensures
        r as int == encode_rec(vec.deep_view(), names.deep_view(), first_primes(
            names@.len() as nat,
        )),
        r >= 1,
{
    match try_to_prime_product(vec, names) {
        Some(v) => v,
        None => vstd::pervasive::unreached(),
    }
}

impl Rule {
    /// Creates a new rule from its left and right sides.
    pub fn new(left: Vec<Name>, right: Vec<Name>) -> (r: Rule)
        ensures
            r.left == left,
            r.right == right,
    {
        Rule { left, right }
    }

    /// The names this rule mentions: left side first, then right side.
    pub fn get_names(&self) -> (r: Vec<Name>)
        ensures
            r.deep_view() == rule_names_spec(self),
    {
        let ghost ldv = self.left.deep_view();
        let ghost rdv = self.right.deep_view();
        let mut out: Vec<Name> = Vec::new();
        let mut i: usize = 0;
        while i < self.left.len()
            invariant
                i <= self.left@.len(),
                ldv == self.left.deep_view(),
                ldv.len() == self.left@.len(),
                out.deep_view() == ldv.take(i as int),
            decreases self.left@.len() - i,
        {
            let ghost old_dv = out.deep_view();
            out.push(self.left[i].clone());
            proof {
                assert(out.deep_view() =~= old_dv.push(ldv[i as int]));
                assert(ldv.take(i as int + 1) =~= ldv.take(i as int).push(ldv[i as int]));
            }
            i = i + 1;
        }
        proof {
            assert(ldv.take(self.left@.len() as int) =~= ldv);
        }
        let mut j: usize = 0;
        while j < self.right.len()
            invariant
                j <= self.right@.len(),
                ldv == self.left.deep_view(),
                rdv == self.right.deep_view(),
                rdv.len() == self.right@.len(),
                out.deep_view() == ldv + rdv.take(j as int),
            decreases self.right@.len() - j,
        {
            let ghost old_dv = out.deep_view();
            out.push(self.right[j].clone());
            proof {
                assert(out.deep_view() =~= old_dv.push(rdv[j as int]));
                assert(ldv + rdv.take(j as int + 1) =~= (ldv + rdv.take(j as int)).push(
                    rdv[j as int],
                ));
            }
            j = j + 1;
        }
        proof {
            assert(ldv + rdv.take(self.right@.len() as int) =~= ldv + rdv);
        }
        out
    }

    /// Tries to compile this rule to a fraction under the given alphabet;
    /// `None` exactly when one side's encoding would exceed `i128::MAX`.
    pub fn try_to_frac(&self, names: &Vec<Name>) -> (r: Option<Frac>)
        requires
            primes_fit(names@.len() as nat),
            covered(self.left.deep_view(), names.deep_view()),
            covered(self.right.deep_view(), names.deep_view()),
        ensures
            ({
                let ps = first_primes(names@.len() as nat);
                let el = encode_rec(self.left.deep_view(), names.deep_view(), ps);
                let er = encode_rec(self.right.deep_view(), names.deep_view(), ps);
                match r {
                    Some(f) => f.num as int == er && f.den as int == el && f.num >= 1 && f.den
                        >= 1,
                    None => er > i128::MAX || el > i128::MAX,
                }
            }),
    {
        let num = match try_to_prime_product(&self.right, names) {
            Some(v) => v,
            None => {
                return None;
            },
        };
        let den = match try_to_prime_product(&self.left, names) {
            Some(v) => v,
            None => {
                return None;
            },
        };
        Some(Frac::new(num, den))
    }

    /// Compiles this rule to a fraction: numerator from the right side,
    /// denominator from the left side.
    pub fn to_frac(&self, names: &Vec<Name>) -> (r: Frac)
        requires
            primes_fit(names@.len() as nat),
            covered(self.left.deep_view(), names.deep_view()),
            covered(self.right.deep_view(), names.deep_view()),
            encode_rec(self.left.deep_view(), names.deep_view(), first_primes(
                names@.len() as nat,
            )) <= i128::MAX,
            encode_rec(self.right.deep_view(), names.deep_view(), first_primes(
                names@.len() as nat,
            )) <= i128::MAX,
        ensures
            r.num as int == encode_rec(self.right.deep_view(), names.deep_view(), first_primes(
                names@.len() as nat,
            )),
            r.den as int == encode_rec(self.left.deep_view(), names.deep_view(), first_primes(
                names@.len() as nat,
            )),
            r.num >= 1,
            r.den >= 1,
    {
        match self.try_to_frac(names) {
            Some(f) => f,
            None => vstd::pervasive::unreached(),
        }
    }
}

impl Prog {
    /// Creates a new program from an initial state and a list of rules.
    pub fn new(state: Vec<Name>, rules: Vec<Rule>) -> (r: Prog)
        ensures
            r.state == state,
            r.rules == rules,
    {
        Prog { state, rules }
    }

    /// The alphabet: every name the rules use, in order of first appearance,
    /// without duplicates.
    pub fn get_names(rules: &Vec<Rule>) -> (r: Vec<Name>)
        ensures
            r.deep_view() == dedup_first(all_names(rules@)),
            all_distinct(r.deep_view()),
            forall|x: Seq<char>| r.deep_view().contains(x) <==> all_names(rules@).contains(x),
    {
        let mut flat: Vec<Name> = Vec::new();
        let mut i: usize = 0;
        while i < rules.len()
            invariant
                i <= rules@.len(),
                flat.deep_view() == all_names(rules@.take(i as int)),
            decreases rules@.len() - i,
        {
            let rn = rules[i].get_names();
            let ghost base = flat.deep_view();
            let mut j: usize = 0;
            while j < rn.len()
                invariant
                    j <= rn@.len(),
                    rn.deep_view() == rule_names_spec(&rules@[i as int]),
                    rn.deep_view().len() == rn@.len(),
                    i < rules@.len(),
                    base == all_names(rules@.take(i as int)),
                    flat.deep_view() == base + rn.deep_view().take(j as int),
                decreases rn@.len() - j,
            {
                let ghost old_dv = flat.deep_view();
                flat.push(rn[j].clone());
                proof {
                    assert(flat.deep_view() =~= old_dv.push(rn.deep_view()[j as int]));
                    assert(base + rn.deep_view().take(j as int + 1) =~= (base
                        + rn.deep_view().take(j as int)).push(rn.deep_view()[j as int]));
                }
                j = j + 1;
            }
            proof {
                assert(rn.deep_view().take(rn@.len() as int) =~= rn.deep_view());
                lemma_all_names_push(rules@.take(i as int), rules@[i as int]);
                assert(rules@.take(i as int).push(rules@[i as int]) =~= rules@.take(i as int + 1));
            }
            i = i + 1;
        }
        proof {
            assert(rules@.take(rules@.len() as int) =~= rules@);
        }
        let ghost fdv = flat.deep_view();
        let mut out: Vec<Name> = Vec::new();
        let mut j: usize = 0;
        while j < flat.len()
            invariant
                j <= flat@.len(),
                fdv == flat.deep_view(),
                fdv.len() == flat@.len(),
                out.deep_view() == dedup_first(fdv.take(j as int)),
            decreases flat@.len() - j,
        {
            proof {
                assert(fdv.take(j as int + 1).drop_last() =~= fdv.take(j as int));
                assert(fdv.take(j as int + 1).last() == fdv[j as int]);
            }
            let already = contains_name(&out, &flat[j]);
            if !already {
                let ghost old_dv = out.deep_view();
                out.push(flat[j].clone());
                proof {
                    assert(out.deep_view() =~= old_dv.push(fdv[j as int]));
                }
            }
            j = j + 1;
        }
        proof {
            assert(fdv.take(flat@.len() as int) =~= fdv);
            lemma_dedup_props(fdv);
        }
        out
    }
}

/// The character for one decimal digit.
pub open spec fn digit_char(n: nat) -> char {
    if n == 0 {
        '0'
    } else if n == 1 {
        '1'
    } else if n == 2 {
        '2'
    } else if n == 3 {
        '3'
    } else if n == 4 {
        '4'
    } else if n == 5 {
        '5'
    } else if n == 6 {
        '6'
    } else if n == 7 {
        '7'
    } else if n == 8 {
        '8'
    } else {
        '9'
    }
}

/// The decimal representation of a number, most significant digit first.
pub open spec fn dec_rep(n: nat) -> Seq<char>
    decreases n,
{
    if n < 10 {
        seq![digit_char(n)]
    } else {
        dec_rep(n / 10).push(digit_char(n % 10))
    }
}

/// The succinct rendering of one name with multiplicity `k`: the bare name
/// when `k` is 1, otherwise the name, a caret, and `k` in decimal.
pub open spec fn succinct_one(name: Seq<char>, k: nat) -> Seq<char> {
    if k == 1 {
        name
    } else {
        name + seq!['^'] + dec_rep(k)
    }
}

/// The succinct form of a name list: each distinct name once, in order of
/// first appearance, annotated with its multiplicity when it is not 1.
pub open spec fn succinct_spec(names: Seq<Seq<char>>) -> Seq<Seq<char>> {
    Seq::new(
        dedup_first(names).len(),
        |i: int|
            succinct_one(dedup_first(names)[i], occurrences(names, dedup_first(names)[i])),
    )
}

fn digit_str(n: usize) -> (r: &'static str)
    requires
        n < 10,
    ensures
        r@ == seq![digit_char(n as nat)],
{
    proof {
        reveal_strlit("0");
        reveal_strlit("1");
        reveal_strlit("2");
        reveal_strlit("3");
        reveal_strlit("4");
        reveal_strlit("5");
        reveal_strlit("6");
        reveal_strlit("7");
        reveal_strlit("8");
        reveal_strlit("9");
    }
    let r = match n {
        0 => "0",
        1 => "1",
        2 => "2",
        3 => "3",
        4 => "4",
        5 => "5",
        6 => "6",
        7 => "7",
        8 => "8",
        _ => "9",
    };
    proof {
        assert(r@ =~= seq![digit_char(n as nat)]);
    }
    r
}

/// Renders a number in decimal.
fn dec_string(n: usize) -> (r: String)
    ensures
        r@ == dec_rep(n as nat),
    decreases n,
{
    if n < 10 {
        String::from_str(digit_str(n))
    } else {
        let mut s = dec_string(n / 10);
        let d = digit_str(n % 10);
        s.append(d);
        proof {
            assert(s@ =~= dec_rep((n / 10) as nat).push(digit_char((n % 10) as nat)));
        }
        s
    }
}

/// Counts how many times a name occurs in the list.
fn count_name(v: &Vec<Name>, x: &Name) -> (r: usize)
    ensures
        r as nat == occurrences(v.deep_view(), x@),
{
    let ghost vdv = v.deep_view();
    let mut cnt: usize = 0;
    let mut j: usize = 0;
    proof {
        assert(vdv.take(0) =~= Seq::<Seq<char>>::empty());
    }
    while j < v.len()
        invariant
            j <= v@.len(),
            vdv == v.deep_view(),
            vdv.len() == v@.len(),
            cnt <= j,
            cnt as nat == occurrences(vdv.take(j as int), x@),
        decreases v@.len() - j,
    {
        proof {
            assert(vdv.take(j as int + 1) =~= vdv.take(j as int).push(vdv[j as int]));
            crate::codec::lemma_occ_push(vdv.take(j as int), vdv[j as int], x@);
        }
        if v[j] == *x {
            proof {
                assert(vdv[j as int] == x@);
            }
            cnt = cnt + 1;
        } else {
            proof {
                assert(vdv[j as int] != x@);
            }
        }
        j = j + 1;
    }
    proof {
        assert(vdv.take(v@.len() as int) =~= vdv);
    }
    cnt
}

/// Renders a name list succinctly: each distinct name once, in first-seen
/// order, with `^k` appended when its multiplicity `k` is not 1.
pub fn to_succinct_names(names: &Vec<Name>) -> (r: Vec<String>)
    ensures
        r.deep_view() == succinct_spec(names.deep_view()),
{
    let ghost ndv = names.deep_view();
    let mut distinct: Vec<Name> = Vec::new();
    let mut j: usize = 0;
    proof {
        assert(ndv.take(0) =~= Seq::<Seq<char>>::empty());
    }
    while j < names.len()
        invariant
            j <= names@.len(),
            ndv == names.deep_view(),
            ndv.len() == names@.len(),
            distinct.deep_view() == dedup_first(ndv.take(j as int)),
        decreases names@.len() - j,
    {
        proof {
            assert(ndv.take(j as int + 1).drop_last() =~= ndv.take(j as int));
            assert(ndv.take(j as int + 1).last() == ndv[j as int]);
        }
        let already = contains_name(&distinct, &names[j]);
        if !already {
            let ghost old_dv = distinct.deep_view();
            distinct.push(names[j].clone());
            proof {
                assert(distinct.deep_view() =~= old_dv.push(ndv[j as int]));
            }
        }
        j = j + 1;
    }
    proof {
        assert(ndv.take(names@.len() as int) =~= ndv);
    }
    let ghost ddv = dedup_first(ndv);
    let mut out: Vec<String> = Vec::new();
    let mut i: usize = 0;
    while i < distinct.len()
        invariant
            i <= distinct@.len(),
            ndv == names.deep_view(),
            ddv == dedup_first(ndv),
            distinct.deep_view() == ddv,
            distinct@.len() == ddv.len(),
            out.deep_view() == succinct_spec(ndv).take(i as int),
        decreases distinct@.len() - i,
    {
        let k = count_name(names, &distinct[i]);
        let ghost old_dv = out.deep_view();
        if k == 1 {
            out.push(distinct[i].clone());
        } else {
            let mut s = distinct[i].clone();
            s.append("^");
            let num = dec_string(k);
            s.append(num.as_str());
            proof {
                reveal_strlit("^");
                assert("^"@ =~= seq!['^']);
                assert(s@ =~= ddv[i as int] + seq!['^'] + dec_rep(k as nat));
            }
            out.push(s);
        }
        proof {
            assert(out.deep_view() =~= old_dv.push(succinct_one(
                ddv[i as int],
                occurrences(ndv, ddv[i as int]),
            )));
            assert(succinct_spec(ndv).take(i as int + 1) =~= succinct_spec(ndv).take(
                i as int,
            ).push(succinct_spec(ndv)[i as int]));
        }
        i = i + 1;
    }
    proof {
        assert(succinct_spec(ndv).take(distinct@.len() as int) =~= succinct_spec(ndv));
    }
    out
}

/// Why evaluation was refused: a state name no rule mentions, or an exact
/// value that does not fit the machine's integers.
#[derive(Debug, Clone, Copy, PartialEq, Eq, Structural)]
pub enum EvalError {
    UnboundStateSymbol,
    TooLarge,
}

/// The structured result of a run: the alphabet, the encoded initial state,
/// the trace of applied rules, and the final accumulator with its decoding.
#[derive(Debug)]
pub struct EvalReport {
    pub names: Vec<Name>,
    pub init_acc: i128,
    pub trace: Vec<StepRec>,
    pub final_acc: i128,
    pub final_names: Vec<Name>,
    pub status: RunStatus,
}

/// The fractions a program's rules compile to, in program order.
pub open spec fn compile_all(rules: Seq<Rule>, names: Seq<Seq<char>>, ps: Seq<int>) -> Seq<Frac> {
    Seq::new(
        rules.len(),
        |i: int|
            Frac {
                num: encode_rec(rules[i].right.deep_view(), names, ps) as i128,
                den: encode_rec(rules[i].left.deep_view(), names, ps) as i128,
            },
    )
}

/// Some exact value of the program does not fit in `i128`: the prime table,
/// the encoded initial state, or one of the rules' encoded sides.
pub open spec fn prog_too_large(p: &Prog) -> bool {
    let names = dedup_first(all_names(p.rules@));
    let ps = first_primes(names.len());
    ||| !primes_fit(names.len())
    ||| encode_rec(p.state.deep_view(), names, ps) > i128::MAX
    ||| exists|i: int|
        0 <= i < p.rules@.len() && (encode_rec(
            #[trigger] p.rules@[i].left.deep_view(),
            names,
            ps,
        ) > i128::MAX || encode_rec(p.rules@[i].right.deep_view(), names, ps) > i128::MAX)
}

impl Prog {
    /// Evaluates the program: derive the alphabet from the rules, encode the
    /// initial state, compile the rules to fractions, run the rewrite loop
    /// for at most `max_steps` steps, and decode the final accumulator.
    /// A state name that no rule mentions could never be encoded, so it is
    /// rejected here, before any evaluation.
    pub fn eval(&self, max_steps: usize) -> (r: Result<EvalReport, EvalError>)
        ensures
            (match r {
                Ok(_) => covered(
                    self.state.deep_view(),
                    dedup_first(all_names(self.rules@)),
                ) && !prog_too_large(self),
                Err(EvalError::UnboundStateSymbol) => !covered(
                    self.state.deep_view(),
                    dedup_first(all_names(self.rules@)),
                ),
                Err(EvalError::TooLarge) => covered(
                    self.state.deep_view(),
                    dedup_first(all_names(self.rules@)),
                ) && prog_too_large(self),
            }),
            (match r {
                Ok(rep) => {
                    let names = dedup_first(all_names(self.rules@));
                    let ps = first_primes(names.len());
                    let fracs = compile_all(self.rules@, names, ps);
                    &&& rep.names.deep_view() == names
                    &&& rep.init_acc as int == encode_rec(self.state.deep_view(), names, ps)
                    &&& fracs_valid(fracs)
                    &&& trace_ok(rep.init_acc as int, fracs, rep.trace@, rep.final_acc as int)
                    &&& rep.trace@.len() <= max_steps
                    &&& rep.final_acc >= 1
                    &&& (rep.status is Halted ==> first_applicable(
                        rep.final_acc as int,
                        fracs,
                    ) is None)
                    &&& (rep.status is StepLimit ==> rep.trace@.len() == max_steps)
                    &&& (rep.status is Overflow ==> match first_applicable(
                        rep.final_acc as int,
                        fracs,
                    ) {
                        Some(f) => step_result(rep.final_acc as int, f) > i128::MAX,
                        None => false,
                    })
                    &&& rep.final_names.deep_view() == decode_rec(
                        rep.final_acc as int,
                        ps,
                        names,
                    )
                },
                Err(_) => true,
            }),
    {
        let names = Self::get_names(&self.rules);
        let ghost ndv = dedup_first(all_names(self.rules@));
        let ghost sdv = self.state.deep_view();
        let mut k: usize = 0;
        while k < self.state.len()
            invariant
                k <= self.state@.len(),
                sdv == self.state.deep_view(),
                sdv.len() == self.state@.len(),
                names.deep_view() == ndv,
                ndv == dedup_first(all_names(self.rules@)),
                forall|j: int| 0 <= j < k ==> ndv.contains(#[trigger] sdv[j]),
            decreases self.state@.len() - k,
        {
            if !contains_name(&names, &self.state[k]) {
                proof {
                    assert(sdv[k as int] == self.state[k as int]@);
                    assert(!covered(sdv, ndv));
                }
                return Err(EvalError::UnboundStateSymbol);
            }
            k = k + 1;
        }
        proof {
            assert(covered(sdv, ndv));
        }
        match try_get_n_primes(names.len()) {
            None => {
                proof {
                    assert(ndv.len() == names@.len());
                }
                return Err(EvalError::TooLarge);
            },
            Some(_) => {
            },
        }
        let ghost ps = first_primes(ndv.len());
        proof {
            assert(names@.len() == ndv.len());
        }
        let init = match try_to_prime_product(&self.state, &names) {
            None => {
                return Err(EvalError::TooLarge);
            },
            Some(v) => v,
        };
        let mut fracs: Vec<Frac> = Vec::new();
        let mut i: usize = 0;
        proof {
            assert(fracs@ =~= compile_all(self.rules@, ndv, ps).take(0));
        }
        while i < self.rules.len()
            invariant
                i <= self.rules@.len(),
                names.deep_view() == ndv,
                names@.len() == ndv.len(),
                ndv == dedup_first(all_names(self.rules@)),
                covered(self.state.deep_view(), ndv),
                ps == first_primes(ndv.len()),
                primes_fit(ndv.len()),
                all_distinct(ndv),
                forall|x: Seq<char>| ndv.contains(x) <==> all_names(self.rules@).contains(x),
                fracs@ == compile_all(self.rules@, ndv, ps).take(i as int),
                forall|j: int|
                    0 <= j < i ==> encode_rec(
                        #[trigger] self.rules@[j].left.deep_view(),
                        ndv,
                        ps,
                    ) <= i128::MAX && encode_rec(self.rules@[j].right.deep_view(), ndv, ps)
                        <= i128::MAX,
                forall|j: int| 0 <= j < i ==> frac_valid(#[trigger] fracs@[j]),
            decreases self.rules@.len() - i,
        {
            proof {
                lemma_all_names_index(self.rules@, i as int);
                let rl = self.rules@[i as int].left.deep_view();
                let rr = self.rules@[i as int].right.deep_view();
                assert(covered(rl, ndv)) by {
                    assert(forall|m: int|
                        0 <= m < rl.len() ==> rule_names_spec(&self.rules@[i as int]).contains(
                            #[trigger] rl[m],
                        )) by {
                        assert(forall|m: int|
                            0 <= m < rl.len() ==> rule_names_spec(&self.rules@[i as int])[m]
                                == #[trigger] rl[m]);
                    }
                }
                assert(covered(rr, ndv)) by {
                    assert(forall|m: int|
                        0 <= m < rr.len() ==> rule_names_spec(&self.rules@[i as int]).contains(
                            #[trigger] rr[m],
                        )) by {
                        assert(forall|m: int|
                            0 <= m < rr.len() ==> rule_names_spec(&self.rules@[i as int])[rl.len()
                                + m] == #[trigger] rr[m]);
                    }
                }
                assert(self.rules[i as int].left.deep_view() == rl);
            }
            match self.rules[i].try_to_frac(&names) {
                None => {
                    return Err(EvalError::TooLarge);
                },
                Some(f) => {
                    let ghost old_fr = fracs@;
                    fracs.push(f);
                    proof {
                        assert(f.num as int == encode_rec(
                            self.rules@[i as int].right.deep_view(),
                            ndv,
                            ps,
                        ));
                        assert(f == compile_all(self.rules@, ndv, ps)[i as int]);
                        assert(fracs@ =~= compile_all(self.rules@, ndv, ps).take(i as int + 1));
                    }
                },
            }
            i = i + 1;
        }
        proof {
            assert(fracs@ =~= compile_all(self.rules@, ndv, ps));
            assert(fracs_valid(fracs@));
            assert(!prog_too_large(self));
        }
        let (final_acc, trace, status) = run(init, &fracs, max_steps);
        let final_names = to_names(final_acc, &names);
        Ok(
            EvalReport {
                names,
                init_acc: init,
                trace,
                final_acc,
                final_names,
                status,
            },
        )
    }
}

} // verus!
