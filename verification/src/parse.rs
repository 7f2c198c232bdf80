//! The program grammar: rule lines start with `::` and separate their two
//! sides with `>`; the state section starts with `;;`; a name token may carry
//! an exponent (`cat^3`) that expands to that many repetitions. Whitespace,
//! including newlines, is insignificant between tokens. The grammar is given
//! as total specification functions over character sequences, and the
//! executable parser is proved to return exactly what they describe.
use vstd::prelude::*;
use crate::ast::{Name, Prog, Rule};
use crate::codec::rep;

verus! {

/// A hard parse failure: the whole parse fails, no partial program remains.
#[derive(Debug, Clone, Copy, PartialEq, Eq, Structural)]
pub struct ParseError {}

pub open spec fn is_ws(c: char) -> bool {
    c == ' ' || c == '\t' || c == '\n' || c == '\r'
}

/// Name characters: lower case letters, upper case letters, and hyphen.
pub open spec fn is_name_char(c: char) -> bool {
    (97 <= c as int && c as int <= 122) || (65 <= c as int && c as int <= 90) || c as int == 45
}

pub open spec fn is_digit(c: char) -> bool {
    48 <= c as int && c as int <= 57
}

pub open spec fn digit_val(c: char) -> nat {
    if is_digit(c) {
        (c as int - 48) as nat
    } else {
        0
    }
}

/// The value of a digit string, most significant digit first.
pub open spec fn digits_val(s: Seq<char>) -> nat
    decreases s.len(),
{
    if s.len() == 0 {
        0
    } else {
        digits_val(s.drop_last()) * 10 + digit_val(s.last())
    }
}

/// The first position at or after `i` holding no whitespace.
pub open spec fn skip_ws(s: Seq<char>, i: int) -> int
    decreases s.len() - i,
{
    if 0 <= i < s.len() && is_ws(s[i]) {
        skip_ws(s, i + 1)
    } else {
        i
    }
}

/// The end of the name-character run starting at `i`.
pub open spec fn scan_name(s: Seq<char>, i: int) -> int
    decreases s.len() - i,
{
    if 0 <= i < s.len() && is_name_char(s[i]) {
        scan_name(s, i + 1)
    } else {
        i
    }
}

/// The end of the digit run starting at `i`.
pub open spec fn scan_digits(s: Seq<char>, i: int) -> int
    decreases s.len() - i,
{
    if 0 <= i < s.len() && is_digit(s[i]) {
        scan_digits(s, i + 1)
    } else {
        i
    }
}

/// One name-with-exponent token at `i`: the name, its repetition count, and
/// the position after the token. An exponent larger than the machine's
/// `usize` cannot be expanded and is a malformed exponent.
pub open spec fn parse_token(s: Seq<char>, i: int) -> Option<(Seq<char>, nat, int)> {
    let e = scan_name(s, i);
    if e == i {
        None
    } else {
        let name = s.subrange(i, e);
        if e < s.len() && s[e] == '^' {
            let d = scan_digits(s, e + 1);
            if d == e + 1 {
                None
            } else {
                let k = digits_val(s.subrange(e + 1, d));
                if k > usize::MAX {
                    None
                } else {
                    Some((name, k, d))
                }
            }
        } else {
            Some((name, 1, e))
        }
    }
}

/// A whitespace-separated run of tokens, each expanded to its repetitions.
pub open spec fn parse_side(s: Seq<char>, i: int) -> (Seq<Seq<char>>, int)
    decreases s.len() - i,
{
    let j = skip_ws(s, i);
    if j < i || j > s.len() {
        (Seq::empty(), i)
    } else {
        match parse_token(s, j) {
            None => (Seq::empty(), j),
            Some((name, k, e)) => {
                if e <= i || e > s.len() {
                    (Seq::empty(), j)
                } else {
                    let pr = parse_side(s, e);
                    (rep(name, k) + pr.0, pr.1)
                }
            },
        }
    }
}

/// Zero or more rule lines: `::`, a left side, `>`, a right side.
pub open spec fn parse_rules(s: Seq<char>, i: int) -> Option<
    (Seq<(Seq<Seq<char>>, Seq<Seq<char>>)>, int),
>
    decreases s.len() - i,
{
    let j = skip_ws(s, i);
    if j < i || j + 2 > s.len() || s[j] != ':' || s[j + 1] != ':' {
        Some((Seq::empty(), j))
    } else {
        let left = parse_side(s, j + 2);
        let q = skip_ws(s, left.1);
        if q < s.len() && 0 <= q && s[q] == '>' {
            let right = parse_side(s, q + 1);
            if right.1 <= i || right.1 > s.len() {
                None
            } else {
                match parse_rules(s, right.1) {
                    None => None,
                    Some((rest, f)) => Some((seq![(left.0, right.0)] + rest, f)),
                }
            }
        } else {
            None
        }
    }
}

/// A whole program: rule lines, then `;;` and a nonempty state section,
/// then nothing but whitespace.
pub open spec fn parse_prog(s: Seq<char>) -> Option<
    (Seq<(Seq<Seq<char>>, Seq<Seq<char>>)>, Seq<Seq<char>>),
> {
    match parse_rules(s, 0) {
        None => None,
        Some((rules, p)) => {
            let j = skip_ws(s, p);
            if 0 <= j && j + 2 <= s.len() && s[j] == ';' && s[j + 1] == ';' {
                let j2 = skip_ws(s, j + 2);
                match parse_token(s, j2) {
                    None => None,
                    Some(_) => {
                        let st = parse_side(s, j + 2);
                        if skip_ws(s, st.1) == s.len() {
                            Some((rules, st.0))
                        } else {
                            None
                        }
                    },
                }
            } else {
                None
            }
        },
    }
}

/// A longer digit run never has a smaller value.
proof fn lemma_digits_val_mono(s: Seq<char>, a: int, m: int, d: int)
    requires
        0 <= a <= m <= d <= s.len(),
    ensures
        digits_val(s.subrange(a, d)) >= digits_val(s.subrange(a, m)),
    decreases d - m,
{
    if d > m {
        lemma_digits_val_mono(s, a, m, d - 1);
        assert(s.subrange(a, d).drop_last() =~= s.subrange(a, d - 1));
        assert(digits_val(s.subrange(a, d)) == digits_val(s.subrange(a, d - 1)) * 10 + digit_val(
            s.subrange(a, d).last(),
        ));
    }
}

proof fn lemma_rep_push<T>(x: T, k: nat)
    ensures
        rep(x, k + 1) == rep(x, k).push(x),
    decreases k,
{
    if k == 0 {
        assert(rep(x, 1nat) =~= rep(x, 0nat).push(x));
    } else {
        lemma_rep_push(x, (k - 1) as nat);
        assert(rep(x, k + 1) == seq![x] + rep(x, k));
        assert(seq![x] + rep(x, (k - 1) as nat).push(x) =~= (seq![x] + rep(
            x,
            (k - 1) as nat,
        )).push(x));
    }
}

fn ws_char(c: char) -> (b: bool)
    ensures
        b == is_ws(c),
{
    c == ' ' || c == '\t' || c == '\n' || c == '\r'
}

fn name_char(c: char) -> (b: bool)
    ensures
        b == is_name_char(c),
{
    let u = c as u32;
    (97 <= u && u <= 122) || (65 <= u && u <= 90) || u == 45
}

fn digit_char_test(c: char) -> (b: bool)
    ensures
        b == is_digit(c),
{
    let u = c as u32;
    48 <= u && u <= 57
}

fn skip_ws_x(s: &str, n: usize, i: usize) -> (r: usize)
    requires
        n == s@.len(),
        i <= n,
    ensures
        r as int == skip_ws(s@, i as int),
        i <= r <= n,
    decreases n - i,
{
    if i < n {
        let c = s.get_char(i);
        if ws_char(c) {
            return skip_ws_x(s, n, i + 1);
        }
    }
    i
}

fn scan_name_x(s: &str, n: usize, i: usize) -> (r: usize)
    requires
        n == s@.len(),
        i <= n,
    ensures
        r as int == scan_name(s@, i as int),
        i <= r <= n,
    decreases n - i,
{
    if i < n {
        let c = s.get_char(i);
        if name_char(c) {
            return scan_name_x(s, n, i + 1);
        }
    }
    i
}

fn scan_digits_x(s: &str, n: usize, i: usize) -> (r: usize)
    requires
        n == s@.len(),
        i <= n,
    ensures
        r as int == scan_digits(s@, i as int),
        i <= r <= n,
    decreases n - i,
{
    if i < n {
        let c = s.get_char(i);
        if digit_char_test(c) {
            return scan_digits_x(s, n, i + 1);
        }
    }
    i
}

/// Every character of a scanned digit run is a digit.
proof fn lemma_scan_digits_chars(s: Seq<char>, i: int)
    requires
        0 <= i <= s.len(),
    ensures
        forall|k: int| i <= k < scan_digits(s, i) ==> is_digit(#[trigger] s[k]),
        i <= scan_digits(s, i) <= s.len(),
    decreases s.len() - i,
{
    if i < s.len() && is_digit(s[i]) {
        lemma_scan_digits_chars(s, i + 1);
    }
}

fn parse_token_x(s: &str, n: usize, i: usize) -> (r: Option<(String, usize, usize)>)
    requires
        n == s@.len(),
        i <= n,
    ensures
        match r {
            Some(t) => parse_token(s@, i as int) == Some((t.0@, t.1 as nat, t.2 as int)) && i
                < t.2 <= n,
            None => parse_token(s@, i as int) is None,
        },
{
    let e = scan_name_x(s, n, i);
    if e == i {
        return None;
    }
    let name = s.substring_char(i, e).to_owned();
    if e < n && s.get_char(e) == '^' {
        let d = scan_digits_x(s, n, e + 1);
        if d == e + 1 {
            return None;
        }
        proof {
            lemma_scan_digits_chars(s@, e as int + 1);
        }
        let ghost a = e as int + 1;
        let mut val: usize = 0;
        let mut m: usize = e + 1;
        proof {
            assert(s@.subrange(a, a) =~= Seq::<char>::empty());
        }
        while m < d
            invariant
                e + 1 <= m <= d,
                d <= n,
                i <= n,
                n == s@.len(),
                a == e as int + 1,
                e as int == scan_name(s@, i as int),
                i < e < n,
                s@[e as int] == '^',
                d as int == scan_digits(s@, a),
                d != e + 1,
                forall|k: int| a <= k < d ==> is_digit(#[trigger] s@[k]),
                val as nat == digits_val(s@.subrange(a, m as int)),
            decreases d - m,
        {
            let c = s.get_char(m);
            proof {
                assert(is_digit(s@[m as int]));
            }
            let dv = (c as u32 - 48) as usize;
            proof {
                assert(dv as nat == digit_val(s@[m as int]));
                assert(s@.subrange(a, m as int + 1).drop_last() =~= s@.subrange(a, m as int));
                assert(s@.subrange(a, m as int + 1).last() == s@[m as int]);
            }
            let next_val = match val.checked_mul(10) {
                Some(v10) => v10.checked_add(dv),
                None => None,
            };
            match next_val {
                None => {
                    proof {
                        assert(digits_val(s@.subrange(a, m as int + 1)) > usize::MAX);
                        lemma_digits_val_mono(s@, a, m as int + 1, d as int);
                    }
                    return None;
                },
                Some(v) => {
                    val = v;
                },
            }
            m = m + 1;
        }
        Some((name, val, d))
    } else {
        Some((name, 1, e))
    }
}

/// Parses a whitespace-separated run of tokens, expanding exponents.
fn parse_side_x(s: &str, n: usize, i: usize) -> (r: (Vec<Name>, usize))
    requires
        n == s@.len(),
        i <= n,
    ensures
        parse_side(s@, i as int) == (r.0.deep_view(), r.1 as int),
        i <= r.1 <= n,
    decreases n - i,
{
    let j = skip_ws_x(s, n, i);
    match parse_token_x(s, n, j) {
        None => {
            let out: Vec<Name> = Vec::new();
            proof {
                assert(out.deep_view() =~= Seq::<Seq<char>>::empty());
            }
            (out, j)
        },
        Some((nm, k, e)) => {
            let (mut rest, f) = parse_side_x(s, n, e);
            let mut out: Vec<Name> = Vec::new();
            let mut c: usize = 0;
            proof {
                assert(out.deep_view() =~= rep(nm@, 0nat));
            }
            while c < k
                invariant
                    c <= k,
                    out.deep_view() == rep(nm@, c as nat),
                    nm@ == nm.deep_view(),
                decreases k - c,
            {
                let ghost old_dv = out.deep_view();
                out.push(nm.clone());
                proof {
                    assert(out.deep_view() =~= old_dv.push(nm@));
                    lemma_rep_push(nm@, c as nat);
                }
                c = c + 1;
            }
            let ghost expanded = out.deep_view();
            let ghost rest_dv = rest.deep_view();
            out.append(&mut rest);
            proof {
                assert(out.deep_view() =~= expanded + rest_dv);
                assert(rep(nm@, k as nat) + parse_side(s@, e as int).0 =~= out.deep_view());
            }
            (out, f)
        },
    }
}

/// Parses zero or more rule lines.
fn parse_rules_x(s: &str, n: usize, i: usize) -> (r: Option<(Vec<Rule>, usize)>)
    requires
        n == s@.len(),
        i <= n,
    ensures
        match r {
            Some(t) => {
                let sp = parse_rules(s@, i as int);
                &&& sp is Some
                &&& ({
                    let (pairs, f) = sp.unwrap();
                    &&& t.1 as int == f
                    &&& t.1 <= n
                    &&& t.0@.len() == pairs.len()
                    &&& forall|q: int|
                        0 <= q < pairs.len() ==> (#[trigger] t.0@[q]).left.deep_view()
                            == pairs[q].0 && t.0@[q].right.deep_view() == pairs[q].1
                })
            },
            None => parse_rules(s@, i as int) is None,
        },
    decreases n - i,
{
    let j = skip_ws_x(s, n, i);
    let is_rule = j < n && j + 1 < n && s.get_char(j) == ':' && s.get_char(j + 1) == ':';
    if !is_rule {
        let out: Vec<Rule> = Vec::new();
        return Some((out, j));
    }
    let (left, p) = parse_side_x(s, n, j + 2);
    let q = skip_ws_x(s, n, p);
    if q < n && s.get_char(q) == '>' {
        let (right, r2) = parse_side_x(s, n, q + 1);
        match parse_rules_x(s, n, r2) {
            None => None,
            Some((rest, f)) => {
                let rule = Rule::new(left, right);
                let mut out: Vec<Rule> = Vec::new();
                out.push(rule);
                let ghost rest_view = rest@;
                let mut rest_mut = rest;
                out.append(&mut rest_mut);
                proof {
                    let sp = parse_rules(s@, i as int);
                    let pairs = sp.unwrap().0;
                    assert(out@.len() == pairs.len());
                    assert(forall|q2: int|
                        1 <= q2 < out@.len() ==> out@[q2] == #[trigger] rest_view[q2 - 1]);
                    assert(out@[0] == rule);
                    assert forall|q2: int|
                        0 <= q2 < pairs.len() implies (#[trigger] out@[q2]).left.deep_view()
                        == pairs[q2].0 && out@[q2].right.deep_view() == pairs[q2].1 by {
                        if q2 == 0 {
                            assert(pairs[0] == (parse_side(s@, j as int + 2).0, parse_side(
                                s@,
                                q as int + 1,
                            ).0));
                        } else {
                            assert(pairs[q2] == parse_rules(s@, r2 as int).unwrap().0[q2 - 1]);
                        }
                    }
                }
                Some((out, f))
            },
        }
    } else {
        None
    }
}

/// Parses a whole program from text: rule lines in order, then the `;;`
/// state section; fails on any unrecognized character, a missing `>`, a
/// missing state marker, a malformed exponent, or trailing input.
pub fn parse_prog_text(text: &str) -> (r: Result<Prog, ParseError>)
    ensures
        match r {
            Ok(p) => {
                let sp = parse_prog(text@);
                &&& sp is Some
                &&& ({
                    let (pairs, st) = sp.unwrap();
                    &&& p.state.deep_view() == st
                    &&& p.rules@.len() == pairs.len()
                    &&& forall|q: int|
                        0 <= q < pairs.len() ==> (#[trigger] p.rules@[q]).left.deep_view()
                            == pairs[q].0 && p.rules@[q].right.deep_view() == pairs[q].1
                })
            },
            Err(_) => parse_prog(text@) is None,
        },
{
    let n = text.unicode_len();
    let rules = match parse_rules_x(text, n, 0) {
        None => {
            return Err(ParseError {});
        },
        Some(t) => t,
    };
    let (rules_vec, p) = rules;
    let j = skip_ws_x(text, n, p);
    let has_marker = j < n && j + 1 < n && text.get_char(j) == ';' && text.get_char(j + 1)
        == ';';
    if !has_marker {
        return Err(ParseError {});
    }
    let j2 = skip_ws_x(text, n, j + 2);
    match parse_token_x(text, n, j2) {
        None => {
            return Err(ParseError {});
        },
        Some(_) => {
        },
    }
    let (state, p2) = parse_side_x(text, n, j + 2);
    let tail = skip_ws_x(text, n, p2);
    if tail != n {
        return Err(ParseError {});
    }
    Ok(Prog::new(state, rules_vec))
}

} // verus!
