//! Digit-factor combinations: every ordered sequence of single-digit factors
//! (2..9, plus a magnitude-capped number of 1s) whose product is a given
//! number, read as a decimal number by concatenating the factors.

use vstd::prelude::*;

verus! {

/// Product of a sequence of factors.
pub open spec fn seq_product(s: Seq<u64>) -> int
    decreases s.len(),
{
    if s.len() == 0 {
        1
    } else {
        s[0] * seq_product(s.skip(1))
    }
}

/// How many factors in the sequence equal 1.
pub open spec fn count_ones(s: Seq<u64>) -> int
    decreases s.len(),
{
    if s.len() == 0 {
        0
    } else {
        (if s[0] == 1 { 1int } else { 0int }) + count_ones(s.skip(1))
    }
}

/// The decimal number obtained by reading the factors as successive digits,
/// most significant first.
pub open spec fn seq_to_int(s: Seq<u64>) -> int
    decreases s.len(),
{
    if s.len() == 0 {
        0
    } else {
        10 * seq_to_int(s.drop_last()) + s.last()
    }
}

/// Every element is a decimal digit usable as a factor.
pub open spec fn all_digits(s: Seq<u64>) -> bool {
    forall|i: int| 0 <= i < s.len() ==> 1 <= #[trigger] s[i] <= 9
}

/// No proper non-empty prefix already multiplies to `n`: the recursion stops
/// the moment the remainder reaches 1, so a sequence whose prefix exhausts `n`
/// (it would have to continue with 1s) is never produced.
pub open spec fn no_full_prefix(s: Seq<u64>, n: int) -> bool {
    forall|k: int| 1 <= k < s.len() ==> seq_product(#[trigger] s.take(k)) != n
}

/// An ordered factor sequence the generator yields for `n` under a cap on 1s.
pub open spec fn valid_factor_seq(s: Seq<u64>, n: int, cap: int) -> bool {
    &&& s.len() >= 1
    &&& all_digits(s)
    &&& seq_product(s) == n
    &&& count_ones(s) <= cap
    &&& no_full_prefix(s, n)
}

/// A product of digits is at least 1.
pub proof fn lemma_product_pos(s: Seq<u64>)
    requires
        all_digits(s),
    ensures
        seq_product(s) >= 1,
    decreases s.len(),
{
    if s.len() > 0 {
        assert(all_digits(s.skip(1)));
        lemma_product_pos(s.skip(1));
        let d = s[0] as int;
        let p = seq_product(s.skip(1));
        assert(d * p >= 1) by (nonlinear_arith)
            requires
                d >= 1,
                p >= 1,
        ;
    }
}

/// A concatenated digit value is non-negative.
pub proof fn lemma_seq_to_int_nonneg(s: Seq<u64>)
    ensures
        seq_to_int(s) >= 0,
    decreases s.len(),
{
    if s.len() > 0 {
        lemma_seq_to_int_nonneg(s.drop_last());
    }
}

/// Extending a digit sequence never shrinks its decimal reading.
pub proof fn lemma_seq_to_int_take_le(s: Seq<u64>, k: int)
    requires
        0 <= k <= s.len(),
    ensures
        seq_to_int(s.take(k)) <= seq_to_int(s),
    decreases s.len() - k,
{
    if k == s.len() {
        assert(s.take(k) =~= s);
    } else {
        lemma_seq_to_int_take_le(s, k + 1);
        assert(s.take(k + 1).drop_last() =~= s.take(k));
        lemma_seq_to_int_nonneg(s.take(k));
        assert(seq_to_int(s.take(k + 1)) == 10 * seq_to_int(s.take(k)) + s[k]);
    }
}

/// Cap on factors equal to 1, by repeated squaring of a threshold: the cap
/// grows with the magnitude of `n`, so long numbers may use proportionally
/// more 1-digits to round out their digit count.
pub open spec fn ones_cap_rec(limit: int, n: int) -> int
    decreases (if n - limit >= 0 { n - limit } else { 0 }) via ones_cap_rec_decreases
{
    if 2 <= limit && limit < n {
        1 + ones_cap_rec(limit * limit, n)
    } else {
        1
    }
}

#[via_fn]
proof fn ones_cap_rec_decreases(limit: int, n: int) {
    if 2 <= limit && limit < n {
        assert(limit * limit >= 2 * limit) by (nonlinear_arith)
            requires
                limit >= 2,
        ;
    }
}

/// The cap used for input `n`: 1 for small numbers, one more per squaring of
/// the threshold 10 that stays below `n`.
pub open spec fn max_ones_spec(n: u64) -> int {
    ones_cap_rec(10, n as int)
}

/// The cap is always at least 1.
pub proof fn lemma_ones_cap_pos(limit: int, n: int)
    ensures
        ones_cap_rec(limit, n) >= 1,
    decreases (if n - limit >= 0 { n - limit } else { 0 }),
{
    if 2 <= limit && limit < n {
        assert(limit * limit >= 2 * limit) by (nonlinear_arith)
            requires
                limit >= 2,
        ;
        lemma_ones_cap_pos(limit * limit, n);
    }
}

/// All ordered factor sequences for remainder `rem` whose first factor is at
/// least `f`, with at most `budget` factors equal to 1, in the order the
/// search enumerates them: factors in increasing order, depth first.
pub open spec fn combos_from(f: u64, rem: u64, budget: u64) -> Seq<Seq<u64>>
    decreases rem, budget, 10 - f, via combos_from_decreases
{
    if f < 1 || f > 9 {
        Seq::empty()
    } else {
        let rest = combos_from((f + 1) as u64, rem, budget);
        if (f == 1 && budget == 0) || rem % f != 0 {
            rest
        } else {
            let q = rem / f;
            if q == 1 {
                seq![seq![f]] + rest
            } else if q == 0 {
                rest
            } else {
                let nb = if f == 1 { (budget - 1) as u64 } else { budget };
                combos_from(1, q, nb).map_values(|t: Seq<u64>| seq![f] + t) + rest
            }
        }
    }
}

#[via_fn]
proof fn combos_from_decreases(f: u64, rem: u64, budget: u64) {
    if 1 <= f && f <= 9 && !((f == 1 && budget == 0) || rem % f != 0) {
        let q = rem / f;
        vstd::arithmetic::div_mod::lemma_div_basics(rem as int);
        if q != 1 && q != 0 {
            if f == 1 {
                assert(q == rem);
            } else {
                vstd::arithmetic::div_mod::lemma_div_basics(f as int);
                assert(rem != 0);
                vstd::arithmetic::div_mod::lemma_div_decreases(rem as int, f as int);
            }
        }
    }
}

proof fn lemma_cons_product(f: u64, t: Seq<u64>)
    ensures
        seq_product(seq![f] + t) == f * seq_product(t),
{
    assert((seq![f] + t).skip(1) =~= t);
    assert((seq![f] + t)[0] == f);
}

proof fn lemma_cons_count(f: u64, t: Seq<u64>)
    ensures
        count_ones(seq![f] + t) == (if f == 1 {
            1int
        } else {
            0int
        }) + count_ones(t),
{
    assert((seq![f] + t).skip(1) =~= t);
    assert((seq![f] + t)[0] == f);
}

/// A factor sequence beginning with an admissible factor `f`, followed by a
/// valid factorization of the quotient, is a valid factorization of `rem`.
proof fn lemma_cons_valid(f: u64, t: Seq<u64>, rem: u64, budget: u64, nb: u64)
    requires
        1 <= f <= 9,
        rem % f == 0,
        rem / f >= 2,
        nb == (if f == 1 {
            (budget - 1) as u64
        } else {
            budget
        }),
        f == 1 ==> budget >= 1,
        valid_factor_seq(t, (rem / f) as int, nb as int),
    ensures
        valid_factor_seq(seq![f] + t, rem as int, budget as int),
{
    let q = rem / f;
    let s = seq![f] + t;
    vstd::arithmetic::div_mod::lemma_fundamental_div_mod(rem as int, f as int);
    assert(rem as int == f * q);
    lemma_cons_product(f, t);
    lemma_cons_count(f, t);
    assert(f * q >= 2 * f) by (nonlinear_arith)
        requires
            q >= 2,
            f >= 1,
    ;
    assert forall|k: int| 1 <= k < s.len() implies seq_product(#[trigger] s.take(k))
        != rem as int by {
        if k == 1 {
            assert(s.take(1) =~= seq![f]);
            lemma_cons_product(f, Seq::empty());
            assert(seq![f] + Seq::<u64>::empty() =~= seq![f]);
            assert(seq_product(seq![f]) == f);
        } else {
            assert(s.take(k) =~= seq![f] + t.take(k - 1));
            lemma_cons_product(f, t.take(k - 1));
            let p = seq_product(t.take(k - 1));
            if f * p == f * q {
                assert(p == q) by (nonlinear_arith)
                    requires
                        f >= 1,
                        f * p == f * q,
                ;
                assert(seq_product(t.take(k - 1)) != q as int);
            }
        }
    }
}

/// A one-factor sequence is a valid factorization of the factor itself.
proof fn lemma_single_valid(f: u64, rem: u64, budget: u64)
    requires
        1 <= f <= 9,
        rem == f,
        f == 1 ==> budget >= 1,
    ensures
        valid_factor_seq(seq![f], rem as int, budget as int),
{
    assert(seq![f].skip(1) =~= Seq::<u64>::empty());
    assert(seq_product(seq![f]) == f * seq_product(Seq::<u64>::empty()));
    assert(count_ones(seq![f]) == (if f == 1 {
        1int
    } else {
        0int
    }) + count_ones(Seq::<u64>::empty()));
}

/// Everything the enumeration yields is a valid factor sequence whose first
/// factor is at least `f`.
pub proof fn lemma_combos_sound(f: u64, rem: u64, budget: u64)
    ensures
        forall|i: int|
            0 <= i < combos_from(f, rem, budget).len() ==> {
                let s = #[trigger] combos_from(f, rem, budget)[i];
                valid_factor_seq(s, rem as int, budget as int) && s[0] >= f
            },
    decreases rem, budget, 10 - f,
{
    if 1 <= f && f <= 9 {
        let cs = combos_from(f, rem, budget);
        let rest = combos_from((f + 1) as u64, rem, budget);
        lemma_combos_sound((f + 1) as u64, rem, budget);
        if (f == 1 && budget == 0) || rem % f != 0 {
            assert(cs == rest);
        } else {
            let q = rem / f;
            vstd::arithmetic::div_mod::lemma_div_basics(rem as int);
            vstd::arithmetic::div_mod::lemma_div_basics(f as int);
            if q == 1 {
                vstd::arithmetic::div_mod::lemma_fundamental_div_mod(rem as int, f as int);
                assert(rem == f);
                lemma_single_valid(f, rem, budget);
                assert forall|i: int| 0 <= i < cs.len() implies {
                    let s = #[trigger] cs[i];
                    valid_factor_seq(s, rem as int, budget as int) && s[0] >= f
                } by {
                    if i == 0 {
                        assert(cs[0] == seq![f]);
                    } else {
                        assert(cs[i] == rest[i - 1]);
                    }
                }
            } else if q == 0 {
                assert(cs == rest);
            } else {
                let nb = if f == 1 {
                    (budget - 1) as u64
                } else {
                    budget
                };
                if f >= 2 {
                    vstd::arithmetic::div_mod::lemma_div_decreases(rem as int, f as int);
                }
                lemma_combos_sound(1, q, nb);
                let inner = combos_from(1, q, nb);
                let prepended = inner.map_values(|t: Seq<u64>| seq![f] + t);
                assert forall|i: int| 0 <= i < cs.len() implies {
                    let s = #[trigger] cs[i];
                    valid_factor_seq(s, rem as int, budget as int) && s[0] >= f
                } by {
                    if i < prepended.len() {
                        let t = inner[i];
                        assert(cs[i] == seq![f] + t);
                        lemma_cons_valid(f, t, rem, budget, nb);
                        assert((seq![f] + t)[0] == f);
                    } else {
                        assert(cs[i] == rest[i - prepended.len()]);
                    }
                }
            }
        }
    }
}

/// How many 1s a sequence holds is never negative.
proof fn lemma_count_ones_nonneg(s: Seq<u64>)
    ensures
        count_ones(s) >= 0,
    decreases s.len(),
{
    if s.len() > 0 {
        lemma_count_ones_nonneg(s.skip(1));
    }
}

/// Every valid factor sequence whose first factor is at least `f` appears in
/// the enumeration.
pub proof fn lemma_combos_complete(f: u64, rem: u64, budget: u64, s: Seq<u64>)
    requires
        1 <= f <= 9,
        valid_factor_seq(s, rem as int, budget as int),
        s[0] >= f,
    ensures
        combos_from(f, rem, budget).contains(s),
    decreases rem, budget, 10 - f,
{
    let cs = combos_from(f, rem, budget);
    let rest = combos_from((f + 1) as u64, rem, budget);
    if s[0] == f {
        let t = s.skip(1);
        assert(s =~= seq![f] + t);
        lemma_cons_product(f, t);
        lemma_cons_count(f, t);
        assert(all_digits(t)) by {
            assert(forall|i: int| 0 <= i < t.len() ==> t[i] == s[i + 1]);
        }
        lemma_product_pos(t);
        lemma_count_ones_nonneg(t);
        let p = seq_product(t);
        assert(rem as int == f * p);
        vstd::arithmetic::div_mod::lemma_div_multiples_vanish(p, f as int);
        vstd::arithmetic::div_mod::lemma_mod_multiples_basic(p, f as int);
        assert((f * p) % (f as int) == 0) by {
            assert(f * p == p * f) by (nonlinear_arith);
        }
        assert(rem % f == 0);
        assert(rem / f == p);
        let q = rem / f;
        if f == 1 {
            assert(count_ones(s) >= 1);
            assert(budget >= 1);
        }
        if s.len() == 1 {
            assert(t =~= Seq::<u64>::empty());
            assert(p == 1);
            assert(q == 1);
            assert(cs == seq![seq![f]] + rest);
            assert(s =~= seq![f]);
            assert(cs[0] == s);
            assert(cs.contains(s));
        } else {
            assert(t.len() >= 1);
            if p == 1 {
                assert(s.take(1) =~= seq![f]);
                lemma_cons_product(f, Seq::empty());
                assert(seq![f] + Seq::<u64>::empty() =~= seq![f]);
                assert(seq_product(s.take(1)) == f);
                assert(seq_product(s.take(1)) != rem as int);
                assert(false);
            }
            assert(q >= 2);
            let nb = if f == 1 {
                (budget - 1) as u64
            } else {
                budget
            };
            assert(valid_factor_seq(t, q as int, nb as int)) by {
                assert(seq_product(t) == q);
                assert(count_ones(t) <= nb);
                assert forall|k: int| 1 <= k < t.len() implies seq_product(#[trigger] t.take(k))
                    != q as int by {
                    assert(s.take(k + 1) =~= seq![f] + t.take(k));
                    lemma_cons_product(f, t.take(k));
                    if seq_product(t.take(k)) == q as int {
                        assert(seq_product(s.take(k + 1)) == f * q);
                        assert(seq_product(s.take(k + 1)) != rem as int);
                    }
                }
            }
            assert(1 <= t[0] <= 9);
            if f >= 2 {
                vstd::arithmetic::div_mod::lemma_div_decreases(rem as int, f as int);
            }
            lemma_combos_complete(1, q, nb, t);
            let inner = combos_from(1, q, nb);
            let j = choose|j: int| 0 <= j < inner.len() && inner[j] == t;
            let prepended = inner.map_values(|u: Seq<u64>| seq![f] + u);
            assert(cs == prepended + rest);
            assert(cs[j] == seq![f] + t);
            assert(cs[j] == s);
            assert(cs.contains(s));
        }
    } else {
        assert(1 <= s[0] <= 9);
        lemma_combos_complete((f + 1) as u64, rem, budget, s);
        let j = choose|j: int| 0 <= j < rest.len() && rest[j] == s;
        if (f == 1 && budget == 0) || rem % f != 0 {
            assert(cs == rest);
            assert(cs.contains(s));
        } else {
            let q = rem / f;
            if q == 1 {
                assert(cs == seq![seq![f]] + rest);
                assert(cs[j + 1] == s);
                assert(cs.contains(s));
            } else if q == 0 {
                assert(cs == rest);
                assert(cs.contains(s));
            } else {
                let nb = if f == 1 {
                    (budget - 1) as u64
                } else {
                    budget
                };
                let prepended = combos_from(1, q, nb).map_values(|u: Seq<u64>| seq![f] + u);
                assert(cs == prepended + rest);
                assert(cs[prepended.len() + j] == s);
                assert(cs.contains(s));
            }
        }
    }
}

/// The views of a sequence of vectors.
pub open spec fn views_of(s: Seq<Vec<u64>>) -> Seq<Seq<u64>> {
    s.map_values(|v: Vec<u64>| v@)
}

proof fn lemma_views_push(s: Seq<Vec<u64>>, v: Vec<u64>)
    ensures
        views_of(s.push(v)) == views_of(s).push(v@),
{
    assert(views_of(s.push(v)) =~= views_of(s).push(v@));
}

/// Materialises every factor sequence for `rem` with at most `budget` 1s,
/// in enumeration order.
fn expand(rem: u64, budget: u64) -> (r: Vec<Vec<u64>>)
    ensures
        views_of(r@) == combos_from(1, rem, budget),
    decreases rem, budget,
{
    let mut acc: Vec<Vec<u64>> = Vec::new();
    let mut f: u64 = 1;
    proof {
        assert(views_of(acc@) =~= Seq::<Seq<u64>>::empty());
        assert(Seq::<Seq<u64>>::empty() + combos_from(1, rem, budget) =~= combos_from(
            1,
            rem,
            budget,
        ));
    }
    while f <= 9
        invariant
            1 <= f <= 10,
            views_of(acc@) + combos_from(f, rem, budget) == combos_from(1, rem, budget),
        decreases 10 - f,
    {
        let ghost entry_views = views_of(acc@);
        if !(f == 1 && budget == 0) && rem % f == 0 {
            let q = rem / f;
            if q == 1 {
                let mut w: Vec<u64> = Vec::new();
                w.push(f);
                proof {
                    lemma_views_push(acc@, w);
                    assert(w@ =~= seq![f]);
                }
                acc.push(w);
                proof {
                    assert(combos_from(f, rem, budget) == seq![seq![f]] + combos_from(
                        (f + 1) as u64,
                        rem,
                        budget,
                    ));
                    assert(entry_views.push(seq![f]) + combos_from((f + 1) as u64, rem, budget)
                        =~= entry_views + (seq![seq![f]] + combos_from((f + 1) as u64, rem, budget)));
                }
            } else if q != 0 {
                let nb = if f == 1 { budget - 1 } else { budget };
                proof {
                    vstd::arithmetic::div_mod::lemma_div_basics(rem as int);
                    vstd::arithmetic::div_mod::lemma_div_basics(f as int);
                    if f >= 2 {
                        vstd::arithmetic::div_mod::lemma_div_decreases(rem as int, f as int);
                    }
                }
                let sub = expand(q, nb);
                let ghost prepended = combos_from(1, q, nb).map_values(|t: Seq<u64>| seq![f] + t);
                let mut j: usize = 0;
                proof {
                    assert(entry_views + prepended.take(0) =~= entry_views);
                }
                while j < sub.len()
                    invariant
                        0 <= j <= sub@.len(),
                        views_of(sub@) == combos_from(1, q, nb),
                        prepended == combos_from(1, q, nb).map_values(|t: Seq<u64>| seq![f] + t),
                        1 <= f <= 9,
                        views_of(acc@) == entry_views + prepended.take(j as int),
                    decreases sub@.len() - j,
                {
                    let mut w: Vec<u64> = Vec::new();
                    w.push(f);
                    let sj = &sub[j];
                    let mut k: usize = 0;
                    while k < sj.len()
                        invariant
                            0 <= k <= sj@.len(),
                            w@ == seq![f] + sj@.take(k as int),
                        decreases sj@.len() - k,
                    {
                        w.push(sj[k]);
                        proof {
                            assert(seq![f] + sj@.take(k + 1) =~= (seq![f] + sj@.take(
                                k as int,
                            )).push(sj@[k as int]));
                        }
                        k = k + 1;
                    }
                    proof {
                        assert(sj@.take(sj@.len() as int) =~= sj@);
                        assert(sj@ == views_of(sub@)[j as int]);
                        assert(prepended[j as int] == seq![f] + sj@);
                        lemma_views_push(acc@, w);
                        assert(entry_views + prepended.take(j + 1) =~= (entry_views
                            + prepended.take(j as int)).push(prepended[j as int]));
                    }
                    acc.push(w);
                    j = j + 1;
                }
                proof {
                    assert(prepended.take(prepended.len() as int) =~= prepended);
                    assert(combos_from(f, rem, budget) == prepended + combos_from(
                        (f + 1) as u64,
                        rem,
                        budget,
                    ));
                    assert(entry_views + prepended + combos_from((f + 1) as u64, rem, budget)
                        =~= entry_views + (prepended + combos_from((f + 1) as u64, rem, budget)));
                }
            }
        }
        f = f + 1;
    }
    acc
}

/// Reads the factors as decimal digits, most significant first; reports
/// `None` when the resulting number does not fit the integer width.
pub fn as_integer(xs: &Vec<u64>) -> (r: Option<u64>)
    ensures
        match r {
            Some(v) => v as int == seq_to_int(xs@),
            None => seq_to_int(xs@) > u64::MAX as int,
        },
{
    let mut acc: u64 = 0;
    let mut i: usize = 0;
    while i < xs.len()
        invariant
            0 <= i <= xs@.len(),
            acc as int == seq_to_int(xs@.take(i as int)),
        decreases xs@.len() - i,
    {
        let x = xs[i];
        proof {
            assert(xs@.take(i + 1).drop_last() =~= xs@.take(i as int));
            assert(xs@.take(i + 1).last() == xs@[i as int]);
        }
        if acc > u64::MAX / 10 {
            proof {
                lemma_seq_to_int_take_le(xs@, i + 1);
            }
            return None;
        }
        let shifted = acc * 10;
        if x > u64::MAX - shifted {
            proof {
                lemma_seq_to_int_take_le(xs@, i + 1);
            }
            return None;
        }
        acc = shifted + x;
        i = i + 1;
    }
    proof {
        assert(xs@.take(xs@.len() as int) =~= xs@);
    }
    Some(acc)
}

/// The decimal readings of the factor sequences, keeping those that fit the
/// integer width and differ from `n` itself, in enumeration order.
pub open spec fn outputs_of(cs: Seq<Seq<u64>>, n: u64) -> Seq<u64>
    decreases cs.len(),
{
    if cs.len() == 0 {
        Seq::empty()
    } else {
        let rest = outputs_of(cs.drop_last(), n);
        let v = seq_to_int(cs.last());
        if v <= u64::MAX as int && v != n as int {
            rest.push(v as u64)
        } else {
            rest
        }
    }
}

/// Everything `factor_combinations` returns for `n`, in order.
pub open spec fn outputs_spec(n: u64) -> Seq<u64> {
    outputs_of(combos_from(1, n, max_ones_spec(n) as u64), n)
}

/// Every distinct number formed by concatenating an ordered sequence of
/// single-digit factors (2..9, plus at most `max_ones_spec(n)` 1s) whose
/// product is `n`, excluding `n` itself.  Factorizations whose concatenated
/// reading does not fit the integer width are omitted, so the search never
/// overflows.
pub fn factor_combinations(n: u64) -> (r: Vec<u64>)
    ensures
        r@ == outputs_spec(n),
{
    let mut max_ones: u64 = 1;
    let mut limit: u128 = 10;
    while limit < n as u128
        invariant
            10 <= limit,
            max_ones >= 1,
            2 * (max_ones as int) <= limit as int,
            max_ones + ones_cap_rec(limit as int, n as int) - 1 == max_ones_spec(n),
        decreases ones_cap_rec(limit as int, n as int),
    {
        proof {
            let l = limit as int;
            assert(l * l < u128::MAX as int && l * l >= 2 * l + 2 && l * l >= 2 * l) by (
            nonlinear_arith)
                requires
                    10 <= l,
                    l <= u64::MAX as int,
            ;
            lemma_ones_cap_pos(l * l, n as int);
        }
        limit = limit * limit;
        max_ones = max_ones + 1;
    }
    let seqs = expand(n, max_ones);
    proof {
        assert(max_ones as int == max_ones_spec(n));
        assert(max_ones_spec(n) as u64 == max_ones);
    }
    let mut out: Vec<u64> = Vec::new();
    let mut i: usize = 0;
    proof {
        assert(views_of(seqs@).take(0) =~= Seq::<Seq<u64>>::empty());
    }
    let ghost cs = views_of(seqs@);
    while i < seqs.len()
        invariant
            0 <= i <= seqs@.len(),
            cs == views_of(seqs@),
            out@ == outputs_of(cs.take(i as int), n),
        decreases seqs@.len() - i,
    {
        proof {
            assert(cs.take(i + 1).drop_last() =~= cs.take(i as int));
            assert(cs.take(i + 1).last() == seqs@[i as int]@);
        }
        match as_integer(&seqs[i]) {
            Some(v) => {
                if v != n {
                    out.push(v);
                }
            },
            None => {},
        }
        i = i + 1;
    }
    proof {
        assert(cs.take(seqs@.len() as int) =~= cs);
    }
    out
}

/// Product of the decimal digits of a non-negative number (a one-digit
/// number is its own digit product).
pub open spec fn digit_product(v: int) -> int
    decreases v, via digit_product_decreases
{
    if v < 10 {
        v
    } else {
        (v % 10) * digit_product(v / 10)
    }
}

#[via_fn]
proof fn digit_product_decreases(v: int) {
    if v >= 10 {
        vstd::arithmetic::div_mod::lemma_div_decreases(v, 10);
        vstd::arithmetic::div_mod::lemma_div_pos_is_pos(v, 10);
    }
}

/// The decimal digits of a number, most significant first.
pub open spec fn digits_of(v: u64) -> Seq<u64>
    decreases v,
{
    if v < 10 {
        seq![v]
    } else {
        digits_of((v / 10) as u64).push((v % 10) as u64)
    }
}

proof fn lemma_product_push(s: Seq<u64>, x: u64)
    ensures
        seq_product(s.push(x)) == seq_product(s) * x,
    decreases s.len(),
{
    if s.len() == 0 {
        assert(s.push(x) =~= seq![x]);
        assert(seq![x].skip(1) =~= Seq::<u64>::empty());
        assert(seq![x][0] == x);
        assert(seq_product(s.push(x)) == x * seq_product(Seq::<u64>::empty()));
    } else {
        assert(s.push(x).skip(1) =~= s.skip(1).push(x));
        assert(s.push(x)[0] == s[0]);
        lemma_product_push(s.skip(1), x);
        let a = s[0] as int;
        let b = seq_product(s.skip(1));
        let c = x as int;
        assert(seq_product(s.push(x)) == a * (b * c));
        assert(a * (b * c) == (a * b) * c) by (nonlinear_arith);
    }
}

/// A non-empty digit sequence reads as a number of at least 1.
pub proof fn lemma_seq_to_int_pos(s: Seq<u64>)
    requires
        all_digits(s),
        s.len() >= 1,
    ensures
        seq_to_int(s) >= 1,
{
    lemma_seq_to_int_nonneg(s.drop_last());
}

/// Reading a digit sequence as a number and taking that number's digit
/// product gives the product of the sequence.
pub proof fn lemma_digit_product_of_reading(s: Seq<u64>)
    requires
        all_digits(s),
        s.len() >= 1,
    ensures
        digit_product(seq_to_int(s)) == seq_product(s),
    decreases s.len(),
{
    let v = seq_to_int(s);
    let d = s.last() as int;
    let w = seq_to_int(s.drop_last());
    assert(v == 10 * w + d);
    if s.len() == 1 {
        assert(s.drop_last() =~= Seq::<u64>::empty());
        assert(s =~= seq![s[0]]);
        assert(s.skip(1) =~= Seq::<u64>::empty());
        assert(seq_product(s) == s[0] * seq_product(Seq::<u64>::empty()));
        assert(seq_product(s) == s[0]);
        assert(v == s[0]);
    } else {
        assert(all_digits(s.drop_last())) by {
            assert(forall|i: int| 0 <= i < s.len() - 1 ==> s.drop_last()[i] == s[i]);
        }
        lemma_seq_to_int_pos(s.drop_last());
        assert(v >= 10);
        vstd::arithmetic::div_mod::lemma_fundamental_div_mod_converse(v, 10, w, d);
        assert(v % 10 == d && v / 10 == w);
        lemma_digit_product_of_reading(s.drop_last());
        assert(s.drop_last().push(s.last()) =~= s);
        lemma_product_push(s.drop_last(), s.last());
        assert(digit_product(v) == d * digit_product(w));
        assert(seq_product(s.drop_last()) * d == d * seq_product(s.drop_last())) by (
        nonlinear_arith);
    }
}

/// The digits of the number a digit sequence reads as are that sequence.
pub proof fn lemma_reading_of_digits(v: u64)
    ensures
        digits_of(v).len() >= 1,
        seq_to_int(digits_of(v)) == v,
    decreases v,
{
    if v >= 10 {
        vstd::arithmetic::div_mod::lemma_div_pos_is_pos(v as int, 10);
        vstd::arithmetic::div_mod::lemma_div_nonincreasing(v as int, 10);
        vstd::arithmetic::div_mod::lemma_mod_bound(v as int, 10);
        vstd::arithmetic::div_mod::lemma_fundamental_div_mod(v as int, 10);
        lemma_reading_of_digits((v / 10) as u64);
        let w = digits_of((v / 10) as u64);
        let d = (v % 10) as u64;
        assert(w.push(d).drop_last() =~= w);
        assert(w.push(d).last() == d);
        assert(seq_to_int(digits_of(v)) == 10 * seq_to_int(w) + d);
        assert(seq_to_int(w) == ((v / 10) as u64) as int);
        assert(((v / 10) as u64) as int == v as int / 10);
        assert(d as int == v as int % 10);
    } else {
        assert(seq![v].drop_last() =~= Seq::<u64>::empty());
        assert(seq![v].last() == v);
        assert(seq_to_int(digits_of(v)) == 10 * seq_to_int(Seq::<u64>::empty()) + v);
    }
}

proof fn lemma_outputs_of_sound(cs: Seq<Seq<u64>>, n: u64)
    ensures
        forall|j: int|
            0 <= j < outputs_of(cs, n).len() ==> {
                let v = #[trigger] outputs_of(cs, n)[j];
                v != n && exists|i: int|
                    0 <= i < cs.len() && seq_to_int(#[trigger] cs[i]) == v as int
            },
    decreases cs.len(),
{
    if cs.len() > 0 {
        lemma_outputs_of_sound(cs.drop_last(), n);
        let rest = outputs_of(cs.drop_last(), n);
        let v = seq_to_int(cs.last());
        assert forall|j: int| 0 <= j < outputs_of(cs, n).len() implies {
            let u = #[trigger] outputs_of(cs, n)[j];
            u != n && exists|i: int| 0 <= i < cs.len() && seq_to_int(#[trigger] cs[i]) == u as int
        } by {
            if j < rest.len() {
                let u = rest[j];
                let i = choose|i: int|
                    0 <= i < cs.drop_last().len() && seq_to_int(#[trigger] cs.drop_last()[i])
                        == u as int;
                assert(cs.drop_last()[i] == cs[i]);
                assert(seq_to_int(cs[i]) == u as int);
            } else {
                lemma_seq_to_int_nonneg(cs.last());
                assert(seq_to_int(cs[cs.len() - 1]) == outputs_of(cs, n)[j] as int);
            }
        }
    }
}

proof fn lemma_outputs_of_complete(cs: Seq<Seq<u64>>, n: u64, i: int)
    requires
        0 <= i < cs.len(),
        seq_to_int(cs[i]) <= u64::MAX as int,
        seq_to_int(cs[i]) != n as int,
        seq_to_int(cs[i]) >= 0,
    ensures
        outputs_of(cs, n).contains(seq_to_int(cs[i]) as u64),
    decreases cs.len(),
{
    let out = outputs_of(cs, n);
    let v = seq_to_int(cs[i]) as u64;
    if i == cs.len() - 1 {
        assert(out[out.len() - 1] == v);
        assert(out.contains(v));
    } else {
        assert(cs.drop_last()[i] == cs[i]);
        lemma_outputs_of_complete(cs.drop_last(), n, i);
        let rest = outputs_of(cs.drop_last(), n);
        let j = choose|j: int| 0 <= j < rest.len() && rest[j] == v;
        assert(out[j] == v);
        assert(out.contains(v));
    }
}

/// The cap on 1-factors for a machine-width input is between 1 and 6.
pub proof fn lemma_max_ones_bound(n: u64)
    ensures
        1 <= max_ones_spec(n) <= 6,
{
    lemma_ones_cap_pos(10, n as int);
    let l16: int = 10_000_000_000_000_000;
    let l32: int = l16 * l16;
    assert(l32 > u64::MAX as int);
    assert(ones_cap_rec(l32, n as int) == 1);
    assert(ones_cap_rec(l16, n as int) <= 2);
    assert(ones_cap_rec(100_000_000, n as int) <= 3);
    assert(ones_cap_rec(10_000, n as int) <= 4);
    assert(ones_cap_rec(100, n as int) <= 5);
    assert(ones_cap_rec(10, n as int) <= 6);
}

/// Single-digit inputs allow one factor equal to 1, and no more.
pub proof fn lemma_small_input_cap(n: u64)
    requires
        n <= 10,
    ensures
        max_ones_spec(n) == 1,
{
}

/// Every number the generator yields for `n` differs from `n`, and its
/// decimal digits, multiplied together, give back exactly `n`.
pub proof fn lemma_outputs_digit_product(n: u64, j: int)
    requires
        0 <= j < outputs_spec(n).len(),
    ensures
        outputs_spec(n)[j] != n,
        digit_product(outputs_spec(n)[j] as int) == n as int,
{
    let cap = max_ones_spec(n) as u64;
    let cs = combos_from(1, n, cap);
    lemma_outputs_of_sound(cs, n);
    let v = outputs_spec(n)[j];
    let i = choose|i: int| 0 <= i < cs.len() && seq_to_int(#[trigger] cs[i]) == v as int;
    lemma_combos_sound(1, n, cap);
    assert(valid_factor_seq(cs[i], n as int, cap as int));
    lemma_digit_product_of_reading(cs[i]);
}

/// Every number other than `n` itself whose digits are all factors in 1..9,
/// multiply to `n` under the 1-cap, and whose digit sequence the recursion
/// reaches (no proper prefix of the digits already multiplies to `n`) is
/// among the generator's outputs.
pub proof fn lemma_outputs_complete(n: u64, v: u64)
    requires
        v != n,
        valid_factor_seq(digits_of(v), n as int, max_ones_spec(n)),
    ensures
        outputs_spec(n).contains(v),
{
    let cap = max_ones_spec(n) as u64;
    lemma_max_ones_bound(n);
    assert(cap as int == max_ones_spec(n));
    let s = digits_of(v);
    lemma_reading_of_digits(v);
    lemma_combos_complete(1, n, cap, s);
    let cs = combos_from(1, n, cap);
    let i = choose|i: int| 0 <= i < cs.len() && cs[i] == s;
    lemma_outputs_of_complete(cs, n, i);
}

/// A number between 1 and the integer maximum determines its digit sequence.
pub proof fn lemma_digits_of_reading(s: Seq<u64>)
    requires
        all_digits(s),
        s.len() >= 1,
        seq_to_int(s) <= u64::MAX as int,
    ensures
        digits_of(seq_to_int(s) as u64) == s,
    decreases s.len(),
{
    lemma_seq_to_int_pos(s);
    let v = seq_to_int(s) as u64;
    let d = s.last();
    let w = seq_to_int(s.drop_last());
    assert(seq_to_int(s) == 10 * w + d);
    if s.len() == 1 {
        assert(s.drop_last() =~= Seq::<u64>::empty());
        assert(v == d);
        assert(digits_of(v) =~= s);
    } else {
        assert(all_digits(s.drop_last())) by {
            assert(forall|i: int| 0 <= i < s.len() - 1 ==> s.drop_last()[i] == s[i]);
        }
        lemma_seq_to_int_pos(s.drop_last());
        assert(v >= 10);
        vstd::arithmetic::div_mod::lemma_fundamental_div_mod_converse(v as int, 10, w, d as int);
        assert(v as int / 10 == w && v as int % 10 == d);
        lemma_digits_of_reading(s.drop_last());
        assert(digits_of(v) == digits_of((v / 10) as u64).push((v % 10) as u64));
        assert((v / 10) as u64 as int == w);
        assert(digits_of((v / 10) as u64) == s.drop_last());
        assert(s.drop_last().push(s.last()) =~= s);
    }
}

/// Two different valid digit sequences read as two different numbers.
proof fn lemma_reading_injective(s1: Seq<u64>, s2: Seq<u64>)
    requires
        all_digits(s1),
        all_digits(s2),
        s1.len() >= 1,
        s2.len() >= 1,
        seq_to_int(s1) <= u64::MAX as int,
        seq_to_int(s1) == seq_to_int(s2),
    ensures
        s1 == s2,
{
    lemma_digits_of_reading(s1);
    lemma_digits_of_reading(s2);
}

/// The enumeration never yields the same factor sequence twice.
pub proof fn lemma_combos_distinct(f: u64, rem: u64, budget: u64)
    ensures
        forall|i: int, j: int|
            0 <= i < j < combos_from(f, rem, budget).len() ==> #[trigger] combos_from(
                f,
                rem,
                budget,
            )[i] != #[trigger] combos_from(f, rem, budget)[j],
    decreases rem, budget, 10 - f,
{
    if 1 <= f && f <= 9 {
        let cs = combos_from(f, rem, budget);
        let rest = combos_from((f + 1) as u64, rem, budget);
        lemma_combos_distinct((f + 1) as u64, rem, budget);
        lemma_combos_sound((f + 1) as u64, rem, budget);
        if (f == 1 && budget == 0) || rem % f != 0 {
            assert(cs == rest);
        } else {
            let q = rem / f;
            if q == 1 {
                assert(cs == seq![seq![f]] + rest);
                assert forall|i: int, j: int| 0 <= i < j < cs.len() implies #[trigger] cs[i]
                    != #[trigger] cs[j] by {
                    if i == 0 {
                        assert(cs[j] == rest[j - 1]);
                        assert(cs[j][0] >= f + 1);
                        assert(cs[0] == seq![f]);
                    } else {
                        assert(cs[i] == rest[i - 1] && cs[j] == rest[j - 1]);
                    }
                }
            } else if q == 0 {
                assert(cs == rest);
            } else {
                let nb = if f == 1 {
                    (budget - 1) as u64
                } else {
                    budget
                };
                vstd::arithmetic::div_mod::lemma_div_basics(rem as int);
                vstd::arithmetic::div_mod::lemma_div_basics(f as int);
                if f >= 2 {
                    vstd::arithmetic::div_mod::lemma_div_decreases(rem as int, f as int);
                }
                lemma_combos_distinct(1, q, nb);
                let inner = combos_from(1, q, nb);
                let prepended = inner.map_values(|t: Seq<u64>| seq![f] + t);
                assert(cs == prepended + rest);
                assert forall|i: int, j: int| 0 <= i < j < cs.len() implies #[trigger] cs[i]
                    != #[trigger] cs[j] by {
                    if j < prepended.len() {
                        assert(cs[i] == seq![f] + inner[i] && cs[j] == seq![f] + inner[j]);
                        if cs[i] == cs[j] {
                            assert((seq![f] + inner[i]).skip(1) =~= inner[i]);
                            assert((seq![f] + inner[j]).skip(1) =~= inner[j]);
                            assert(inner[i] == inner[j]);
                            assert(false);
                        }
                    } else if i < prepended.len() {
                        assert(cs[i] == seq![f] + inner[i]);
                        assert(cs[i][0] == f);
                        assert(cs[j] == rest[j - prepended.len()]);
                        assert(cs[j][0] >= f + 1);
                        assert(valid_factor_seq(cs[j], rem as int, budget as int));
                    } else {
                        assert(cs[i] == rest[i - prepended.len()] && cs[j] == rest[j
                            - prepended.len()]);
                    }
                }
            }
        }
    }
}

proof fn lemma_outputs_of_distinct(cs: Seq<Seq<u64>>, n: u64)
    requires
        forall|i: int| 0 <= i < cs.len() ==> all_digits(#[trigger] cs[i]) && cs[i].len() >= 1,
        forall|i: int, j: int| 0 <= i < j < cs.len() ==> #[trigger] cs[i] != #[trigger] cs[j],
    ensures
        forall|j1: int, j2: int|
            0 <= j1 < j2 < outputs_of(cs, n).len() ==> #[trigger] outputs_of(cs, n)[j1]
                != #[trigger] outputs_of(cs, n)[j2],
    decreases cs.len(),
{
    if cs.len() > 0 {
        let prior = cs.drop_last();
        assert(forall|i: int| 0 <= i < prior.len() ==> prior[i] == cs[i]);
        lemma_outputs_of_distinct(prior, n);
        lemma_outputs_of_sound(prior, n);
        let rest = outputs_of(prior, n);
        let out = outputs_of(cs, n);
        let v = seq_to_int(cs.last());
        assert forall|j1: int, j2: int| 0 <= j1 < j2 < out.len() implies #[trigger] out[j1]
            != #[trigger] out[j2] by {
            if j2 < rest.len() {
                assert(out[j1] == rest[j1] && out[j2] == rest[j2]);
            } else {
                assert(v <= u64::MAX as int && v != n as int);
                assert(out[j2] == v as u64);
                assert(out[j1] == rest[j1]);
                if out[j1] == out[j2] {
                    let i = choose|i: int|
                        0 <= i < prior.len() && seq_to_int(#[trigger] prior[i]) == rest[j1] as int;
                    lemma_seq_to_int_nonneg(cs.last());
                    assert(seq_to_int(cs[i]) == v);
                    lemma_reading_injective(cs[i], cs.last());
                    assert(cs[i] == cs[cs.len() - 1]);
                    assert(false);
                }
            }
        }
    }
}

/// One call's output holds no duplicates: distinct factor sequences read as
/// distinct numbers.
pub proof fn lemma_outputs_distinct(n: u64)
    ensures
        forall|i: int, j: int|
            0 <= i < j < outputs_spec(n).len() ==> #[trigger] outputs_spec(n)[i]
                != #[trigger] outputs_spec(n)[j],
{
    let cap = max_ones_spec(n) as u64;
    let cs = combos_from(1, n, cap);
    lemma_combos_sound(1, n, cap);
    lemma_combos_distinct(1, n, cap);
    lemma_outputs_of_distinct(cs, n);
}

/// The degenerate input 0 yields nothing: no digits 1..9 multiply to 0.
pub proof fn lemma_outputs_zero()
    ensures
        outputs_spec(0) == Seq::<u64>::empty(),
{
    let cap = max_ones_spec(0) as u64;
    let cs = combos_from(1, 0, cap);
    lemma_combos_sound(1, 0, cap);
    if cs.len() > 0 {
        assert(valid_factor_seq(cs[0], 0, cap as int));
        lemma_product_pos(cs[0]);
        assert(false);
    }
    assert(outputs_spec(0) =~= Seq::<u64>::empty());
}

} // verus!
