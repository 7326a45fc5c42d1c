use vstd::prelude::*;
use vstd::arithmetic::power::pow;
use vstd::arithmetic::div_mod::{lemma_fundamental_div_mod, lemma_fundamental_div_mod_converse};
use crate::assignment::{symbols, Assignment};

verus! {

/// The `k` lowest digits of `n` in base `b`, least significant first.
pub open spec fn digits(n: int, b: int, k: nat) -> Seq<i32>
    decreases k,
{
    if k == 0 {
        Seq::empty()
    } else {
        seq![(n % b) as i32] + digits(n / b, b, (k - 1) as nat)
    }
}

/// The number whose digits in base `b`, least significant first, are `v`.
pub open spec fn number_of(v: Seq<i32>, b: int) -> int
    decreases v.len(),
{
    if v.len() == 0 {
        0
    } else {
        v[0] + b * number_of(v.drop_first(), b)
    }
}

/// Every entry of `v` lies in `0..=max`.
pub open spec fn in_range(v: Seq<i32>, max: int) -> bool {
    forall|i: int| 0 <= i < v.len() ==> 0 <= #[trigger] v[i] <= max
}

/// How many ways there are to give each of `k` symbols a value in `0..=max`.
pub open spec fn combination_count(max: int, k: nat) -> int {
    pow(max + 1, k)
}

/// The assignment at index `n` of the odometer order over `names` and
/// `0..=max`: `names[i]` takes the `i`-th digit of `n` in base `max + 1`, so
/// the first symbol varies fastest.
pub open spec fn combination(names: Seq<char>, max: int, n: int) -> Seq<(char, i32)> {
    let d = digits(n, max + 1, names.len());
    Seq::new(names.len(), |i: int| (names[i], d[i]))
}

/// The values of `entries`, in order.
pub open spec fn values_of(entries: Seq<(char, i32)>) -> Seq<i32> {
    entries.map_values(|p: (char, i32)| p.1)
}

proof fn lemma_pow_step(b: int, k: nat)
    requires
        k > 0,
    ensures
        pow(b, k) == b * pow(b, (k - 1) as nat),
{
    reveal(pow);
}

proof fn lemma_pow_positive(b: int, k: nat)
    requires
        b >= 1,
    ensures
        pow(b, k) >= 1,
    decreases k,
{
    reveal(pow);
    if k > 0 {
        lemma_pow_positive(b, (k - 1) as nat);
        assert(b * pow(b, (k - 1) as nat) >= 1) by (nonlinear_arith)
            requires
                b >= 1,
                pow(b, (k - 1) as nat) >= 1,
        ;
    }
}

proof fn lemma_digits_shape(n: int, b: int, k: nat)
    requires
        n >= 0,
        1 <= b <= i32::MAX + 1,
    ensures
        digits(n, b, k).len() == k,
        in_range(digits(n, b, k), b - 1),
    decreases k,
{
    if k > 0 {
        lemma_fundamental_div_mod(n, b);
        assert(n / b >= 0) by (nonlinear_arith)
            requires
                n >= 0,
                b >= 1,
        ;
        lemma_digits_shape(n / b, b, (k - 1) as nat);
        let d = digits(n, b, k);
        assert forall|i: int| 0 <= i < d.len() implies 0 <= #[trigger] d[i] <= b - 1 by {
            if i > 0 {
                assert(d[i] == digits(n / b, b, (k - 1) as nat)[i - 1]);
            }
        }
    }
}

/// Reading the digits of `n` back gives `n`.
proof fn lemma_number_of_digits(n: int, b: int, k: nat)
    requires
        0 <= n < pow(b, k),
        1 <= b <= i32::MAX + 1,
    ensures
        number_of(digits(n, b, k), b) == n,
    decreases k,
{
    let d = digits(n, b, k);
    if k == 0 {
        reveal(pow);
    } else {
        lemma_pow_step(b, k);
        lemma_fundamental_div_mod(n, b);
        let q = n / b;
        let p = pow(b, (k - 1) as nat);
        assert(0 <= q < p) by (nonlinear_arith)
            requires
                n == b * q + n % b,
                0 <= n % b < b,
                0 <= n < b * p,
                b >= 1,
        ;
        lemma_number_of_digits(q, b, (k - 1) as nat);
        assert(d.drop_first() =~= digits(q, b, (k - 1) as nat));
    }
}

/// A sequence of digits is the digit expansion of its number, which stays
/// below `b` to the power of its length.
proof fn lemma_digits_of_number(v: Seq<i32>, b: int)
    requires
        1 <= b <= i32::MAX + 1,
        in_range(v, b - 1),
    ensures
        0 <= number_of(v, b) < pow(b, v.len()),
        digits(number_of(v, b), b, v.len()) == v,
    decreases v.len(),
{
    if v.len() == 0 {
        reveal(pow);
        assert(digits(0, b, 0) =~= v);
    } else {
        let rest = v.drop_first();
        assert(in_range(rest, b - 1)) by {
            assert forall|i: int| 0 <= i < rest.len() implies 0 <= #[trigger] rest[i] <= b - 1 by {
                assert(rest[i] == v[i + 1]);
            }
        }
        lemma_digits_of_number(rest, b);
        let m = number_of(rest, b);
        let x = number_of(v, b);
        let k = v.len();
        lemma_pow_step(b, k);
        let p = pow(b, (k - 1) as nat);
        assert(0 <= v[0] <= b - 1);
        assert(0 <= x < b * p) by (nonlinear_arith)
            requires
                x == v[0] + b * m,
                0 <= v[0] <= b - 1,
                0 <= m < p,
                b >= 1,
        ;
        lemma_fundamental_div_mod_converse(x, b, m, v[0] as int);
        assert(digits(x, b, k) =~= v);
    }
}

/// Raising digit `j` and clearing the digits below it, all at their
/// largest, adds one to the number.
proof fn lemma_carry(v: Seq<i32>, w: Seq<i32>, b: int, j: int)
    requires
        0 <= j < v.len(),
        w.len() == v.len(),
        forall|i: int| 0 <= i < j ==> v[i] == b - 1 && w[i] == 0,
        w[j] == v[j] + 1,
        forall|i: int| j < i < v.len() ==> w[i] == v[i],
    ensures
        number_of(w, b) == number_of(v, b) + 1,
    decreases j,
{
    if j == 0 {
        assert(w.drop_first() =~= v.drop_first());
    } else {
        lemma_carry(v.drop_first(), w.drop_first(), b, j - 1);
        assert(v[0] == b - 1 && w[0] == 0);
        let m = number_of(v.drop_first(), b);
        assert(b * (m + 1) == b * m + b) by (nonlinear_arith);
    }
}

/// The number whose digits are all at their largest is the last one.
proof fn lemma_all_largest(v: Seq<i32>, b: int)
    requires
        forall|i: int| 0 <= i < v.len() ==> v[i] == b - 1,
    ensures
        number_of(v, b) == pow(b, v.len()) - 1,
    decreases v.len(),
{
    if v.len() == 0 {
        reveal(pow);
    } else {
        lemma_all_largest(v.drop_first(), b);
        lemma_pow_step(b, v.len());
        let p = pow(b, (v.len() - 1) as nat);
        assert((b - 1) + b * (p - 1) == b * p - 1) by (nonlinear_arith);
    }
}

/// The odometer order over `names` and `0..=max` lists exactly
/// `(max + 1)^k` assignments, `k` being the number of symbols: each gives
/// the symbols in their order a value in `0..=max`, no two of them are
/// equal, and every such assignment is one of them.
pub proof fn lemma_combinations_exhaustive(names: Seq<char>, max: int)
    requires
        0 <= max <= i32::MAX,
    ensures
        forall|n: int|
            0 <= n < combination_count(max, names.len()) ==> symbols(
                #[trigger] combination(names, max, n),
            ) == names && in_range(values_of(combination(names, max, n)), max),
        forall|n1: int, n2: int|
            0 <= n1 < n2 < combination_count(max, names.len()) ==> #[trigger] combination(
                names,
                max,
                n1,
            ) != #[trigger] combination(names, max, n2),
        forall|a: Seq<(char, i32)>|
            symbols(a) == names && in_range(values_of(a), max) ==> exists|n: int|
                0 <= n < combination_count(max, names.len()) && #[trigger] combination(
                    names,
                    max,
                    n,
                ) == a,
{
    let b = max + 1;
    let k = names.len();
    assert forall|n: int| 0 <= n < combination_count(max, k) implies symbols(
        #[trigger] combination(names, max, n),
    ) == names && in_range(values_of(combination(names, max, n)), max) by {
        lemma_digits_shape(n, b, k);
        assert(symbols(combination(names, max, n)) =~= names);
        assert(values_of(combination(names, max, n)) =~= digits(n, b, k));
    }
    assert forall|n1: int, n2: int|
        0 <= n1 < n2 < combination_count(max, k) implies #[trigger] combination(names, max, n1)
        != #[trigger] combination(names, max, n2) by {
        lemma_digits_shape(n1, b, k);
        lemma_digits_shape(n2, b, k);
        lemma_number_of_digits(n1, b, k);
        lemma_number_of_digits(n2, b, k);
        assert(values_of(combination(names, max, n1)) =~= digits(n1, b, k));
        assert(values_of(combination(names, max, n2)) =~= digits(n2, b, k));
    }
    assert forall|a: Seq<(char, i32)>| symbols(a) == names && in_range(values_of(a), max) implies exists|n: int|
        0 <= n < combination_count(max, k) && #[trigger] combination(names, max, n) == a by {
        let v = values_of(a);
        lemma_digits_of_number(v, b);
        let n = number_of(v, b);
        assert(combination(names, max, n) =~= a) by {
            assert forall|i: int| 0 <= i < k implies #[trigger] combination(names, max, n)[i]
                == a[i] by {
                assert(symbols(a)[i] == a[i].0);
                assert(v[i] == a[i].1);
            }
        }
    }
}

/// A lazy enumeration of every assignment of values in `0..=max_value` to a
/// list of distinct symbols, in odometer order, the first symbol varying
/// fastest. It keeps one counter per symbol.
pub struct Combinations {
    names: Vec<char>,
    values: Vec<i32>,
    max_value: i32,
    exhausted: bool,
}

impl Combinations {
    /// The symbols being assigned.
    pub closed spec fn symbols(&self) -> Seq<char> {
        self.names@
    }

    /// The largest value a symbol takes.
    pub closed spec fn bound(&self) -> int {
        self.max_value as int
    }

    /// How many assignments have been handed out so far.
    pub closed spec fn position(&self) -> int {
        if self.exhausted {
            combination_count(self.max_value as int, self.names@.len())
        } else {
            number_of(self.values@, self.max_value + 1)
        }
    }

    /// How many assignments there are in all.
    pub open spec fn total(&self) -> int {
        combination_count(self.bound(), self.symbols().len())
    }

    pub closed spec fn wf(&self) -> bool {
        &&& self.max_value >= 0
        &&& self.names@.no_duplicates()
        &&& self.values@.len() == self.names@.len()
        &&& in_range(self.values@, self.max_value as int)
    }

    proof fn lemma_position_in_bounds(&self)
        requires
            self.wf(),
        ensures
            0 <= self.position() <= self.total(),
            !self.exhausted ==> self.position() < self.total(),
            !self.exhausted ==> digits(self.position(), self.bound() + 1, self.symbols().len())
                == self.values@,
    {
        lemma_digits_of_number(self.values@, self.max_value + 1);
    }

    /// Starts the enumeration over `names` and `0..=max_value`.
    pub fn new(names: Vec<char>, max_value: i32) -> (r: Combinations)
        requires
            max_value >= 0,
            names@.no_duplicates(),
        ensures
            r.wf(),
            r.symbols() == names@,
            r.bound() == max_value,
            r.position() == 0,
            r.total() >= 1,
    {
        let mut values: Vec<i32> = Vec::new();
        let mut i: usize = 0;
        while i < names.len()
            invariant
                i <= names@.len(),
                values@ == Seq::new(i as nat, |j: int| 0i32),
            decreases names@.len() - i,
        {
            values.push(0);
            i += 1;
            assert(values@ =~= Seq::new(i as nat, |j: int| 0i32));
        }
        let r = Combinations { names, values, max_value, exhausted: false };
        proof {
            lemma_digits_of_number(r.values@, max_value + 1);
            lemma_pow_positive(max_value + 1, r.names@.len());
            assert(number_of(r.values@, max_value + 1) == 0) by {
                lemma_all_zero(r.values@, max_value + 1);
            }
        }
        r
    }

    /// Moves the counters on by one, carrying from the first symbol towards
    /// the last; past the last assignment the enumeration is exhausted.
    fn advance(&mut self)
        requires
            old(self).wf(),
            !old(self).exhausted,
        ensures
            final(self).wf(),
            final(self).names == old(self).names,
            final(self).max_value == old(self).max_value,
            final(self).position() == old(self).position() + 1,
    {
        let ghost v = self.values@;
        let ghost b = self.max_value + 1;
        let k = self.values.len();
        let mut i: usize = 0;
        while i < k
            invariant
                k == v.len(),
                i <= k,
                self.values@.len() == k,
                self.wf(),
                b == self.max_value + 1,
                !self.exhausted,
                !old(self).exhausted,
                self.names == old(self).names,
                self.max_value == old(self).max_value,
                v == old(self).values@,
                forall|j: int| 0 <= j < i ==> v[j] == b - 1 && self.values@[j] == 0,
                forall|j: int| i <= j < k ==> self.values@[j] == v[j],
            decreases k - i,
        {
            if self.values[i] < self.max_value {
                let x = self.values[i] + 1;
                let ghost before = self.values@;
                self.values.set(i, x);
                proof {
                    assert forall|j: int| 0 <= j < i implies v[j] == b - 1 && self.values@[j]
                        == 0 by {
                        assert(self.values@[j] == before[j]);
                    }
                    lemma_carry(v, self.values@, b, i as int);
                    assert(in_range(self.values@, self.max_value as int)) by {
                        assert forall|j: int| 0 <= j < k implies 0 <= #[trigger] self.values@[j]
                            <= self.max_value by {
                            if j > i {
                                assert(self.values@[j] == v[j]);
                            }
                        }
                    }
                }
                return;
            }
            self.values.set(i, 0);
            i += 1;
        }
        self.exhausted = true;
        proof {
            lemma_all_largest(v, b);
        }
    }

    /// The next assignment of the enumeration, or `None` once all
    /// `(max_value + 1)^k` of them have been handed out.
    pub fn next(&mut self) -> (r: Option<Assignment>)
        requires
            old(self).wf(),
        ensures
            final(self).wf(),
            final(self).symbols() == old(self).symbols(),
            final(self).bound() == old(self).bound(),
            0 <= final(self).position() <= final(self).total(),
            old(self).position() < old(self).total() ==> r is Some && r->0.wf() && r->0@
                == combination(old(self).symbols(), old(self).bound(), old(self).position())
                && final(self).position() == old(self).position() + 1,
            old(self).position() >= old(self).total() ==> r is None && final(self).position()
                == old(self).position(),
    {
        proof {
            self.lemma_position_in_bounds();
        }
        if self.exhausted {
            return None;
        }
        let a = Assignment::from_parts(&self.names, &self.values);
        let ghost n = self.position();
        proof {
            assert(a@ =~= combination(self.symbols(), self.bound(), n));
        }
        self.advance();
        proof {
            self.lemma_position_in_bounds();
        }
        Some(a)
    }
}

proof fn lemma_all_zero(v: Seq<i32>, b: int)
    requires
        forall|i: int| 0 <= i < v.len() ==> v[i] == 0,
    ensures
        number_of(v, b) == 0,
    decreases v.len(),
{
    if v.len() > 0 {
        lemma_all_zero(v.drop_first(), b);
    }
}

} // verus!
