//! What an expression means.
//!
//! A [`Model`] gives the constants and the operations a meaning in some domain of values.
//! [`value`] is the meaning of a term in a model under bindings of its variables. The
//! library computes no values itself; what it lays out and rewrites is held against this
//! meaning.

use crate::expression::{ExprKind, Function};
use crate::scalar::Scalar;
use crate::term::Term;
use vstd::prelude::*;

verus! {

/// An interpretation of the constants and operations in a domain `V`.
#[verifier::reject_recursive_types(V)]
pub ghost struct Model<V> {
    pub constant: spec_fn(Scalar) -> V,
    pub add: spec_fn(V, V) -> V,
    pub mul: spec_fn(V, V) -> V,
    pub pow: spec_fn(V, V) -> V,
    pub exp: spec_fn(V) -> V,
    pub ln: spec_fn(V) -> V,
    pub sin: spec_fn(V) -> V,
    pub cos: spec_fn(V) -> V,
}

impl<V> Model<V> {
    /// The value of the constant `c`.
    pub open spec fn number(self, c: Scalar) -> V {
        (self.constant)(c)
    }

    /// The value of zero.
    pub open spec fn zero(self) -> V {
        (self.constant)(Scalar { re: 0, im: 0, den: 1 })
    }

    /// The value of one.
    pub open spec fn one(self) -> V {
        (self.constant)(Scalar { re: 1, im: 0, den: 1 })
    }

    /// `a + b`.
    pub open spec fn plus(self, a: V, b: V) -> V {
        (self.add)(a, b)
    }

    /// `a · b`.
    pub open spec fn times(self, a: V, b: V) -> V {
        (self.mul)(a, b)
    }

    /// `a` raised to `b`.
    pub open spec fn power(self, a: V, b: V) -> V {
        (self.pow)(a, b)
    }

    /// The function `f` at `a`.
    pub open spec fn apply(self, f: Function, a: V) -> V {
        match f {
            Function::Sin => (self.sin)(a),
            Function::Cos => (self.cos)(a),
        }
    }

    /// The sum of the first `n` values, from the left, starting at zero.
    pub open spec fn sum(self, vs: Seq<V>, n: int) -> V
        decreases n,
    {
        if n <= 0 {
            self.zero()
        } else {
            self.plus(self.sum(vs, n - 1), vs[n - 1])
        }
    }

    /// The product of the first `n` values, from the left, starting at one.
    pub open spec fn product(self, vs: Seq<V>, n: int) -> V
        decreases n,
    {
        if n <= 0 {
            self.one()
        } else {
            self.times(self.product(vs, n - 1), vs[n - 1])
        }
    }

    /// The sum of all the values.
    pub open spec fn total(self, vs: Seq<V>) -> V {
        self.sum(vs, vs.len() as int)
    }

    /// The product of all the values.
    pub open spec fn whole(self, vs: Seq<V>) -> V {
        self.product(vs, vs.len() as int)
    }

    /// The values form a commutative semiring under `add` and `mul`, with the values of
    /// the constants zero and one as neutral elements, and zero annihilating.
    #[verifier::opaque]
    pub open spec fn is_semiring(self) -> bool {
        &&& forall|a: V, b: V| #[trigger] self.plus(a, b) == self.plus(b, a)
        &&& forall|a: V, b: V, c: V|
            #[trigger] self.plus(self.plus(a, b), c) == self.plus(a, self.plus(b, c))
        &&& forall|a: V| #[trigger] self.plus(self.zero(), a) == a
        &&& forall|a: V, b: V| #[trigger] self.times(a, b) == self.times(b, a)
        &&& forall|a: V, b: V, c: V|
            #[trigger] self.times(self.times(a, b), c) == self.times(a, self.times(b, c))
        &&& forall|a: V| #[trigger] self.times(self.one(), a) == a
        &&& forall|a: V| #[trigger] self.times(self.zero(), a) == self.zero()
        &&& forall|a: V, b: V, c: V|
            #[trigger] self.times(a, self.plus(b, c)) == self.plus(
                self.times(a, b),
                self.times(a, c),
            )
    }

    /// The values of the constants follow the exact arithmetic: a constant of value zero
    /// means zero, one of value one means one, and an exact sum or product means the sum
    /// or product of the values.
    #[verifier::opaque]
    pub open spec fn respects_constants(self) -> bool {
        &&& forall|c: Scalar| c.zero_valued() ==> #[trigger] self.number(c) == self.zero()
        &&& forall|c: Scalar|
            c.well_formed() && c.one_valued() ==> #[trigger] self.number(c) == self.one()
        &&& forall|a: Scalar, b: Scalar|
            a.well_formed() && b.well_formed() && a.sum(b) is Some ==> self.number(
                (#[trigger] a.sum(b))->0,
            ) == self.plus(self.number(a), self.number(b))
        &&& forall|a: Scalar, b: Scalar|
            a.well_formed() && b.well_formed() && a.product(b) is Some ==> self.number(
                (#[trigger] a.product(b))->0,
            ) == self.times(self.number(a), self.number(b))
    }
    /// The powers and the exponential follow the rules of exponents: the exponential of
    /// zero is one, and the exponential of a logarithm is the argument of the logarithm; a
    /// power of exponent one is its base, a power of exponent zero is one, and so is
    /// every power of one; zero under a constant exponent with a positive real part is
    /// zero; a constant that is not zero, under an integral constant, means the exact
    /// power; and a power under an integral constant, taken to an integral constant, is
    /// the power under the product of the two.
    #[verifier::opaque]
    pub open spec fn respects_powers(self) -> bool {
        &&& (self.exp)(self.zero()) == self.one()
        &&& forall|a: V| #[trigger] (self.exp)((self.ln)(a)) == a
        &&& forall|a: V, c: Scalar, d: Scalar|
            c.well_formed() && d.well_formed() && c.integral() && d.integral()
                ==> #[trigger] self.power(self.power(a, self.number(c)), self.number(d))
                == self.power(a, self.times(self.number(c), self.number(d)))
        &&& forall|a: V| #[trigger] self.power(a, self.one()) == a
        &&& forall|a: V| #[trigger] self.power(a, self.zero()) == self.one()
        &&& forall|e: V| #[trigger] self.power(self.one(), e) == self.one()
        &&& forall|c: Scalar|
            c.well_formed() && c.positive_real_part() ==> self.power(
                self.zero(),
                #[trigger] self.number(c),
            ) == self.zero()
        &&& forall|b: Scalar, n: Scalar|
            b.well_formed() && n.well_formed() && !b.zero_valued() && n.integral()
                && b.integer_power(n.integer_value()) is Some ==> #[trigger] self.power(
                self.number(b),
                self.number(n),
            ) == self.number(b.integer_power(n.integer_value())->0)
    }
}

/// The values of the operands of a term.
pub open spec fn values<V>(m: Model<V>, t: Term, env: Seq<V>) -> Seq<V>
    decreases t, 0int,
{
    Seq::new(
        t.args.len(),
        |i: int|
            if 0 <= i < t.args.len() {
                value(m, t.args[i], env)
            } else {
                m.zero()
            },
    )
}

/// The value of a term in a model, with `env[i]` bound to the variable of id `i`.
///
/// A sum, and a root, is the sum of its operands, and a product their product. A node
/// with fewer operands than its operation takes has an unspecified value.
pub open spec fn value<V>(m: Model<V>, t: Term, env: Seq<V>) -> V
    decreases t, 1int,
{
    let vs = values(m, t, env);
    match t.kind {
        ExprKind::Const(c) => m.number(c),
        ExprKind::Var(v) => env[v.id as int],
        ExprKind::Root | ExprKind::Add => m.total(vs),
        ExprKind::Mul => m.whole(vs),
        ExprKind::Pow => m.power(vs[0], vs[1]),
        ExprKind::Exp => (m.exp)(vs[0]),
        ExprKind::Ln => (m.ln)(vs[0]),
        ExprKind::Func(f) => m.apply(f, vs[0]),
    }
}

/// The values of a sequence of terms.
pub open spec fn values_of<V>(m: Model<V>, ts: Seq<Term>, env: Seq<V>) -> Seq<V> {
    Seq::new(ts.len(), |i: int| value(m, ts[i], env))
}

/// Addition is commutative.
pub proof fn lemma_plus_comm<V>(m: Model<V>, a: V, b: V)
    requires
        m.is_semiring(),
    ensures
        m.plus(a, b) == m.plus(b, a),
{
    reveal(Model::is_semiring);
}

/// Addition is associative.
pub proof fn lemma_plus_assoc<V>(m: Model<V>, a: V, b: V, c: V)
    requires
        m.is_semiring(),
    ensures
        m.plus(m.plus(a, b), c) == m.plus(a, m.plus(b, c)),
{
    reveal(Model::is_semiring);
}

/// Zero is neutral on both sides.
pub proof fn lemma_plus_zero<V>(m: Model<V>, a: V)
    requires
        m.is_semiring(),
    ensures
        m.plus(a, m.zero()) == a,
        m.plus(m.zero(), a) == a,
{
    reveal(Model::is_semiring);
    assert(m.plus(m.zero(), a) == a);
    assert(m.plus(a, m.zero()) == m.plus(m.zero(), a));
}

/// Multiplication is commutative.
pub proof fn lemma_times_comm<V>(m: Model<V>, a: V, b: V)
    requires
        m.is_semiring(),
    ensures
        m.times(a, b) == m.times(b, a),
{
    reveal(Model::is_semiring);
}

/// Multiplication is associative.
pub proof fn lemma_times_assoc<V>(m: Model<V>, a: V, b: V, c: V)
    requires
        m.is_semiring(),
    ensures
        m.times(m.times(a, b), c) == m.times(a, m.times(b, c)),
{
    reveal(Model::is_semiring);
}

/// One is neutral and zero annihilates, on both sides.
pub proof fn lemma_times_units<V>(m: Model<V>, a: V)
    requires
        m.is_semiring(),
    ensures
        m.times(a, m.one()) == a,
        m.times(m.one(), a) == a,
        m.times(a, m.zero()) == m.zero(),
        m.times(m.zero(), a) == m.zero(),
{
    reveal(Model::is_semiring);
    assert(m.times(m.one(), a) == a);
    assert(m.times(m.zero(), a) == m.zero());
    assert(m.times(a, m.one()) == m.times(m.one(), a));
    assert(m.times(a, m.zero()) == m.times(m.zero(), a));
}

/// Multiplication distributes over addition, on both sides.
pub proof fn lemma_distributes<V>(m: Model<V>, a: V, b: V, c: V)
    requires
        m.is_semiring(),
    ensures
        m.times(a, m.plus(b, c)) == m.plus(m.times(a, b), m.times(a, c)),
        m.times(m.plus(b, c), a) == m.plus(m.times(b, a), m.times(c, a)),
{
    reveal(Model::is_semiring);
    assert(m.times(a, m.plus(b, c)) == m.plus(m.times(a, b), m.times(a, c)));
    assert(m.times(m.plus(b, c), a) == m.times(a, m.plus(b, c)));
    assert(m.times(b, a) == m.times(a, b));
    assert(m.times(c, a) == m.times(a, c));
}

/// A constant of value zero means zero, one of value one means one.
pub proof fn lemma_number_units<V>(m: Model<V>, c: Scalar)
    requires
        m.respects_constants(),
    ensures
        c.zero_valued() ==> m.number(c) == m.zero(),
        c.well_formed() && c.one_valued() ==> m.number(c) == m.one(),
{
    reveal(Model::respects_constants);
}

/// An exact sum means the sum of the values, an exact product their product.
pub proof fn lemma_number_arithmetic<V>(m: Model<V>, a: Scalar, b: Scalar)
    requires
        m.respects_constants(),
        a.well_formed(),
        b.well_formed(),
    ensures
        a.sum(b) matches Some(c) ==> m.number(c) == m.plus(m.number(a), m.number(b)),
        a.product(b) matches Some(c) ==> m.number(c) == m.times(m.number(a), m.number(b)),
{
    reveal(Model::respects_constants);
    if a.sum(b) is Some {
        assert(m.number(a.sum(b)->0) == m.plus(m.number(a), m.number(b)));
    }
    if a.product(b) is Some {
        assert(m.number(a.product(b)->0) == m.times(m.number(a), m.number(b)));
    }
}

/// The rules of exponents with the exponents zero and one, and of the base one.
pub proof fn lemma_power_units<V>(m: Model<V>, a: V)
    requires
        m.respects_powers(),
    ensures
        (m.exp)(m.zero()) == m.one(),
        m.power(a, m.one()) == a,
        m.power(a, m.zero()) == m.one(),
        m.power(m.one(), a) == m.one(),
{
    reveal(Model::respects_powers);
}

/// The exponential of a logarithm is the argument of the logarithm.
pub proof fn lemma_exp_of_ln<V>(m: Model<V>, a: V)
    requires
        m.respects_powers(),
    ensures
        (m.exp)((m.ln)(a)) == a,
{
    reveal(Model::respects_powers);
}

/// A power under an integral constant, taken to an integral constant, is the power under
/// the product of the two.
pub proof fn lemma_power_of_power<V>(m: Model<V>, a: V, c: Scalar, d: Scalar)
    requires
        m.respects_powers(),
        c.well_formed(),
        d.well_formed(),
        c.integral(),
        d.integral(),
    ensures
        m.power(m.power(a, m.number(c)), m.number(d)) == m.power(
            a,
            m.times(m.number(c), m.number(d)),
        ),
{
    reveal(Model::respects_powers);
}

/// The powers of constants: zero under an exponent with a positive real part is zero,
/// and a constant that is not zero under an integral constant means the exact power.
pub proof fn lemma_power_of_numbers<V>(m: Model<V>, b: Scalar, n: Scalar)
    requires
        m.respects_powers(),
        b.well_formed(),
        n.well_formed(),
    ensures
        n.positive_real_part() ==> m.power(m.zero(), m.number(n)) == m.zero(),
        !b.zero_valued() && n.integral() && b.integer_power(n.integer_value()) is Some
            ==> m.power(m.number(b), m.number(n)) == m.number(
            b.integer_power(n.integer_value())->0,
        ),
{
    reveal(Model::respects_powers);
    if n.positive_real_part() {
        assert(m.power(m.zero(), m.number(n)) == m.zero());
    }
    if !b.zero_valued() && n.integral() && b.integer_power(n.integer_value()) is Some {
        assert(m.power(m.number(b), m.number(n)) == m.number(
            b.integer_power(n.integer_value())->0,
        ));
    }
}

/// A sum looks at its first `n` values only.
pub proof fn lemma_sum_prefix<V>(m: Model<V>, a: Seq<V>, b: Seq<V>, n: int)
    requires
        n <= a.len(),
        n <= b.len(),
        forall|i: int| 0 <= i < n ==> a[i] == b[i],
    ensures
        m.sum(a, n) == m.sum(b, n),
    decreases n,
{
    if n > 0 {
        lemma_sum_prefix(m, a, b, n - 1);
    }
}

/// A product looks at its first `n` values only.
pub proof fn lemma_product_prefix<V>(m: Model<V>, a: Seq<V>, b: Seq<V>, n: int)
    requires
        n <= a.len(),
        n <= b.len(),
        forall|i: int| 0 <= i < n ==> a[i] == b[i],
    ensures
        m.product(a, n) == m.product(b, n),
    decreases n,
{
    if n > 0 {
        lemma_product_prefix(m, a, b, n - 1);
    }
}

/// The sum of values with one more value.
pub proof fn lemma_total_push<V>(m: Model<V>, vs: Seq<V>, x: V)
    ensures
        m.total(vs.push(x)) == m.plus(m.total(vs), x),
        m.whole(vs.push(x)) == m.times(m.whole(vs), x),
{
    lemma_sum_prefix(m, vs.push(x), vs, vs.len() as int);
    lemma_product_prefix(m, vs.push(x), vs, vs.len() as int);
}

/// The sum and the product of no values, of one and of two.
pub proof fn lemma_total_small<V>(m: Model<V>, a: V, b: V)
    requires
        m.is_semiring(),
    ensures
        m.total(Seq::<V>::empty()) == m.zero(),
        m.whole(Seq::<V>::empty()) == m.one(),
        m.total(seq![a]) == a,
        m.whole(seq![a]) == a,
        m.total(seq![a, b]) == m.plus(a, b),
        m.whole(seq![a, b]) == m.times(a, b),
{
    reveal_with_fuel(Model::sum, 3);
    reveal_with_fuel(Model::product, 3);
    lemma_plus_zero(m, a);
    lemma_times_units(m, a);
}

/// The sum of two runs of values is the sum of their sums, and so for products.
pub proof fn lemma_total_add<V>(m: Model<V>, a: Seq<V>, b: Seq<V>)
    requires
        m.is_semiring(),
    ensures
        m.total(a + b) == m.plus(m.total(a), m.total(b)),
        m.whole(a + b) == m.times(m.whole(a), m.whole(b)),
    decreases b.len(),
{
    if b.len() == 0 {
        assert(a + b =~= a);
        lemma_plus_zero(m, m.total(a));
        lemma_times_units(m, m.whole(a));
    } else {
        let front = b.drop_last();
        assert(a + b =~= (a + front).push(b.last()));
        assert(b =~= front.push(b.last()));
        lemma_total_push(m, a + front, b.last());
        lemma_total_push(m, front, b.last());
        lemma_total_add(m, a, front);
        lemma_plus_assoc(m, m.total(a), m.total(front), b.last());
        lemma_times_assoc(m, m.whole(a), m.whole(front), b.last());
    }
}

/// A sum of zeros is zero.
pub proof fn lemma_total_of_zeros<V>(m: Model<V>, vs: Seq<V>)
    requires
        m.is_semiring(),
        forall|i: int| 0 <= i < vs.len() ==> vs[i] == m.zero(),
    ensures
        m.total(vs) == m.zero(),
    decreases vs.len(),
{
    if vs.len() > 0 {
        let front = vs.drop_last();
        assert(vs =~= front.push(vs.last()));
        lemma_total_push(m, front, vs.last());
        lemma_total_of_zeros(m, front);
        lemma_plus_zero(m, m.zero());
    }
}

/// A product with a zero among its factors is zero.
pub proof fn lemma_whole_with_zero<V>(m: Model<V>, vs: Seq<V>, k: int)
    requires
        m.is_semiring(),
        0 <= k < vs.len(),
        vs[k] == m.zero(),
    ensures
        m.whole(vs) == m.zero(),
    decreases vs.len(),
{
    let front = vs.drop_last();
    assert(vs =~= front.push(vs.last()));
    lemma_total_push(m, front, vs.last());
    if k == vs.len() - 1 {
        lemma_times_units(m, m.whole(front));
    } else {
        lemma_whole_with_zero(m, front, k);
        lemma_times_units(m, vs.last());
    }
}

/// The values of two runs of terms, one after the other, and of a run with one more term.
pub proof fn lemma_values_of_add<V>(m: Model<V>, a: Seq<Term>, b: Seq<Term>, env: Seq<V>)
    ensures
        values_of(m, a + b, env) == values_of(m, a, env) + values_of(m, b, env),
        b.len() > 0 ==> values_of(m, b, env) == values_of(m, b.drop_last(), env).push(
            value(m, b.last(), env),
        ),
        values_of(m, Seq::empty(), env) == Seq::<V>::empty(),
{
    assert(values_of(m, a + b, env) =~= values_of(m, a, env) + values_of(m, b, env));
    if b.len() > 0 {
        assert(values_of(m, b, env) =~= values_of(m, b.drop_last(), env).push(
            value(m, b.last(), env),
        ));
    }
    assert(values_of(m, Seq::empty(), env) =~= Seq::<V>::empty());
}

/// The operands of a term have the values of its sequence of operands.
pub proof fn lemma_values<V>(m: Model<V>, t: Term, env: Seq<V>)
    ensures
        values(m, t, env) == values_of(m, t.args, env),
{
    assert(values(m, t, env) =~= values_of(m, t.args, env));
}

} // verus!
