use vstd::prelude::*;

use crate::error::GraphError;
use crate::graph::AdjMatrix;
use crate::matrix::{
    add_fits, adjacency_mat, dot, identity_mat, in_i128, is_square, mat_add, mat_mul, mat_trace,
    mul_fits, scalar_mat, trace_fits, Matrix,
};

verus! {

/// One Faddeev–LeVerrier step `k` from `B_{k-1} = b` and the coefficients
/// `c_1 .. c_{k-1}`: `M = a·b`, `c_k = -trace(M) / k`, `B_k = M + c_k·I`.
/// `None` when a product, sum or trace leaves `i128`, or `k` does not divide the trace.
pub open spec fn fl_step(a: Seq<Seq<int>>, b: Seq<Seq<int>>, cs: Seq<int>, k: int) -> Option<
    (Seq<Seq<int>>, Seq<int>),
> {
    let m = mat_mul(a, b);
    let t = mat_trace(m);
    let c = -(t / k);
    if mul_fits(a, b) && trace_fits(m) && t % k == 0 && in_i128(c) && add_fits(
        m,
        scalar_mat(a.len() as int, c),
    ) {
        Some((mat_add(m, scalar_mat(a.len() as int, c)), cs.push(c)))
    } else {
        None
    }
}

/// `B_k` and `c_1 .. c_k` after `k` Faddeev–LeVerrier steps, starting from `B_0 = I`.
pub open spec fn fl_run(a: Seq<Seq<int>>, k: nat) -> Option<(Seq<Seq<int>>, Seq<int>)>
    decreases k,
{
    if k == 0 {
        Some((identity_mat(a.len() as int), Seq::empty()))
    } else {
        match fl_run(a, (k - 1) as nat) {
            None => None,
            Some(prev) => fl_step(a, prev.0, prev.1, k as int),
        }
    }
}

/// The characteristic polynomial of `a`, coefficient `p` of `x^p` at index `p`:
/// 1 at degree `n`, and `c_k` at degree `n - k`.
pub open spec fn char_poly(a: Seq<Seq<int>>) -> Option<Seq<int>> {
    let n = a.len() as int;
    match fl_run(a, n as nat) {
        None => None,
        Some(s) => Some(
            Seq::new((n + 1) as nat, |p: int| if p == n { 1 } else { s.1[n - 1 - p] }),
        ),
    }
}

proof fn lemma_fl_run_none(a: Seq<Seq<int>>, k: nat, l: nat)
    requires
        k <= l,
        fl_run(a, k) is None,
    ensures
        fl_run(a, l) is None,
    decreases l - k,
{
    if k < l {
        lemma_fl_run_none(a, k, (l - 1) as nat);
    }
}

proof fn lemma_fl_run_shape(a: Seq<Seq<int>>, k: nat)
    requires
        is_square(a, a.len() as int),
        fl_run(a, k) is Some,
    ensures
        is_square(fl_run(a, k).unwrap().0, a.len() as int),
        fl_run(a, k).unwrap().1.len() == k,
    decreases k,
{
    if k > 0 {
        lemma_fl_run_shape(a, (k - 1) as nat);
    }
}

/// The characteristic polynomial of a square matrix, by the Faddeev–LeVerrier
/// recurrence in exact integers. Fails with `ArithmeticInvariant` when a step
/// leaves `i128` or a trace is not divisible by its step number.
pub fn characteristic_polynomial(matrix_a: &Matrix) -> (r: Result<Vec<i128>, GraphError>)
    requires
        matrix_a.wf(),
    ensures
        char_poly(matrix_a@) is None ==> r == Err::<Vec<i128>, GraphError>(
            GraphError::ArithmeticInvariant,
        ),
        char_poly(matrix_a@) is Some ==> (r matches Ok(p) && p@.len() == matrix_a.dim() + 1
            && forall|q: int| 0 <= q < p@.len() ==> #[trigger] p@[q] == char_poly(matrix_a@).unwrap()[q]),
{
    proof {
        matrix_a.lemma_wf();
    }
    let ghost a = matrix_a@;
    let n = matrix_a.get_n();
    let nu = n as usize;
    let mut coeffs: Vec<i128> = vec![0i128; nu + 1];
    coeffs[nu] = 1;
    let mut matrix_b = match Matrix::identity(n) {
        Ok(m) => m,
        Err(e) => return Err(e),
    };
    let mut i: u64 = 1;
    while i <= n
        invariant
            matrix_a.wf(),
            a == matrix_a@,
            n == matrix_a.dim(),
            nu == n,
            n < 0x4000_0000,
            n * n <= crate::matrix::MAX_ENTRIES,
            is_square(a, n as int),
            1 <= i <= n + 1,
            matrix_b.wf(),
            matrix_b.dim() == n,
            fl_run(a, (i - 1) as nat) is Some,
            matrix_b@ == fl_run(a, (i - 1) as nat).unwrap().0,
            coeffs@.len() == n + 1,
            coeffs@[n as int] == 1,
            forall|k: int|
                1 <= k < i ==> #[trigger] coeffs@[n - k] == fl_run(a, (i - 1) as nat).unwrap().1[k
                    - 1],
        decreases n + 1 - i,
    {
        let ghost prev = fl_run(a, (i - 1) as nat).unwrap();
        proof {
            lemma_fl_run_shape(a, (i - 1) as nat);
        }
        let multiplied = match crate::matrix::multiply(matrix_a, &matrix_b) {
            Ok(m) => m,
            Err(e) => {
                proof {
                    lemma_fl_run_none(a, i as nat, n as nat);
                }
                return Err(e);
            },
        };
        let trace = match multiplied.trace() {
            Ok(t) => t,
            Err(e) => {
                proof {
                    assert(multiplied@ == mat_mul(a, prev.0));
                    lemma_fl_run_none(a, i as nat, n as nat);
                }
                return Err(e);
            },
        };
        proof {
            assert(multiplied@ == mat_mul(a, prev.0));
            assert(mul_fits(a, prev.0));
            assert(trace_fits(multiplied@));
            if n > 0 {
                assert(in_i128(crate::matrix::trace_upto(multiplied@, multiplied@.len() as int)));
            }
            assert(trace == mat_trace(multiplied@));
            assert(fl_run(a, i as nat) == fl_step(a, prev.0, prev.1, i as int));
        }
        let k = i as i128;
        proof {
            assert(i128::MIN <= trace as int / k as int <= i128::MAX) by (nonlinear_arith)
                requires
                    k >= 1,
                    i128::MIN <= trace <= i128::MAX,
            ;
        }
        let exact = match trace.checked_rem_euclid(k) {
            Some(rem) => rem == 0,
            None => false,
        };
        let quotient = match trace.checked_div_euclid(k) {
            Some(q) => q,
            None => 0,
        };
        let coeff = match 0i128.checked_sub(quotient) {
            Some(c) => c,
            None => 0,
        };
        if !exact || quotient == i128::MIN {
            proof {
                assert(multiplied@ == mat_mul(a, prev.0));
                if exact {
                    assert(quotient as int == trace as int / i as int);
                    assert(!in_i128(-(trace as int / i as int)));
                }
                assert(fl_run(a, i as nat) is None);
                lemma_fl_run_none(a, i as nat, n as nat);
            }
            return Err(GraphError::ArithmeticInvariant);
        }
        proof {
            assert(k as int == i as int);
            assert(quotient as int == trace as int / k as int);
            assert(coeff as int == -(trace as int / i as int));
        }
        coeffs[nu - i as usize] = coeff;
        let diagonal = match Matrix::scalar(n, coeff) {
            Ok(m) => m,
            Err(e) => return Err(e),
        };
        matrix_b = match crate::matrix::add(&multiplied, &diagonal) {
            Ok(m) => m,
            Err(e) => {
                proof {
                    assert(multiplied@ == mat_mul(a, prev.0));
                    lemma_fl_run_none(a, i as nat, n as nat);
                }
                return Err(e);
            },
        };
        proof {
            assert(multiplied@ == mat_mul(a, prev.0));
            assert(diagonal@ == scalar_mat(n as int, coeff as int));
            assert(add_fits(multiplied@, diagonal@));
            let next = fl_run(a, i as nat).unwrap();
            assert(next.1 == prev.1.push(coeff as int));
            assert forall|k: int| 1 <= k < i + 1 implies #[trigger] coeffs@[n - k] == next.1[k - 1] by {
                if k < i {
                    assert(coeffs@[n - k] == prev.1[k - 1]);
                }
            }
        }
        i = i + 1;
    }
    proof {
        let s = fl_run(a, n as nat).unwrap();
        assert forall|q: int| 0 <= q < coeffs@.len() implies #[trigger] coeffs@[q] == char_poly(
            a,
        ).unwrap()[q] by {
            if q < n {
                assert(coeffs@[n - (n - q)] == s.1[n - q - 1]);
            }
        }
    }
    Ok(coeffs)
}

/// `|d|` divides `|x|`, for nonzero `d`.
pub open spec fn divides(d: int, x: int) -> bool {
    d != 0 && abs(x) % abs(d) == 0
}

/// `|x|`.
pub open spec fn abs(x: int) -> int {
    if x < 0 {
        -x
    } else {
        x
    }
}

/// Every divisor of `number` that an `i128` can hold, ascending: the negative
/// ones from the most negative, then the positive ones. `divisors(0)` is `[0]`.
pub fn divisors(number: i128) -> (r: Vec<i128>)
    ensures
        number == 0 ==> r@ == seq![0i128],
        number != 0 ==> (forall|k: int, l: int| 0 <= k < l < r@.len() ==> r@[k] < r@[l]) && (
        forall|d: i128| r@.contains(d) <==> divides(d as int, number as int)),
{
    if number == 0 {
        return vec![0];
    }
    let m: u128 = if number > 0 {
        number as u128
    } else {
        (-(number + 1)) as u128 + 1
    };
    assert(m == abs(number as int));
    let mut output: Vec<i128> = Vec::new();
    let mut div: u128 = m;
    proof {
        assert forall|x: i128| !(x < -div && divides(x as int, number as int)) by {
            if x < -div {
                vstd::arithmetic::div_mod::lemma_small_mod(m as nat, abs(x as int) as nat);
            }
        }
    }
    while div >= 1
        invariant
            m == abs(number as int),
            1 <= m <= 0x8000_0000_0000_0000_0000_0000_0000_0000,
            div <= m,
            forall|k: int, l: int| 0 <= k < l < output@.len() ==> output@[k] < output@[l],
            forall|k: int| 0 <= k < output@.len() ==> output@[k] < 0 && output@[k] < -div,
            forall|d: i128|
                output@.contains(d) <==> (d < -div && d < 0 && divides(d as int, number as int)),
        decreases div,
    {
        if m % div == 0 {
            let d: i128 = 0i128 - ((div - 1) as i128) - 1;
            let ghost before = output@;
            output.push(d);
            proof {
                assert forall|x: i128|
                    output@.contains(x) <==> (x < -(div - 1) && x < 0 && divides(
                        x as int,
                        number as int,
                    )) by {
                    if x == d {
                        assert(output@[before.len() as int] == d);
                    } else if output@.contains(x) {
                        let k = choose|k: int| 0 <= k < output@.len() && output@[k] == x;
                        assert(before[k] == x);
                    } else if x < -div && divides(x as int, number as int) {
                        assert(before.contains(x));
                        let k = choose|k: int| 0 <= k < before.len() && before[k] == x;
                        assert(output@[k] == x);
                    }
                }
            }
        } else {
            proof {
                assert forall|x: i128|
                    output@.contains(x) <==> (x < -(div - 1) && x < 0 && divides(
                        x as int,
                        number as int,
                    )) by {
                    if x == -div {
                        assert(!divides(x as int, number as int));
                    }
                }
            }
        }
        div = div - 1;
    }
    let ghost negatives = output@;
    let mut div: u128 = 1;
    while div <= m
        invariant
            m == abs(number as int),
            1 <= m <= 0x8000_0000_0000_0000_0000_0000_0000_0000,
            1 <= div <= m + 1,
            output@.len() >= negatives.len(),
            forall|k: int, l: int| 0 <= k < l < output@.len() ==> output@[k] < output@[l],
            forall|k: int| 0 <= k < output@.len() ==> output@[k] < div,
            forall|d: i128|
                output@.contains(d) <==> (d < div && divides(d as int, number as int)),
        decreases m + 1 - div,
    {
        if m % div == 0 && div <= 0x7fff_ffff_ffff_ffff_ffff_ffff_ffff_ffff {
            let d = div as i128;
            let ghost before = output@;
            output.push(d);
            proof {
                assert forall|x: i128| output@.contains(x) <==> (x < div + 1 && divides(
                    x as int,
                    number as int,
                )) by {
                    if x == d {
                        assert(output@[before.len() as int] == d);
                    } else if output@.contains(x) {
                        let k = choose|k: int| 0 <= k < output@.len() && output@[k] == x;
                        assert(before[k] == x);
                    } else if x < div && divides(x as int, number as int) {
                        assert(before.contains(x));
                        let k = choose|k: int| 0 <= k < before.len() && before[k] == x;
                        assert(output@[k] == x);
                    }
                }
            }
        } else {
            proof {
                assert forall|x: i128| output@.contains(x) <==> (x < div + 1 && divides(
                    x as int,
                    number as int,
                )) by {
                    if x == div {
                        assert(!divides(x as int, number as int));
                    }
                }
            }
        }
        div = div + 1;
    }
    proof {
        assert forall|x: i128| output@.contains(x) <==> divides(x as int, number as int) by {
            if divides(x as int, number as int) {
                assert(abs(x as int) <= m) by {
                    vstd::arithmetic::div_mod::lemma_mod_is_zero(m as nat, abs(x as int) as nat);
                }
            }
        }
    }
    output
}

/// The coefficients of an `i128` polynomial as integers.
pub open spec fn ints(p: Seq<i128>) -> Seq<int> {
    Seq::new(p.len(), |i: int| p[i] as int)
}

/// Coefficient `i` of the quotient of `p` by `(x - r)` in synthetic division:
/// `q[i] = p[i + 1] + r·q[i + 1]`, and zero from index `len - 1` on.
pub open spec fn quot_coeff(p: Seq<int>, r: int, i: int) -> int
    decreases p.len() - i,
{
    if i >= p.len() - 1 {
        0
    } else {
        p[i + 1] + r * quot_coeff(p, r, i + 1)
    }
}

/// The quotient of `p` by `(x - r)`, one degree lower.
pub open spec fn quotient(p: Seq<int>, r: int) -> Seq<int> {
    Seq::new((p.len() - 1) as nat, |i: int| quot_coeff(p, r, i))
}

/// The remainder of `p` divided by `(x - r)`, which is `p(r)`.
pub open spec fn remainder(p: Seq<int>, r: int) -> int {
    p[0] + r * quot_coeff(p, r, 0)
}

/// Step `i` of the synthetic division, `r·q[i + 1]` and `q[i]`, fits in an `i128`.
pub open spec fn division_step_fits(p: Seq<int>, r: int, i: int) -> bool {
    in_i128(r * quot_coeff(p, r, i + 1)) && in_i128(quot_coeff(p, r, i))
}

/// Every product and sum of the synthetic division fits in an `i128`.
pub open spec fn division_fits(p: Seq<int>, r: int) -> bool {
    &&& forall|i: int| 0 <= i < p.len() - 1 ==> #[trigger] division_step_fits(p, r, i)
    &&& in_i128(r * quot_coeff(p, r, 0))
    &&& in_i128(remainder(p, r))
}

/// `(x - r)` divides the nonempty `p` exactly, with every step within `i128`.
pub open spec fn exact_division(p: Seq<int>, r: int) -> bool {
    p.len() >= 1 && division_fits(p, r) && remainder(p, r) == 0
}

/// Whether the polynomial splits into integer linear factors, by the search of
/// the rational root test: a constant is factorable; with a zero constant term
/// the root 0 is divided out; otherwise some divisor `d` of the constant term
/// divides the polynomial exactly and leaves a factorable quotient.
pub open spec fn factorable(p: Seq<int>) -> bool
    decreases p.len(),
{
    if p.len() == 0 {
        false
    } else if p.len() == 1 {
        true
    } else if p[0] == 0 {
        exact_division(p, 0) && factorable(quotient(p, 0))
    } else {
        exists|d: int|
            #[trigger] divides(d, p[0]) && in_i128(d) && exact_division(p, d) && factorable(
                quotient(p, d),
            )
    }
}

/// Divides the polynomial by `(x - r)`, coefficient `i` of `poly` being that of
/// `x^i`. `Some(quotient)` when the division is exact and every step fits in an
/// `i128`, else `None`; `None` for the empty polynomial.
pub fn synthetic_division(poly: &[i128], r: i128) -> (res: Option<Vec<i128>>)
    ensures
        exact_division(ints(poly@), r as int) ==> (res matches Some(q) && ints(q@) == quotient(
            ints(poly@),
            r as int,
        )),
        !exact_division(ints(poly@), r as int) ==> res is None,
{
    let ghost p = ints(poly@);
    let n = poly.len();
    if n == 0 {
        return None;
    }
    let mut result: Vec<i128> = vec![0i128; n - 1];
    let mut idx: usize = n - 1;
    while idx > 0
        invariant
            p == ints(poly@),
            n == poly@.len(),
            n >= 1,
            idx <= n - 1,
            result@.len() == n - 1,
            forall|t: int| idx <= t < n - 1 ==> #[trigger] result@[t] == quot_coeff(p, r as int, t),
            forall|t: int| idx <= t < n - 1 ==> #[trigger] division_step_fits(p, r as int, t),
        decreases idx,
    {
        let t = idx - 1;
        let next: i128 = if t + 1 < n - 1 {
            result[t + 1]
        } else {
            0
        };
        assert(next == quot_coeff(p, r as int, t + 1));
        assert(quot_coeff(p, r as int, t as int) == p[t + 1] + r * quot_coeff(p, r as int, t + 1));
        let prod = match r.checked_mul(next) {
            Some(v) => v,
            None => {
                assert(!in_i128(r * quot_coeff(p, r as int, t + 1)));
                assert(!division_step_fits(p, r as int, t as int));
                return None;
            },
        };
        let value = match prod.checked_add(poly[t + 1]) {
            Some(v) => v,
            None => {
                assert(!in_i128(quot_coeff(p, r as int, t as int)));
                assert(!division_step_fits(p, r as int, t as int));
                return None;
            },
        };
        result[t] = value;
        assert(division_step_fits(p, r as int, t as int));
        idx = t;
    }
    let q0: i128 = if n >= 2 {
        result[0]
    } else {
        0
    };
    assert(q0 == quot_coeff(p, r as int, 0));
    let prod = match r.checked_mul(q0) {
        Some(v) => v,
        None => return None,
    };
    let rem = match prod.checked_add(poly[0]) {
        Some(v) => v,
        None => return None,
    };
    if rem != 0 {
        return None;
    }
    assert(ints(result@) =~= quotient(p, r as int));
    Some(result)
}

/// Whether the polynomial splits into linear factors `(x - k)` with integer `k`.
pub fn is_factorable(poly: &[i128]) -> (r: bool)
    ensures
        r == factorable(ints(poly@)),
    decreases poly@.len(),
{
    let ghost p = ints(poly@);
    if poly.len() == 0 {
        return false;
    }
    if poly.len() == 1 {
        return true;
    }
    if poly[0] == 0 {
        return match synthetic_division(poly, 0) {
            Some(q) => {
                assert(ints(q@).len() == q@.len());
                is_factorable(q.as_slice())
            },
            None => false,
        };
    }
    let candidates = divisors(poly[0]);
    let mut k: usize = 0;
    while k < candidates.len()
        invariant
            p == ints(poly@),
            poly@.len() >= 2,
            poly@[0] != 0,
            forall|d: i128| candidates@.contains(d) <==> divides(d as int, poly@[0] as int),
            k <= candidates@.len(),
            forall|t: int|
                0 <= t < k ==> !(exact_division(p, #[trigger] candidates@[t] as int) && factorable(
                    quotient(p, candidates@[t] as int),
                )),
        decreases candidates@.len() - k,
    {
        let d = candidates[k];
        match synthetic_division(poly, d) {
            Some(q) => {
                assert(ints(q@).len() == q@.len());
                if is_factorable(q.as_slice()) {
                    assert(candidates@.contains(d));
                    assert(divides(d as int, p[0]));
                    return true;
                }
            },
            None => {},
        }
        k = k + 1;
    }
    proof {
        if factorable(p) {
            let d = choose|d: int|
                #[trigger] divides(d, p[0]) && in_i128(d) && exact_division(p, d) && factorable(
                    quotient(p, d),
                );
            assert(candidates@.contains(d as i128));
            let t = choose|t: int| 0 <= t < candidates@.len() && candidates@[t] == d as i128;
        }
    }
    false
}

/// The adjacency spectrum of the graph consists of integers: its characteristic
/// polynomial splits into integer linear factors. The graph is consumed. Fails
/// with `Allocation` when its matrix would exceed `MAX_ENTRIES`, and with
/// `ArithmeticInvariant` when the polynomial cannot be computed in `i128`.
pub fn is_integral(adjm: AdjMatrix) -> (r: Result<bool, GraphError>)
    requires
        adjm.wf(),
    ensures
        adjm.node_count() * adjm.node_count() > crate::matrix::MAX_ENTRIES ==> r == Err::<
            bool,
            GraphError,
        >(GraphError::Allocation),
        adjm.node_count() * adjm.node_count() <= crate::matrix::MAX_ENTRIES && char_poly(
            adjacency_mat(adjm),
        ) is None ==> r == Err::<bool, GraphError>(GraphError::ArithmeticInvariant),
        adjm.node_count() * adjm.node_count() <= crate::matrix::MAX_ENTRIES && char_poly(
            adjacency_mat(adjm),
        ) is Some ==> r == Ok::<bool, GraphError>(
            factorable(char_poly(adjacency_mat(adjm)).unwrap()),
        ),
{
    let ghost g = adjm;
    let matr = match Matrix::from_graph(adjm) {
        Ok(m) => m,
        Err(e) => return Err(e),
    };
    let poly = match characteristic_polynomial(&matr) {
        Ok(p) => p,
        Err(e) => return Err(e),
    };
    proof {
        matr.lemma_wf();
    }
    assert(matr@ == adjacency_mat(g));
    assert(char_poly(matr@) is Some);
    assert(poly@.len() == char_poly(matr@).unwrap().len());
    assert(ints(poly@) =~= char_poly(adjacency_mat(g)).unwrap());
    Ok(is_factorable(poly.as_slice()))
}

proof fn lemma_dot_zero(b: Seq<Seq<int>>, n: int, i: int, j: int, k: int)
    requires
        0 <= i < n,
        0 <= j < n,
        0 <= k <= n,
        is_square(b, n),
    ensures
        dot(scalar_mat(n, 0), b, i, j, k) == 0,
    decreases k,
{
    if k > 0 {
        lemma_dot_zero(b, n, i, j, k - 1);
        assert(scalar_mat(n, 0)[i][k - 1] == 0);
    }
}

proof fn lemma_trace_zero(n: int, k: int)
    requires
        0 <= k <= n,
    ensures
        crate::matrix::trace_upto(scalar_mat(n, 0), k) == 0,
    decreases k,
{
    if k > 0 {
        lemma_trace_zero(n, k - 1);
    }
}

/// One Faddeev–LeVerrier step on the zero matrix leaves `B = 0` and adds a zero coefficient.
proof fn lemma_fl_step_zero(n: int, b: Seq<Seq<int>>, cs: Seq<int>, k: int)
    requires
        n >= 0,
        k >= 1,
        is_square(b, n),
    ensures
        fl_step(scalar_mat(n, 0), b, cs, k) == Some((scalar_mat(n, 0), cs.push(0))),
{
    let z = scalar_mat(n, 0);
    assert forall|i: int, j: int, t: int|
        0 <= i < n && 0 <= j < n && 0 <= t < n implies #[trigger] crate::matrix::mul_step_fits(
        z,
        b,
        i,
        j,
        t,
    ) by {
        lemma_dot_zero(b, n, i, j, t + 1);
        assert(z[i][t] == 0);
    }
    assert forall|i: int, j: int| 0 <= i < n && 0 <= j < n implies #[trigger] mat_mul(z, b)[i][j]
        == 0 by {
        lemma_dot_zero(b, n, i, j, n);
    }
    assert(mat_mul(z, b) =~~= z);
    assert forall|t: int| 0 < t <= n implies #[trigger] in_i128(crate::matrix::trace_upto(z, t)) by {
        lemma_trace_zero(n, t);
    }
    lemma_trace_zero(n, n);
    assert(mat_trace(z) == 0);
    assert(0int / k == 0) by (nonlinear_arith)
        requires
            k >= 1,
    ;
    assert(0int % k == 0) by (nonlinear_arith)
        requires
            k >= 1,
    ;
    assert(mat_add(z, scalar_mat(n, 0)) =~~= z);
}

proof fn lemma_fl_run_zero(n: nat, k: nat)
    requires
        k >= 1,
    ensures
        fl_run(scalar_mat(n as int, 0), k) == Some(
            (scalar_mat(n as int, 0), Seq::new(k, |i: int| 0int)),
        ),
    decreases k,
{
    let z = scalar_mat(n as int, 0);
    if k == 1 {
        assert(is_square(identity_mat(n as int), n as int));
        lemma_fl_step_zero(n as int, identity_mat(n as int), Seq::empty(), 1);
        assert(Seq::<int>::empty().push(0) =~= Seq::new(1, |i: int| 0int));
    } else {
        lemma_fl_run_zero(n, (k - 1) as nat);
        lemma_fl_step_zero(n as int, z, Seq::new((k - 1) as nat, |i: int| 0int), k as int);
        assert(Seq::new((k - 1) as nat, |i: int| 0int).push(0) =~= Seq::new(k, |i: int| 0int));
    }
}

/// `p` is `x^(len - 1)`: zeros, then a leading 1.
pub open spec fn is_monomial(p: Seq<int>) -> bool {
    p.len() >= 1 && p[p.len() - 1] == 1 && forall|i: int| 0 <= i < p.len() - 1 ==> #[trigger] p[i] == 0
}

proof fn lemma_monomial_factorable(p: Seq<int>)
    requires
        is_monomial(p),
    ensures
        factorable(p),
    decreases p.len(),
{
    if p.len() > 1 {
        assert forall|i: int| 0 <= i < p.len() - 1 implies #[trigger] quot_coeff(p, 0, i) == p[i + 1] by {
            assert(quot_coeff(p, 0, i) == p[i + 1] + 0 * quot_coeff(p, 0, i + 1));
        }
        assert(quot_coeff(p, 0, p.len() - 1) == 0);
        assert forall|i: int| 0 <= i < p.len() - 1 implies #[trigger] division_step_fits(p, 0, i) by {
            assert(quot_coeff(p, 0, i) == p[i + 1]);
            if i + 1 < p.len() - 1 {
                assert(quot_coeff(p, 0, i + 1) == p[i + 2]);
            }
        }
        assert(exact_division(p, 0));
        let q = quotient(p, 0);
        assert(is_monomial(q));
        lemma_monomial_factorable(q);
    }
}

/// A graph without edges is integral (all its eigenvalues are 0): its
/// characteristic polynomial is `x^n`, which splits into integer linear factors.
pub proof fn lemma_empty_graph_integral(g: AdjMatrix)
    requires
        g.wf(),
        g.no_edges(),
    ensures
        char_poly(adjacency_mat(g)) is Some,
        factorable(char_poly(adjacency_mat(g)).unwrap()),
{
    let n = g.node_count();
    g.lemma_node_count();
    assert(adjacency_mat(g) =~~= scalar_mat(n, 0)) by {
        assert forall|i: int, j: int| 0 <= i < n && 0 <= j < n implies #[trigger] adjacency_mat(g)[i][j]
            == 0 by {
            if i != j {
                assert(g.valid_pair(i, j));
            }
        }
    }
    lemma_fl_run_zero(n as nat, n as nat);
    let p = char_poly(scalar_mat(n, 0)).unwrap();
    assert(is_monomial(p));
    lemma_monomial_factorable(p);
}

/// The binomial coefficient `C(n, k)`, by Pascal's rule.
pub open spec fn binom(n: nat, k: nat) -> nat
    decreases n,
{
    if k == 0 {
        1
    } else if n == 0 {
        0
    } else {
        binom((n - 1) as nat, (k - 1) as nat) + binom((n - 1) as nat, k)
    }
}

/// `(-1)^k`.
pub open spec fn sign(k: int) -> int {
    if k % 2 == 0 {
        1
    } else {
        -1
    }
}

/// `2^n`.
pub open spec fn pow2(n: nat) -> nat
    decreases n,
{
    if n == 0 {
        1
    } else {
        2 * pow2((n - 1) as nat)
    }
}

/// The coefficients of `(x - 1)^n`, that of `x^q` being `(-1)^(n-q) · C(n, n - q)`.
pub open spec fn minus_one_power(n: nat) -> Seq<int> {
    Seq::new(n + 1, |q: int| sign(n - q) * binom(n, (n - q) as nat))
}

proof fn lemma_binom_bound(n: nat, k: nat)
    ensures
        binom(n, k) <= pow2(n),
        pow2(n) >= 1,
    decreases n,
{
    if n > 0 {
        lemma_binom_bound((n - 1) as nat, k);
        assert(pow2(n) == 2 * pow2((n - 1) as nat));
        if k > 0 {
            lemma_binom_bound((n - 1) as nat, (k - 1) as nat);
            assert(binom(n, k) == binom((n - 1) as nat, (k - 1) as nat) + binom((n - 1) as nat, k));
        }
    }
}

proof fn lemma_pow2_add(a: nat, b: nat)
    ensures
        pow2(a + b) == pow2(a) * pow2(b),
    decreases a,
{
    if a > 0 {
        let a1 = (a - 1) as nat;
        lemma_pow2_add(a1, b);
        assert(a1 + b + 1 == a + b);
        assert(pow2(a + b) == 2 * pow2(a1 + b));
        assert(pow2(a) == 2 * pow2(a1));
        assert(pow2(a + b) == pow2(a) * pow2(b)) by (nonlinear_arith)
            requires
                pow2(a + b) == 2 * pow2(a1 + b),
                pow2(a1 + b) == pow2(a1) * pow2(b),
                pow2(a) == 2 * pow2(a1),
        ;
    } else {
        assert(pow2(0) == 1);
        assert(1 * pow2(b) == pow2(b)) by (nonlinear_arith);
    }
}

proof fn lemma_pow2_mono(m: nat, n: nat)
    requires
        m <= n,
    ensures
        pow2(m) <= pow2(n),
    decreases n - m,
{
    if m < n {
        lemma_pow2_mono(m, (n - 1) as nat);
    }
}

proof fn lemma_pow2_100()
    ensures
        pow2(100) <= 0x10_0000_0000_0000_0000_0000_0000,
{
    reveal_with_fuel(pow2, 11);
    assert(pow2(10) == 1024);
    lemma_pow2_add(10, 10);
    assert(pow2(20) == 1048576);
    lemma_pow2_add(20, 20);
    assert(pow2(40) == 1099511627776);
    lemma_pow2_add(40, 40);
    assert(pow2(80) == 1208925819614629174706176);
    lemma_pow2_add(80, 20);
    assert(pow2(100) == 1267650600228229401496703205376);
}

/// `n · C(n - 1, k - 1) = k · C(n, k)`.
proof fn lemma_binom_absorb(n: nat, k: nat)
    requires
        n >= 1,
        k >= 1,
    ensures
        n * binom((n - 1) as nat, (k - 1) as nat) == k * binom(n, k),
    decreases n,
{
    if n == 1 {
        assert(binom(1, k) == binom(0, (k - 1) as nat) + binom(0, k));
        assert(binom(0, k) == 0);
        if k > 1 {
            assert(binom(0, (k - 1) as nat) == 0);
        } else {
            assert(binom(0, 0) == 1);
        }
        assert(n * binom((n - 1) as nat, (k - 1) as nat) == k * binom(n, k));
    } else if k == 1 {
        lemma_binom_absorb((n - 1) as nat, 1);
        assert(binom(n, 1) == binom((n - 1) as nat, 0) + binom((n - 1) as nat, 1));
        assert(binom((n - 2) as nat, 0) == 1);
        assert(binom((n - 1) as nat, 0) == 1);
        assert(binom((n - 1) as nat, 1) == n - 1) by (nonlinear_arith)
            requires
                (n - 1) * binom((n - 2) as nat, 0) == 1 * binom((n - 1) as nat, 1),
                binom((n - 2) as nat, 0) == 1,
        ;
        assert(binom(n, 1) == n);
        assert(n * binom((n - 1) as nat, (k - 1) as nat) == k * binom(n, k));
    } else {
        lemma_binom_absorb((n - 1) as nat, (k - 1) as nat);
        lemma_binom_absorb((n - 1) as nat, k);
        let a = binom((n - 2) as nat, (k - 2) as nat);
        let b = binom((n - 2) as nat, (k - 1) as nat);
        let c = binom((n - 1) as nat, (k - 1) as nat);
        let d = binom((n - 1) as nat, k);
        assert(c == a + b);
        assert(binom(n, k) == c + d);
        assert((n - 1) * a == (k - 1) * c);
        assert((n - 1) * b == k * d);
        assert(n * c == k * (c + d)) by (nonlinear_arith)
            requires
                c == a + b,
                (n - 1) * a == (k - 1) * c,
                (n - 1) * b == k * d,
        ;
        assert(n * binom((n - 1) as nat, (k - 1) as nat) == k * binom(n, k));
    }
}

proof fn lemma_dot_scalar(n: int, beta: int, i: int, j: int, t: int)
    requires
        0 <= i < n,
        0 <= j < n,
        0 <= t <= n,
    ensures
        dot(identity_mat(n), scalar_mat(n, beta), i, j, t) == if i < t && i == j {
            beta
        } else {
            0
        },
    decreases t,
{
    if t > 0 {
        lemma_dot_scalar(n, beta, i, j, t - 1);
    }
}

proof fn lemma_trace_scalar(n: int, beta: int, t: int)
    requires
        0 <= t <= n,
    ensures
        crate::matrix::trace_upto(scalar_mat(n, beta), t) == t * beta,
    decreases t,
{
    if t > 0 {
        lemma_trace_scalar(n, beta, t - 1);
        assert(scalar_mat(n, beta)[t - 1][t - 1] == beta);
        assert(crate::matrix::trace_upto(scalar_mat(n, beta), t) == crate::matrix::trace_upto(
            scalar_mat(n, beta),
            t - 1,
        ) + scalar_mat(n, beta)[t - 1][t - 1]);
        assert((t - 1) * beta + beta == t * beta) by (nonlinear_arith);
    } else {
        assert(0 * beta == 0) by (nonlinear_arith);
    }
}

/// The state after `k` steps on the `n × n` identity: `B_k = (-1)^k C(n - 1, k) · I`
/// and `c_j = (-1)^j C(n, j)`.
proof fn lemma_fl_run_identity(n: nat, k: nat)
    requires
        1 <= n <= 100,
        k <= n,
    ensures
        fl_run(identity_mat(n as int), k) == Some(
            (
                scalar_mat(n as int, sign(k as int) * binom((n - 1) as nat, k)),
                Seq::new(k, |j: int| sign(j + 1) * binom(n, (j + 1) as nat)),
            ),
        ),
    decreases k,
{
    let a = identity_mat(n as int);
    let ni = n as int;
    if k == 0 {
        assert(sign(0) == 1);
        assert(binom((n - 1) as nat, 0) == 1);
        assert(sign(0) * binom((n - 1) as nat, 0) == 1) by (nonlinear_arith)
            requires
                sign(0) == 1,
                binom((n - 1) as nat, 0) == 1,
        ;
        assert(scalar_mat(ni, sign(0) * binom((n - 1) as nat, 0)) =~~= a);
        assert(Seq::new(0, |j: int| sign(j + 1) * binom(n, (j + 1) as nat)) =~= Seq::<int>::empty());
    } else {
        lemma_fl_run_identity(n, (k - 1) as nat);
        let beta = sign(k - 1) * binom((n - 1) as nat, (k - 1) as nat);
        let b = scalar_mat(ni, beta);
        let cs = Seq::new((k - 1) as nat, |j: int| sign(j + 1) * binom(n, (j + 1) as nat));
        lemma_binom_bound((n - 1) as nat, (k - 1) as nat);
        lemma_binom_bound(n, k);
        lemma_binom_bound((n - 1) as nat, k);
        lemma_pow2_mono((n - 1) as nat, 100);
        lemma_pow2_mono(n, 100);
        lemma_pow2_100();
        let bb = binom((n - 1) as nat, (k - 1) as nat);
        assert(bb <= pow2(100));
        assert(bb <= 0x10_0000_0000_0000_0000_0000_0000);
        assert(-0x10_0000_0000_0000_0000_0000_0000 <= beta <= 0x10_0000_0000_0000_0000_0000_0000)
            by (nonlinear_arith)
            requires
                beta == sign(k - 1) * bb,
                sign(k - 1) == 1 || sign(k - 1) == -1,
                0 <= bb <= 0x10_0000_0000_0000_0000_0000_0000,
        ;
        // The product A·B is B itself, and every step of it fits.
        assert forall|i: int, j: int, t: int|
            0 <= i < ni && 0 <= j < ni && 0 <= t < ni implies #[trigger] crate::matrix::mul_step_fits(
            a,
            b,
            i,
            j,
            t,
        ) by {
            lemma_dot_scalar(ni, beta, i, j, t + 1);
            assert(a[i][t] * b[t][j] == if i == t && t == j { beta } else { 0 });
        }
        assert forall|i: int, j: int| 0 <= i < ni && 0 <= j < ni implies #[trigger] mat_mul(a, b)[i][j]
            == b[i][j] by {
            lemma_dot_scalar(ni, beta, i, j, ni);
        }
        assert(mat_mul(a, b) =~~= b);
        // Its trace is n·beta, and every partial sum fits.
        assert forall|t: int| 0 < t <= ni implies #[trigger] in_i128(crate::matrix::trace_upto(b, t)) by {
            lemma_trace_scalar(ni, beta, t);
            assert(-0x10_0000_0000_0000_0000_0000_0000 * 100 <= t * beta
                <= 0x10_0000_0000_0000_0000_0000_0000 * 100) by (nonlinear_arith)
                requires
                    0 < t <= 100,
                    -0x10_0000_0000_0000_0000_0000_0000 <= beta
                        <= 0x10_0000_0000_0000_0000_0000_0000,
            ;
        }
        lemma_trace_scalar(ni, beta, ni);
        let t = mat_trace(b);
        assert(t == ni * beta);
        // n·C(n-1, k-1) = k·C(n, k), so the trace divides by k.
        lemma_binom_absorb(n, k);
        let bk = binom(n, k);
        assert(t == k * (sign(k - 1) * bk)) by (nonlinear_arith)
            requires
                t == ni * beta,
                beta == sign(k - 1) * bb,
                ni * bb == k * bk,
        ;
        assert(t / (k as int) == sign(k - 1) * bk && t % (k as int) == 0) by {
            vstd::arithmetic::div_mod::lemma_div_multiples_vanish(sign(k - 1) * bk, k as int);
            vstd::arithmetic::div_mod::lemma_mod_multiples_basic(sign(k - 1) * bk, k as int);
            assert(k * (sign(k - 1) * bk) == (sign(k - 1) * bk) * k) by (nonlinear_arith);
        }
        let c = -(t / (k as int));
        assert(sign(k as int) == -sign(k - 1));
        assert(c == sign(k as int) * bk) by (nonlinear_arith)
            requires
                c == -(sign(k - 1) * bk),
                sign(k as int) == -sign(k - 1),
        ;
        assert(bk <= pow2(100));
        assert(-0x10_0000_0000_0000_0000_0000_0000 <= c <= 0x10_0000_0000_0000_0000_0000_0000)
            by (nonlinear_arith)
            requires
                c == sign(k as int) * bk,
                sign(k as int) == 1 || sign(k as int) == -1,
                0 <= bk <= 0x10_0000_0000_0000_0000_0000_0000,
        ;
        // B_k = B + c·I, and C(n, k) - C(n-1, k-1) = C(n-1, k).
        assert(binom(n, k) == bb + binom((n - 1) as nat, k));
        let beta2 = sign(k as int) * binom((n - 1) as nat, k);
        assert(beta + c == beta2) by (nonlinear_arith)
            requires
                beta == sign(k - 1) * bb,
                c == sign(k as int) * bk,
                bk == bb + binom((n - 1) as nat, k),
                beta2 == sign(k as int) * binom((n - 1) as nat, k),
                sign(k as int) == -sign(k - 1),
        ;
        assert forall|i: int, j: int| 0 <= i < ni && 0 <= j < ni implies #[trigger] in_i128(
            b[i][j] + scalar_mat(ni, c)[i][j],
        ) by {}
        assert(mat_add(b, scalar_mat(ni, c)) =~~= scalar_mat(ni, beta2));
        assert(cs.push(c) =~= Seq::new(k, |j: int| sign(j + 1) * binom(n, (j + 1) as nat)));
    }
}

/// The characteristic polynomial of the `n × n` identity is `(x - 1)^n`, for
/// every `n` up to 100 (beyond that its coefficients outgrow `i128`).
pub proof fn lemma_identity_char_poly(n: nat)
    requires
        n <= 100,
    ensures
        char_poly(identity_mat(n as int)) == Some(minus_one_power(n)),
{
    if n == 0 {
        assert(char_poly(identity_mat(0)).unwrap() =~= minus_one_power(0));
    } else {
        lemma_fl_run_identity(n, n);
        assert(char_poly(identity_mat(n as int)).unwrap() =~= minus_one_power(n));
    }
}

} // verus!
