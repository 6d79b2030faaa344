use vstd::prelude::*;

use crate::error::GraphError;
use crate::text::push_char;
use crate::graph::AdjMatrix;

verus! {

/// The most entries a matrix may hold: the largest count of `i128` values whose
/// storage stays within `isize::MAX` bytes.
pub const MAX_ENTRIES: u64 = 0x07ff_ffff_ffff_ffff;

/// `x` is representable as an `i128`.
pub open spec fn in_i128(x: int) -> bool {
    i128::MIN <= x <= i128::MAX
}

/// `m` is an `n × n` array.
pub open spec fn is_square(m: Seq<Seq<int>>, n: int) -> bool {
    m.len() == n && forall|i: int| 0 <= i < n ==> #[trigger] m[i].len() == n
}

/// The `n × n` matrix with `c` on the diagonal and zeros elsewhere.
pub open spec fn scalar_mat(n: int, c: int) -> Seq<Seq<int>> {
    Seq::new(n as nat, |i: int| Seq::new(n as nat, |j: int| if i == j { c } else { 0 }))
}

/// The `n × n` identity matrix.
pub open spec fn identity_mat(n: int) -> Seq<Seq<int>> {
    scalar_mat(n, 1)
}

/// The elementwise sum of two `n × n` matrices.
pub open spec fn mat_add(a: Seq<Seq<int>>, b: Seq<Seq<int>>) -> Seq<Seq<int>> {
    Seq::new(a.len(), |i: int| Seq::new(a.len(), |j: int| a[i][j] + b[i][j]))
}

/// `sum_{t < k} a[i][t] * b[t][j]`.
pub open spec fn dot(a: Seq<Seq<int>>, b: Seq<Seq<int>>, i: int, j: int, k: int) -> int
    decreases k,
{
    if k <= 0 {
        0
    } else {
        dot(a, b, i, j, k - 1) + a[i][k - 1] * b[k - 1][j]
    }
}

/// The product of two `n × n` matrices.
pub open spec fn mat_mul(a: Seq<Seq<int>>, b: Seq<Seq<int>>) -> Seq<Seq<int>> {
    Seq::new(a.len(), |i: int| Seq::new(a.len(), |j: int| dot(a, b, i, j, a.len() as int)))
}

/// `sum_{t < k} a[t][t]`.
pub open spec fn trace_upto(a: Seq<Seq<int>>, k: int) -> int
    decreases k,
{
    if k <= 0 {
        0
    } else {
        trace_upto(a, k - 1) + a[k - 1][k - 1]
    }
}

/// The sum of the diagonal of a square matrix.
pub open spec fn mat_trace(a: Seq<Seq<int>>) -> int {
    trace_upto(a, a.len() as int)
}

/// Every entry of the sum fits in an `i128`.
pub open spec fn add_fits(a: Seq<Seq<int>>, b: Seq<Seq<int>>) -> bool {
    forall|i: int, j: int|
        0 <= i < a.len() && 0 <= j < a.len() ==> #[trigger] in_i128(a[i][j] + b[i][j])
}

/// Every product of two entries and every partial sum of the product, summed in
/// increasing `k`, fits in an `i128`.
pub open spec fn mul_fits(a: Seq<Seq<int>>, b: Seq<Seq<int>>) -> bool {
    forall|i: int, j: int, k: int|
        0 <= i < a.len() && 0 <= j < a.len() && 0 <= k < a.len() ==> #[trigger] mul_step_fits(
            a,
            b,
            i,
            j,
            k,
        )
}

/// Step `k` of entry `(i, j)` of the product fits in an `i128`: the product of
/// the two entries and the partial sum that takes it in.
pub open spec fn mul_step_fits(a: Seq<Seq<int>>, b: Seq<Seq<int>>, i: int, j: int, k: int) -> bool {
    in_i128(a[i][k] * b[k][j]) && in_i128(dot(a, b, i, j, k + 1))
}

/// Every partial sum of the diagonal fits in an `i128`.
pub open spec fn trace_fits(a: Seq<Seq<int>>) -> bool {
    forall|k: int| 0 < k <= a.len() ==> #[trigger] in_i128(trace_upto(a, k))
}

/// Whether an `n × n` matrix stays within `MAX_ENTRIES`.
fn entries_fit(n: u64) -> (r: bool)
    ensures
        r == (n * n <= MAX_ENTRIES),
        r ==> n <= 0x4000_0000,
{
    if n > 0x4000_0000 {
        assert(n * n > 0x4000_0000 * 0x4000_0000) by (nonlinear_arith)
            requires
                n > 0x4000_0000,
        ;
        return false;
    }
    assert(n * n <= 0x4000_0000 * 0x4000_0000) by (nonlinear_arith)
        requires
            n <= 0x4000_0000,
    ;
    n * n <= MAX_ENTRIES
}

/// The character of decimal digit `d`.
pub open spec fn digit_char(d: int) -> char {
    ((d + 48) as u8) as char
}

/// The decimal digits of `x`, most significant first.
pub open spec fn digits(x: nat) -> Seq<char>
    decreases x,
{
    if x < 10 {
        seq![digit_char(x as int)]
    } else {
        digits(x / 10).push(digit_char((x % 10) as int))
    }
}

/// `x` in decimal, with a leading `-` when negative.
pub open spec fn decimal(x: int) -> Seq<char> {
    if x < 0 {
        seq!['-'] + digits((-x) as nat)
    } else {
        digits(x as nat)
    }
}

/// `s` read backwards.
pub open spec fn reversed(s: Seq<char>) -> Seq<char> {
    Seq::new(s.len(), |i: int| s[s.len() - 1 - i])
}

/// Appends `s` to `out`.
fn push_chars(out: &mut String, s: &str)
    ensures
        final(out)@ == old(out)@ + s@,
{
    out.append(s);
}

/// Appends `v` in decimal to `out`.
fn push_decimal(out: &mut String, v: i128)
    ensures
        final(out)@ == old(out)@ + decimal(v as int),
{
    let mag: u128 = if v >= 0 {
        v as u128
    } else {
        (-(v + 1)) as u128 + 1
    };
    let ghost whole = mag as nat;
    let mut m: u128 = mag;
    let mut low_first: Vec<char> = Vec::new();
    loop
        invariant_except_break
            m >= 0,
            digits(whole) == digits(m as nat) + reversed(low_first@),
        ensures
            digits(whole) == reversed(low_first@),
        decreases m,
    {
        let d = (m % 10) as u8;
        let c = (d + 48) as char;
        let ghost before = low_first@;
        low_first.push(c);
        if m < 10 {
            proof {
                assert(reversed(low_first@) =~= seq![c] + reversed(before));
            }
            break;
        }
        proof {
            assert(reversed(low_first@) =~= seq![c] + reversed(before));
            assert(digits(m as nat) == digits((m / 10) as nat).push(c));
            assert(digits((m / 10) as nat).push(c) + reversed(before) =~= digits((m / 10) as nat) + (
            seq![c] + reversed(before)));
        }
        m = m / 10;
    }
    if v < 0 {
        push_char(out, '-');
    }
    let ghost start = out@;
    let mut k: usize = low_first.len();
    while k > 0
        invariant
            k <= low_first@.len(),
            out@ == start + reversed(low_first@).take(low_first@.len() - k),
        decreases k,
    {
        push_char(out, low_first[k - 1]);
        proof {
            assert(reversed(low_first@).take(low_first@.len() - k + 1) =~= reversed(low_first@).take(
                low_first@.len() - k,
            ).push(low_first@[k - 1]));
        }
        k = k - 1;
    }
    assert(reversed(low_first@).take(low_first@.len() as int) =~= reversed(low_first@));
    assert(out@ =~= old(out)@ + decimal(v as int));
}

/// A square matrix of 128-bit integers.
pub struct Matrix {
    n: u64,
    rows: Vec<Vec<i128>>,
}

impl View for Matrix {
    type V = Seq<Seq<int>>;

    closed spec fn view(&self) -> Seq<Seq<int>> {
        Seq::new(
            self.rows@.len(),
            |i: int| Seq::new(self.rows@[i]@.len(), |j: int| self.rows@[i]@[j] as int),
        )
    }
}

impl Matrix {
    /// The dimension.
    pub closed spec fn dim(self) -> int {
        self.n as int
    }

    /// `n` rows of `n` entries each, with `n * n` within `MAX_ENTRIES`.
    pub closed spec fn wf(self) -> bool {
        &&& self.n * self.n <= MAX_ENTRIES
        &&& self.rows@.len() == self.n
        &&& forall|i: int| 0 <= i < self.n ==> #[trigger] self.rows@[i]@.len() == self.n
    }

    /// A well-formed matrix is an `n × n` array with `n < 2^30`.
    pub proof fn lemma_wf(self)
        requires
            self.wf(),
        ensures
            is_square(self@, self.dim()),
            self.dim() * self.dim() <= MAX_ENTRIES,
            0 <= self.dim() < 0x4000_0000,
    {
        let n = self.dim();
        if n >= 0x4000_0000 {
            assert(n * n >= 0x4000_0000 * 0x4000_0000) by (nonlinear_arith)
                requires
                    n >= 0x4000_0000,
            ;
        }
    }

    /// The dimension.
    pub fn get_n(&self) -> (r: u64)
        ensures
            r == self.dim(),
    {
        self.n
    }

    /// The `n × n` zero matrix; fails with `Allocation` when `n * n` exceeds `MAX_ENTRIES`.
    pub fn zeroed(n: u64) -> (r: Result<Self, GraphError>)
        ensures
            n * n > MAX_ENTRIES ==> r == Err::<Self, GraphError>(GraphError::Allocation),
            n * n <= MAX_ENTRIES ==> (r matches Ok(m) && m.wf() && m.dim() == n && m@ =~~= scalar_mat(
                n as int,
                0,
            )),
    {
        Self::scalar(n, 0)
    }

    /// The `n × n` identity matrix; fails with `Allocation` when `n * n` exceeds `MAX_ENTRIES`.
    pub fn identity(n: u64) -> (r: Result<Self, GraphError>)
        ensures
            n * n > MAX_ENTRIES ==> r == Err::<Self, GraphError>(GraphError::Allocation),
            n * n <= MAX_ENTRIES ==> (r matches Ok(m) && m.wf() && m.dim() == n && m@ =~~= identity_mat(
                n as int,
            )),
    {
        Self::scalar(n, 1)
    }

    /// The `n × n` matrix with `c` on the diagonal.
    pub fn scalar(n: u64, c: i128) -> (r: Result<Self, GraphError>)
        ensures
            n * n > MAX_ENTRIES ==> r == Err::<Self, GraphError>(GraphError::Allocation),
            n * n <= MAX_ENTRIES ==> (r matches Ok(m) && m.wf() && m.dim() == n && m@ =~~= scalar_mat(
                n as int,
                c as int,
            )),
    {
        if !entries_fit(n) {
            return Err(GraphError::Allocation);
        }
        let mut rows: Vec<Vec<i128>> = Vec::new();
        let mut i: u64 = 0;
        while i < n
            invariant
                i <= n <= 0x4000_0000,
                rows@.len() == i,
                forall|a: int| 0 <= a < i ==> #[trigger] rows@[a]@.len() == n,
                forall|a: int, b: int|
                    0 <= a < i && 0 <= b < n ==> #[trigger] rows@[a]@[b] == if a == b {
                        c
                    } else {
                        0
                    },
            decreases n - i,
        {
            let mut row: Vec<i128> = Vec::new();
            let mut j: u64 = 0;
            while j < n
                invariant
                    i < n <= 0x4000_0000,
                    j <= n,
                    row@.len() == j,
                    forall|b: int| 0 <= b < j ==> #[trigger] row@[b] == if i == b {
                        c
                    } else {
                        0
                    },
                decreases n - j,
            {
                row.push(if i == j {
                    c
                } else {
                    0
                });
                j = j + 1;
            }
            rows.push(row);
            i = i + 1;
        }
        let m = Matrix { n, rows };
        assert(m@ =~~= scalar_mat(n as int, c as int));
        Ok(m)
    }

    /// The entry at `row`, `column`; fails with `Index` outside `[0, n)`.
    pub fn get(&self, row: u64, column: u64) -> (r: Result<i128, GraphError>)
        requires
            self.wf(),
        ensures
            row < self.dim() && column < self.dim() ==> r == Ok::<i128, GraphError>(
                self@[row as int][column as int] as i128,
            ),
            !(row < self.dim() && column < self.dim()) ==> r == Err::<i128, GraphError>(
                GraphError::Index,
            ),
    {
        proof {
            self.lemma_wf();
        }
        if row < self.n && column < self.n {
            Ok(self.rows[row as usize][column as usize])
        } else {
            Err(GraphError::Index)
        }
    }

    /// Replaces the entry at `row`, `column`; fails with `Index`, changing
    /// nothing, outside `[0, n)`.
    pub fn set(&mut self, row: u64, column: u64, value: i128) -> (r: Result<(), GraphError>)
        requires
            old(self).wf(),
        ensures
            final(self).wf(),
            final(self).dim() == old(self).dim(),
            row < old(self).dim() && column < old(self).dim() ==> r == Ok::<(), GraphError>(())
                && final(self)@ == old(self)@.update(
                row as int,
                old(self)@[row as int].update(column as int, value as int),
            ),
            !(row < old(self).dim() && column < old(self).dim()) ==> r == Err::<(), GraphError>(
                GraphError::Index,
            ) && *final(self) == *old(self),
    {
        proof {
            self.lemma_wf();
        }
        if row < self.n && column < self.n {
            let r = row as usize;
            let ghost before = self@;
            self.rows[r][column as usize] = value;
            assert(self@ =~~= before.update(row as int, before[row as int].update(column as int, value as int)));
            Ok(())
        } else {
            Err(GraphError::Index)
        }
    }

    /// A matrix from its rows; fails with `Allocation` when the count of entries
    /// would exceed `MAX_ENTRIES`, else with `Shape` when a row's length differs
    /// from the number of rows.
    pub fn from_vec_vec(input: Vec<Vec<i128>>) -> (r: Result<Self, GraphError>)
        ensures
            input@.len() * input@.len() > MAX_ENTRIES ==> r == Err::<Self, GraphError>(
                GraphError::Allocation,
            ),
            input@.len() * input@.len() <= MAX_ENTRIES && (exists|i: int|
                0 <= i < input@.len() && #[trigger] input@[i]@.len() != input@.len()) ==> r == Err::<
                Self,
                GraphError,
            >(GraphError::Shape),
            input@.len() * input@.len() <= MAX_ENTRIES && (forall|i: int|
                0 <= i < input@.len() ==> #[trigger] input@[i]@.len() == input@.len()) ==> (r matches Ok(
                m,
            ) && m.wf() && m.dim() == input@.len() && forall|i: int, j: int|
                0 <= i < m.dim() && 0 <= j < m.dim() ==> #[trigger] m@[i][j] == input@[i]@[j]),
    {
        let n = input.len();
        if !entries_fit(n as u64) {
            return Err(GraphError::Allocation);
        }
        let mut i: usize = 0;
        while i < n
            invariant
                n == input@.len(),
                n * n <= MAX_ENTRIES,
                i <= n,
                forall|a: int| 0 <= a < i ==> #[trigger] input@[a]@.len() == n,
            decreases n - i,
        {
            if input[i].len() != n {
                assert(input@[i as int]@.len() != input@.len());
                return Err(GraphError::Shape);
            }
            i = i + 1;
        }
        let m = Matrix { n: n as u64, rows: input };
        Ok(m)
    }

    /// The sum of the diagonal; fails with `ArithmeticInvariant` when a partial sum overflows.
    pub fn trace(&self) -> (r: Result<i128, GraphError>)
        requires
            self.wf(),
        ensures
            trace_fits(self@) ==> r == Ok::<i128, GraphError>(mat_trace(self@) as i128),
            !trace_fits(self@) ==> r == Err::<i128, GraphError>(GraphError::ArithmeticInvariant),
    {
        proof {
            self.lemma_wf();
        }
        let n = self.n;
        let mut result: i128 = 0;
        let mut i: u64 = 0;
        while i < n
            invariant
                self.wf(),
                n == self.dim(),
                n <= 0x4000_0000,
                is_square(self@, n as int),
                i <= n,
                result == trace_upto(self@, i as int),
                forall|k: int| 0 < k <= i ==> #[trigger] in_i128(trace_upto(self@, k)),
            decreases n - i,
        {
            let d = self.rows[i as usize][i as usize];
            assert(d == self@[i as int][i as int]);
            match result.checked_add(d) {
                Some(s) => {
                    result = s;
                },
                None => {
                    assert(!in_i128(trace_upto(self@, i + 1)));
                    return Err(GraphError::ArithmeticInvariant);
                },
            }
            i = i + 1;
        }
        Ok(result)
    }

    /// The adjacency matrix of a graph: 1 at `(i, j)` and `(j, i)` for each linked
    /// pair, 0 elsewhere. The graph is consumed. Fails with `Allocation` when the
    /// count of entries would exceed `MAX_ENTRIES`.
    pub fn from_graph(graph: AdjMatrix) -> (r: Result<Self, GraphError>)
        requires
            graph.wf(),
        ensures
            graph.node_count() * graph.node_count() > MAX_ENTRIES ==> r == Err::<Self, GraphError>(
                GraphError::Allocation,
            ),
            graph.node_count() * graph.node_count() <= MAX_ENTRIES ==> (r matches Ok(m) && m.wf()
                && m.dim() == graph.node_count() && m@ =~~= adjacency_mat(graph)),
    {
        let n = graph.last_node() as u64 + 1;
        if !entries_fit(n) {
            return Err(GraphError::Allocation);
        }
        let mut rows: Vec<Vec<i128>> = Vec::new();
        let mut i: u64 = 0;
        while i < n
            invariant
                graph.wf(),
                n == graph.node_count(),
                i <= n <= 0x4000_0000,
                rows@.len() == i,
                forall|a: int| 0 <= a < i ==> #[trigger] rows@[a]@.len() == n,
                forall|a: int, b: int|
                    0 <= a < i && 0 <= b < n ==> #[trigger] rows@[a]@[b] == if a != b && graph.edge(
                        a,
                        b,
                    ) {
                        1i128
                    } else {
                        0i128
                    },
            decreases n - i,
        {
            let mut row: Vec<i128> = Vec::new();
            let mut j: u64 = 0;
            while j < n
                invariant
                    graph.wf(),
                    n == graph.node_count(),
                    i < n <= 0x4000_0000,
                    j <= n,
                    row@.len() == j,
                    forall|b: int| 0 <= b < j ==> #[trigger] row@[b] == if i != b && graph.edge(
                        i as int,
                        b,
                    ) {
                        1i128
                    } else {
                        0i128
                    },
                decreases n - j,
            {
                let linked = if i == j {
                    false
                } else {
                    match graph.is_edge(i as u32, j as u32) {
                        Ok(e) => e,
                        Err(_) => false,
                    }
                };
                row.push(if linked {
                    1
                } else {
                    0
                });
                j = j + 1;
            }
            rows.push(row);
            i = i + 1;
        }
        let m = Matrix { n, rows };
        assert(m@ =~~= adjacency_mat(graph));
        Ok(m)
    }

    /// Row `i` as text: a space, then each entry in decimal followed by a space.
    pub open spec fn row_text(self, i: int) -> Seq<char>
        recommends
            0 <= i < self@.len(),
    {
        seq![' '] + self.entries_text(i, self@[i].len() as int)
    }

    /// The first `j` entries of row `i`, each in decimal followed by a space.
    pub open spec fn entries_text(self, i: int, j: int) -> Seq<char>
        decreases j,
    {
        if j <= 0 {
            Seq::empty()
        } else {
            self.entries_text(i, j - 1) + decimal(self@[i][j - 1]) + seq![' ']
        }
    }

    /// The first `k` rows as text, each followed by a newline.
    pub open spec fn rows_text(self, k: int) -> Seq<char>
        decreases k,
    {
        if k <= 0 {
            Seq::empty()
        } else {
            self.rows_text(k - 1) + self.row_text(k - 1) + seq!['\n']
        }
    }

    /// The matrix as text: `Matrix(n):` and a newline, then the rows.
    pub fn to_text(&self) -> (r: String)
        requires
            self.wf(),
        ensures
            r@ == "Matrix("@ + decimal(self.dim()) + "):\n"@ + self.rows_text(self.dim()),
    {
        proof {
            self.lemma_wf();
        }
        let mut output = String::new();
        push_chars(&mut output, "Matrix(");
        push_decimal(&mut output, self.n as i128);
        push_chars(&mut output, "):\n");
        let ghost head = output@;
        let n = self.n;
        let mut i: u64 = 0;
        while i < n
            invariant
                self.wf(),
                n == self.dim(),
                n <= 0x4000_0000,
                is_square(self@, n as int),
                i <= n,
                output@ == head + self.rows_text(i as int),
            decreases n - i,
        {
            push_char(&mut output, ' ');
            let ghost row_start = output@;
            let mut j: u64 = 0;
            while j < n
                invariant
                    self.wf(),
                    n == self.dim(),
                    n <= 0x4000_0000,
                    is_square(self@, n as int),
                    i < n,
                    j <= n,
                    output@ == row_start + self.entries_text(i as int, j as int),
                decreases n - j,
            {
                let v = self.rows[i as usize][j as usize];
                assert(v == self@[i as int][j as int]);
                push_decimal(&mut output, v);
                push_char(&mut output, ' ');
                j = j + 1;
            }
            push_char(&mut output, '\n');
            assert(output@ =~= head + self.rows_text(i + 1));
            i = i + 1;
        }
        output
    }
}

/// The symmetric 0/1 adjacency matrix of a graph, with zeros on the diagonal.
pub open spec fn adjacency_mat(g: AdjMatrix) -> Seq<Seq<int>> {
    Seq::new(
        g.node_count() as nat,
        |i: int| Seq::new(g.node_count() as nat, |j: int| if i != j && g.edge(i, j) { 1 } else { 0 }),
    )
}

/// The elementwise sum; fails with `Shape` when the dimensions differ and with
/// `ArithmeticInvariant` when an entry overflows.
pub fn add(m1: &Matrix, m2: &Matrix) -> (r: Result<Matrix, GraphError>)
    requires
        m1.wf(),
        m2.wf(),
    ensures
        m1.dim() != m2.dim() ==> r == Err::<Matrix, GraphError>(GraphError::Shape),
        m1.dim() == m2.dim() && !add_fits(m1@, m2@) ==> r == Err::<Matrix, GraphError>(
            GraphError::ArithmeticInvariant,
        ),
        m1.dim() == m2.dim() && add_fits(m1@, m2@) ==> (r matches Ok(m) && m.wf() && m.dim()
            == m1.dim() && m@ =~~= mat_add(m1@, m2@)),
{
    if m1.n != m2.n {
        return Err(GraphError::Shape);
    }
    proof {
        m1.lemma_wf();
        m2.lemma_wf();
    }
    let n = m1.n;
    let mut rows: Vec<Vec<i128>> = Vec::new();
    let mut i: u64 = 0;
    while i < n
        invariant
            m1.wf(),
            m2.wf(),
            n == m1.dim(),
            n == m2.dim(),
            is_square(m1@, n as int),
            is_square(m2@, n as int),
            n * n <= MAX_ENTRIES,
            n <= 0x4000_0000,
            i <= n,
            rows@.len() == i,
            forall|a: int| 0 <= a < i ==> #[trigger] rows@[a]@.len() == n,
            forall|a: int, b: int|
                0 <= a < i && 0 <= b < n ==> #[trigger] rows@[a]@[b] == m1@[a][b] + m2@[a][b],
        decreases n - i,
    {
        let mut row: Vec<i128> = Vec::new();
        let mut j: u64 = 0;
        while j < n
            invariant
                m1.wf(),
                m2.wf(),
                n == m1.dim(),
                n == m2.dim(),
                is_square(m1@, n as int),
                is_square(m2@, n as int),
                n <= 0x4000_0000,
                i < n,
                j <= n,
                row@.len() == j,
                forall|b: int| 0 <= b < j ==> #[trigger] row@[b] == m1@[i as int][b] + m2@[i as int][b],
            decreases n - j,
        {
            let x = m1.rows[i as usize][j as usize];
            let y = m2.rows[i as usize][j as usize];
            assert(x == m1@[i as int][j as int]);
            assert(y == m2@[i as int][j as int]);
            match x.checked_add(y) {
                Some(s) => row.push(s),
                None => {
                    assert(!in_i128(m1@[i as int][j as int] + m2@[i as int][j as int]));
                    return Err(GraphError::ArithmeticInvariant);
                },
            }
            j = j + 1;
        }
        rows.push(row);
        i = i + 1;
    }
    let m = Matrix { n, rows };
    assert(m@ =~~= mat_add(m1@, m2@));
    assert forall|a: int, b: int| 0 <= a < n && 0 <= b < n implies #[trigger] in_i128(
        m1@[a][b] + m2@[a][b],
    ) by {
        assert(m@[a][b] == m1@[a][b] + m2@[a][b]);
    }
    Ok(m)
}

/// The product; fails with `Shape` when the dimensions differ and with
/// `ArithmeticInvariant` when a product of entries or a partial sum overflows.
pub fn multiply(m1: &Matrix, m2: &Matrix) -> (r: Result<Matrix, GraphError>)
    requires
        m1.wf(),
        m2.wf(),
    ensures
        m1.dim() != m2.dim() ==> r == Err::<Matrix, GraphError>(GraphError::Shape),
        m1.dim() == m2.dim() && !mul_fits(m1@, m2@) ==> r == Err::<Matrix, GraphError>(
            GraphError::ArithmeticInvariant,
        ),
        m1.dim() == m2.dim() && mul_fits(m1@, m2@) ==> (r matches Ok(m) && m.wf() && m.dim()
            == m1.dim() && m@ =~~= mat_mul(m1@, m2@)),
{
    if m1.n != m2.n {
        return Err(GraphError::Shape);
    }
    proof {
        m1.lemma_wf();
        m2.lemma_wf();
    }
    let n = m1.n;
    let mut rows: Vec<Vec<i128>> = Vec::new();
    let mut i: u64 = 0;
    while i < n
        invariant
            m1.wf(),
            m2.wf(),
            n == m1.dim(),
            n == m2.dim(),
            is_square(m1@, n as int),
            is_square(m2@, n as int),
            n * n <= MAX_ENTRIES,
            n <= 0x4000_0000,
            i <= n,
            rows@.len() == i,
            forall|a: int| 0 <= a < i ==> #[trigger] rows@[a]@.len() == n,
            forall|a: int, b: int|
                0 <= a < i && 0 <= b < n ==> #[trigger] rows@[a]@[b] == dot(m1@, m2@, a, b, n as int),
            forall|a: int, b: int, k: int|
                0 <= a < i && 0 <= b < n && 0 <= k < n ==> #[trigger] mul_step_fits(
                    m1@,
                    m2@,
                    a,
                    b,
                    k,
                ),
        decreases n - i,
    {
        let mut row: Vec<i128> = Vec::new();
        let mut j: u64 = 0;
        while j < n
            invariant
                m1.wf(),
                m2.wf(),
                n == m1.dim(),
                n == m2.dim(),
                is_square(m1@, n as int),
                is_square(m2@, n as int),
                n <= 0x4000_0000,
                i < n,
                j <= n,
                row@.len() == j,
                forall|b: int| 0 <= b < j ==> #[trigger] row@[b] == dot(m1@, m2@, i as int, b, n as int),
                forall|a: int, b: int, k: int|
                    ((0 <= a < i && 0 <= b < n) || (a == i && 0 <= b < j)) && 0 <= k < n
                        ==> #[trigger] mul_step_fits(m1@, m2@, a, b, k),
            decreases n - j,
        {
            let mut acc: i128 = 0;
            let mut k: u64 = 0;
            while k < n
                invariant
                    m1.wf(),
                    m2.wf(),
                    n == m1.dim(),
                    n == m2.dim(),
                    is_square(m1@, n as int),
                    is_square(m2@, n as int),
                    n <= 0x4000_0000,
                    i < n,
                    j < n,
                    k <= n,
                    acc == dot(m1@, m2@, i as int, j as int, k as int),
                    forall|t: int|
                        0 <= t < k ==> #[trigger] mul_step_fits(m1@, m2@, i as int, j as int, t),
                decreases n - k,
            {
                let x = m1.rows[i as usize][k as usize];
                let y = m2.rows[k as usize][j as usize];
                assert(x == m1@[i as int][k as int]);
                assert(y == m2@[k as int][j as int]);
                let p = match x.checked_mul(y) {
                    Some(p) => p,
                    None => {
                        assert(!in_i128(m1@[i as int][k as int] * m2@[k as int][j as int]));
                        assert(!mul_step_fits(m1@, m2@, i as int, j as int, k as int));
                        return Err(GraphError::ArithmeticInvariant);
                    },
                };
                match acc.checked_add(p) {
                    Some(s) => {
                        acc = s;
                        assert(mul_step_fits(m1@, m2@, i as int, j as int, k as int));
                    },
                    None => {
                        assert(!in_i128(dot(m1@, m2@, i as int, j as int, k + 1)));
                        assert(!mul_step_fits(m1@, m2@, i as int, j as int, k as int));
                        return Err(GraphError::ArithmeticInvariant);
                    },
                }
                k = k + 1;
            }
            row.push(acc);
            j = j + 1;
        }
        rows.push(row);
        i = i + 1;
    }
    let m = Matrix { n, rows };
    assert(m@ =~~= mat_mul(m1@, m2@));
    Ok(m)
}

} // verus!
