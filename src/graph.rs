use vstd::prelude::*;

use crate::error::GraphError;
use crate::text::push_char;

verus! {

/// Number of unordered pairs among `n` nodes: `n * (n - 1) / 2`.
pub open spec fn tri(n: int) -> int {
    n * (n - 1) / 2
}

/// Bit position of the unordered pair `{a, b}`: `hi * (hi - 1) / 2 + lo`.
/// It depends on the pair alone, never on the node count.
pub open spec fn pair_index(a: int, b: int) -> int {
    if a < b {
        tri(b) + a
    } else {
        tri(a) + b
    }
}

/// Whether bit `k` of `byte` is set, bit 0 being the most significant.
pub open spec fn byte_bit(byte: u8, k: u8) -> bool {
    byte & (0x80u8 >> k) != 0
}

/// Bit `i` of a byte buffer, bits running from the most significant bit of byte 0.
pub open spec fn buffer_bit(data: Seq<u8>, i: int) -> bool {
    byte_bit(data[i / 8], (i % 8) as u8)
}

/// A node count is accepted when its largest node index fits in 32 bits.
pub open spec fn size_ok(n_nodes: int) -> bool {
    1 <= n_nodes <= u32::MAX + 1
}

/// The bytes that hold the pair bits of `n_nodes` nodes can be counted in a `usize`.
pub open spec fn bytes_fit(n_nodes: int) -> bool {
    (tri(n_nodes) + 7) / 8 <= usize::MAX
}

/// Whether `{x, y}` and `{a, b}` are the same unordered pair.
pub open spec fn same_pair(x: int, y: int, a: int, b: int) -> bool {
    (x == a && y == b) || (x == b && y == a)
}

proof fn lemma_byte_bit_set(byte: u8, k: u8, j: u8)
    requires
        k < 8,
        j < 8,
    ensures
        byte_bit(byte | (0x80u8 >> k), j) == (j == k || byte_bit(byte, j)),
{
    assert((byte | (0x80u8 >> k)) & (0x80u8 >> j) != 0 <==> (j == k || byte & (0x80u8 >> j) != 0))
        by (bit_vector)
        requires
            k < 8,
            j < 8,
    ;
}

proof fn lemma_byte_bit_clear(byte: u8, k: u8, j: u8)
    requires
        k < 8,
        j < 8,
    ensures
        byte_bit(byte & !(0x80u8 >> k), j) == (j != k && byte_bit(byte, j)),
{
    assert((byte & !(0x80u8 >> k)) & (0x80u8 >> j) != 0 <==> (j != k && byte & (0x80u8 >> j) != 0))
        by (bit_vector)
        requires
            k < 8,
            j < 8,
    ;
}

proof fn lemma_zero_byte(j: u8)
    requires
        j < 8,
    ensures
        !byte_bit(0u8, j),
{
    assert(0u8 & (0x80u8 >> j) == 0) by (bit_vector);
}

proof fn lemma_tri_step(n: int)
    ensures
        tri(n + 1) == tri(n) + n,
{
    assert((n + 1) * n == n * (n - 1) + 2 * n) by (nonlinear_arith);
}

proof fn lemma_tri_mono(x: int, y: int)
    requires
        0 <= x <= y,
    ensures
        tri(x) <= tri(y),
    decreases y - x,
{
    if x < y {
        lemma_tri_mono(x, y - 1);
        lemma_tri_step(y - 1);
    }
}

proof fn lemma_tri_nonneg(n: int)
    requires
        n >= 0,
    ensures
        tri(n) >= 0,
{
    assert(n * (n - 1) >= 0) by (nonlinear_arith)
        requires
            n >= 0,
    ;
}

/// For `0 <= lo < hi`, the pair's bit lies in `[tri(hi), tri(hi + 1))`.
proof fn lemma_pair_index_range(lo: int, hi: int)
    requires
        0 <= lo < hi,
    ensures
        tri(hi) <= pair_index(lo, hi) < tri(hi + 1),
        pair_index(lo, hi) >= 0,
{
    lemma_tri_step(hi);
    lemma_tri_nonneg(hi);
}

/// Distinct unordered pairs of distinct nodes have distinct bit positions.
proof fn lemma_pair_index_injective(a: int, b: int, x: int, y: int)
    requires
        0 <= a,
        0 <= b,
        a != b,
        0 <= x,
        0 <= y,
        x != y,
        pair_index(a, b) == pair_index(x, y),
    ensures
        same_pair(x, y, a, b),
{
    let (lo, hi) = if a < b { (a, b) } else { (b, a) };
    let (lo2, hi2) = if x < y { (x, y) } else { (y, x) };
    lemma_pair_index_range(lo, hi);
    lemma_pair_index_range(lo2, hi2);
    if hi < hi2 {
        lemma_tri_mono(hi + 1, hi2);
    } else if hi2 < hi {
        lemma_tri_mono(hi2 + 1, hi);
    }
}

/// Pairs of nodes no larger than `last` have bit positions below `tri(last + 1)`.
proof fn lemma_pair_index_below(a: int, b: int, last: int)
    requires
        0 <= a <= last,
        0 <= b <= last,
        a != b,
    ensures
        0 <= pair_index(a, b) < tri(last + 1),
{
    let (lo, hi) = if a < b { (a, b) } else { (b, a) };
    lemma_pair_index_range(lo, hi);
    lemma_tri_mono(hi + 1, last + 1);
}

/// Writing one bit of a buffer changes that bit and no other.
proof fn lemma_write_bit(data: Seq<u8>, idx: int, value: bool, nb: u8, j: int)
    requires
        0 <= idx < data.len() * 8,
        0 <= j < data.len() * 8,
        value ==> nb == data[idx / 8] | (0x80u8 >> ((idx % 8) as u8)),
        !value ==> nb == data[idx / 8] & !(0x80u8 >> ((idx % 8) as u8)),
    ensures
        buffer_bit(data.update(idx / 8, nb), j) == if j == idx {
            value
        } else {
            buffer_bit(data, j)
        },
{
    let k = (idx % 8) as u8;
    let jk = (j % 8) as u8;
    if j / 8 == idx / 8 {
        if value {
            lemma_byte_bit_set(data[idx / 8], k, jk);
        } else {
            lemma_byte_bit_clear(data[idx / 8], k, jk);
        }
    }
}

/// One of the first `n` neighbours in entry `(node, nbrs)` links `a` and `b`.
pub open spec fn links_upto(node: u32, nbrs: Seq<u32>, n: int, a: int, b: int) -> bool {
    exists|j: int| 0 <= j < n && same_pair(node as int, #[trigger] nbrs[j] as int, a, b)
}

/// Entry `(node, nbrs)` of a list of adjacency lists links `a` and `b`.
pub open spec fn entry_links(node: u32, nbrs: Seq<u32>, a: int, b: int) -> bool {
    links_upto(node, nbrs, nbrs.len() as int, a, b)
}

/// Some entry of `lists` links `a` and `b`.
pub open spec fn links(lists: Seq<(u32, Vec<u32>)>, a: int, b: int) -> bool {
    exists|i: int| 0 <= i < lists.len() && entry_links(#[trigger] lists[i].0, lists[i].1@, a, b)
}

/// `v` is `node` or one of the first `n` neighbours in entry `(node, nbrs)`.
pub open spec fn mentions_upto(node: u32, nbrs: Seq<u32>, n: int, v: int) -> bool {
    node == v || exists|j: int| 0 <= j < n && #[trigger] nbrs[j] == v
}

/// Entry `(node, nbrs)` names node `v`.
pub open spec fn entry_mentions(node: u32, nbrs: Seq<u32>, v: int) -> bool {
    mentions_upto(node, nbrs, nbrs.len() as int, v)
}

/// Some entry of `lists` names node `v`.
pub open spec fn mentions(lists: Seq<(u32, Vec<u32>)>, v: int) -> bool {
    exists|i: int| 0 <= i < lists.len() && entry_mentions(#[trigger] lists[i].0, lists[i].1@, v)
}

/// Some entry of `lists` names its own node as a neighbour.
pub open spec fn has_self_loop(lists: Seq<(u32, Vec<u32>)>) -> bool {
    exists|i: int, j: int|
        0 <= i < lists.len() && 0 <= j < lists[i].1@.len() && #[trigger] lists[i].1@[j]
            == lists[i].0
}

/// Some node named in `lists` needs more pair bytes than a `usize` can count.
pub open spec fn too_large(lists: Seq<(u32, Vec<u32>)>) -> bool {
    exists|v: int| mentions(lists, v) && !#[trigger] bytes_fit(v + 1)
}

proof fn lemma_bytes_fit_mono(m: int, n: int)
    requires
        1 <= m <= n,
        bytes_fit(n),
    ensures
        bytes_fit(m),
{
    lemma_tri_mono(m, n);
}

proof fn lemma_links_mentions(lists: Seq<(u32, Vec<u32>)>, a: int, b: int)
    requires
        links(lists, a, b),
    ensures
        mentions(lists, a),
        mentions(lists, b),
{
    let k = choose|k: int| 0 <= k < lists.len() && entry_links(#[trigger] lists[k].0, lists[k].1@, a, b);
    let j = choose|j: int|
        0 <= j < lists[k].1@.len() && same_pair(lists[k].0 as int, #[trigger] lists[k].1@[j] as int, a, b);
    assert(entry_mentions(lists[k].0, lists[k].1@, lists[k].1@[j] as int));
    assert(entry_mentions(lists[k].0, lists[k].1@, lists[k].0 as int));
}

proof fn lemma_lists_step(lists: Seq<(u32, Vec<u32>)>, i: int)
    requires
        0 <= i < lists.len(),
    ensures
        forall|a: int, b: int|
            #[trigger] links(lists.take(i + 1), a, b) == (links(lists.take(i), a, b) || entry_links(
                lists[i].0,
                lists[i].1@,
                a,
                b,
            )),
        forall|v: int|
            #[trigger] mentions(lists.take(i + 1), v) == (mentions(lists.take(i), v)
                || entry_mentions(lists[i].0, lists[i].1@, v)),
{
    let p = lists.take(i);
    let q = lists.take(i + 1);
    assert forall|a: int, b: int| #[trigger]
        links(q, a, b) == (links(p, a, b) || entry_links(lists[i].0, lists[i].1@, a, b)) by {
        if links(q, a, b) {
            let k = choose|k: int| 0 <= k < q.len() && entry_links(q[k].0, q[k].1@, a, b);
            if k < i {
                assert(p[k] == q[k]);
            }
        }
        if links(p, a, b) {
            let k = choose|k: int| 0 <= k < p.len() && entry_links(p[k].0, p[k].1@, a, b);
            assert(q[k] == p[k]);
        }
        if entry_links(lists[i].0, lists[i].1@, a, b) {
            assert(q[i] == lists[i]);
        }
    }
    assert forall|v: int| #[trigger]
        mentions(q, v) == (mentions(p, v) || entry_mentions(lists[i].0, lists[i].1@, v)) by {
        if mentions(q, v) {
            let k = choose|k: int| 0 <= k < q.len() && entry_mentions(q[k].0, q[k].1@, v);
            if k < i {
                assert(p[k] == q[k]);
            }
        }
        if mentions(p, v) {
            let k = choose|k: int| 0 <= k < p.len() && entry_mentions(p[k].0, p[k].1@, v);
            assert(q[k] == p[k]);
        }
        if entry_mentions(lists[i].0, lists[i].1@, v) {
            assert(q[i] == lists[i]);
        }
    }
}

/// A graph on the nodes `0..=last_node`, one bit per unordered pair of nodes.
/// Pair `{a, b}` with `a < b` lives at bit `b * (b - 1) / 2 + a` of `data`,
/// so adding nodes only appends bits.
pub struct AdjMatrix {
    last_node: u32,
    n_bits: u64,
    data: Vec<u8>,
}

impl AdjMatrix {
    /// The largest node index.
    pub closed spec fn last(self) -> int {
        self.last_node as int
    }

    /// The number of nodes.
    pub open spec fn node_count(self) -> int {
        self.last() + 1
    }

    /// A graph has between 1 and `2^32` nodes.
    pub proof fn lemma_node_count(self)
        ensures
            1 <= self.node_count() <= u32::MAX + 1,
    {
    }

    /// Bit `i` of the packed buffer.
    pub closed spec fn bit(self, i: int) -> bool {
        buffer_bit(self.data@, i)
    }

    /// Whether nodes `a` and `b` are linked (meaningful for a valid pair).
    pub open spec fn edge(self, a: int, b: int) -> bool {
        self.bit(pair_index(a, b))
    }

    /// `a` and `b` are distinct nodes of the graph.
    pub open spec fn valid_pair(self, a: int, b: int) -> bool {
        a != b && 0 <= a <= self.last() && 0 <= b <= self.last()
    }

    /// The buffer holds exactly `ceil(n_bits / 8)` bytes for `n_bits = tri(node_count)`,
    /// and the padding bits after the last pair are clear.
    pub closed spec fn wf(self) -> bool {
        &&& self.n_bits == tri(self.last_node + 1)
        &&& self.n_bits < 0x8000_0000_0000_0000
        &&& self.data@.len() == (self.n_bits + 7) / 8
        &&& self.data@.len() <= usize::MAX
        &&& forall|i: int|
            self.n_bits <= i < self.data@.len() * 8 ==> !#[trigger] buffer_bit(self.data@, i)
    }

    /// `next` is this graph with the pair `{a, b}` linked when `value` holds and
    /// unlinked otherwise, every other pair unchanged.
    pub open spec fn with_edge(self, next: Self, a: int, b: int, value: bool) -> bool {
        &&& next.wf()
        &&& next.last() == self.last()
        &&& forall|x: int, y: int| #[trigger]
            self.valid_pair(x, y) ==> next.edge(x, y) == if same_pair(x, y, a, b) {
                value
            } else {
                self.edge(x, y)
            }
    }

    /// After linking a valid pair `{a, b}`, `is_edge(a, b)` reports it linked, and
    /// `is_edge(b, a)` reports the same.
    pub proof fn lemma_set_then_is_edge(self, next: Self, a: int, b: int)
        requires
            self.wf(),
            self.valid_pair(a, b),
            self.with_edge(next, a, b, true),
        ensures
            next.valid_pair(a, b),
            next.valid_pair(b, a),
            next.edge(a, b),
            next.edge(b, a) == next.edge(a, b),
    {
    }

    /// Whether no pair of nodes is linked.
    pub open spec fn no_edges(self) -> bool {
        forall|a: int, b: int| self.valid_pair(a, b) ==> !#[trigger] self.edge(a, b)
    }

    /// Checks a node count and derives the largest node index, the number of
    /// pair bits and the number of bytes that hold them.
    fn calculate_primitive_fields(n_nodes: u64) -> (r: Result<(u32, u64, usize), GraphError>)
        ensures
            !size_ok(n_nodes as int) ==> r == Err::<(u32, u64, usize), GraphError>(
                GraphError::Size,
            ),
            size_ok(n_nodes as int) && !bytes_fit(n_nodes as int) ==> r == Err::<
                (u32, u64, usize),
                GraphError,
            >(GraphError::Allocation),
            size_ok(n_nodes as int) && bytes_fit(n_nodes as int) ==> (r matches Ok(t) && t.0
                == n_nodes - 1 && t.1 == tri(n_nodes as int) && t.2 == (t.1 + 7) / 8
                && t.1 < 0x8000_0000_0000_0000),
    {
        if n_nodes == 0 || n_nodes - 1 > 0xffff_ffffu64 {
            return Err(GraphError::Size);
        }
        let last_node = (n_nodes - 1) as u32;
        assert(n_nodes * (n_nodes - 1) <= 0x1_0000_0000 * 0xffff_ffff) by (nonlinear_arith)
            requires
                1 <= n_nodes <= 0x1_0000_0000,
        ;
        proof {
            lemma_tri_nonneg(n_nodes as int);
        }
        let n_bits: u64 = n_nodes * (n_nodes - 1) / 2;
        if (n_bits + 7) / 8 > usize::MAX as u64 {
            return Err(GraphError::Allocation);
        }
        let n_bytes = ((n_bits + 7) / 8) as usize;
        Ok((last_node, n_bits, n_bytes))
    }

    /// A graph with `n_nodes` nodes and no edges.
    pub fn empty(n_nodes: u64) -> (r: Result<Self, GraphError>)
        ensures
            !size_ok(n_nodes as int) ==> r == Err::<Self, GraphError>(GraphError::Size),
            size_ok(n_nodes as int) && !bytes_fit(n_nodes as int) ==> r == Err::<Self, GraphError>(
                GraphError::Allocation,
            ),
            size_ok(n_nodes as int) && bytes_fit(n_nodes as int) ==> (r matches Ok(g) && g.wf()
                && g.node_count() == n_nodes && g.no_edges()),
    {
        let (last_node, n_bits, n_bytes) = match Self::calculate_primitive_fields(n_nodes) {
            Ok(t) => t,
            Err(e) => return Err(e),
        };
        let data: Vec<u8> = vec![0u8; n_bytes];
        let g = AdjMatrix { last_node, n_bits, data };
        assert forall|i: int| 0 <= i < g.data@.len() * 8 implies !#[trigger] buffer_bit(
            g.data@,
            i,
        ) by {
            lemma_zero_byte((i % 8) as u8);
        }
        assert forall|a: int, b: int| g.valid_pair(a, b) implies !#[trigger] g.edge(a, b) by {
            lemma_pair_index_below(a, b, g.last());
            lemma_zero_byte((pair_index(a, b) % 8) as u8);
        }
        Ok(g)
    }

    /// The bit position of the pair `{node_a, node_b}`.
    fn index_of(&self, node_a: u32, node_b: u32) -> (r: Result<u64, GraphError>)
        requires
            self.wf(),
        ensures
            self.valid_pair(node_a as int, node_b as int) ==> r == Ok::<u64, GraphError>(
                pair_index(node_a as int, node_b as int) as u64,
            ) && 0 <= pair_index(node_a as int, node_b as int) < self.n_bits,
            !self.valid_pair(node_a as int, node_b as int) ==> r == Err::<u64, GraphError>(
                GraphError::Index,
            ),
    {
        if node_a == node_b || node_a > self.last_node || node_b > self.last_node {
            return Err(GraphError::Index);
        }
        proof {
            lemma_pair_index_below(node_a as int, node_b as int, self.last_node as int);
        }
        if node_a < node_b {
            Ok(self.unchecked_index_of(node_a, node_b))
        } else {
            Ok(self.unchecked_index_of(node_b, node_a))
        }
    }

    /// The bit position of the pair `{node_a, node_b}` for `node_a < node_b <= last`.
    fn unchecked_index_of(&self, node_a: u32, node_b: u32) -> (r: u64)
        requires
            self.wf(),
            node_a < node_b <= self.last_node,
        ensures
            r == pair_index(node_a as int, node_b as int),
            r < self.n_bits,
    {
        proof {
            lemma_pair_index_below(node_a as int, node_b as int, self.last_node as int);
            lemma_pair_index_range(node_a as int, node_b as int);
            assert(node_b as u64 * (node_b as u64 - 1) <= 0xffff_ffffu64 * 0xffff_ffffu64)
                by (nonlinear_arith)
                requires
                    1 <= node_b <= 0xffff_ffffu64,
            ;
        }
        node_b as u64 * (node_b as u64 - 1) / 2 + node_a as u64
    }

    /// Reads bit `i` of the buffer.
    fn get_bit(&self, i: u64) -> (r: bool)
        requires
            self.wf(),
            i < self.n_bits,
        ensures
            r == self.bit(i as int),
    {
        let len = self.data.len();
        assert(i / 8 < len);
        let q = (i / 8) as usize;
        assert(q == i / 8);
        let byte = self.data[q];
        byte & (0x80u8 >> ((i % 8) as u8)) != 0
    }

    /// Whether `node_a` and `node_b` are linked; fails with `Index` when they are
    /// equal or either exceeds the largest node.
    pub fn is_edge(&self, node_a: u32, node_b: u32) -> (r: Result<bool, GraphError>)
        requires
            self.wf(),
        ensures
            self.valid_pair(node_a as int, node_b as int) ==> r == Ok::<bool, GraphError>(
                self.edge(node_a as int, node_b as int),
            ),
            !self.valid_pair(node_a as int, node_b as int) ==> r == Err::<bool, GraphError>(
                GraphError::Index,
            ),
    {
        let i = match self.index_of(node_a, node_b) {
            Ok(i) => i,
            Err(e) => return Err(e),
        };
        Ok(self.get_bit(i))
    }

    /// Links (`value == true`) or unlinks the pair `{node_a, node_b}`; fails with
    /// `Index`, changing nothing, when they are equal or either exceeds the largest node.
    pub fn set(&mut self, node_a: u32, node_b: u32, value: bool) -> (r: Result<(), GraphError>)
        requires
            old(self).wf(),
        ensures
            final(self).wf(),
            final(self).last() == old(self).last(),
            !old(self).valid_pair(node_a as int, node_b as int) ==> r == Err::<(), GraphError>(
                GraphError::Index,
            ) && *final(self) == *old(self),
            old(self).valid_pair(node_a as int, node_b as int) ==> r == Ok::<(), GraphError>(())
                && old(self).with_edge(*final(self), node_a as int, node_b as int, value),
    {
        let idx = match self.index_of(node_a, node_b) {
            Ok(i) => i,
            Err(e) => return Err(e),
        };
        self.write_bit(idx, value);
        proof {
            assert forall|x: int, y: int| #[trigger]
                old(self).valid_pair(x, y) implies self.edge(x, y) == if same_pair(
                x,
                y,
                node_a as int,
                node_b as int,
            ) {
                value
            } else {
                old(self).edge(x, y)
            } by {
                lemma_pair_index_below(x, y, self.last());
                if pair_index(x, y) == idx {
                    lemma_pair_index_injective(node_a as int, node_b as int, x, y);
                }
            }
        }
        Ok(())
    }

    /// Sets or clears bit `idx`, which lies below `n_bits`.
    fn write_bit(&mut self, idx: u64, value: bool)
        requires
            old(self).wf(),
            idx < old(self).n_bits,
        ensures
            final(self).wf(),
            final(self).last_node == old(self).last_node,
            forall|j: int|
                0 <= j < old(self).n_bits ==> #[trigger] final(self).bit(j) == if j == idx {
                    value
                } else {
                    old(self).bit(j)
                },
    {
        let len = self.data.len();
        assert(idx / 8 < len);
        let q = (idx / 8) as usize;
        assert(q == idx / 8);
        let k = (idx % 8) as u8;
        let mask = 0x80u8 >> k;
        let old_byte = self.data[q];
        let nb = if value {
            old_byte | mask
        } else {
            old_byte & !mask
        };
        let ghost old_data = self.data@;
        self.data[q] = nb;
        proof {
            assert(self.data@ == old_data.update(idx as int / 8, nb));
            assert forall|j: int| 0 <= j < old_data.len() * 8 implies #[trigger] buffer_bit(
                self.data@,
                j,
            ) == if j == idx {
                value
            } else {
                buffer_bit(old_data, j)
            } by {
                lemma_write_bit(old_data, idx as int, value, nb, j);
            }
        }
    }

    /// The number of node pairs, `node_count * (node_count - 1) / 2`, one bit each.
    pub fn pair_count(&self) -> (r: u64)
        requires
            self.wf(),
        ensures
            r == tri(self.node_count()),
    {
        self.n_bits
    }

    /// The largest node index.
    pub fn last_node(&self) -> (r: u32)
        ensures
            r == self.last(),
    {
        self.last_node
    }

    /// Grows the graph to the nodes `0..=last_node`. Existing pairs keep their bits,
    /// since positions do not depend on the node count; the new pairs start unlinked.
    /// A `last_node` no larger than the current one changes nothing. Fails with
    /// `Allocation`, changing nothing, when the grown buffer cannot be counted in a `usize`.
    pub fn grow(&mut self, last_node: u32) -> (r: Result<(), GraphError>)
        requires
            old(self).wf(),
        ensures
            final(self).wf(),
            last_node > old(self).last() && !bytes_fit(last_node + 1) ==> r == Err::<
                (),
                GraphError,
            >(GraphError::Allocation) && *final(self) == *old(self),
            !(last_node > old(self).last() && !bytes_fit(last_node + 1)) ==> r == Ok::<
                (),
                GraphError,
            >(()) && final(self).last() == if last_node > old(self).last() {
                last_node as int
            } else {
                old(self).last()
            },
            forall|x: int, y: int| #[trigger]
                old(self).valid_pair(x, y) ==> final(self).edge(x, y) == old(self).edge(x, y),
            forall|x: int, y: int|
                #![trigger final(self).edge(x, y)]
                final(self).valid_pair(x, y) && !old(self).valid_pair(x, y) ==> !final(self).edge(
                    x,
                    y,
                ),
    {
        if last_node <= self.last_node {
            return Ok(());
        }
        let (new_last, n_bits, n_bytes) = match Self::calculate_primitive_fields(
            last_node as u64 + 1,
        ) {
            Ok(t) => t,
            Err(e) => return Err(e),
        };
        let ghost old_data = self.data@;
        let ghost old_bits = self.n_bits as int;
        proof {
            lemma_tri_mono(self.last_node + 1, last_node + 1);
        }
        let mut i: usize = self.data.len();
        while i < n_bytes
            invariant
                old_data.len() <= i <= n_bytes,
                self.data@.len() == i,
                old_data.len() == (old_bits + 7) / 8,
                forall|k: int| 0 <= k < old_data.len() ==> self.data@[k] == old_data[k],
                forall|k: int| old_data.len() <= k < i ==> self.data@[k] == 0u8,
            decreases n_bytes - i,
        {
            self.data.push(0u8);
            i = i + 1;
        }
        self.last_node = new_last;
        self.n_bits = n_bits;
        proof {
            assert forall|j: int| 0 <= j < old_data.len() * 8 implies #[trigger] buffer_bit(
                self.data@,
                j,
            ) == buffer_bit(old_data, j) by {}
            assert forall|j: int| old_bits <= j < self.data@.len() * 8 implies !#[trigger] buffer_bit(
                self.data@,
                j,
            ) by {
                if j < old_data.len() * 8 {
                    assert(buffer_bit(self.data@, j) == buffer_bit(old_data, j));
                } else {
                    lemma_zero_byte((j % 8) as u8);
                }
            }
            assert forall|x: int, y: int| #[trigger]
                old(self).valid_pair(x, y) implies self.edge(x, y) == old(self).edge(x, y) by {
                lemma_pair_index_below(x, y, old(self).last());
            }
            assert forall|x: int, y: int|
                #![trigger self.edge(x, y)]
                self.valid_pair(x, y) && !old(self).valid_pair(x, y) implies !self.edge(x, y) by {
                let hi = if x < y { y } else { x };
                let lo = if x < y { x } else { y };
                lemma_pair_index_range(lo, hi);
                lemma_tri_mono(old(self).last() + 1, hi);
                lemma_pair_index_below(x, y, self.last());
            }
        }
        Ok(())
    }

    /// The graph with `n_nodes` nodes in which every pair is linked.
    pub fn complete(n_nodes: u64) -> (r: Result<Self, GraphError>)
        ensures
            !size_ok(n_nodes as int) ==> r == Err::<Self, GraphError>(GraphError::Size),
            size_ok(n_nodes as int) && !bytes_fit(n_nodes as int) ==> r == Err::<Self, GraphError>(
                GraphError::Allocation,
            ),
            size_ok(n_nodes as int) && bytes_fit(n_nodes as int) ==> (r matches Ok(g) && g.wf()
                && g.node_count() == n_nodes && forall|a: int, b: int|
                g.valid_pair(a, b) ==> #[trigger] g.edge(a, b)),
    {
        let mut g = match Self::empty(n_nodes) {
            Ok(g) => g,
            Err(e) => return Err(e),
        };
        let n_bits = g.n_bits;
        let mut i: u64 = 0;
        while i < n_bits
            invariant
                g.wf(),
                g.node_count() == n_nodes,
                n_bits == g.n_bits,
                i <= n_bits,
                forall|j: int| 0 <= j < i ==> #[trigger] g.bit(j),
            decreases n_bits - i,
        {
            g.write_bit(i, true);
            i = i + 1;
        }
        assert forall|a: int, b: int| g.valid_pair(a, b) implies #[trigger] g.edge(a, b) by {
            lemma_pair_index_below(a, b, g.last());
        }
        Ok(g)
    }

    /// The graph with `n_nodes` nodes whose pair at bit position `k` is linked
    /// exactly when `pair_bits[k]` holds. Fails with `Domain` when `pair_bits`
    /// does not hold one entry per pair.
    pub fn from_pair_bits(n_nodes: u64, pair_bits: &Vec<bool>) -> (r: Result<Self, GraphError>)
        ensures
            !size_ok(n_nodes as int) ==> r == Err::<Self, GraphError>(GraphError::Size),
            size_ok(n_nodes as int) && !bytes_fit(n_nodes as int) ==> r == Err::<Self, GraphError>(
                GraphError::Allocation,
            ),
            size_ok(n_nodes as int) && bytes_fit(n_nodes as int) && pair_bits@.len() != tri(
                n_nodes as int,
            ) ==> r == Err::<Self, GraphError>(GraphError::Domain),
            size_ok(n_nodes as int) && bytes_fit(n_nodes as int) && pair_bits@.len() == tri(
                n_nodes as int,
            ) ==> (r matches Ok(g) && g.wf() && g.node_count() == n_nodes && forall|a: int, b: int|
                g.valid_pair(a, b) ==> #[trigger] g.edge(a, b) == pair_bits@[pair_index(a, b)]),
    {
        let mut g = match Self::empty(n_nodes) {
            Ok(g) => g,
            Err(e) => return Err(e),
        };
        let n_bits = g.n_bits;
        let len = pair_bits.len();
        if len as u64 != n_bits {
            return Err(GraphError::Domain);
        }
        let mut i: u64 = 0;
        while i < n_bits
            invariant
                g.wf(),
                len == pair_bits@.len(),
                g.node_count() == n_nodes,
                n_bits == g.n_bits,
                pair_bits@.len() == n_bits,
                i <= n_bits,
                forall|j: int| 0 <= j < i ==> #[trigger] g.bit(j) == pair_bits@[j],
            decreases n_bits - i,
        {
            g.write_bit(i, pair_bits[i as usize]);
            i = i + 1;
        }
        assert forall|a: int, b: int| g.valid_pair(a, b) implies #[trigger] g.edge(a, b)
            == pair_bits@[pair_index(a, b)] by {
            lemma_pair_index_below(a, b, g.last());
        }
        Ok(g)
    }

    /// `list` holds the neighbours of `node` in ascending order.
    pub open spec fn is_adj_list(self, node: int, list: Seq<u32>) -> bool {
        &&& forall|k: int, l: int| 0 <= k < l < list.len() ==> list[k] < list[l]
        &&& forall|k: int|
            0 <= k < list.len() ==> self.valid_pair(node, list[k] as int) && self.edge(
                node,
                list[k] as int,
            )
        &&& forall|v: int|
            #![trigger self.edge(node, v)]
            self.valid_pair(node, v) && self.edge(node, v) ==> list.contains(v as u32)
    }

    /// The neighbours of `node`, in ascending order.
    pub fn adj_list(&self, node: u32) -> (r: Vec<u32>)
        requires
            self.wf(),
            node <= self.last(),
        ensures
            self.is_adj_list(node as int, r@),
    {
        let mut output: Vec<u32> = Vec::new();
        let mut i: u64 = 0;
        let last = self.last_node as u64;
        while i <= last
            invariant
                self.wf(),
                last == self.last(),
                node <= last,
                i <= last + 1,
                forall|k: int, l: int| 0 <= k < l < output@.len() ==> output@[k] < output@[l],
                forall|k: int| 0 <= k < output@.len() ==> output@[k] < i,
                forall|k: int|
                    0 <= k < output@.len() ==> self.valid_pair(node as int, output@[k] as int)
                        && self.edge(node as int, output@[k] as int),
                forall|v: int|
                    #![trigger self.edge(node as int, v)]
                    0 <= v < i && self.valid_pair(node as int, v) && self.edge(node as int, v)
                        ==> output@.contains(v as u32),
            decreases last + 1 - i,
        {
            let other = i as u32;
            if other != node {
                let linked = if other < node {
                    self.get_bit(self.unchecked_index_of(other, node))
                } else {
                    self.get_bit(self.unchecked_index_of(node, other))
                };
                if linked {
                    let ghost before = output@;
                    output.push(other);
                    proof {
                        assert forall|v: int|
                            #![trigger self.edge(node as int, v)]
                            0 <= v < i + 1 && self.valid_pair(node as int, v) && self.edge(
                                node as int,
                                v,
                            ) implies output@.contains(v as u32) by {
                            if v < i {
                                let k = choose|k: int|
                                    0 <= k < before.len() && before[k] == v as u32;
                                assert(output@[k] == v as u32);
                            } else {
                                assert(output@[before.len() as int] == v as u32);
                            }
                        }
                    }
                }
            }
            i = i + 1;
        }
        output
    }

    /// The neighbours of every node: entry `k` is node `k` with its ascending list.
    pub fn adj_lists(&self) -> (r: Vec<(u32, Vec<u32>)>)
        requires
            self.wf(),
        ensures
            r@.len() == self.node_count(),
            forall|k: int|
                0 <= k < r@.len() ==> #[trigger] r@[k].0 == k && self.is_adj_list(k, r@[k].1@),
    {
        let mut output: Vec<(u32, Vec<u32>)> = Vec::new();
        let mut node: u64 = 0;
        let last = self.last_node as u64;
        while node <= last
            invariant
                self.wf(),
                last == self.last(),
                node <= last + 1,
                output@.len() == node,
                forall|k: int|
                    0 <= k < output@.len() ==> #[trigger] output@[k].0 == k && self.is_adj_list(
                        k,
                        output@[k].1@,
                    ),
            decreases last + 1 - node,
        {
            let list = self.adj_list(node as u32);
            output.push((node as u32, list));
            node = node + 1;
        }
        output
    }

    /// 1 when pair bit `i` is set, else 0; bits past the last pair read as 0.
    pub open spec fn pair_bit_value(self, i: int) -> int {
        if 0 <= i < tri(self.node_count()) && self.bit(i) {
            1
        } else {
            0
        }
    }

    /// The number formed by the first `t` bits of six-bit group `c`, most significant first.
    pub open spec fn chunk_prefix(self, c: int, t: nat) -> int
        decreases t,
    {
        if t == 0 {
            0
        } else {
            2 * self.chunk_prefix(c, (t - 1) as nat) + self.pair_bit_value(6 * c + t - 1)
        }
    }

    /// The pair bits in six-bit groups, the last one padded with zeros at its low end,
    /// each group `v` written as the character `v + 63`.
    pub open spec fn base64_spec(self) -> Seq<char> {
        Seq::new(
            ((tri(self.node_count()) + 5) / 6) as nat,
            |c: int| ((self.chunk_prefix(c, 6) + 63) as u8) as char,
        )
    }

    /// The graph6 text: the character `node_count + 63`, then the pair bits in base64.
    pub open spec fn graph6_spec(self) -> Seq<char> {
        seq![((self.node_count() + 63) as u8) as char] + self.base64_spec()
    }

    /// Six-bit group `c` of the pair bits.
    fn chunk(&self, c: u64) -> (r: u8)
        requires
            self.wf(),
            c < (self.n_bits + 5) / 6,
        ensures
            r == self.chunk_prefix(c as int, 6),
            r < 64,
    {
        let n_bits = self.n_bits;
        let mut v: u8 = 0;
        let mut t: u64 = 0;
        while t < 6
            invariant
                self.wf(),
                n_bits == self.n_bits,
                c < (n_bits + 5) / 6,
                t <= 6,
                v == self.chunk_prefix(c as int, t as nat),
                t == 0 ==> v == 0,
                t <= 1 ==> v < 2,
                t <= 2 ==> v < 4,
                t <= 3 ==> v < 8,
                t <= 4 ==> v < 16,
                t <= 5 ==> v < 32,
                v < 64,
            decreases 6 - t,
        {
            let i = 6 * c + t;
            let set = if i < n_bits {
                self.get_bit(i)
            } else {
                false
            };
            v = 2 * v + if set {
                1
            } else {
                0
            };
            t = t + 1;
        }
        v
    }

    /// The pair bits encoded in base64, six bits to a character.
    pub fn base64(&self) -> (r: String)
        requires
            self.wf(),
        ensures
            r@ == self.base64_spec(),
    {
        let n_chunks = (self.n_bits + 5) / 6;
        let mut output = String::new();
        let mut c: u64 = 0;
        while c < n_chunks
            invariant
                self.wf(),
                n_chunks == (self.n_bits + 5) / 6,
                c <= n_chunks,
                output@ == self.base64_spec().take(c as int),
            decreases n_chunks - c,
        {
            let v = self.chunk(c);
            push_char(&mut output, (v + 63) as char);
            c = c + 1;
            assert(output@ =~= self.base64_spec().take(c as int));
        }
        assert(output@ =~= self.base64_spec());
        output
    }

    /// The graph in graph6 form. Fails with `EncodingRange` when the graph has
    /// 63 nodes or more, which the single-byte size prefix cannot hold.
    pub fn graph6(&self) -> (r: Result<String, GraphError>)
        requires
            self.wf(),
        ensures
            self.node_count() >= 63 ==> r == Err::<String, GraphError>(GraphError::EncodingRange),
            self.node_count() < 63 ==> (r matches Ok(s) && s@ == self.graph6_spec()),
    {
        if self.last_node >= 62 {
            return Err(GraphError::EncodingRange);
        }
        let mut output = String::new();
        push_char(&mut output, (self.last_node as u8 + 64) as char);
        let body = self.base64();
        output.append(body.as_str());
        assert(output@ =~= self.graph6_spec());
        Ok(output)
    }

    /// Builds a graph from adjacency lists, growing it whenever a list names a node
    /// beyond the current largest one; a graph of one node when nothing is named.
    /// Fails with `Index` when a list names its own node as a neighbour.
    pub fn from_adj_lists(adj_lists: Vec<(u32, Vec<u32>)>) -> (r: Result<Self, GraphError>)
        ensures
            has_self_loop(adj_lists@) ==> r == Err::<Self, GraphError>(GraphError::Index),
            !has_self_loop(adj_lists@) && too_large(adj_lists@) ==> r == Err::<Self, GraphError>(
                GraphError::Allocation,
            ),
            !has_self_loop(adj_lists@) && !too_large(adj_lists@) ==> (r matches Ok(g) && g.wf()
                && (forall|v: int| mentions(adj_lists@, v) ==> v <= g.last()) && (g.last() == 0
                || mentions(adj_lists@, g.last())) && forall|a: int, b: int|
                g.valid_pair(a, b) ==> #[trigger] g.edge(a, b) == links(adj_lists@, a, b)),
    {
        let n = adj_lists.len();
        let mut i: usize = 0;
        while i < n
            invariant
                n == adj_lists@.len(),
                i <= n,
                forall|i2: int, j: int|
                    0 <= i2 < i && 0 <= j < adj_lists@[i2].1@.len() ==> #[trigger] adj_lists@[i2].1@[j]
                        != adj_lists@[i2].0,
            decreases n - i,
        {
            let m = adj_lists[i].1.len();
            let mut j: usize = 0;
            while j < m
                invariant
                    n == adj_lists@.len(),
                    i < n,
                    m == adj_lists@[i as int].1@.len(),
                    j <= m,
                    forall|i2: int, j2: int|
                        0 <= i2 < i && 0 <= j2 < adj_lists@[i2].1@.len() ==> #[trigger] adj_lists@[i2].1@[j2]
                            != adj_lists@[i2].0,
                    forall|j2: int| 0 <= j2 < j ==> #[trigger] adj_lists@[i as int].1@[j2] != adj_lists@[i as int].0,
                decreases m - j,
            {
                if adj_lists[i].1[j] == adj_lists[i].0 {
                    proof {
                        assert(adj_lists@[i as int].1@[j as int] == adj_lists@[i as int].0);
                    }
                    return Err(GraphError::Index);
                }
                j = j + 1;
            }
            i = i + 1;
        }
        proof {
            assert(!has_self_loop(adj_lists@));
        }
        let mut output = match Self::empty(1) {
            Ok(g) => g,
            Err(e) => return Err(e),
        };
        proof {
            assert(adj_lists@.take(0) =~= Seq::<(u32, Vec<u32>)>::empty());
        }
        let mut i: usize = 0;
        while i < n
            invariant
                n == adj_lists@.len(),
                i <= n,
                !has_self_loop(adj_lists@),
                output.wf(),
                forall|v: int| mentions(adj_lists@.take(i as int), v) ==> v <= output.last(),
                output.last() == 0 || mentions(adj_lists@.take(i as int), output.last()),
                forall|a: int, b: int|
                    output.valid_pair(a, b) ==> #[trigger] output.edge(a, b) == links(
                        adj_lists@.take(i as int),
                        a,
                        b,
                    ),
            decreases n - i,
        {
            proof {
                lemma_lists_step(adj_lists@, i as int);
            }
            let node = adj_lists[i].0;
            let ghost before = output;
            if node > output.last_node {
                match output.grow(node) {
                    Ok(()) => {},
                    Err(e) => {
                        proof {
                            assert(entry_mentions(adj_lists@[i as int].0, adj_lists@[i as int].1@, node as int));
                            assert(mentions(adj_lists@, node as int));
                            assert(!bytes_fit(node as int + 1));
                            assert(too_large(adj_lists@));
                        }
                        return Err(e);
                    },
                }
            }
            proof {
                assert forall|a: int, b: int|
                    output.valid_pair(a, b) implies #[trigger] output.edge(a, b) == links(
                    adj_lists@.take(i as int),
                    a,
                    b,
                ) by {
                    if !before.valid_pair(a, b) {
                        if links(adj_lists@.take(i as int), a, b) {
                            lemma_links_mentions(adj_lists@.take(i as int), a, b);
                        }
                    }
                }
            }
            let m = adj_lists[i].1.len();
            let ghost nbrs = adj_lists@[i as int].1@;
            let mut j: usize = 0;
            while j < m
                invariant
                    n == adj_lists@.len(),
                    i < n,
                    node == adj_lists@[i as int].0,
                    nbrs == adj_lists@[i as int].1@,
                    m == nbrs.len(),
                    j <= m,
                    !has_self_loop(adj_lists@),
                    output.wf(),
                    node <= output.last(),
                    forall|v: int|
                        #![trigger mentions_upto(node, nbrs, j as int, v)]
                        #![trigger mentions(adj_lists@.take(i as int), v)]
                        mentions(adj_lists@.take(i as int), v) || mentions_upto(
                            node,
                            nbrs,
                            j as int,
                            v,
                        ) ==> v <= output.last(),
                    output.last() == 0 || mentions(adj_lists@.take(i as int), output.last())
                        || mentions_upto(node, nbrs, j as int, output.last()),
                    forall|a: int, b: int|
                        output.valid_pair(a, b) ==> #[trigger] output.edge(a, b) == (links(
                            adj_lists@.take(i as int),
                            a,
                            b,
                        ) || links_upto(node, nbrs, j as int, a, b)),
                decreases m - j,
            {
                let adj = adj_lists[i].1[j];
                proof {
                    assert(nbrs[j as int] == adj);
                    assert(adj != node);
                }
                let ghost before = output;
                if adj > output.last_node {
                    match output.grow(adj) {
                        Ok(()) => {},
                        Err(e) => {
                            proof {
                                assert(mentions_upto(node, nbrs, m as int, adj as int));
                                assert(mentions(adj_lists@, adj as int));
                                assert(!bytes_fit(adj as int + 1));
                                assert(too_large(adj_lists@));
                            }
                            return Err(e);
                        },
                    }
                }
                let ghost grown = output;
                let _ = output.set(node, adj, true);
                proof {
                    assert forall|v: int|
                        #![trigger mentions_upto(node, nbrs, j + 1, v)]
                        mentions(adj_lists@.take(i as int), v) || mentions_upto(
                            node,
                            nbrs,
                            j + 1,
                            v,
                        ) implies v <= output.last() by {
                        if v != adj && mentions_upto(node, nbrs, j + 1, v) {
                            let k = choose|k: int| 0 <= k < j + 1 && #[trigger] nbrs[k] == v;
                            assert(mentions_upto(node, nbrs, j as int, v));
                        }
                        if mentions(adj_lists@.take(i as int), v) || mentions_upto(node, nbrs, j as int, v) {
                            assert(v <= before.last());
                        }
                    }
                    if output.last() != 0 && !mentions(adj_lists@.take(i as int), output.last()) {
                        if output.last() == adj {
                            assert(nbrs[j as int] == adj);
                        } else {
                            assert(mentions_upto(node, nbrs, j as int, output.last()));
                            if output.last() != node {
                                let k = choose|k: int| 0 <= k < j && #[trigger] nbrs[k] == output.last();
                            }
                        }
                        assert(mentions_upto(node, nbrs, j + 1, output.last()));
                    }
                    assert forall|a: int, b: int| output.valid_pair(a, b) implies #[trigger] output.edge(
                        a,
                        b,
                    ) == (links(adj_lists@.take(i as int), a, b) || links_upto(node, nbrs, j + 1, a, b)) by {
                        assert(grown.valid_pair(a, b));
                        if same_pair(a, b, node as int, adj as int) {
                            assert(same_pair(node as int, nbrs[j as int] as int, a, b));
                        } else {
                            if links_upto(node, nbrs, j + 1, a, b) {
                                let k = choose|k: int|
                                    0 <= k < j + 1 && same_pair(node as int, #[trigger] nbrs[k] as int, a, b);
                                assert(links_upto(node, nbrs, j as int, a, b));
                            }
                            if links_upto(node, nbrs, j as int, a, b) {
                                let k = choose|k: int|
                                    0 <= k < j && same_pair(node as int, #[trigger] nbrs[k] as int, a, b);
                                assert(links_upto(node, nbrs, j + 1, a, b));
                            }
                            if !before.valid_pair(a, b) {
                                if links(adj_lists@.take(i as int), a, b) {
                                    lemma_links_mentions(adj_lists@.take(i as int), a, b);
                                }
                                if links_upto(node, nbrs, j as int, a, b) {
                                    let k = choose|k: int|
                                        0 <= k < j && same_pair(node as int, #[trigger] nbrs[k] as int, a, b);
                                    assert(mentions_upto(node, nbrs, j as int, nbrs[k] as int));
                                    assert(mentions_upto(node, nbrs, j as int, node as int));
                                }
                            }
                        }
                    }
                }
                j = j + 1;
            }
            proof {
                assert forall|v: int| #[trigger] mentions(adj_lists@.take(i + 1), v) implies v <= output.last() by {
                    if !mentions(adj_lists@.take(i as int), v) {
                        assert(mentions_upto(node, nbrs, m as int, v));
                    }
                }
            }
            i = i + 1;
        }
        proof {
            assert(adj_lists@.take(n as int) =~= adj_lists@);
            if too_large(adj_lists@) {
                let v = choose|v: int| mentions(adj_lists@, v) && !#[trigger] bytes_fit(v + 1);
                let k = choose|k: int|
                    0 <= k < adj_lists@.len() && entry_mentions(#[trigger] adj_lists@[k].0, adj_lists@[k].1@, v);
                assert(v >= 0);
                lemma_bytes_fit_mono(v + 1, output.node_count());
            }
        }
        Ok(output)
    }

    /// Node `b`'s pairs with the smaller nodes, `'1'` for linked, `'0'` else.
    pub open spec fn row_text(self, b: int) -> Seq<char> {
        Seq::new(b as nat, |a: int| if self.edge(a, b) { '1' } else { '0' })
    }

    /// The rows of nodes `1..=b`, separated by newlines.
    pub open spec fn text_upto(self, b: int) -> Seq<char>
        decreases b,
    {
        if b < 1 {
            Seq::empty()
        } else if b == 1 {
            self.row_text(1)
        } else {
            self.text_upto(b - 1) + seq!['\n'] + self.row_text(b)
        }
    }

    /// The upper triangle as text: one line per node from node 1 on, listing its
    /// pairs with the smaller nodes in order.
    pub fn to_text(&self) -> (r: String)
        requires
            self.wf(),
        ensures
            r@ == self.text_upto(self.last()),
    {
        let last = self.last_node as u64;
        let mut output = String::new();
        let mut b: u64 = 1;
        while b <= last
            invariant
                self.wf(),
                last == self.last(),
                1 <= b <= last + 1,
                output@ == self.text_upto(b - 1),
            decreases last + 1 - b,
        {
            if b > 1 {
                push_char(&mut output, '\n');
            }
            let ghost start = output@;
            let mut a: u64 = 0;
            while a < b
                invariant
                    self.wf(),
                    last == self.last(),
                    1 <= b <= last,
                    a <= b,
                    output@ == start + self.row_text(b as int).take(a as int),
                decreases b - a,
            {
                let linked = self.get_bit(self.unchecked_index_of(a as u32, b as u32));
                push_char(&mut output, if linked {
                    '1'
                } else {
                    '0'
                });
                proof {
                    assert(self.row_text(b as int).take(a + 1) =~= self.row_text(b as int).take(
                        a as int,
                    ).push(if linked {
                        '1'
                    } else {
                        '0'
                    }));
                }
                a = a + 1;
            }
            proof {
                assert(self.row_text(b as int).take(b as int) =~= self.row_text(b as int));
                if b > 1 {
                    assert(output@ =~= self.text_upto(b as int));
                } else {
                    assert(output@ =~= self.text_upto(b as int));
                }
            }
            b = b + 1;
        }
        output
    }
}

} // verus!
