//! The flat `u32` layout in which the compute kernels read a bounding
//! volume hierarchy.
//!
//! Node `i` occupies the words from `size_before(nodes, i)` on. An inner node
//! is two child masks (children 0..32 and 32..64, bit `c` set when child `c`
//! exists) followed by the word offsets of its existing children, in child
//! order. A leaf is two zero masks followed by the start and end of its
//! range in the array of leaf indices.
use vstd::prelude::*;
use crate::prefix_sum::{prefix_sum_on_cpu, sum_before};

verus! {

/// A node of a bounding volume hierarchy: up to 64 children, or a leaf with
/// the indices of the triangles it holds.
pub enum BvhNode {
    Internal { children: [Option<u32>; 64] },
    Leaf { indices: Vec<u32> },
}

/// Number of existing children among `ch[lo..hi]`.
pub open spec fn present_in(ch: Seq<Option<u32>>, lo: int, hi: int) -> nat
    decreases hi - lo,
{
    if hi <= lo {
        0
    } else {
        present_in(ch, lo, hi - 1) + if ch[hi - 1] is Some { 1nat } else { 0nat }
    }
}

/// Number of words node `n` occupies.
pub open spec fn node_size(n: BvhNode) -> nat {
    match n {
        BvhNode::Internal { children } => 2 + present_in(children@, 0, 64),
        BvhNode::Leaf { .. } => 4,
    }
}

/// Number of leaf indices node `n` holds.
pub open spec fn leaf_len(n: BvhNode) -> nat {
    match n {
        BvhNode::Internal { .. } => 0,
        BvhNode::Leaf { indices } => indices@.len(),
    }
}

/// Words occupied by the nodes before node `i`.
pub open spec fn size_before(nodes: Seq<BvhNode>, i: int) -> nat
    decreases i,
{
    if i <= 0 { 0 } else { size_before(nodes, i - 1) + node_size(nodes[i - 1]) }
}

/// Leaf indices held by the nodes before node `i`.
pub open spec fn leaf_before(nodes: Seq<BvhNode>, i: int) -> nat
    decreases i,
{
    if i <= 0 { 0 } else { leaf_before(nodes, i - 1) + leaf_len(nodes[i - 1]) }
}

/// The mask of the first `m` children from `base` on: bit `c` is set when
/// child `base + c` exists.
pub open spec fn mask_upto(ch: Seq<Option<u32>>, base: int, m: nat) -> u32
    decreases m,
{
    if m == 0 {
        0
    } else {
        let x = mask_upto(ch, base, (m - 1) as nat);
        if ch[base + m - 1] is Some { x | (1u32 << ((m - 1) as u32)) } else { x }
    }
}

/// Word offsets of the existing children among the first `m` from `base` on.
pub open spec fn child_offsets(nodes: Seq<BvhNode>, ch: Seq<Option<u32>>, base: int, m: nat) -> Seq<u32>
    decreases m,
{
    if m == 0 {
        seq![]
    } else {
        child_offsets(nodes, ch, base, (m - 1) as nat) + match ch[base + m - 1] {
            Some(k) => seq![size_before(nodes, k as int) as u32],
            None => seq![],
        }
    }
}

/// The words of node `i`.
pub open spec fn record(nodes: Seq<BvhNode>, i: int) -> Seq<u32> {
    match nodes[i] {
        BvhNode::Internal { children } => seq![mask_upto(children@, 0, 32), mask_upto(children@, 32, 32)]
            + child_offsets(nodes, children@, 0, 32) + child_offsets(nodes, children@, 32, 32),
        BvhNode::Leaf { .. } => seq![0u32, 0u32, leaf_before(nodes, i) as u32, leaf_before(nodes, i + 1) as u32],
    }
}

/// The words of the first `n` nodes.
pub open spec fn encoded(nodes: Seq<BvhNode>, n: int) -> Seq<u32>
    decreases n,
{
    if n <= 0 { seq![] } else { encoded(nodes, n - 1) + record(nodes, n - 1) }
}

/// The leaf indices of the first `n` nodes, leaf after leaf.
pub open spec fn leaf_indices(nodes: Seq<BvhNode>, n: int) -> Seq<u32>
    decreases n,
{
    if n <= 0 {
        seq![]
    } else {
        leaf_indices(nodes, n - 1) + match nodes[n - 1] {
            BvhNode::Internal { .. } => seq![],
            BvhNode::Leaf { indices } => indices@,
        }
    }
}

/// Every child of `n` is an index below `len`.
pub open spec fn node_children_below(n: BvhNode, len: int) -> bool {
    match n {
        BvhNode::Internal { children } => forall|c: int|
            0 <= c < 64 ==> (#[trigger] children@[c] matches Some(k) ==> k < len),
        BvhNode::Leaf { .. } => true,
    }
}

/// Every child refers to a node of the hierarchy.
pub open spec fn children_in_range(nodes: Seq<BvhNode>) -> bool {
    forall|i: int| 0 <= i < nodes.len() ==> node_children_below(#[trigger] nodes[i], nodes.len() as int)
}

/// The hierarchy can be laid out: it has a node, its children refer to nodes
/// and all offsets fit in a `u32`.
pub open spec fn encodable(nodes: Seq<BvhNode>) -> bool {
    &&& nodes.len() > 0
    &&& children_in_range(nodes)
    &&& size_before(nodes, nodes.len() as int) <= u32::MAX
    &&& leaf_before(nodes, nodes.len() as int) <= u32::MAX
}

proof fn lemma_present_le(ch: Seq<Option<u32>>, lo: int, hi: int)
    ensures
        present_in(ch, lo, hi) <= if hi > lo { hi - lo } else { 0 },
    decreases hi - lo,
{
    if hi > lo {
        lemma_present_le(ch, lo, hi - 1);
    }
}

proof fn lemma_size_before_monotone(nodes: Seq<BvhNode>, i: int, j: int)
    requires
        0 <= i <= j,
    ensures
        size_before(nodes, i) <= size_before(nodes, j),
    decreases j,
{
    if j > i {
        lemma_size_before_monotone(nodes, i, j - 1);
    }
}

proof fn lemma_leaf_before_monotone(nodes: Seq<BvhNode>, i: int, j: int)
    requires
        0 <= i <= j,
    ensures
        leaf_before(nodes, i) <= leaf_before(nodes, j),
    decreases j,
{
    if j > i {
        lemma_leaf_before_monotone(nodes, i, j - 1);
    }
}

/// The child offsets are as many as the existing children.
pub proof fn lemma_child_offsets_len(nodes: Seq<BvhNode>, ch: Seq<Option<u32>>, base: int, m: nat)
    ensures
        child_offsets(nodes, ch, base, m).len() == present_in(ch, base, base + m),
    decreases m,
{
    if m > 0 {
        lemma_child_offsets_len(nodes, ch, base, (m - 1) as nat);
        lemma_present_shift(ch, base, m);
    }
}

proof fn lemma_present_shift(ch: Seq<Option<u32>>, base: int, m: nat)
    requires
        m > 0,
    ensures
        present_in(ch, base, base + m) == present_in(ch, base, base + m - 1) + if ch[base + m - 1] is Some {
            1nat
        } else {
            0nat
        },
{
}

/// Node `i` occupies `node_size(nodes[i])` words.
pub proof fn lemma_record_len(nodes: Seq<BvhNode>, i: int)
    requires
        0 <= i < nodes.len(),
    ensures
        record(nodes, i).len() == node_size(nodes[i]),
{
    match nodes[i] {
        BvhNode::Internal { children } => {
            lemma_child_offsets_len(nodes, children@, 0, 32);
            lemma_child_offsets_len(nodes, children@, 32, 32);
            lemma_present_split(children@, 0, 32, 64);
        },
        BvhNode::Leaf { .. } => {},
    }
}

proof fn lemma_present_split(ch: Seq<Option<u32>>, lo: int, mid: int, hi: int)
    requires
        lo <= mid <= hi,
    ensures
        present_in(ch, lo, hi) == present_in(ch, lo, mid) + present_in(ch, mid, hi),
    decreases hi - mid,
{
    if hi > mid {
        lemma_present_split(ch, lo, mid, hi - 1);
    }
}

/// The first `n` nodes occupy `size_before(nodes, n)` words.
pub proof fn lemma_encoded_len(nodes: Seq<BvhNode>, n: int)
    requires
        0 <= n <= nodes.len(),
    ensures
        encoded(nodes, n).len() == size_before(nodes, n),
    decreases n,
{
    if n > 0 {
        lemma_encoded_len(nodes, n - 1);
        lemma_record_len(nodes, n - 1);
    }
}

/// Node `k`'s words start at `size_before(nodes, k)`: the offset its parent
/// records points at it.
pub proof fn lemma_record_at(nodes: Seq<BvhNode>, n: int, k: int)
    requires
        0 <= k < n <= nodes.len(),
    ensures
        encoded(nodes, n).subrange(size_before(nodes, k) as int, size_before(nodes, k + 1) as int) == record(
            nodes,
            k,
        ),
    decreases n,
{
    lemma_encoded_len(nodes, n - 1);
    lemma_record_len(nodes, n - 1);
    let prev = encoded(nodes, n - 1);
    let e = encoded(nodes, n);
    if k == n - 1 {
        assert(e.subrange(size_before(nodes, k) as int, size_before(nodes, k + 1) as int) =~= record(nodes, k));
    } else {
        lemma_record_at(nodes, n - 1, k);
        lemma_size_before_monotone(nodes, k + 1, n - 1);
        assert(e.subrange(size_before(nodes, k) as int, size_before(nodes, k + 1) as int) =~= prev.subrange(
            size_before(nodes, k) as int,
            size_before(nodes, k + 1) as int,
        ));
    }
}

/// The offset listed for an existing child `c` of the first `m` from `base`
/// on is the word index where that child's record starts, and it comes
/// after the offsets of the existing children before it.
proof fn lemma_child_offset_at(nodes: Seq<BvhNode>, ch: Seq<Option<u32>>, base: int, m: nat, c: int)
    requires
        0 <= c < m,
        ch[base + c] is Some,
    ensures
        present_in(ch, base, base + c) < child_offsets(nodes, ch, base, m).len(),
        child_offsets(nodes, ch, base, m)[present_in(ch, base, base + c) as int] == size_before(
            nodes,
            ch[base + c]->0 as int,
        ) as u32,
    decreases m,
{
    lemma_child_offsets_len(nodes, ch, base, m);
    lemma_child_offsets_len(nodes, ch, base, (m - 1) as nat);
    if c < m - 1 {
        lemma_child_offset_at(nodes, ch, base, (m - 1) as nat, c);
    }
    lemma_present_shift(ch, base, m);
}

/// In the encoded words, node `i`'s first two words are its child masks (bit
/// `c` of the first, or bit `c - 32` of the second, is set exactly when
/// child `c` exists), and the offset word of an existing child `c`, after
/// those of the existing children before it, is the absolute word index
/// where the child's own record starts. A leaf's third and fourth words are
/// where its indices start and end in the leaf index array.
pub proof fn lemma_node_words(nodes: Seq<BvhNode>, i: int)
    requires
        0 <= i < nodes.len(),
        encodable(nodes),
    ensures
        ({
            let e = encoded(nodes, nodes.len() as int);
            let at = size_before(nodes, i) as int;
            match nodes[i] {
                BvhNode::Internal { children } => {
                    &&& forall|c: u32| c < 32 ==> ((#[trigger] (e[at] >> c) & 1u32 == 1u32) <==> children@[c as int] is Some)
                    &&& forall|c: u32| c < 32 ==> ((#[trigger] (e[at + 1] >> c) & 1u32 == 1u32) <==> children@[32 + c] is Some)
                    &&& forall|c: int|
                        0 <= c < 64 && (#[trigger] children@[c]) is Some ==> e[at + 2 + present_in(children@, 0, c)]
                            == size_before(nodes, children@[c]->0 as int)
                },
                BvhNode::Leaf { .. } => {
                    &&& e[at] == 0 && e[at + 1] == 0
                    &&& e[at + 2] == leaf_before(nodes, i)
                    &&& e[at + 3] == leaf_before(nodes, i + 1)
                },
            }
        }),
{
    let n = nodes.len() as int;
    let e = encoded(nodes, n);
    let at = size_before(nodes, i) as int;
    lemma_record_at(nodes, n, i);
    lemma_record_len(nodes, i);
    lemma_encoded_len(nodes, n);
    lemma_size_before_monotone(nodes, i + 1, n);
    let r = record(nodes, i);
    assert forall|q: int| 0 <= q < r.len() implies e[at + q] == r[q] by {
        assert(e.subrange(at, size_before(nodes, i + 1) as int)[q] == r[q]);
    }
    match nodes[i] {
        BvhNode::Internal { children } => {
            let ch = children@;
            lemma_child_offsets_len(nodes, ch, 0, 32);
            lemma_child_offsets_len(nodes, ch, 32, 32);
            assert(e[at] == r[0] && r[0] == mask_upto(ch, 0, 32));
            assert(e[at + 1] == r[1] && r[1] == mask_upto(ch, 32, 32));
            assert forall|c: u32| c < 32 implies ((#[trigger] (e[at] >> c) & 1u32 == 1u32) <==> ch[c as int] is Some) by {
                lemma_mask_bit(ch, 0, 32, c);
            }
            assert forall|c: u32| c < 32 implies ((#[trigger] (e[at + 1] >> c) & 1u32 == 1u32) <==> ch[32 + c] is Some) by {
                lemma_mask_bit(ch, 32, 32, c);
            }
            assert forall|c: int| 0 <= c < 64 && (#[trigger] ch[c]) is Some implies e[at + 2 + present_in(ch, 0, c)]
                == size_before(nodes, ch[c]->0 as int) by {
                let k = ch[c]->0 as int;
                assert(node_children_below(nodes[i], n));
                assert(k < n);
                lemma_size_before_monotone(nodes, k, n);
                let lo = child_offsets(nodes, ch, 0, 32);
                let hi = child_offsets(nodes, ch, 32, 32);
                assert(r == seq![mask_upto(ch, 0, 32), mask_upto(ch, 32, 32)] + lo + hi);
                if c < 32 {
                    lemma_child_offset_at(nodes, ch, 0, 32, c);
                    let q: int = 2 + present_in(ch, 0, c) as int;
                    assert(r[q] == lo[present_in(ch, 0, c) as int]);
                    assert(e[at + q] == r[q]);
                } else {
                    lemma_child_offset_at(nodes, ch, 32, 32, c - 32);
                    lemma_present_split(ch, 0, 32, c);
                    let q: int = 2 + present_in(ch, 0, c) as int;
                    assert(q == 2 + lo.len() + present_in(ch, 32, c));
                    assert(r[q] == hi[present_in(ch, 32, c) as int]);
                    assert(e[at + q] == r[q]);
                }
            }
        },
        BvhNode::Leaf { .. } => {
            lemma_leaf_before_monotone(nodes, i + 1, n);
            assert(e[at] == r[0] && e[at + 1] == r[1] && e[at + 2] == r[2] && e[at + 3] == r[3]);
        },
    }
}

/// Leaf `k`'s indices lie at `leaf_before(nodes, k)..leaf_before(nodes, k + 1)`
/// of the leaf index array: the range its record names.
pub proof fn lemma_leaf_range(nodes: Seq<BvhNode>, n: int, k: int)
    requires
        0 <= k < n <= nodes.len(),
        nodes[k] is Leaf,
    ensures
        leaf_indices(nodes, n).subrange(leaf_before(nodes, k) as int, leaf_before(nodes, k + 1) as int) == (
        match nodes[k] {
            BvhNode::Leaf { indices } => indices@,
            BvhNode::Internal { .. } => seq![],
        }),
    decreases n,
{
    lemma_leaf_indices_len(nodes, n - 1);
    let prev = leaf_indices(nodes, n - 1);
    let e = leaf_indices(nodes, n);
    if k == n - 1 {
        assert(e.subrange(leaf_before(nodes, k) as int, leaf_before(nodes, k + 1) as int) =~= (match nodes[k] {
            BvhNode::Leaf { indices } => indices@,
            BvhNode::Internal { .. } => seq![],
        }));
    } else {
        lemma_leaf_range(nodes, n - 1, k);
        lemma_leaf_before_monotone(nodes, k + 1, n - 1);
        assert(e.subrange(leaf_before(nodes, k) as int, leaf_before(nodes, k + 1) as int) =~= prev.subrange(
            leaf_before(nodes, k) as int,
            leaf_before(nodes, k + 1) as int,
        ));
    }
}

/// The first `n` nodes hold `leaf_before(nodes, n)` leaf indices.
pub proof fn lemma_leaf_indices_len(nodes: Seq<BvhNode>, n: int)
    requires
        0 <= n <= nodes.len(),
    ensures
        leaf_indices(nodes, n).len() == leaf_before(nodes, n),
    decreases n,
{
    if n > 0 {
        lemma_leaf_indices_len(nodes, n - 1);
    }
}

/// Bit `c` of a child mask is set exactly when child `base + c` exists.
pub proof fn lemma_mask_bit(ch: Seq<Option<u32>>, base: int, m: nat, c: u32)
    requires
        m <= 32,
        c < 32,
    ensures
        (mask_upto(ch, base, m) >> c) & 1u32 == 1u32 <==> (c < m && ch[base + c] is Some),
    decreases m,
{
    if m > 0 {
        lemma_mask_bit(ch, base, (m - 1) as nat, c);
        let x = mask_upto(ch, base, (m - 1) as nat);
        let k = (m - 1) as u32;
        assert(k < 32);
        assert(((x | (1u32 << k)) >> c) & 1u32 == 1u32 <==> ((x >> c) & 1u32 == 1u32 || c == k)) by (bit_vector)
            requires
                k < 32,
                c < 32,
        ;
    } else {
        assert((0u32 >> c) & 1u32 == 0u32) by (bit_vector);
    }
}

proof fn lemma_sum_matches_size(nodes: Seq<BvhNode>, sizes: Seq<u32>, i: int)
    requires
        0 <= i <= nodes.len(),
        sizes.len() == nodes.len(),
        forall|j: int| 0 <= j < nodes.len() ==> #[trigger] sizes[j] == node_size(nodes[j]),
    ensures
        sum_before(sizes, i) == size_before(nodes, i),
    decreases i,
{
    if i > 0 {
        lemma_sum_matches_size(nodes, sizes, i - 1);
    }
}

proof fn lemma_sum_matches_leaf(nodes: Seq<BvhNode>, counts: Seq<u32>, i: int)
    requires
        0 <= i <= nodes.len(),
        counts.len() == nodes.len(),
        forall|j: int| 0 <= j < nodes.len() ==> #[trigger] counts[j] == leaf_len(nodes[j]),
    ensures
        sum_before(counts, i) == leaf_before(nodes, i),
    decreases i,
{
    if i > 0 {
        lemma_sum_matches_leaf(nodes, counts, i - 1);
    }
}

/// Number of existing children of an inner node.
fn count_children(children: &[Option<u32>; 64]) -> (r: u32)
    ensures
        r == present_in(children@, 0, 64),
{
    let mut count: u32 = 0;
    for c in 0..64usize
        invariant
            count == present_in(children@, 0, c as int),
            count <= c,
    {
        if children[c].is_some() {
            count = count + 1;
        }
    }
    count
}

/// Mask and word offsets of the 32 children from `base` on.
fn encode_children(
    nodes: &[BvhNode],
    children: &[Option<u32>; 64],
    base: usize,
    node_indices: &Vec<u32>,
    offsets: &mut Vec<u32>,
) -> (mask: u32)
    requires
        base == 0 || base == 32,
        node_indices.len() == nodes@.len(),
        forall|j: int| 0 <= j < nodes@.len() ==> #[trigger] node_indices[j] == size_before(nodes@, j),
        forall|c: int| 0 <= c < 64 ==> (#[trigger] children@[c] matches Some(k) ==> k < nodes@.len()),
    ensures
        mask == mask_upto(children@, base as int, 32),
        final(offsets)@ == old(offsets)@ + child_offsets(nodes@, children@, base as int, 32),
{
    let mut mask: u32 = 0;
    let ghost start = offsets@;
    for child in 0..32u32
        invariant
            base == 0 || base == 32,
            node_indices.len() == nodes@.len(),
            forall|j: int| 0 <= j < nodes@.len() ==> #[trigger] node_indices[j] == size_before(nodes@, j),
            forall|c: int| 0 <= c < 64 ==> (#[trigger] children@[c] matches Some(k) ==> k < nodes@.len()),
            mask == mask_upto(children@, base as int, child as nat),
            offsets@ == start + child_offsets(nodes@, children@, base as int, child as nat),
    {
        let ghost before = offsets@;
        if let Some(old_index) = children[base + child as usize] {
            assert(children@[base + child as int] matches Some(k) ==> k < nodes@.len());
            mask = mask | (1u32 << child);
            offsets.push(node_indices[old_index as usize]);
        }
        assert(offsets@ =~= start + child_offsets(nodes@, children@, base as int, (child + 1) as nat));
    }
    mask
}

/// Whether the hierarchy can be laid out (`encodable`).
pub fn is_encodable(nodes: &[BvhNode]) -> (r: bool)
    ensures
        r == encodable(nodes@),
{
    let n = nodes.len();
    if n == 0 {
        return false;
    }
    let mut words: u64 = 0;
    let mut leaves: u64 = 0;
    for i in 0..n
        invariant
            n == nodes@.len(),
            n > 0,
            words == size_before(nodes@, i as int),
            leaves == leaf_before(nodes@, i as int),
            words <= u32::MAX,
            leaves <= u32::MAX,
            forall|j: int| 0 <= j < i ==> node_children_below(#[trigger] nodes@[j], n as int),
    {
        match &nodes[i] {
            BvhNode::Internal { children } => {
                for c in 0..64usize
                    invariant
                        n == nodes@.len(),
                        i < n,
                        nodes@[i as int] == (BvhNode::Internal { children: *children }),
                        forall|d: int| 0 <= d < c ==> (#[trigger] children@[d] matches Some(k) ==> k < n),
                {
                    if let Some(k) = children[c] {
                        if k as usize >= n {
                            proof {
                                assert(children@[c as int] == Some(k));
                                assert(!node_children_below(nodes@[i as int], n as int));
                            }
                            return false;
                        }
                    }
                }
                let size = 2 + count_children(children) as u64;
                if size > u32::MAX as u64 - words {
                    proof {
                        lemma_size_before_monotone(nodes@, i + 1, n as int);
                    }
                    return false;
                }
                words = words + size;
            },
            BvhNode::Leaf { indices } => {
                if 4 > u32::MAX as u64 - words {
                    proof {
                        lemma_size_before_monotone(nodes@, i + 1, n as int);
                    }
                    return false;
                }
                words = words + 4;
                let len = indices.len();
                if len as u64 > u32::MAX as u64 - leaves {
                    proof {
                        lemma_leaf_before_monotone(nodes@, i + 1, n as int);
                    }
                    return false;
                }
                leaves = leaves + len as u64;
            },
        }
    }
    true
}

/// The words in which the compute kernels read the hierarchy (see the
/// module documentation).
pub fn encode_nodes(nodes: &[BvhNode]) -> (r: Vec<u32>)
    requires
        encodable(nodes@),
    ensures
        r@ == encoded(nodes@, nodes@.len() as int),
{
    let n = nodes.len();
    let ghost ns = nodes@;
    let mut indices_counts: Vec<u32> = Vec::new();
    let mut node_sizes: Vec<u32> = Vec::new();
    for i in 0..n
        invariant
            n == ns.len(),
            ns == nodes@,
            encodable(ns),
            indices_counts.len() == i,
            node_sizes.len() == i,
            forall|j: int| 0 <= j < i ==> #[trigger] indices_counts[j] == leaf_len(ns[j]),
            forall|j: int| 0 <= j < i ==> #[trigger] node_sizes[j] == node_size(ns[j]),
    {
        proof {
            lemma_leaf_before_monotone(ns, i + 1, n as int);
            lemma_size_before_monotone(ns, i + 1, n as int);
        }
        match &nodes[i] {
            BvhNode::Internal { children } => {
                indices_counts.push(0);
                node_sizes.push(2 + count_children(children));
            },
            BvhNode::Leaf { indices } => {
                indices_counts.push(indices.len() as u32);
                node_sizes.push(4);
            },
        }
    }
    proof {
        lemma_sum_matches_leaf(ns, indices_counts@, n as int);
        lemma_sum_matches_size(ns, node_sizes@, n as int);
    }
    let starts = prefix_sum_on_cpu(indices_counts.as_slice());
    let end = starts[n - 1] + indices_counts[n - 1];
    proof {
        lemma_sum_matches_leaf(ns, indices_counts@, n - 1);
        assert(end == leaf_before(ns, n as int));
    }
    let node_indices = prefix_sum_on_cpu(node_sizes.as_slice());
    proof {
        assert forall|j: int| 0 <= j < n implies #[trigger] node_indices[j] == size_before(ns, j) by {
            lemma_sum_matches_size(ns, node_sizes@, j);
        }
    }
    let mut out: Vec<u32> = Vec::new();
    for i in 0..n
        invariant
            n == ns.len(),
            ns == nodes@,
            encodable(ns),
            starts.len() == n,
            forall|j: int| 0 <= j < n ==> #[trigger] starts[j] == sum_before(indices_counts@, j),
            indices_counts.len() == n,
            forall|j: int| 0 <= j < n ==> #[trigger] indices_counts[j] == leaf_len(ns[j]),
            end == leaf_before(ns, n as int),
            node_indices.len() == n,
            forall|j: int| 0 <= j < n ==> #[trigger] node_indices[j] == size_before(ns, j),
            out@ == encoded(ns, i as int),
    {
        proof {
            lemma_sum_matches_leaf(ns, indices_counts@, i as int);
            lemma_sum_matches_leaf(ns, indices_counts@, i + 1);
            lemma_leaf_before_monotone(ns, i + 1, n as int);
        }
        match &nodes[i] {
            BvhNode::Internal { children } => {
                assert(node_children_below(ns[i as int], n as int));
                let mut offsets: Vec<u32> = Vec::new();
                let lo = encode_children(nodes, children, 0, &node_indices, &mut offsets);
                let hi = encode_children(nodes, children, 32, &node_indices, &mut offsets);
                let ghost before = out@;
                out.push(lo);
                out.push(hi);
                let mut offsets = offsets;
                out.append(&mut offsets);
                assert(out@ =~= before + record(ns, i as int));
            },
            BvhNode::Leaf { .. } => {
                let start = starts[i];
                let stop = if i + 1 < n { starts[i + 1] } else { end };
                let ghost before = out@;
                out.push(0);
                out.push(0);
                out.push(start);
                out.push(stop);
                assert(out@ =~= before + record(ns, i as int));
            },
        }
    }
    out
}

/// The leaf indices, leaf after leaf.
pub fn leaf_index_array(nodes: &[BvhNode]) -> (r: Vec<u32>)
    ensures
        r@ == leaf_indices(nodes@, nodes@.len() as int),
{
    let n = nodes.len();
    let mut out: Vec<u32> = Vec::new();
    for i in 0..n
        invariant
            n == nodes@.len(),
            out@ == leaf_indices(nodes@, i as int),
    {
        match &nodes[i] {
            BvhNode::Internal { .. } => {},
            BvhNode::Leaf { indices } => {
                let ghost before = out@;
                let m = indices.len();
                for j in 0..m
                    invariant
                        m == indices@.len(),
                        out@ == before + indices@.take(j as int),
                {
                    out.push(indices[j]);
                    assert(out@ =~= before + indices@.take(j + 1));
                }
                assert(indices@.take(m as int) =~= indices@);
            },
        }
    }
    out
}

} // verus!
