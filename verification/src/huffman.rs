use vstd::prelude::*;
use vstd::arithmetic::power2::{lemma_pow2_unfold, pow2};

verus! {

/// A node of the hierarchical-softmax label tree.
#[derive(Clone, Copy)]
pub struct Node {
    pub parent: i32,
    pub left: i32,
    pub right: i32,
    pub count: i64,
    pub binary: bool,
}

impl Default for Node {
    fn default() -> (n: Node)
        ensures
            n == (Node { parent: 0, left: 0, right: 0, count: 0, binary: false }),
    {
        Node { parent: 0, left: 0, right: 0, count: 0, binary: false }
    }
}

/// The sum of two counts, wrapping on overflow as the release build does.
pub open spec fn count_sum(a: i64, b: i64) -> i64 {
    if a + b > i64::MAX {
        (a + b - 0x1_0000_0000_0000_0000) as i64
    } else if a + b < i64::MIN {
        (a + b + 0x1_0000_0000_0000_0000) as i64
    } else {
        (a + b) as i64
    }
}

/// The state of the tree construction: node counts, parents (`-1` for none),
/// branch flags, the next unused leaf (counting down) and the next unused
/// internal node (counting up).
pub struct HuffState {
    pub count: Seq<i64>,
    pub parent: Seq<int>,
    pub binary: Seq<bool>,
    pub leaf: int,
    pub node: int,
}

/// Leaves `0..k` carry the label counts; the `k - 1` internal nodes start with
/// count `i64::MAX`; nobody has a parent yet.
pub open spec fn huff_init(c: Seq<i64>) -> HuffState {
    let k = c.len() as int;
    HuffState {
        count: Seq::new((2 * k - 1) as nat, |x: int| if x < k { c[x] } else { i64::MAX }),
        parent: Seq::new((2 * k - 1) as nat, |x: int| -1int),
        binary: Seq::new((2 * k - 1) as nat, |x: int| false),
        leaf: k - 1,
        node: k,
    }
}

/// Take the smaller of the next unused leaf and the next unused internal
/// node; on a tie the internal node is taken.
pub open spec fn huff_pick(s: HuffState) -> (int, HuffState) {
    if s.leaf >= 0 && s.count[s.leaf] < s.count[s.node] {
        (s.leaf, HuffState { leaf: s.leaf - 1, ..s })
    } else {
        (s.node, HuffState { node: s.node + 1, ..s })
    }
}

/// Create internal node `i` from the two smallest unused nodes; the second
/// one picked is the `binary` (right) child.
pub open spec fn huff_merge(s: HuffState, i: int) -> HuffState {
    let (a, s1) = huff_pick(s);
    let (b, s2) = huff_pick(s1);
    HuffState {
        count: s2.count.update(i, count_sum(s2.count[a], s2.count[b])),
        parent: s2.parent.update(a, i).update(b, i),
        binary: s2.binary.update(b, true),
        ..s2
    }
}

/// The construction state after `t` merges.
pub open spec fn huff_state(c: Seq<i64>, t: nat) -> HuffState
    decreases t,
{
    if t == 0 {
        huff_init(c)
    } else {
        huff_merge(huff_state(c, (t - 1) as nat), c.len() + t - 1)
    }
}

/// The finished tree: all `k - 1` merges done.
pub open spec fn huff_tree(c: Seq<i64>) -> HuffState {
    huff_state(c, (c.len() - 1) as nat)
}

/// The internal nodes (numbered from 0, that is node index minus `k`) on the
/// way from node `j` up to the root, nearest first.
pub open spec fn path_nodes(s: HuffState, k: int, j: int) -> Seq<usize>
    decreases s.parent.len() - j,
{
    if 0 <= j < s.parent.len() && j < s.parent[j] < s.parent.len() {
        seq![(s.parent[j] - k) as usize] + path_nodes(s, k, s.parent[j])
    } else {
        Seq::empty()
    }
}

/// The branch flags on the way from node `j` up to the root, nearest first.
pub open spec fn path_codes(s: HuffState, k: int, j: int) -> Seq<bool>
    decreases s.parent.len() - j,
{
    if 0 <= j < s.parent.len() && j < s.parent[j] < s.parent.len() {
        seq![s.binary[j]] + path_codes(s, k, s.parent[j])
    } else {
        Seq::empty()
    }
}

/// The path of label `i` in the Huffman tree built from the counts.
pub open spec fn huffman_path(c: Seq<i64>, i: int) -> Seq<usize> {
    path_nodes(huff_tree(c), c.len() as int, i)
}

/// The branch flags of label `i` in the Huffman tree built from the counts.
pub open spec fn huffman_code(c: Seq<i64>, i: int) -> Seq<bool> {
    path_codes(huff_tree(c), c.len() as int, i)
}

/// The counts a tree can be built from: node indices fit in `i32`, and no
/// count is `i64::MAX`, the value that marks an internal node not built yet.
pub open spec fn huffman_counts_ok(c: Seq<i64>) -> bool {
    &&& c.len() <= 0x4000_0000
    &&& forall|x: int| 0 <= x < c.len() ==> c[x] < i64::MAX
}

/// What holds before merge number `i - k`.
pub open spec fn huff_inv(c: Seq<i64>, s: HuffState, i: int) -> bool {
    let k = c.len() as int;
    let n = 2 * k - 1;
    &&& k >= 2
    &&& s.count.len() == n && s.parent.len() == n && s.binary.len() == n
    &&& k <= i <= n
    &&& -1 <= s.leaf < k
    &&& k <= s.node <= i
    &&& (i > k ==> s.node < i)
    &&& (k - 1 - s.leaf) + (s.node - k) == 2 * (i - k)
    &&& forall|x: int| 0 <= x <= s.leaf ==> #[trigger] s.parent[x] == -1 && s.count[x] == c[x]
    &&& forall|x: int| s.leaf < x < k ==> k <= #[trigger] s.parent[x] < i
    &&& forall|x: int| k <= x < s.node ==> x < #[trigger] s.parent[x] < i
    &&& forall|x: int| s.node <= x < n ==> #[trigger] s.parent[x] == -1
    &&& forall|x: int| i <= x < n ==> #[trigger] s.count[x] == i64::MAX
}

proof fn lemma_init_inv(c: Seq<i64>)
    requires
        c.len() >= 2,
    ensures
        huff_inv(c, huff_init(c), c.len() as int),
{
}

proof fn lemma_merge_inv(c: Seq<i64>, s: HuffState, i: int)
    requires
        huffman_counts_ok(c),
        huff_inv(c, s, i),
        i < 2 * c.len() - 1,
    ensures
        huff_inv(c, huff_merge(s, i), i + 1),
        huff_pick(s).0 < i,
        huff_pick(huff_pick(s).1).0 < i,
        huff_pick(s).0 != huff_pick(huff_pick(s).1).0,
        huff_pick(s).1.leaf >= -1 && huff_pick(s).1.node <= i,
        huff_pick(huff_pick(s).1).1.leaf >= -1,
        huff_pick(huff_pick(s).1).1.node <= i,
{
    let k = c.len() as int;
    let (a, s1) = huff_pick(s);
    let (b, s2) = huff_pick(s1);
    if s.leaf >= 0 {
        assert(s.parent[s.leaf] == -1);
        assert(c[s.leaf] < i64::MAX);
    }
    if s.leaf >= 1 {
        assert(s.parent[s.leaf - 1] == -1);
        assert(c[s.leaf - 1] < i64::MAX);
    }
    assert(s.count[i] == i64::MAX);
    assert(s.leaf >= 0 && s.node == i ==> s.count[s.leaf] < s.count[s.node]);
    assert(s1.leaf >= 0 && s1.node == i ==> s1.count[s1.leaf] < s1.count[s1.node]);
    let r = huff_merge(s, i);
    assert forall|x: int| 0 <= x <= r.leaf implies #[trigger] r.parent[x] == -1 && r.count[x]
        == c[x] by {
        assert(s.parent[x] == -1);
    }
    assert forall|x: int| r.leaf < x < k implies k <= #[trigger] r.parent[x] < i + 1 by {
        if x > s.leaf {
            assert(k <= s.parent[x] < i);
        }
    }
    assert forall|x: int| k <= x < r.node implies x < #[trigger] r.parent[x] < i + 1 by {
        if x < s.node {
            assert(x < s.parent[x] < i);
        }
    }
    assert forall|x: int| r.node <= x < 2 * k - 1 implies #[trigger] r.parent[x] == -1 by {
        assert(s.parent[x] == -1);
    }
    assert forall|x: int| i + 1 <= x < 2 * k - 1 implies #[trigger] r.count[x] == i64::MAX by {
        assert(s.count[x] == i64::MAX);
    }
}

proof fn lemma_state_inv(c: Seq<i64>, t: nat)
    requires
        huffman_counts_ok(c),
        c.len() >= 2,
        t <= c.len() - 1,
    ensures
        huff_inv(c, huff_state(c, t), (c.len() + t) as int),
    decreases t,
{
    if t == 0 {
        lemma_init_inv(c);
    } else {
        lemma_state_inv(c, (t - 1) as nat);
        lemma_merge_inv(c, huff_state(c, (t - 1) as nat), (c.len() + t - 1) as int);
    }
}

/// In the finished tree every node but the root (index `2k - 2`) has a later
/// node as parent, and the root has none.
proof fn lemma_tree_shape(c: Seq<i64>)
    requires
        huffman_counts_ok(c),
        c.len() >= 2,
    ensures
        huff_tree(c).parent.len() == 2 * c.len() - 1,
        huff_tree(c).binary.len() == 2 * c.len() - 1,
        huff_tree(c).count.len() == 2 * c.len() - 1,
        huff_tree(c).parent[2 * c.len() - 2] == -1,
        forall|x: int|
            0 <= x < 2 * c.len() - 2 ==> x < #[trigger] huff_tree(c).parent[x] < 2 * c.len() - 1
                && huff_tree(c).parent[x] >= c.len(),
{
    let k = c.len() as int;
    lemma_state_inv(c, (k - 1) as nat);
    let s = huff_tree(c);
    assert(s.leaf == -1 && s.node == 2 * k - 2);
    assert forall|x: int| 0 <= x < 2 * k - 2 implies x < #[trigger] s.parent[x] < 2 * k - 1
        && s.parent[x] >= k by {
        if x < k {
            assert(k <= s.parent[x] < 2 * k - 1);
        } else {
            assert(x < s.parent[x] < 2 * k - 1);
        }
    }
}

proof fn lemma_path_facts(s: HuffState, k: int, j: int)
    requires
        k >= 2,
        s.parent.len() == 2 * k - 1,
        s.binary.len() == 2 * k - 1,
        s.parent[2 * k - 2] == -1,
        forall|x: int|
            0 <= x < 2 * k - 2 ==> x < #[trigger] s.parent[x] < 2 * k - 1 && s.parent[x] >= k,
        0 <= j < 2 * k - 1,
    ensures
        path_nodes(s, k, j).len() == path_codes(s, k, j).len(),
        forall|m: int|
            0 <= m < path_nodes(s, k, j).len() ==> #[trigger] path_nodes(s, k, j)[m] < k - 1,
        j < 2 * k - 2 ==> path_nodes(s, k, j).len() >= 1 && path_nodes(s, k, j).last() == (k
            - 2) as usize,
    decreases 2 * k - 1 - j,
{
    if j < 2 * k - 2 {
        let p = s.parent[j];
        lemma_path_facts(s, k, p);
        let rest = path_nodes(s, k, p);
        assert(k <= p < 2 * k - 1);
        assert(path_nodes(s, k, j) == seq![(p - k) as usize] + rest);
        assert(path_nodes(s, k, j)[0] == (p - k) as usize);
        assert forall|m: int| 0 <= m < path_nodes(s, k, j).len() implies #[trigger] path_nodes(
            s,
            k,
            j,
        )[m] < k - 1 by {
            if m > 0 {
                assert(path_nodes(s, k, j)[m] == rest[m - 1]);
            }
        }
    }
}

/// Law: in the label tree built from counts with at least two labels, each
/// label's path and branch flags have the same length, the path is not empty,
/// it names only internal nodes `0..k-1`, and it ends at the root `k - 2`.
pub proof fn lemma_huffman_paths_well_formed(c: Seq<i64>, i: int)
    requires
        huffman_counts_ok(c),
        c.len() >= 2,
        0 <= i < c.len(),
    ensures
        huffman_path(c, i).len() == huffman_code(c, i).len(),
        huffman_path(c, i).len() >= 1,
        huffman_path(c, i).last() == (c.len() - 2) as usize,
        forall|m: int|
            0 <= m < huffman_path(c, i).len() ==> #[trigger] huffman_path(c, i)[m] < c.len() - 1,
{
    lemma_tree_shape(c);
    lemma_path_facts(huff_tree(c), c.len() as int, i);
}


/// What holds of the branch flags before merge number `i - k`: a node
/// without a parent is not flagged, and two nodes with the same parent carry
/// different flags.
pub open spec fn huff_flags_inv(s: HuffState, i: int) -> bool {
    let n = s.parent.len() as int;
    &&& s.binary.len() == n
    &&& forall|x: int| 0 <= x < n && #[trigger] s.parent[x] == -1 ==> !s.binary[x]
    &&& forall|x: int| 0 <= x < n ==> #[trigger] s.parent[x] < i
    &&& forall|x: int, y: int|
        0 <= x < n && 0 <= y < n && x != y && #[trigger] s.parent[x] >= 0 && s.parent[x]
            == #[trigger] s.parent[y] ==> s.binary[x] != s.binary[y]
}

proof fn lemma_merge_flags(c: Seq<i64>, s: HuffState, i: int)
    requires
        huffman_counts_ok(c),
        huff_inv(c, s, i),
        huff_flags_inv(s, i),
        i < 2 * c.len() - 1,
    ensures
        huff_flags_inv(huff_merge(s, i), i + 1),
{
    lemma_merge_inv(c, s, i);
    let k = c.len() as int;
    let n = 2 * k - 1;
    let (a, s1) = huff_pick(s);
    let (b, s2) = huff_pick(s1);
    let r = huff_merge(s, i);
    // a and b had no parent before: they were the next unused leaf or node
    if a == s.leaf {
        assert(s.parent[a] == -1);
    } else {
        assert(s.parent[a] == -1);
    }
    if b == s1.leaf {
        assert(s.parent[b] == -1);
    } else {
        assert(s.parent[b] == -1);
    }
    assert(!s.binary[a]);
    assert forall|x: int| 0 <= x < n && #[trigger] r.parent[x] == -1 implies !r.binary[x] by {
        assert(x != a && x != b);
        assert(s.parent[x] == -1);
    }
    assert forall|x: int| 0 <= x < n implies #[trigger] r.parent[x] < i + 1 by {
        assert(s.parent[x] < i);
    }
    assert forall|x: int, y: int|
        0 <= x < n && 0 <= y < n && x != y && #[trigger] r.parent[x] >= 0 && r.parent[x]
            == #[trigger] r.parent[y] implies r.binary[x] != r.binary[y] by {
        if r.parent[x] == i {
            assert(s.parent[x] < i);
            assert(s.parent[y] < i);
            assert(x == a || x == b);
            assert(y == a || y == b);
        } else {
            assert(x != a && x != b && y != a && y != b);
            assert(s.parent[x] == r.parent[x] && s.parent[y] == r.parent[y]);
        }
    }
}

proof fn lemma_state_flags(c: Seq<i64>, t: nat)
    requires
        huffman_counts_ok(c),
        c.len() >= 2,
        t <= c.len() - 1,
    ensures
        huff_flags_inv(huff_state(c, t), (c.len() + t) as int),
    decreases t,
{
    if t > 0 {
        lemma_state_flags(c, (t - 1) as nat);
        lemma_state_inv(c, (t - 1) as nat);
        lemma_merge_flags(c, huff_state(c, (t - 1) as nat), (c.len() + t - 1) as int);
    }
}

/// Law: two different labels are told apart at their first step already: they
/// hang below different internal nodes or on different sides of the same one.
/// So no two labels share a path and branch-flag sequence.
pub proof fn lemma_huffman_codes_distinct(c: Seq<i64>, i: int, j: int)
    requires
        huffman_counts_ok(c),
        c.len() >= 2,
        0 <= i < c.len(),
        0 <= j < c.len(),
        i != j,
    ensures
        huffman_path(c, i)[0] != huffman_path(c, j)[0] || huffman_code(c, i)[0] != huffman_code(
            c,
            j,
        )[0],
        huffman_path(c, i) != huffman_path(c, j) || huffman_code(c, i) != huffman_code(c, j),
{
    let k = c.len() as int;
    lemma_tree_shape(c);
    lemma_state_flags(c, (k - 1) as nat);
    lemma_huffman_paths_well_formed(c, i);
    lemma_huffman_paths_well_formed(c, j);
    let s = huff_tree(c);
    let pi = s.parent[i];
    let pj = s.parent[j];
    assert(huffman_path(c, i)[0] == (pi - k) as usize);
    assert(huffman_path(c, j)[0] == (pj - k) as usize);
    assert(huffman_code(c, i)[0] == s.binary[i]);
    assert(huffman_code(c, j)[0] == s.binary[j]);
    if pi == pj {
        assert(s.binary[i] != s.binary[j]);
    }
    if huffman_path(c, i) == huffman_path(c, j) && huffman_code(c, i) == huffman_code(c, j) {
        assert(huffman_path(c, i)[0] == huffman_path(c, j)[0]);
        assert(huffman_code(c, i)[0] == huffman_code(c, j)[0]);
    }
}

/// Law: a single label has an empty path, and so does every label of a
/// tree of one.
pub proof fn lemma_huffman_single_label(c: Seq<i64>)
    requires
        c.len() == 1,
    ensures
        huffman_path(c, 0) == Seq::<usize>::empty(),
        huffman_code(c, 0) == Seq::<bool>::empty(),
{
}

/// The node `t` steps above node `j`.
spec fn ancestor(s: HuffState, j: int, t: nat) -> int
    decreases t,
{
    if t == 0 {
        j
    } else {
        s.parent[ancestor(s, j, (t - 1) as nat)]
    }
}

/// The shape of a finished tree of `k >= 2` leaves: the root `2k - 2` has no
/// parent, every other node has a later, internal node as parent.
spec fn tree_shape(s: HuffState, k: int) -> bool {
    &&& k >= 2
    &&& s.parent.len() == 2 * k - 1
    &&& s.binary.len() == 2 * k - 1
    &&& s.parent[2 * k - 2] == -1
    &&& forall|x: int|
        0 <= x < 2 * k - 2 ==> x < #[trigger] s.parent[x] < 2 * k - 1 && s.parent[x] >= k
}

/// Dropping the first `t` branch flags of a node leaves those of its
/// ancestor `t` steps up, an internal node when `t > 0`.
proof fn lemma_codes_skip(s: HuffState, k: int, j: int, t: nat)
    requires
        tree_shape(s, k),
        0 <= j < 2 * k - 1,
        t <= path_codes(s, k, j).len(),
    ensures
        0 <= ancestor(s, j, t) < 2 * k - 1,
        t > 0 ==> ancestor(s, j, t) >= k,
        path_codes(s, k, j).skip(t as int) == path_codes(s, k, ancestor(s, j, t)),
    decreases t,
{
    if t == 0 {
        assert(path_codes(s, k, j).skip(0) =~= path_codes(s, k, j));
    } else {
        lemma_codes_skip(s, k, j, (t - 1) as nat);
        let a = ancestor(s, j, (t - 1) as nat);
        let pa = path_codes(s, k, a);
        assert(pa.len() >= 1);
        assert(a != 2 * k - 2);
        assert(pa == seq![s.binary[a]] + path_codes(s, k, s.parent[a]));
        assert(path_codes(s, k, j).skip(t as int) =~= pa.skip(1));
        assert(pa.skip(1) =~= path_codes(s, k, s.parent[a]));
    }
}

/// In a finished tree, different nodes have different branch flags up to
/// the root.
proof fn lemma_codes_injective(s: HuffState, k: int, x: int, y: int)
    requires
        tree_shape(s, k),
        huff_flags_inv(s, 2 * k - 1),
        0 <= x < 2 * k - 1,
        0 <= y < 2 * k - 1,
        path_codes(s, k, x) == path_codes(s, k, y),
    ensures
        x == y,
    decreases 4 * k - 2 - x - y,
{
    let root = 2 * k - 2;
    if x == root || y == root {
        assert(path_codes(s, k, root).len() == 0);
        if x != root {
            assert(path_codes(s, k, x).len() >= 1);
        }
        if y != root {
            assert(path_codes(s, k, y).len() >= 1);
        }
    } else {
        let px = s.parent[x];
        let py = s.parent[y];
        assert(path_codes(s, k, x) == seq![s.binary[x]] + path_codes(s, k, px));
        assert(path_codes(s, k, y) == seq![s.binary[y]] + path_codes(s, k, py));
        assert(path_codes(s, k, x)[0] == s.binary[x]);
        assert(path_codes(s, k, y)[0] == s.binary[y]);
        assert(path_codes(s, k, px) =~= path_codes(s, k, x).skip(1));
        assert(path_codes(s, k, py) =~= path_codes(s, k, y).skip(1));
        lemma_codes_injective(s, k, px, py);
        if x != y {
            assert(s.binary[x] != s.binary[y]);
        }
    }
}

/// Law: the label code is prefix-free. Read from the root, no label's branch
/// flags begin another label's; as the flags are kept leaf first, no label's
/// flags are what is left of another's after dropping some first ones.
pub proof fn lemma_huffman_codes_prefix_free(c: Seq<i64>, i: int, j: int, t: int)
    requires
        huffman_counts_ok(c),
        c.len() >= 2,
        0 <= i < c.len(),
        0 <= j < c.len(),
        i != j,
        0 <= t <= huffman_code(c, j).len(),
    ensures
        huffman_code(c, j).skip(t) != huffman_code(c, i),
{
    let k = c.len() as int;
    let s = huff_tree(c);
    lemma_tree_shape(c);
    lemma_state_flags(c, (k - 1) as nat);
    assert(tree_shape(s, k));
    lemma_codes_skip(s, k, j, t as nat);
    let a = ancestor(s, j, t as nat);
    if huffman_code(c, j).skip(t) == huffman_code(c, i) {
        lemma_codes_injective(s, k, a, i);
        assert(t == 0 ==> a == j);
    }
}

/// The node reached from node `j` by following parents as far as they go.
spec fn top(s: HuffState, j: int) -> int
    decreases s.parent.len() - j,
{
    if 0 <= j < s.parent.len() && j < s.parent[j] < s.parent.len() {
        top(s, s.parent[j])
    } else {
        j
    }
}

/// The number of parent steps from node `j` to `top(s, j)`.
spec fn depth(s: HuffState, j: int) -> nat
    decreases s.parent.len() - j,
{
    if 0 <= j < s.parent.len() && j < s.parent[j] < s.parent.len() {
        1 + depth(s, s.parent[j])
    } else {
        0
    }
}

/// Leaf `l` contributes `2^(e - depth)` to the tree whose top node is `r`.
spec fn leaf_weight(s: HuffState, e: nat, r: int, l: int) -> nat {
    if top(s, l) == r {
        pow2((e - depth(s, l)) as nat)
    } else {
        0
    }
}

/// The contributions of the leaves below `m` to the tree whose top is `r`.
spec fn root_sum(s: HuffState, e: nat, r: int, m: nat) -> nat
    decreases m,
{
    if m == 0 {
        0
    } else {
        root_sum(s, e, r, (m - 1) as nat) + leaf_weight(s, e, r, m - 1)
    }
}

/// Before merge number `i - k`: each finished tree of the forest (a created
/// node without a parent) has leaf contributions adding up to `2^e`, and every
/// leaf lies in one of them.
spec fn kraft_inv(c: Seq<i64>, s: HuffState, i: int, e: nat) -> bool {
    &&& forall|r: int|
        0 <= r < i && #[trigger] s.parent[r] == -1 ==> root_sum(s, e, r, c.len()) == pow2(e)
    &&& forall|l: int| 0 <= l < c.len() ==> #[trigger] top(s, l) < i
}

proof fn lemma_depth_bound(s: HuffState, j: int)
    requires
        0 <= j < s.parent.len(),
    ensures
        depth(s, j) <= s.parent.len() - 1 - j,
        0 <= top(s, j) < s.parent.len(),
    decreases s.parent.len() - j,
{
    if j < s.parent[j] < s.parent.len() {
        lemma_depth_bound(s, s.parent[j]);
    }
}

proof fn lemma_init_root_sum(c: Seq<i64>, e: nat, r: int, m: nat)
    requires
        c.len() >= 2,
        0 <= r < c.len(),
        m <= c.len(),
    ensures
        root_sum(huff_init(c), e, r, m) == if r < m {
            pow2(e)
        } else {
            0
        },
    decreases m,
{
    if m > 0 {
        lemma_init_root_sum(c, e, r, (m - 1) as nat);
        let l = m - 1;
        assert(huff_init(c).parent[l] == -1);
        assert(top(huff_init(c), l) == l);
        assert(depth(huff_init(c), l) == 0);
    }
}

proof fn lemma_init_kraft(c: Seq<i64>, e: nat)
    requires
        c.len() >= 2,
    ensures
        kraft_inv(c, huff_init(c), c.len() as int, e),
{
    let s = huff_init(c);
    assert forall|r: int| 0 <= r < c.len() && #[trigger] s.parent[r] == -1 implies root_sum(
        s,
        e,
        r,
        c.len(),
    ) == pow2(e) by {
        lemma_init_root_sum(c, e, r, c.len());
    }
    assert forall|l: int| 0 <= l < c.len() implies #[trigger] top(s, l) < c.len() by {
        assert(s.parent[l] == -1);
    }
}

/// The two nodes a merge picks had no parent.
proof fn lemma_picks_unparented(c: Seq<i64>, s: HuffState, i: int)
    requires
        huffman_counts_ok(c),
        huff_inv(c, s, i),
        i < 2 * c.len() - 1,
    ensures
        s.parent[huff_pick(s).0] == -1,
        s.parent[huff_pick(huff_pick(s).1).0] == -1,
        0 <= huff_pick(s).0,
        0 <= huff_pick(huff_pick(s).1).0,
        s.parent[i] == -1,
{
    lemma_merge_inv(c, s, i);
    let (a, s1) = huff_pick(s);
    let (b, s2) = huff_pick(s1);
    if a == s.leaf {
        assert(s.parent[a] == -1);
    } else {
        assert(s.parent[a] == -1);
    }
    if b == s1.leaf {
        assert(s.parent[b] == -1);
    } else {
        assert(s.parent[b] == -1);
    }
}

/// A merge hangs the trees topped by the two picked nodes below the new
/// node `i`, one step deeper; every other leaf keeps its top and depth.
proof fn lemma_merge_chain(c: Seq<i64>, s: HuffState, i: int, x: int)
    requires
        huffman_counts_ok(c),
        huff_inv(c, s, i),
        i < 2 * c.len() - 1,
        0 <= x < 2 * c.len() - 1,
    ensures
        ({
            let r = huff_merge(s, i);
            let a = huff_pick(s).0;
            let b = huff_pick(huff_pick(s).1).0;
            &&& top(s, x) != a && top(s, x) != b ==> top(r, x) == top(s, x) && depth(r, x) == depth(
                s,
                x,
            )
            &&& top(s, x) == a || top(s, x) == b ==> top(r, x) == i && depth(r, x) == depth(s, x)
                + 1
        }),
    decreases 2 * c.len() - 1 - x,
{
    lemma_merge_inv(c, s, i);
    lemma_picks_unparented(c, s, i);
    let r = huff_merge(s, i);
    let a = huff_pick(s).0;
    let b = huff_pick(huff_pick(s).1).0;
    let n = 2 * c.len() - 1;
    let p = s.parent[x];
    if x < p < n {
        assert(x != a && x != b);
        assert(r.parent[x] == p);
        lemma_merge_chain(c, s, i, p);
    } else if x == a || x == b {
        assert(r.parent[x] == i);
        assert(r.parent[i] == -1);
        assert(top(r, i) == i);
        assert(depth(r, i) == 0);
    } else {
        assert(r.parent[x] == p);
    }
}

proof fn lemma_merge_new_sum(c: Seq<i64>, s: HuffState, i: int, e: nat, m: nat)
    requires
        huffman_counts_ok(c),
        huff_inv(c, s, i),
        i < 2 * c.len() - 1,
        e >= 2 * c.len() - 1,
        m <= c.len(),
        forall|l: int| 0 <= l < c.len() ==> #[trigger] top(s, l) < i,
    ensures
        2 * root_sum(huff_merge(s, i), e, i, m) == root_sum(s, e, huff_pick(s).0, m) + root_sum(
            s,
            e,
            huff_pick(huff_pick(s).1).0,
            m,
        ),
    decreases m,
{
    if m > 0 {
        lemma_merge_new_sum(c, s, i, e, (m - 1) as nat);
        lemma_merge_inv(c, s, i);
        let l = m - 1;
        let r = huff_merge(s, i);
        let a = huff_pick(s).0;
        let b = huff_pick(huff_pick(s).1).0;
        lemma_merge_chain(c, s, i, l);
        lemma_depth_bound(s, l);
        assert(top(s, l) < i);
        if top(s, l) == a || top(s, l) == b {
            let d = depth(s, l);
            lemma_pow2_unfold((e - d) as nat);
            assert((e - depth(r, l)) as nat == ((e - d) as nat - 1) as nat);
        }
    }
}

proof fn lemma_merge_other_sum(c: Seq<i64>, s: HuffState, i: int, e: nat, t: int, m: nat)
    requires
        huffman_counts_ok(c),
        huff_inv(c, s, i),
        i < 2 * c.len() - 1,
        m <= c.len(),
        t != i,
        t != huff_pick(s).0,
        t != huff_pick(huff_pick(s).1).0,
    ensures
        root_sum(huff_merge(s, i), e, t, m) == root_sum(s, e, t, m),
    decreases m,
{
    if m > 0 {
        lemma_merge_other_sum(c, s, i, e, t, (m - 1) as nat);
        lemma_merge_chain(c, s, i, m - 1);
    }
}

proof fn lemma_merge_kraft(c: Seq<i64>, s: HuffState, i: int, e: nat)
    requires
        huffman_counts_ok(c),
        huff_inv(c, s, i),
        i < 2 * c.len() - 1,
        e >= 2 * c.len() - 1,
        kraft_inv(c, s, i, e),
    ensures
        kraft_inv(c, huff_merge(s, i), i + 1, e),
{
    lemma_merge_inv(c, s, i);
    lemma_picks_unparented(c, s, i);
    let r = huff_merge(s, i);
    let a = huff_pick(s).0;
    let b = huff_pick(huff_pick(s).1).0;
    let k = c.len();
    assert forall|t: int| 0 <= t < i + 1 && #[trigger] r.parent[t] == -1 implies root_sum(
        r,
        e,
        t,
        k,
    ) == pow2(e) by {
        if t == i {
            lemma_merge_new_sum(c, s, i, e, k);
            assert(root_sum(s, e, a, k) == pow2(e));
            assert(root_sum(s, e, b, k) == pow2(e));
        } else {
            assert(t != a && t != b);
            assert(s.parent[t] == -1);
            lemma_merge_other_sum(c, s, i, e, t, k);
        }
    }
    assert forall|l: int| 0 <= l < k implies #[trigger] top(r, l) < i + 1 by {
        lemma_merge_chain(c, s, i, l);
        assert(top(s, l) < i);
    }
}

proof fn lemma_state_kraft(c: Seq<i64>, t: nat, e: nat)
    requires
        huffman_counts_ok(c),
        c.len() >= 2,
        t <= c.len() - 1,
        e >= 2 * c.len() - 1,
    ensures
        kraft_inv(c, huff_state(c, t), (c.len() + t) as int, e),
    decreases t,
{
    if t == 0 {
        lemma_init_kraft(c, e);
    } else {
        lemma_state_kraft(c, (t - 1) as nat, e);
        lemma_state_inv(c, (t - 1) as nat);
        lemma_merge_kraft(c, huff_state(c, (t - 1) as nat), (c.len() + t - 1) as int, e);
    }
}

proof fn lemma_tree_top_depth(s: HuffState, k: int, x: int)
    requires
        tree_shape(s, k),
        0 <= x < 2 * k - 1,
    ensures
        top(s, x) == 2 * k - 2,
        depth(s, x) == path_codes(s, k, x).len(),
    decreases 2 * k - 1 - x,
{
    if x < 2 * k - 2 {
        lemma_tree_top_depth(s, k, s.parent[x]);
    }
}

/// `2^(e - len)` summed over the codes of the labels below `m`.
pub open spec fn kraft_sum(c: Seq<i64>, e: nat, m: nat) -> nat
    decreases m,
{
    if m == 0 {
        0
    } else {
        kraft_sum(c, e, (m - 1) as nat) + pow2((e - huffman_code(c, m - 1).len()) as nat)
    }
}

proof fn lemma_kraft_sum_is_root_sum(c: Seq<i64>, e: nat, m: nat)
    requires
        huffman_counts_ok(c),
        c.len() >= 2,
        m <= c.len(),
    ensures
        kraft_sum(c, e, m) == root_sum(huff_tree(c), e, 2 * c.len() - 2, m),
    decreases m,
{
    if m > 0 {
        lemma_kraft_sum_is_root_sum(c, e, (m - 1) as nat);
        lemma_tree_shape(c);
        assert(tree_shape(huff_tree(c), c.len() as int));
        lemma_tree_top_depth(huff_tree(c), c.len() as int, m - 1);
    }
}

/// Law (Kraft equality): the label codes fill the tree exactly; the sum over
/// the labels of `2^-len(code)` is 1. Scaled by `2^e` for any `e` of at least
/// `2k - 1` (longer than any code): the `2^(e - len)` add up to `2^e`.
pub proof fn lemma_huffman_kraft(c: Seq<i64>, e: nat)
    requires
        huffman_counts_ok(c),
        c.len() >= 2,
        e >= 2 * c.len() - 1,
    ensures
        kraft_sum(c, e, c.len()) == pow2(e),
{
    let k = c.len() as int;
    lemma_state_kraft(c, (k - 1) as nat, e);
    lemma_tree_shape(c);
    lemma_kraft_sum_is_root_sum(c, e, c.len());
    assert(huff_tree(c).parent[2 * k - 2] == -1);
}

/// A node's parent and branch flag, once set, stay as they are through the
/// later merges.
proof fn lemma_state_stable(c: Seq<i64>, t1: nat, t2: nat, x: int)
    requires
        huffman_counts_ok(c),
        c.len() >= 2,
        t1 <= t2 <= c.len() - 1,
        0 <= x < 2 * c.len() - 1,
        huff_state(c, t1).parent[x] != -1,
    ensures
        huff_state(c, t2).parent[x] == huff_state(c, t1).parent[x],
        huff_state(c, t2).binary[x] == huff_state(c, t1).binary[x],
    decreases t2,
{
    if t2 > t1 {
        lemma_state_stable(c, t1, (t2 - 1) as nat, x);
        let s = huff_state(c, (t2 - 1) as nat);
        let i = (c.len() + t2 - 1) as int;
        lemma_state_inv(c, (t2 - 1) as nat);
        lemma_picks_unparented(c, s, i);
        lemma_merge_inv(c, s, i);
        assert(x != huff_pick(s).0 && x != huff_pick(huff_pick(s).1).0);
    }
}

/// The first step of a label in the finished tree: the internal node above
/// it and the side it hangs on.
proof fn lemma_first_step(c: Seq<i64>, x: int)
    requires
        huffman_counts_ok(c),
        c.len() >= 2,
        0 <= x < c.len(),
    ensures
        huffman_path(c, x)[0] == (huff_tree(c).parent[x] - c.len()) as usize,
        huffman_code(c, x)[0] == huff_tree(c).binary[x],
{
    lemma_tree_shape(c);
    let s = huff_tree(c);
    let k = c.len() as int;
    assert(path_nodes(s, k, x) == seq![(s.parent[x] - k) as usize] + path_nodes(s, k, s.parent[x]));
    assert(path_codes(s, k, x) == seq![s.binary[x]] + path_codes(s, k, s.parent[x]));
}

/// Law: how ties are broken. The first merge joins the two last labels (the
/// very last on the left); the second merge compares the next label with the
/// node just built and takes the strictly smaller one first, the internal node
/// on equal counts. So that label hangs on the right of the second internal
/// node exactly when its count is at least the sum of the last two.
pub proof fn lemma_huffman_ties_favour_internal_nodes(c: Seq<i64>)
    requires
        huffman_counts_ok(c),
        c.len() >= 3,
        i64::MIN <= c[c.len() - 2] + c[c.len() - 1] <= i64::MAX,
    ensures
        huffman_path(c, c.len() - 1)[0] == 0,
        huffman_code(c, c.len() - 1)[0] == false,
        huffman_path(c, c.len() - 2)[0] == 0,
        huffman_code(c, c.len() - 2)[0] == true,
        huffman_path(c, c.len() - 3)[0] == 1,
        huffman_code(c, c.len() - 3)[0] == (c[c.len() - 3] >= c[c.len() - 2] + c[c.len() - 1]),
{
    let k = c.len() as int;
    let s0 = huff_init(c);
    let s1 = huff_state(c, 1);
    let s2 = huff_state(c, 2);
    assert(huff_state(c, 0) == s0);
    assert(s1 == huff_merge(s0, k));
    assert(s2 == huff_merge(s1, k + 1));
    assert(c[k - 1] < i64::MAX && c[k - 2] < i64::MAX && c[k - 3] < i64::MAX);
    // first merge: the two last leaves, the last one picked first
    assert(s0.count[k - 1] == c[k - 1] && s0.count[k] == i64::MAX);
    assert(s0.count[k - 2] == c[k - 2]);
    assert(huff_pick(s0).0 == k - 1);
    assert(huff_pick(huff_pick(s0).1).0 == k - 2);
    assert(s1.parent[k - 1] == k && s1.parent[k - 2] == k);
    assert(!s1.binary[k - 1] && s1.binary[k - 2]);
    assert(s1.count[k] == c[k - 2] + c[k - 1]);
    assert(s1.leaf == k - 3 && s1.node == k);
    assert(s1.count[k - 3] == c[k - 3]);
    assert(s1.count[k + 1] == i64::MAX);
    assert(s1.parent[k - 3] == -1 && !s1.binary[k - 3]);
    // second merge
    if c[k - 3] < c[k - 2] + c[k - 1] {
        assert(huff_pick(s1).0 == k - 3);
        assert(huff_pick(huff_pick(s1).1).0 != k - 3);
        assert(s2.parent[k - 3] == k + 1 && !s2.binary[k - 3]);
    } else {
        assert(huff_pick(s1).0 == k);
        assert(huff_pick(huff_pick(s1).1).0 == k - 3);
        assert(s2.parent[k - 3] == k + 1 && s2.binary[k - 3]);
    }
    lemma_state_stable(c, 1, (k - 1) as nat, k - 1);
    lemma_state_stable(c, 1, (k - 1) as nat, k - 2);
    lemma_state_stable(c, 2, (k - 1) as nat, k - 3);
    lemma_first_step(c, k - 1);
    lemma_first_step(c, k - 2);
    lemma_first_step(c, k - 3);
}

fn pick(tree: &Vec<Node>, leaf: &mut isize, node: &mut usize) -> (chosen: usize)
    requires
        0 <= *old(node) < tree@.len(),
        -1 <= *old(leaf) < tree@.len(),
        tree@.len() < usize::MAX,
    ensures
        ({
            let (x, _) = huff_pick(
                HuffState {
                    count: tree@.map_values(|n: Node| n.count),
                    parent: Seq::empty(),
                    binary: Seq::empty(),
                    leaf: *old(leaf) as int,
                    node: *old(node) as int,
                },
            );
            chosen == x
        }),
        ({
            let (_, s) = huff_pick(
                HuffState {
                    count: tree@.map_values(|n: Node| n.count),
                    parent: Seq::empty(),
                    binary: Seq::empty(),
                    leaf: *old(leaf) as int,
                    node: *old(node) as int,
                },
            );
            *final(leaf) == s.leaf && *final(node) == s.node
        }),
{
    if *leaf >= 0 && tree[*leaf as usize].count < tree[*node].count {
        let x = *leaf as usize;
        *leaf = *leaf - 1;
        x
    } else {
        let x = *node;
        *node = *node + 1;
        x
    }
}

/// The nodes of `tree` carry the counts, parents and flags of `s`.
pub open spec fn tree_is(tree: Seq<Node>, s: HuffState) -> bool {
    &&& tree.len() == s.count.len()
    &&& tree.len() == s.parent.len()
    &&& tree.len() == s.binary.len()
    &&& forall|x: int|
        0 <= x < tree.len() ==> (#[trigger] tree[x]).count == s.count[x] && tree[x].parent as int
            == s.parent[x] && tree[x].binary == s.binary[x]
}

/// Builds the binary Huffman tree over the label counts exactly as fastText's
/// `Dictionary::initTree` does (counts are taken to be sorted by decreasing
/// frequency, leaves are consumed from the last label backwards) and returns,
/// for each label, the internal nodes from the label up to the root and the
/// branch flag at each step (`true` = right child).
#[verifier::spinoff_prover]
#[verifier::rlimit(40)]
pub fn build_huffman_tree(label_counts: &[i64]) -> (res: (Vec<Vec<usize>>, Vec<Vec<bool>>))
    requires
        huffman_counts_ok(label_counts@),
    ensures
        res.0@.len() == label_counts@.len(),
        res.1@.len() == label_counts@.len(),
        forall|i: int|
            0 <= i < label_counts@.len() ==> (#[trigger] res.0@[i])@ == huffman_path(
                label_counts@,
                i,
            ),
        forall|i: int|
            0 <= i < label_counts@.len() ==> (#[trigger] res.1@[i])@ == huffman_code(
                label_counts@,
                i,
            ),
{
    let ghost c = label_counts@;
    let k = label_counts.len();
    if k == 0 {
        return (Vec::new(), Vec::new());
    }
    if k == 1 {
        let mut paths: Vec<Vec<usize>> = Vec::new();
        let mut codes: Vec<Vec<bool>> = Vec::new();
        paths.push(Vec::new());
        codes.push(Vec::new());
        proof {
            lemma_huffman_single_label(c);
        }
        return (paths, codes);
    }
    let n = 2 * k - 1;
    let mut tree: Vec<Node> = Vec::new();
    let mut x: usize = 0;
    while x < n
        invariant
            c == label_counts@,
            k == c.len(),
            2 <= k <= 0x4000_0000,
            n == 2 * k - 1,
            x <= n,
            tree@.len() == x,
            forall|y: int|
                0 <= y < x ==> (#[trigger] tree@[y]).count == huff_init(c).count[y]
                    && tree@[y].parent == -1 && tree@[y].binary == false,
        decreases n - x,
    {
        let count = if x < k {
            label_counts[x]
        } else {
            i64::MAX
        };
        tree.push(Node { parent: -1, left: -1, right: -1, count, binary: false });
        x = x + 1;
    }
    let mut leaf: isize = (k - 1) as isize;
    let mut node: usize = k;
    let mut i: usize = k;
    proof {
        lemma_init_inv(c);
        assert(tree_is(tree@, huff_init(c)));
    }
    while i < n
        invariant
            c == label_counts@,
            huffman_counts_ok(c),
            k == c.len(),
            2 <= k <= 0x4000_0000,
            n == 2 * k - 1,
            k <= i <= n,
            huff_inv(c, huff_state(c, (i - k) as nat), i as int),
            tree_is(tree@, huff_state(c, (i - k) as nat)),
            leaf as int == huff_state(c, (i - k) as nat).leaf,
            node as int == huff_state(c, (i - k) as nat).node,
        decreases n - i,
    {
        let ghost st = huff_state(c, (i - k) as nat);
        proof {
            lemma_merge_inv(c, st, i as int);
            assert(tree@.map_values(|n: Node| n.count) =~= st.count);
            assert(huff_state(c, (i + 1 - k) as nat) == huff_merge(st, i as int));
        }
        let a = pick(&tree, &mut leaf, &mut node);
        let b = pick(&tree, &mut leaf, &mut node);
        let na = tree[a];
        let nb = tree[b];
        let ni = tree[i];
        tree.set(
            i,
            Node {
                parent: ni.parent,
                left: a as i32,
                right: b as i32,
                count: na.count.wrapping_add(nb.count),
                binary: ni.binary,
            },
        );
        tree.set(
            a,
            Node { parent: i as i32, left: na.left, right: na.right, count: na.count, binary: na.binary },
        );
        tree.set(
            b,
            Node { parent: i as i32, left: nb.left, right: nb.right, count: nb.count, binary: true },
        );
        proof {
            let nx = huff_merge(st, i as int);
            assert forall|y: int| 0 <= y < tree@.len() implies (#[trigger] tree@[y]).count
                == nx.count[y] && tree@[y].parent as int == nx.parent[y] && tree@[y].binary
                == nx.binary[y] by {}
        }
        i = i + 1;
    }
    let ghost fin = huff_tree(c);
    proof {
        assert((n - k) as nat == (k - 1) as nat);
        lemma_tree_shape(c);
    }
    let mut paths: Vec<Vec<usize>> = Vec::new();
    let mut codes: Vec<Vec<bool>> = Vec::new();
    let mut li: usize = 0;
    while li < k
        invariant
            c == label_counts@,
            huffman_counts_ok(c),
            k == c.len(),
            2 <= k <= 0x4000_0000,
            n == 2 * k - 1,
            fin == huff_tree(c),
            tree_is(tree@, fin),
            fin.parent.len() == n,
            fin.parent[2 * k - 2] == -1,
            forall|x: int|
                0 <= x < 2 * k - 2 ==> x < #[trigger] fin.parent[x] < 2 * k - 1 && fin.parent[x]
                    >= k,
            li <= k,
            paths@.len() == li,
            codes@.len() == li,
            forall|m: int| 0 <= m < li ==> (#[trigger] paths@[m])@ == huffman_path(c, m),
            forall|m: int| 0 <= m < li ==> (#[trigger] codes@[m])@ == huffman_code(c, m),
        decreases k - li,
    {
        let mut path: Vec<usize> = Vec::new();
        let mut code: Vec<bool> = Vec::new();
        let mut j: usize = li;
        proof {
            assert(path@ + path_nodes(fin, k as int, j as int) =~= path_nodes(fin, k as int, li as int));
            assert(code@ + path_codes(fin, k as int, j as int) =~= path_codes(fin, k as int, li as int));
        }
        while tree[j].parent >= 0
            invariant
                k == c.len(),
                2 <= k <= 0x4000_0000,
                n == 2 * k - 1,
                tree_is(tree@, fin),
                fin.parent.len() == n,
                fin.parent[2 * k - 2] == -1,
                forall|x: int|
                    0 <= x < 2 * k - 2 ==> x < #[trigger] fin.parent[x] < 2 * k - 1
                        && fin.parent[x] >= k,
                j < n,
                path@ + path_nodes(fin, k as int, j as int) == path_nodes(fin, k as int, li as int),
                code@ + path_codes(fin, k as int, j as int) == path_codes(fin, k as int, li as int),
            decreases n - j,
        {
            let p = tree[j].parent as usize;
            proof {
                assert(fin.parent[j as int] == p);
                assert(j < 2 * k - 2);
            }
            path.push(p - k);
            code.push(tree[j].binary);
            proof {
                assert(path@ + path_nodes(fin, k as int, p as int) =~= path_nodes(
                    fin,
                    k as int,
                    li as int,
                ));
                assert(code@ + path_codes(fin, k as int, p as int) =~= path_codes(
                    fin,
                    k as int,
                    li as int,
                ));
            }
            j = p;
        }
        proof {
            assert(path@ =~= path_nodes(fin, k as int, li as int));
            assert(code@ =~= path_codes(fin, k as int, li as int));
        }
        paths.push(path);
        codes.push(code);
        li = li + 1;
    }
    (paths, codes)
}

} // verus!
