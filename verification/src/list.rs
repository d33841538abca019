//! The list renderer: which nodes are emitted for an order of the fields, in
//! which structural order, and where each of them is placed.

use crate::fields::identity_order;
use crate::props::ListProps;
use vstd::prelude::*;

verus! {

/// One emitted element: its key and its target position.
#[derive(Clone, Copy, Debug, PartialEq, Eq, Structural)]
pub struct Node {
    /// Identity of the element across renders: the value of the field.
    pub key: u8,
    /// Horizontal offset, in rem.
    pub left: usize,
    /// Vertical offset, in rem.
    pub top: usize,
}

/// The node of the field that currently sits at `index`: keyed by the
/// field's value and placed on the diagonal at its index.
pub open spec fn node_at(s: Seq<u8>, index: int) -> Node {
    Node { key: s[index], left: index as usize, top: index as usize }
}

/// Structural order of two nodes: larger keys first, and among equal keys
/// the one that sits earlier in the sequence.
pub open spec fn stands_before(a: Node, b: Node) -> bool {
    a.key > b.key || (a.key == b.key && a.left < b.left)
}

/// Some node of `nodes` is placed at `index`.
pub open spec fn shows(nodes: Seq<Node>, index: int) -> bool {
    exists|k: int| 0 <= k < nodes.len() && (#[trigger] nodes[k]).left == index
}

/// `nodes` is the position-stabilised layout of `s`: one node per field,
/// each carrying its field's value and current index, emitted by descending
/// key (earlier index first among equal keys).
pub open spec fn is_stable_layout(s: Seq<u8>, nodes: Seq<Node>) -> bool {
    &&& nodes.len() == s.len()
    &&& forall|k: int|
        0 <= k < nodes.len() ==> (#[trigger] nodes[k]).left < s.len() && nodes[k] == node_at(
            s,
            nodes[k].left as int,
        )
    &&& forall|a: int, b: int|
        0 <= a < b < nodes.len() ==> stands_before(#[trigger] nodes[a], #[trigger] nodes[b])
    &&& forall|p: int| 0 <= p < s.len() ==> #[trigger] shows(nodes, p)
}

/// Where a node with the given key joins nodes already in structural order:
/// behind every node whose key is not smaller.
pub open spec fn slot_for(nodes: Seq<Node>, key: u8) -> int
    decreases nodes.len(),
{
    if nodes.len() == 0 || nodes.last().key >= key {
        nodes.len() as int
    } else {
        slot_for(nodes.drop_last(), key)
    }
}

/// The emitted nodes for the sequence `s`, in structural order.
pub open spec fn rendering(s: Seq<u8>) -> Seq<Node>
    decreases s.len(),
{
    if s.len() == 0 {
        Seq::empty()
    } else {
        let placed = rendering(s.drop_last());
        let node = node_at(s, s.len() - 1);
        placed.insert(slot_for(placed, node.key), node)
    }
}

/// The nodes of the index-ordered variant: node `i` belongs to the field at
/// index `i`.
pub open spec fn index_ordered(s: Seq<u8>) -> Seq<Node> {
    Seq::new(s.len(), |i: int| node_at(s, i))
}

/// The keys of the nodes, in structural order.
pub open spec fn keys(nodes: Seq<Node>) -> Seq<u8> {
    Seq::new(nodes.len(), |k: int| nodes[k].key)
}

/// The two sequences hold the same values, in whatever order and number.
pub open spec fn same_entries(a: Seq<u8>, b: Seq<u8>) -> bool {
    forall|x: u8|
        #![trigger a.contains(x)]
        #![trigger b.contains(x)]
        a.contains(x) <==> b.contains(x)
}

/// Every entry is larger than all entries behind it.
pub open spec fn strictly_descending(labels: Seq<u8>) -> bool {
    forall|a: int, b: int| 0 <= a < b < labels.len() ==> labels[a] > labels[b]
}

fn find_slot(nodes: &Vec<Node>, key: u8) -> (slot: usize)
    ensures
        slot == slot_for(nodes@, key),
{
    let mut slot: usize = nodes.len();
    assert(nodes@.take(slot as int) =~= nodes@);
    while slot > 0 && nodes[slot - 1].key < key
        invariant
            slot <= nodes.len(),
            slot_for(nodes@, key) == slot_for(nodes@.take(slot as int), key),
        decreases slot,
    {
        assert(nodes@.take(slot as int).drop_last() =~= nodes@.take(slot - 1));
        slot -= 1;
    }
    assert(nodes@.take(slot as int).len() == slot);
    slot
}

/// The position-stabilised renderer. Nodes are emitted by descending key, so
/// that a swap never moves a node within the list; each node is placed at
/// the index that its field holds now.
pub fn dummy_list(props: &ListProps) -> (nodes: Vec<Node>)
    ensures
        nodes@ == rendering(props.fields@),
        is_stable_layout(props.fields@, nodes@),
{
    let mut nodes: Vec<Node> = Vec::new();
    let mut idx: usize = 0;
    while idx < 10
        invariant
            idx <= 10,
            nodes@ == rendering(props.fields@.take(idx as int)),
        decreases 10 - idx,
    {
        let node = Node { key: props.fields[idx], left: idx, top: idx };
        let slot: usize = find_slot(&nodes, node.key);
        proof {
            let upto = props.fields@.take(idx + 1);
            assert(upto.drop_last() =~= props.fields@.take(idx as int));
            assert(node == node_at(upto, upto.len() - 1));
            lemma_slot_in_range(nodes@, node.key);
        }
        nodes.insert(slot, node);
        idx += 1;
    }
    proof {
        assert(props.fields@.take(10) =~= props.fields@);
        lemma_rendering_is_stable_layout(props.fields@);
    }
    nodes
}

/// The index-ordered renderer: nodes are emitted in the order of the
/// sequence itself, each at its own index.
pub fn dummy_list_by_index(props: &ListProps) -> (nodes: Vec<Node>)
    ensures
        nodes@ == index_ordered(props.fields@),
{
    let mut nodes: Vec<Node> = Vec::new();
    let mut idx: usize = 0;
    while idx < 10
        invariant
            idx <= 10,
            nodes@ == index_ordered(props.fields@.take(idx as int)),
        decreases 10 - idx,
    {
        nodes.push(Node { key: props.fields[idx], left: idx, top: idx });
        assert(nodes@ =~= index_ordered(props.fields@.take(idx + 1)));
        idx += 1;
    }
    assert(props.fields@.take(10) =~= props.fields@);
    nodes
}

proof fn lemma_slot_in_range(nodes: Seq<Node>, key: u8)
    ensures
        0 <= slot_for(nodes, key) <= nodes.len(),
    decreases nodes.len(),
{
    if !(nodes.len() == 0 || nodes.last().key >= key) {
        lemma_slot_in_range(nodes.drop_last(), key);
    }
}

proof fn lemma_slot_splits(nodes: Seq<Node>, key: u8)
    requires
        forall|a: int, b: int|
            0 <= a < b < nodes.len() ==> (#[trigger] nodes[a]).key >= (#[trigger] nodes[b]).key,
    ensures
        0 <= slot_for(nodes, key) <= nodes.len(),
        forall|k: int| 0 <= k < slot_for(nodes, key) ==> (#[trigger] nodes[k]).key >= key,
        forall|k: int| slot_for(nodes, key) <= k < nodes.len() ==> (#[trigger] nodes[k]).key < key,
    decreases nodes.len(),
{
    if !(nodes.len() == 0 || nodes.last().key >= key) {
        let head = nodes.drop_last();
        assert forall|a: int, b: int| 0 <= a < b < head.len() implies (#[trigger] head[a]).key >= (
        #[trigger] head[b]).key by {
            assert(head[a] == nodes[a] && head[b] == nodes[b]);
        }
        lemma_slot_splits(head, key);
        assert forall|k: int| 0 <= k < slot_for(nodes, key) implies (#[trigger] nodes[k]).key
            >= key by {
            assert(nodes[k] == head[k]);
        }
        assert forall|k: int| slot_for(nodes, key) <= k < nodes.len() implies (
        #[trigger] nodes[k]).key < key by {
            if k < head.len() {
                assert(nodes[k] == head[k]);
            }
        }
    } else if nodes.len() > 0 {
        assert forall|k: int| 0 <= k < nodes.len() implies (#[trigger] nodes[k]).key >= key by {
            if k < nodes.len() - 1 {
                assert(nodes[k].key >= nodes[nodes.len() - 1].key);
            }
        }
    }
}

/// What `rendering` computes is the position-stabilised layout: every field
/// has its node, placed at the field's index, and the nodes stand by
/// descending key.
pub proof fn lemma_rendering_is_stable_layout(s: Seq<u8>)
    requires
        s.len() <= usize::MAX,
    ensures
        is_stable_layout(s, rendering(s)),
    decreases s.len(),
{
    if s.len() > 0 {
        let head = s.drop_last();
        lemma_rendering_is_stable_layout(head);
        let placed = rendering(head);
        let node = node_at(s, s.len() - 1);
        let j = slot_for(placed, node.key);
        assert forall|a: int, b: int| 0 <= a < b < placed.len() implies (#[trigger] placed[a]).key
            >= (#[trigger] placed[b]).key by {
            assert(stands_before(placed[a], placed[b]));
        }
        lemma_slot_splits(placed, node.key);
        let out = placed.insert(j, node);
        assert(out == rendering(s));
        assert(out.len() == s.len());
        assert forall|k: int| 0 <= k < out.len() implies (#[trigger] out[k]).left < s.len()
            && out[k] == node_at(s, out[k].left as int) by {
            if k < j {
                assert(out[k] == placed[k]);
                assert(placed[k] == node_at(head, placed[k].left as int));
            } else if k > j {
                assert(out[k] == placed[k - 1]);
                assert(placed[k - 1] == node_at(head, placed[k - 1].left as int));
            }
        }
        assert forall|a: int, b: int| 0 <= a < b < out.len() implies stands_before(
            #[trigger] out[a],
            #[trigger] out[b],
        ) by {
            let pa = if a < j { a } else { a - 1 };
            let pb = if b < j { b } else { b - 1 };
            if a == j {
                assert(out[b] == placed[pb]);
                assert(placed[pb].key < node.key);
            } else if b == j {
                assert(out[a] == placed[pa]);
                assert(placed[pa].key >= node.key);
                assert(placed[pa].left < head.len());
            } else {
                assert(out[a] == placed[pa] && out[b] == placed[pb]);
                assert(stands_before(placed[pa], placed[pb]));
            }
        }
        assert forall|p: int| 0 <= p < s.len() implies #[trigger] shows(out, p) by {
            if p == s.len() - 1 {
                assert(out[j].left == p);
            } else {
                assert(shows(placed, p));
                let k = choose|k: int| 0 <= k < placed.len() && (#[trigger] placed[k]).left == p;
                let moved = if k < j { k } else { k + 1 };
                assert(out[moved] == placed[k]);
            }
        }
    }
}

/// Re-rendering cannot yield anything else: a sequence has exactly one
/// position-stabilised layout, so two renders of an unchanged sequence emit
/// the same nodes in the same order.
pub proof fn lemma_stable_layout_is_unique(s: Seq<u8>, first: Seq<Node>, second: Seq<Node>)
    requires
        is_stable_layout(s, first),
        is_stable_layout(s, second),
    ensures
        first == second,
{
    lemma_layouts_agree(s, first, second, s.len() as int);
    assert(first =~= second);
}

proof fn lemma_layouts_agree(s: Seq<u8>, first: Seq<Node>, second: Seq<Node>, upto: int)
    requires
        is_stable_layout(s, first),
        is_stable_layout(s, second),
        0 <= upto <= s.len(),
    ensures
        forall|i: int| 0 <= i < upto ==> first[i] == second[i],
    decreases upto,
{
    if upto > 0 {
        lemma_layouts_agree(s, first, second, upto - 1);
        let k = upto - 1;
        let x = first[k];
        let y = second[k];
        assert(shows(second, x.left as int));
        let m = choose|m: int| 0 <= m < second.len() && (#[trigger] second[m]).left == x.left as int;
        assert(second[m] == x);
        assert(shows(first, y.left as int));
        let n = choose|n: int| 0 <= n < first.len() && (#[trigger] first[n]).left == y.left as int;
        assert(first[n] == y);
        if m < k {
            assert(stands_before(first[m], first[k]));
        }
        if n < k {
            assert(stands_before(second[n], second[k]));
        }
        if m > k {
            assert(stands_before(second[k], second[m]));
            assert(n > k);
            assert(stands_before(first[k], first[n]));
        }
    }
}

proof fn lemma_descending_agree(a: Seq<u8>, b: Seq<u8>, upto: int)
    requires
        strictly_descending(a),
        strictly_descending(b),
        same_entries(a, b),
        0 <= upto <= a.len(),
        upto <= b.len(),
    ensures
        forall|i: int| 0 <= i < upto ==> a[i] == b[i],
    decreases upto,
{
    if upto > 0 {
        lemma_descending_agree(a, b, upto - 1);
        let k = upto - 1;
        assert(a.contains(a[k]));
        assert(b.contains(a[k]));
        let m = choose|m: int| 0 <= m < b.len() && b[m] == a[k];
        assert(b.contains(b[k]));
        assert(a.contains(b[k]));
        let n = choose|n: int| 0 <= n < a.len() && a[n] == b[k];
        if m < k {
            assert(a[m] > a[k]);
        }
        if n < k {
            assert(b[n] > b[k]);
        }
        if m > k {
            assert(b[k] > b[m]);
            assert(n > k);
            assert(a[k] > a[n]);
        }
    }
}

proof fn lemma_descending_same_entries(a: Seq<u8>, b: Seq<u8>)
    requires
        strictly_descending(a),
        strictly_descending(b),
        same_entries(a, b),
    ensures
        a == b,
{
    let shared = if a.len() <= b.len() { a.len() as int } else { b.len() as int };
    lemma_descending_agree(a, b, shared);
    if shared < b.len() {
        assert(b.contains(b[shared]));
        let n = choose|n: int| 0 <= n < a.len() && a[n] == b[shared];
        assert(b[n] > b[shared]);
    }
    if shared < a.len() {
        assert(a.contains(a[shared]));
        let m = choose|m: int| 0 <= m < b.len() && b[m] == a[shared];
        assert(a[m] > a[shared]);
    }
    assert(a =~= b);
}

/// The keys of a rendering are the values of the sequence, and where those
/// are distinct the keys descend strictly.
pub proof fn lemma_keys_are_the_values(s: Seq<u8>)
    requires
        s.len() <= usize::MAX,
    ensures
        keys(rendering(s)).len() == s.len(),
        same_entries(keys(rendering(s)), s),
        s.no_duplicates() ==> strictly_descending(keys(rendering(s))),
{
    lemma_rendering_is_stable_layout(s);
    let nodes = rendering(s);
    let labels = keys(nodes);
    assert forall|x: u8| labels.contains(x) implies s.contains(x) by {
        let k = choose|k: int| 0 <= k < labels.len() && labels[k] == x;
        assert(nodes[k] == node_at(s, nodes[k].left as int));
        assert(s[nodes[k].left as int] == x);
    }
    assert forall|x: u8| s.contains(x) implies labels.contains(x) by {
        let p = choose|p: int| 0 <= p < s.len() && s[p] == x;
        assert(shows(nodes, p));
        let k = choose|k: int| 0 <= k < nodes.len() && (#[trigger] nodes[k]).left == p;
        assert(labels[k] == x);
    }
    if s.no_duplicates() {
        assert forall|a: int, b: int| 0 <= a < b < labels.len() implies labels[a] > labels[b] by {
            assert(stands_before(nodes[a], nodes[b]));
            assert(nodes[a] == node_at(s, nodes[a].left as int));
            assert(nodes[b] == node_at(s, nodes[b].left as int));
        }
    }
}

/// The structural order depends on the values alone. Two sequences that
/// arrange the same distinct values emit their nodes under the same keys in
/// the same order, which is the descending order of the values; only the
/// positions of the nodes differ.
pub proof fn lemma_structural_order_is_fixed(s: Seq<u8>, t: Seq<u8>)
    requires
        s.len() <= usize::MAX,
        s.no_duplicates(),
        s.to_multiset() == t.to_multiset(),
    ensures
        keys(rendering(s)) == keys(rendering(t)),
        strictly_descending(keys(rendering(s))),
{
    broadcast use vstd::seq_lib::group_to_multiset_ensures;
    assert(s.len() == t.len()) by {
        assert(s.to_multiset().len() == s.len());
        assert(t.to_multiset().len() == t.len());
    }
    s.lemma_multiset_has_no_duplicates();
    t.lemma_multiset_has_no_duplicates_conv();
    lemma_keys_are_the_values(s);
    lemma_keys_are_the_values(t);
    assert forall|x: u8| s.contains(x) <==> t.contains(x) by {
        assert(s.contains(x) <==> s.to_multiset().count(x) > 0);
        assert(t.contains(x) <==> t.to_multiset().count(x) > 0);
    }
    assert(same_entries(keys(rendering(s)), keys(rendering(t))));
    lemma_descending_same_entries(keys(rendering(s)), keys(rendering(t)));
}

proof fn lemma_descending_gap(labels: Seq<u8>, a: int, b: int)
    requires
        strictly_descending(labels),
        0 <= a <= b < labels.len(),
    ensures
        labels[a] >= labels[b] + (b - a),
    decreases b - a,
{
    if a < b {
        lemma_descending_gap(labels, a + 1, b);
        assert(labels[a] > labels[a + 1]);
    }
}

/// With the labels `0..=9` on display, in whatever order, the node in
/// structural slot `k` is always the one keyed `9 - k`.
pub proof fn lemma_labels_keep_their_slots(s: Seq<u8>)
    requires
        s.to_multiset() == identity_order().to_multiset(),
    ensures
        rendering(s).len() == 10,
        forall|k: int| 0 <= k < 10 ==> (#[trigger] rendering(s)[k]).key == 9 - k,
{
    broadcast use vstd::seq_lib::group_to_multiset_ensures;
    let start = identity_order();
    lemma_structural_order_is_fixed(start, s);
    lemma_keys_are_the_values(start);
    let labels = keys(rendering(start));
    assert(labels == keys(rendering(s)));
    assert forall|k: int| 0 <= k < 10 implies labels[k] < 10 by {
        assert(labels.contains(labels[k]));
        assert(start.contains(labels[k]));
        let p = choose|p: int| 0 <= p < start.len() && start[p] == labels[k];
    }
    assert forall|k: int| 0 <= k < 10 implies (#[trigger] rendering(s)[k]).key == 9 - k by {
        lemma_descending_gap(labels, 0, 9);
        lemma_descending_gap(labels, 0, k);
        lemma_descending_gap(labels, k, 9);
        assert(labels[0] < 10 && labels[9] < 10);
        assert(keys(rendering(s))[k] == rendering(s)[k].key);
    }
}

} // verus!
