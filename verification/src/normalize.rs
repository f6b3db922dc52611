//! The decoration normalizer: unwraps decorative inline elements to a fixed
//! point at each node, merges the text runs this exposes, and recurses.

use vstd::prelude::*;
use crate::dom::{
    is_elem_named, is_text_node, lemma_nodes_view, lemma_nodes_view_concat, node_view, nodes_view,
    Node, NodeData, NodeDataV, NodeV,
};
use crate::text::str_eq;
use vstd::string::StringExecFns;

verus! {

broadcast use vstd::std_specs::vec::group_vec_axioms;

/// Whether `t` is one of the decorative tags that normalization unwraps:
/// anchor, bold, italic, superscript, citation, inline span.
pub open spec fn is_decoration_tag(t: Seq<char>) -> bool {
    t == "a"@ || t == "b"@ || t == "i"@ || t == "sup"@ || t == "cite"@ || t == "span"@
}

/// Whether `n` is an element with a decorative tag.
pub open spec fn is_decoration(n: NodeV) -> bool {
    match n.data {
        NodeDataV::Element { name, .. } => is_decoration_tag(name),
        _ => false,
    }
}

/// How many nodes the subtree rooted at `n` holds, the root included.
pub open spec fn count_node(n: NodeV) -> nat
    decreases n,
{
    1 + count_nodes(n.children)
}

/// How many nodes the subtrees of `s` hold together.
pub open spec fn count_nodes(s: Seq<NodeV>) -> nat
    decreases s,
{
    if s.len() == 0 {
        0
    } else {
        count_nodes(s.drop_last()) + count_node(s.last())
    }
}

/// One unwrap pass over a child list: each element tagged `name` is replaced
/// by its own children, in place; everything else is kept.
pub open spec fn pull_out_seq(s: Seq<NodeV>, name: Seq<char>) -> Seq<NodeV>
    decreases s.len(),
{
    if s.len() == 0 {
        Seq::empty()
    } else {
        pull_out_seq(s.drop_last(), name) + (if is_elem_named(s.last(), name) {
            s.last().children
        } else {
            seq![s.last()]
        })
    }
}

/// The fixed point of unwrapping: every decorative element of `s`, at any
/// nesting depth among decorative wrappers, replaced by its expanded children.
pub open spec fn expand_seq(s: Seq<NodeV>) -> Seq<NodeV>
    decreases count_nodes(s), s.len(),
    via expand_seq_decreases
{
    if s.len() == 0 {
        Seq::empty()
    } else {
        expand_seq(s.drop_last()) + (if is_decoration(s.last()) {
            expand_seq(s.last().children)
        } else {
            seq![s.last()]
        })
    }
}

/// Adjacent text nodes merged by ordered concatenation: the first node of a
/// run of texts absorbs the contents of the next, until no two text nodes
/// stand side by side.
pub open spec fn merge_texts(s: Seq<NodeV>) -> Seq<NodeV>
    decreases s.len(),
{
    if s.len() < 2 {
        s
    } else {
        let a = s[0];
        let b = s[1];
        match (a.data, b.data) {
            (NodeDataV::Text { contents: ca }, NodeDataV::Text { contents: cb }) => merge_texts(
                seq![NodeV { data: NodeDataV::Text { contents: ca + cb }, children: a.children }]
                    + s.skip(2),
            ),
            _ => seq![a] + merge_texts(s.drop_first()),
        }
    }
}

/// What normalization does to one node: its children are unwrapped to the
/// fixed point, the exposed text runs merged, and each surviving child
/// normalized in turn; the node's own payload is untouched.
pub open spec fn normalize_node(n: NodeV) -> NodeV
    decreases count_node(n), 0nat,
    via normalize_node_decreases
{
    NodeV { data: n.data, children: normalize_all(merge_texts(expand_seq(n.children))) }
}

/// Each node of `s` normalized, in order.
pub open spec fn normalize_all(s: Seq<NodeV>) -> Seq<NodeV>
    decreases count_nodes(s), s.len() + 1,
    via normalize_all_decreases
{
    if s.len() == 0 {
        Seq::empty()
    } else {
        normalize_all(s.drop_last()).push(normalize_node(s.last()))
    }
}

#[via_fn]
proof fn expand_seq_decreases(s: Seq<NodeV>) {
    if s.len() > 0 {
        lemma_count_nodes_parts(s);
        assert(count_node(s.last()) == 1 + count_nodes(s.last().children));
    }
}

#[via_fn]
proof fn normalize_node_decreases(n: NodeV) {
    lemma_expand_count(n.children);
    lemma_merge_count(expand_seq(n.children));
}

#[via_fn]
proof fn normalize_all_decreases(s: Seq<NodeV>) {
    if s.len() > 0 {
        lemma_count_nodes_parts(s);
    }
}

/// A singleton's node count is its element's subtree count.
proof fn lemma_count_singleton(n: NodeV)
    ensures
        count_nodes(seq![n]) == count_node(n),
{
    assert(seq![n].drop_last() =~= Seq::<NodeV>::empty());
    assert(count_nodes(Seq::<NodeV>::empty()) == 0);
    assert(count_nodes(seq![n]) == count_nodes(seq![n].drop_last()) + count_node(seq![n].last()));
}

/// A sequence's node count splits between its front and its last element.
proof fn lemma_count_nodes_parts(s: Seq<NodeV>)
    requires
        s.len() > 0,
    ensures
        count_nodes(s) == count_nodes(s.drop_last()) + count_node(s.last()),
        count_node(s.last()) >= 1,
{
}

/// Node counts add up over concatenation.
proof fn lemma_count_nodes_concat(a: Seq<NodeV>, b: Seq<NodeV>)
    ensures
        count_nodes(a + b) == count_nodes(a) + count_nodes(b),
    decreases b.len(),
{
    if b.len() == 0 {
        assert(a + b =~= a);
    } else {
        lemma_count_nodes_concat(a, b.drop_last());
        assert((a + b).drop_last() =~= a + b.drop_last());
        assert((a + b).last() == b.last());
    }
}

/// Expansion never grows the node count.
proof fn lemma_expand_count(s: Seq<NodeV>)
    ensures
        count_nodes(expand_seq(s)) <= count_nodes(s),
    decreases count_nodes(s), s.len(),
{
    if s.len() > 0 {
        lemma_count_nodes_parts(s);
        lemma_expand_count(s.drop_last());
        if is_decoration(s.last()) {
            lemma_expand_count(s.last().children);
            lemma_count_nodes_concat(expand_seq(s.drop_last()), expand_seq(s.last().children));
        } else {
            lemma_count_nodes_concat(expand_seq(s.drop_last()), seq![s.last()]);
            lemma_count_singleton(s.last());
        }
    }
}

/// Merging text runs never grows the node count.
proof fn lemma_merge_count(s: Seq<NodeV>)
    ensures
        count_nodes(merge_texts(s)) <= count_nodes(s),
    decreases s.len(),
{
    if s.len() >= 2 {
        let a = s[0];
        let b = s[1];
        match (a.data, b.data) {
            (NodeDataV::Text { contents: ca }, NodeDataV::Text { contents: cb }) => {
                let m = NodeV { data: NodeDataV::Text { contents: ca + cb }, children: a.children };
                let rest = seq![m] + s.skip(2);
                lemma_merge_count(rest);
                lemma_count_nodes_concat(seq![m], s.skip(2));
                lemma_count_singleton(m);
                lemma_count_nodes_split_front(s, 2);
                lemma_count_nodes_split_front(s.skip(1), 1);
                assert(s.skip(1).skip(1) =~= s.skip(2));
                assert(s.skip(1).take(1) =~= seq![b]);
                assert(s.take(2) =~= seq![a] + s.skip(1).take(1));
                lemma_count_nodes_concat(seq![a], s.skip(1).take(1));
                lemma_count_singleton(a);
                lemma_count_singleton(b);
            },
            _ => {
                lemma_merge_count(s.drop_first());
                lemma_count_nodes_concat(seq![a], merge_texts(s.drop_first()));
                lemma_count_nodes_split_front(s, 1);
                assert(s.take(1) =~= seq![a]);
                assert(s.skip(1) =~= s.drop_first());
                lemma_count_singleton(a);
            },
        }
    }
}

/// A sequence's node count splits at any front boundary.
proof fn lemma_count_nodes_split_front(s: Seq<NodeV>, k: int)
    requires
        0 <= k <= s.len(),
    ensures
        count_nodes(s) == count_nodes(s.take(k)) + count_nodes(s.skip(k)),
{
    assert(s =~= s.take(k) + s.skip(k));
    lemma_count_nodes_concat(s.take(k), s.skip(k));
}

/// Every element's subtree counts toward the whole.
proof fn lemma_count_nodes_element(s: Seq<NodeV>, i: int)
    requires
        0 <= i < s.len(),
    ensures
        count_node(s[i]) <= count_nodes(s),
    decreases s.len(),
{
    lemma_count_nodes_parts(s);
    if i < s.len() - 1 {
        lemma_count_nodes_element(s.drop_last(), i);
    }
}

/// Whether some element of `s` is an element tagged `name`.
pub open spec fn has_named(s: Seq<NodeV>, name: Seq<char>) -> bool {
    exists|i: int| 0 <= i < s.len() && is_elem_named(#[trigger] s[i], name)
}

/// Whether no element of `s` is decorative.
pub open spec fn no_decorations(s: Seq<NodeV>) -> bool {
    forall|i: int| 0 <= i < s.len() ==> !is_decoration(#[trigger] s[i])
}

proof fn lemma_expand_singleton(x: NodeV)
    ensures
        expand_seq(seq![x]) == (if is_decoration(x) {
            expand_seq(x.children)
        } else {
            seq![x]
        }),
{
    assert(seq![x].drop_last() =~= Seq::<NodeV>::empty());
    assert(expand_seq(Seq::<NodeV>::empty()) =~= Seq::<NodeV>::empty());
    if is_decoration(x) {
        assert(expand_seq(seq![x]) =~= expand_seq(x.children));
    } else {
        assert(expand_seq(seq![x]) =~= seq![x]);
    }
}

/// Expansion distributes over concatenation.
proof fn lemma_expand_concat(a: Seq<NodeV>, b: Seq<NodeV>)
    ensures
        expand_seq(a + b) == expand_seq(a) + expand_seq(b),
    decreases b.len(),
{
    if b.len() == 0 {
        assert(a + b =~= a);
        assert(expand_seq(a) + expand_seq(b) =~= expand_seq(a));
    } else {
        lemma_expand_concat(a, b.drop_last());
        assert((a + b).drop_last() =~= a + b.drop_last());
        assert((a + b).last() == b.last());
        let tail: Seq<NodeV> = if is_decoration(b.last()) {
            expand_seq(b.last().children)
        } else {
            seq![b.last()]
        };
        assert(expand_seq(a + b) == (expand_seq(a) + expand_seq(b.drop_last())) + tail);
        assert((expand_seq(a) + expand_seq(b.drop_last())) + tail =~= expand_seq(a) + (expand_seq(
            b.drop_last(),
        ) + tail));
    }
}

/// A child list with nothing decorative in it expands to itself: expansion is
/// already at its fixed point.
pub proof fn lemma_expand_noop(s: Seq<NodeV>)
    requires
        no_decorations(s),
    ensures
        expand_seq(s) == s,
    decreases s.len(),
{
    if s.len() > 0 {
        assert(!is_decoration(s[s.len() - 1]));
        assert(no_decorations(s.drop_last()));
        lemma_expand_noop(s.drop_last());
        assert(expand_seq(s) =~= s);
    }
}

/// A child list with no element tagged `name` is untouched by an unwrap pass
/// for `name`.
proof fn lemma_pull_out_noop(s: Seq<NodeV>, name: Seq<char>)
    requires
        !has_named(s, name),
    ensures
        pull_out_seq(s, name) == s,
    decreases s.len(),
{
    if s.len() > 0 {
        assert(!is_elem_named(s[s.len() - 1], name));
        assert(!has_named(s.drop_last(), name)) by {
            assert(forall|i: int|
                0 <= i < s.drop_last().len() ==> s.drop_last()[i] == s[i]);
        }
        lemma_pull_out_noop(s.drop_last(), name);
        assert(pull_out_seq(s, name) =~= s);
    }
}

/// One unwrap pass for a decorative tag does not change what the child list
/// expands to.
proof fn lemma_pull_out_preserves_expansion(s: Seq<NodeV>, name: Seq<char>)
    requires
        is_decoration_tag(name),
    ensures
        expand_seq(pull_out_seq(s, name)) == expand_seq(s),
    decreases s.len(),
{
    if s.len() > 0 {
        lemma_pull_out_preserves_expansion(s.drop_last(), name);
        let last = s.last();
        if is_elem_named(last, name) {
            lemma_expand_concat(pull_out_seq(s.drop_last(), name), last.children);
            assert(is_decoration(last));
            assert(expand_seq(pull_out_seq(s, name)) == expand_seq(s.drop_last()) + expand_seq(
                last.children,
            ));
        } else {
            lemma_expand_concat(pull_out_seq(s.drop_last(), name), seq![last]);
            lemma_expand_singleton(last);
        }
    }
}

/// An unwrap pass never grows the node count, and removing at least one
/// wrapper strictly shrinks it.
proof fn lemma_pull_out_count(s: Seq<NodeV>, name: Seq<char>)
    ensures
        count_nodes(pull_out_seq(s, name)) <= count_nodes(s),
        has_named(s, name) ==> count_nodes(pull_out_seq(s, name)) < count_nodes(s),
    decreases s.len(),
{
    if s.len() > 0 {
        lemma_pull_out_count(s.drop_last(), name);
        lemma_count_nodes_parts(s);
        let last = s.last();
        if is_elem_named(last, name) {
            lemma_count_nodes_concat(pull_out_seq(s.drop_last(), name), last.children);
            assert(count_node(last) == 1 + count_nodes(last.children));
        } else {
            lemma_count_nodes_concat(pull_out_seq(s.drop_last(), name), seq![last]);
            lemma_count_singleton(last);
            if has_named(s, name) {
                let i = choose|i: int| 0 <= i < s.len() && is_elem_named(s[i], name);
                assert(i < s.len() - 1);
                assert(s.drop_last()[i] == s[i]);
                assert(has_named(s.drop_last(), name));
            }
        }
    }
}

/// One unwrap pass: replaces each child of `node` that is an element tagged
/// `elem_name` with that child's own children, keeping their order and their
/// position among the surviving siblings. Returns whether anything was
/// unwrapped.
pub fn pull_out(node: &mut Node, elem_name: &str) -> (removed: bool)
    ensures
        final(node)@.data == old(node)@.data,
        final(node)@.children == pull_out_seq(old(node)@.children, elem_name@),
        removed == has_named(old(node)@.children, elem_name@),
{
    let mut cs: Vec<Node> = Vec::new();
    core::mem::swap(&mut cs, &mut node.children);
    let ghost orig = nodes_view(cs@);
    proof {
        assert(old(node)@.children == orig);
        assert(orig.skip(0) =~= orig);
        assert(pull_out_seq(orig.take(0), elem_name@) =~= Seq::<NodeV>::empty());
        assert(!has_named(orig.take(0), elem_name@));
    }
    let mut out: Vec<Node> = Vec::new();
    let mut removed = false;
    let ghost mut i: int = 0;
    proof {
        lemma_nodes_view(cs@);
    }
    while cs.len() > 0
        invariant
            0 <= i <= orig.len(),
            cs@.len() == orig.len() - i,
            nodes_view(cs@) == orig.skip(i),
            nodes_view(out@) == pull_out_seq(orig.take(i), elem_name@),
            removed == has_named(orig.take(i), elem_name@),
            node@.data == old(node)@.data,
            orig == old(node)@.children,
        decreases cs@.len(),
    {
        let ghost old_cs = cs@;
        let mut child = cs.remove(0);
        let ghost childv = child@;
        proof {
            lemma_nodes_view(old_cs);
            lemma_nodes_view(cs@);
            assert(childv == orig.skip(i)[0]);
            assert(childv == orig[i]);
            assert(nodes_view(cs@).len() == orig.skip(i + 1).len());
            assert forall|j: int| 0 <= j < cs@.len() implies #[trigger] nodes_view(cs@)[j]
                == orig.skip(i + 1)[j] by {
                assert(cs@[j] == old_cs[j + 1]);
                assert(nodes_view(cs@)[j] == node_view(cs@[j]));
                assert(nodes_view(old_cs)[j + 1] == node_view(old_cs[j + 1]));
                assert(nodes_view(old_cs)[j + 1] == orig.skip(i)[j + 1]);
                assert(orig.skip(i)[j + 1] == orig[i + 1 + j]);
            }
            assert(nodes_view(cs@) =~= orig.skip(i + 1));
        }
        let is_match = match &child.data {
            NodeData::Element { name, .. } => str_eq(name.as_str(), elem_name),
            _ => false,
        };
        let ghost old_out = out@;
        if is_match {
            removed = true;
            out.append(&mut child.children);
        } else {
            out.push(child);
        }
        proof {
            i = i + 1;
            assert(orig.take(i).drop_last() =~= orig.take(i - 1));
            assert(orig.take(i).last() == orig[i - 1]);
            if is_match {
                assert(is_elem_named(orig[i - 1], elem_name@));
                lemma_nodes_view_concat(old_out, old_cs[0].children@);
                assert(nodes_view(old_cs[0].children@) == orig[i - 1].children);
                assert(has_named(orig.take(i), elem_name@));
            } else {
                assert(!is_elem_named(orig[i - 1], elem_name@));
                let target = pull_out_seq(orig.take(i - 1), elem_name@) + seq![orig[i - 1]];
                assert(nodes_view(out@) =~= target) by {
                    lemma_nodes_view(out@);
                    lemma_nodes_view(old_out);
                    assert(out@.len() == old_out.len() + 1);
                    assert(forall|j: int|
                        0 <= j < old_out.len() ==> out@[j] == old_out[j]);
                    assert(out@[out@.len() - 1] == old_cs[0]);
                    assert(node_view(old_cs[0]) == childv);
                }
                if !removed {
                    assert(!has_named(orig.take(i), elem_name@)) by {
                        assert(forall|j: int|
                            0 <= j < i - 1 ==> orig.take(i)[j] == orig.take(i - 1)[j]);
                    }
                } else {
                    let w = choose|w: int|
                        0 <= w < i - 1 && is_elem_named(#[trigger] orig.take(i - 1)[w], elem_name@);
                    assert(is_elem_named(orig.take(i)[w], elem_name@));
                }
            }
        }
    }
    proof {
        assert(i == orig.len());
        assert(orig.take(i) =~= orig);
    }
    node.children = out;
    removed
}

/// Merges every run of adjacent text-node children of `node` into one text
/// node by ordered string concatenation, restoring text contiguity.
pub fn concatenate_text(node: &mut Node)
    ensures
        final(node)@.data == old(node)@.data,
        final(node)@.children == merge_texts(old(node)@.children),
{
    let mut cs: Vec<Node> = Vec::new();
    core::mem::swap(&mut cs, &mut node.children);
    let ghost orig = nodes_view(cs@);
    proof {
        lemma_nodes_view(cs@);
        assert(old(node)@.children == orig);
        assert(orig.skip(0) =~= orig);
    }
    let mut out: Vec<Node> = Vec::new();
    let ghost mut i: int = 0;
    while cs.len() > 0
        invariant
            0 <= i <= orig.len(),
            cs@.len() == orig.len() - i,
            nodes_view(cs@) == orig.skip(i),
            out@.len() == 0 ==> i == 0,
            out@.len() > 0 ==> merge_texts(orig) == nodes_view(out@).drop_last() + merge_texts(
                seq![nodes_view(out@).last()] + orig.skip(i),
            ),
            node@.data == old(node)@.data,
            orig == old(node)@.children,
        decreases cs@.len(),
    {
        let ghost old_cs = cs@;
        let child = cs.remove(0);
        let ghost childv = child@;
        proof {
            lemma_nodes_view(old_cs);
            lemma_nodes_view(cs@);
            assert(childv == orig.skip(i)[0]);
            assert(childv == orig[i]);
            assert(nodes_view(cs@).len() == orig.skip(i + 1).len());
            assert forall|j: int| 0 <= j < cs@.len() implies #[trigger] nodes_view(cs@)[j]
                == orig.skip(i + 1)[j] by {
                assert(cs@[j] == old_cs[j + 1]);
                assert(nodes_view(cs@)[j] == node_view(cs@[j]));
                assert(nodes_view(old_cs)[j + 1] == node_view(old_cs[j + 1]));
                assert(nodes_view(old_cs)[j + 1] == orig.skip(i)[j + 1]);
                assert(orig.skip(i)[j + 1] == orig[i + 1 + j]);
            }
            assert(nodes_view(cs@) =~= orig.skip(i + 1));
        }
        let k = out.len();
        let mergeable = k > 0 && {
            let both = match (&out[k - 1].data, &child.data) {
                (NodeData::Text { .. }, NodeData::Text { .. }) => true,
                _ => false,
            };
            both
        };
        let ghost old_out = out@;
        if mergeable {
            let prev = match out.pop() {
                Some(p) => p,
                None => vstd::pervasive::unreached(),
            };
            let ghost prevv = prev@;
            match (prev.data, child.data) {
                (NodeData::Text { contents: mut c0 }, NodeData::Text { contents: c1 }) => {
                    let ghost c0v = c0@;
                    c0.append(c1.as_str());
                    let merged = Node { data: NodeData::Text { contents: c0 }, children: prev.children };
                    let ghost mergedv = merged@;
                    out.push(merged);
                    proof {
                        i = i + 1;
                        lemma_nodes_view(out@);
                        lemma_nodes_view(old_out);
                        assert(nodes_view(out@).len() == nodes_view(old_out).len());
                        assert(forall|j: int|
                            0 <= j < out@.len() - 1 ==> out@[j] == old_out[j]);
                        assert forall|j: int| 0 <= j < out@.len() - 1 implies #[trigger] nodes_view(
                            out@,
                        )[j] == nodes_view(old_out)[j] by {
                            assert(nodes_view(out@)[j] == node_view(out@[j]));
                            assert(nodes_view(old_out)[j] == node_view(old_out[j]));
                        }
                        assert(nodes_view(out@).drop_last() =~= nodes_view(old_out).drop_last());
                        assert(nodes_view(out@).last() == mergedv);
                        assert(prevv == nodes_view(old_out).last());
                        // One merge step of the specification.
                        let s_pre = seq![prevv] + orig.skip(i - 1);
                        assert(s_pre.len() >= 2);
                        assert(s_pre[0] == prevv);
                        assert(s_pre[1] == orig[i - 1]);
                        assert(mergedv.data == NodeDataV::Text { contents: c0v + childv.data->Text_contents });
                        assert(mergedv.children == prevv.children);
                        assert(merge_texts(s_pre) == merge_texts(seq![mergedv] + s_pre.skip(2)));
                        assert(s_pre.skip(2) =~= orig.skip(i));
                        assert(seq![mergedv] + s_pre.skip(2) =~= seq![nodes_view(out@).last()]
                            + orig.skip(i));
                    }
                },
                _ => vstd::pervasive::unreached(),
            }
        } else {
            out.push(child);
            proof {
                i = i + 1;
                lemma_nodes_view(out@);
                lemma_nodes_view(old_out);
                assert(forall|j: int|
                    0 <= j < out@.len() - 1 ==> out@[j] == old_out[j]);
                assert forall|j: int| 0 <= j < out@.len() - 1 implies #[trigger] nodes_view(out@)[j]
                    == nodes_view(old_out)[j] by {
                    assert(nodes_view(out@)[j] == node_view(out@[j]));
                    assert(nodes_view(old_out)[j] == node_view(old_out[j]));
                }
                assert(nodes_view(out@).last() == childv);
                if old_out.len() == 0 {
                    assert(nodes_view(out@).drop_last() =~= Seq::<NodeV>::empty());
                    assert(seq![childv] + orig.skip(i) =~= orig.skip(i - 1));
                    assert(orig.skip(i - 1) =~= orig);
                    assert(Seq::<NodeV>::empty() + merge_texts(seq![childv] + orig.skip(i))
                        =~= merge_texts(seq![childv] + orig.skip(i)));
                    assert(merge_texts(orig) == nodes_view(out@).drop_last() + merge_texts(
                        seq![nodes_view(out@).last()] + orig.skip(i),
                    ));
                } else {
                    let prevv = nodes_view(old_out).last();
                    let s_pre = seq![prevv] + orig.skip(i - 1);
                    assert(s_pre.len() >= 2);
                    assert(s_pre[0] == prevv);
                    assert(s_pre[1] == childv);
                    // Not a text-text pair, so the first node is committed.
                    assert(!(prevv.data is Text && childv.data is Text)) by {
                        assert(prevv == node_view(old_out[old_out.len() - 1]));
                    }
                    assert(merge_texts(s_pre) == seq![prevv] + merge_texts(s_pre.drop_first()));
                    assert(s_pre.drop_first() =~= orig.skip(i - 1));
                    assert(orig.skip(i - 1) =~= seq![childv] + orig.skip(i));
                    assert(nodes_view(out@).drop_last() =~= nodes_view(old_out).drop_last() + seq![
                        prevv,
                    ]);
                    let x = nodes_view(old_out).drop_last() + (seq![prevv] + merge_texts(
                        seq![childv] + orig.skip(i),
                    ));
                    let y = (nodes_view(old_out).drop_last() + seq![prevv]) + merge_texts(
                        seq![childv] + orig.skip(i),
                    );
                    assert(x =~= y);
                }
            }
        }
    }
    proof {
        assert(i == orig.len());
        assert(orig.skip(i) =~= Seq::<NodeV>::empty());
        lemma_nodes_view(out@);
        if out@.len() == 0 {
            assert(merge_texts(orig) =~= Seq::<NodeV>::empty());
        } else {
            let lastv = nodes_view(out@).last();
            assert(seq![lastv] + orig.skip(i) =~= seq![lastv]);
            assert(merge_texts(seq![lastv]) == seq![lastv]);
            assert(nodes_view(out@).drop_last() + seq![lastv] =~= nodes_view(out@));
        }
    }
    node.children = out;
}

/// Normalizes the subtree rooted at `node` in place: unwraps decorative
/// children to a fixed point, merges the text runs this exposes, then
/// recurses into the remaining children, depth first.
pub fn remove_decoration(node: &mut Node)
    ensures
        final(node)@ == normalize_node(old(node)@),
    decreases count_node(node@),
{
    let ghost orig = old(node)@;
    // Unwrap decorative children until none is left. A single pass is not
    // enough: unwrapping can expose a decorative element that was nested
    // inside another one at the same level.
    loop
        invariant
            node@.data == orig.data,
            expand_seq(node@.children) == expand_seq(orig.children),
            count_nodes(node@.children) <= count_nodes(orig.children),
            orig == old(node)@,
        ensures
            node@.data == orig.data,
            node@.children == expand_seq(orig.children),
        decreases count_nodes(node@.children),
    {
        let ghost c0 = node@.children;
        let r1 = pull_out(node, "a");
        let ghost c1 = node@.children;
        let r2 = pull_out(node, "b");
        let ghost c2 = node@.children;
        let r3 = pull_out(node, "i");
        let ghost c3 = node@.children;
        let r4 = pull_out(node, "sup");
        let ghost c4 = node@.children;
        let r5 = pull_out(node, "cite");
        let ghost c5 = node@.children;
        let r6 = pull_out(node, "span");
        let ghost c6 = node@.children;
        proof {
            lemma_pull_out_preserves_expansion(c0, "a"@);
            lemma_pull_out_preserves_expansion(c1, "b"@);
            lemma_pull_out_preserves_expansion(c2, "i"@);
            lemma_pull_out_preserves_expansion(c3, "sup"@);
            lemma_pull_out_preserves_expansion(c4, "cite"@);
            lemma_pull_out_preserves_expansion(c5, "span"@);
            lemma_pull_out_count(c0, "a"@);
            lemma_pull_out_count(c1, "b"@);
            lemma_pull_out_count(c2, "i"@);
            lemma_pull_out_count(c3, "sup"@);
            lemma_pull_out_count(c4, "cite"@);
            lemma_pull_out_count(c5, "span"@);
        }
        if !(r1 || r2 || r3 || r4 || r5 || r6) {
            proof {
                lemma_pull_out_noop(c0, "a"@);
                lemma_pull_out_noop(c1, "b"@);
                lemma_pull_out_noop(c2, "i"@);
                lemma_pull_out_noop(c3, "sup"@);
                lemma_pull_out_noop(c4, "cite"@);
                lemma_pull_out_noop(c5, "span"@);
                assert(c6 == c0);
                assert(no_decorations(c6)) by {
                    assert forall|j: int| 0 <= j < c6.len() implies !is_decoration(
                        #[trigger] c6[j],
                    ) by {
                        if is_decoration(c6[j]) {
                            assert(has_named(c6, crate::dom::elem_name_of(c6[j])));
                        }
                    }
                }
                lemma_expand_noop(c6);
            }
            break;
        }
    }
    // The surviving children: the fixed point of unwrapping, with the exposed
    // adjacent text runs merged back together.
    concatenate_text(node);
    let ghost merged = node@.children;
    proof {
        assert(merged == merge_texts(expand_seq(orig.children)));
        lemma_expand_count(orig.children);
        lemma_merge_count(expand_seq(orig.children));
        assert(count_nodes(merged) < count_node(orig));
    }
    // Recurse into what is left.
    let mut cs: Vec<Node> = Vec::new();
    core::mem::swap(&mut cs, &mut node.children);
    proof {
        lemma_nodes_view(cs@);
        assert(nodes_view(cs@) == merged);
        assert(merged.skip(0) =~= merged);
        assert(normalize_all(merged.take(0)) =~= Seq::<NodeV>::empty());
    }
    let mut out: Vec<Node> = Vec::new();
    let ghost mut i: int = 0;
    while cs.len() > 0
        invariant
            0 <= i <= merged.len(),
            cs@.len() == merged.len() - i,
            nodes_view(cs@) == merged.skip(i),
            nodes_view(out@) == normalize_all(merged.take(i)),
            count_nodes(merged) < count_node(orig),
            node@.data == orig.data,
            orig == old(node)@,
            merged == merge_texts(expand_seq(orig.children)),
        decreases cs@.len(),
    {
        let ghost old_cs = cs@;
        let mut child = cs.remove(0);
        let ghost childv = child@;
        proof {
            lemma_nodes_view(old_cs);
            lemma_nodes_view(cs@);
            assert(childv == merged.skip(i)[0]);
            assert(childv == merged[i]);
            assert(nodes_view(cs@).len() == merged.skip(i + 1).len());
            assert forall|j: int| 0 <= j < cs@.len() implies #[trigger] nodes_view(cs@)[j]
                == merged.skip(i + 1)[j] by {
                assert(cs@[j] == old_cs[j + 1]);
                assert(nodes_view(cs@)[j] == node_view(cs@[j]));
                assert(nodes_view(old_cs)[j + 1] == node_view(old_cs[j + 1]));
                assert(nodes_view(old_cs)[j + 1] == merged.skip(i)[j + 1]);
                assert(merged.skip(i)[j + 1] == merged[i + 1 + j]);
            }
            assert(nodes_view(cs@) =~= merged.skip(i + 1));
            lemma_count_nodes_element(merged, i);
        }
        remove_decoration(&mut child);
        let ghost old_out = out@;
        out.push(child);
        proof {
            i = i + 1;
            lemma_nodes_view(out@);
            lemma_nodes_view(old_out);
            assert(forall|j: int| 0 <= j < out@.len() - 1 ==> out@[j] == old_out[j]);
            assert forall|j: int| 0 <= j < out@.len() - 1 implies #[trigger] nodes_view(out@)[j]
                == nodes_view(old_out)[j] by {
                assert(nodes_view(out@)[j] == node_view(out@[j]));
                assert(nodes_view(old_out)[j] == node_view(old_out[j]));
            }
            assert(nodes_view(out@).last() == normalize_node(childv));
            assert(merged.take(i).drop_last() =~= merged.take(i - 1));
            assert(merged.take(i).last() == merged[i - 1]);
            assert(nodes_view(out@) =~= normalize_all(merged.take(i)));
        }
    }
    proof {
        assert(i == merged.len());
        assert(merged.take(i) =~= merged);
    }
    node.children = out;
}

/// Whether no two adjacent elements of `s` are both text nodes.
pub open spec fn no_adjacent_texts(s: Seq<NodeV>) -> bool {
    forall|i: int|
        0 <= i < s.len() - 1 ==> !(is_text_node(#[trigger] s[i]) && is_text_node(s[i + 1]))
}

/// A fully normalized subtree: at every node, no child is decorative and no
/// two adjacent children are both text nodes.
pub open spec fn normalized_node(n: NodeV) -> bool
    decreases n,
{
    no_decorations(n.children) && no_adjacent_texts(n.children) && normalized_all(n.children)
}

/// Whether every subtree of `s` is normalized.
pub open spec fn normalized_all(s: Seq<NodeV>) -> bool
    decreases s,
{
    if s.len() == 0 {
        true
    } else {
        normalized_all(s.drop_last()) && normalized_node(s.last())
    }
}

proof fn lemma_normalized_all_index(s: Seq<NodeV>, i: int)
    requires
        normalized_all(s),
        0 <= i < s.len(),
    ensures
        normalized_node(s[i]),
    decreases s.len(),
{
    if i < s.len() - 1 {
        lemma_normalized_all_index(s.drop_last(), i);
    }
}

proof fn lemma_normalized_all_intro(s: Seq<NodeV>)
    requires
        forall|i: int| 0 <= i < s.len() ==> normalized_node(#[trigger] s[i]),
    ensures
        normalized_all(s),
    decreases s.len(),
{
    if s.len() > 0 {
        assert(forall|i: int|
            0 <= i < s.drop_last().len() ==> s.drop_last()[i] == s[i]);
        lemma_normalized_all_intro(s.drop_last());
    }
}

/// `normalize_all` maps `normalize_node` over the sequence.
proof fn lemma_normalize_all_index(s: Seq<NodeV>)
    ensures
        normalize_all(s).len() == s.len(),
        forall|i: int| 0 <= i < s.len() ==> normalize_all(s)[i] == normalize_node(s[i]),
    decreases s.len(),
{
    if s.len() > 0 {
        lemma_normalize_all_index(s.drop_last());
    }
}

/// Expansion leaves no decorative element behind.
proof fn lemma_expand_no_decorations(s: Seq<NodeV>)
    ensures
        no_decorations(expand_seq(s)),
    decreases count_nodes(s), s.len(),
{
    if s.len() > 0 {
        lemma_count_nodes_parts(s);
        lemma_expand_no_decorations(s.drop_last());
        let head = expand_seq(s.drop_last());
        if is_decoration(s.last()) {
            assert(count_node(s.last()) == 1 + count_nodes(s.last().children));
            lemma_expand_no_decorations(s.last().children);
            let tail = expand_seq(s.last().children);
            assert forall|j: int| 0 <= j < (head + tail).len() implies !is_decoration(
                #[trigger] (head + tail)[j],
            ) by {
                if j < head.len() {
                    assert((head + tail)[j] == head[j]);
                } else {
                    assert((head + tail)[j] == tail[j - head.len()]);
                }
            }
        } else {
            let tail = seq![s.last()];
            assert forall|j: int| 0 <= j < (head + tail).len() implies !is_decoration(
                #[trigger] (head + tail)[j],
            ) by {
                if j < head.len() {
                    assert((head + tail)[j] == head[j]);
                } else {
                    assert((head + tail)[j] == s.last());
                }
            }
        }
    }
}

/// Merging keeps a decoration-free child list decoration-free: the only nodes
/// it creates are text nodes.
proof fn lemma_merge_keeps_no_decorations(s: Seq<NodeV>)
    requires
        no_decorations(s),
    ensures
        no_decorations(merge_texts(s)),
    decreases s.len(),
{
    if s.len() >= 2 {
        let a = s[0];
        let b = s[1];
        match (a.data, b.data) {
            (NodeDataV::Text { contents: ca }, NodeDataV::Text { contents: cb }) => {
                let m = NodeV { data: NodeDataV::Text { contents: ca + cb }, children: a.children };
                let rest = seq![m] + s.skip(2);
                assert forall|j: int| 0 <= j < rest.len() implies !is_decoration(
                    #[trigger] rest[j],
                ) by {
                    if j > 0 {
                        assert(rest[j] == s[j + 1]);
                    }
                }
                lemma_merge_keeps_no_decorations(rest);
            },
            _ => {
                assert(forall|j: int|
                    0 <= j < s.drop_first().len() ==> s.drop_first()[j] == s[j + 1]);
                lemma_merge_keeps_no_decorations(s.drop_first());
                let head = seq![a];
                let tail = merge_texts(s.drop_first());
                assert forall|j: int| 0 <= j < (head + tail).len() implies !is_decoration(
                    #[trigger] (head + tail)[j],
                ) by {
                    if j > 0 {
                        assert((head + tail)[j] == tail[j - 1]);
                    }
                }
            },
        }
    }
}

/// A nonempty merge keeps the text-ness of the first node.
proof fn lemma_merge_first(s: Seq<NodeV>)
    requires
        s.len() > 0,
    ensures
        merge_texts(s).len() > 0,
        is_text_node(merge_texts(s)[0]) == is_text_node(s[0]),
    decreases s.len(),
{
    if s.len() >= 2 {
        let a = s[0];
        let b = s[1];
        match (a.data, b.data) {
            (NodeDataV::Text { contents: ca }, NodeDataV::Text { contents: cb }) => {
                let m = NodeV { data: NodeDataV::Text { contents: ca + cb }, children: a.children };
                let rest = seq![m] + s.skip(2);
                lemma_merge_first(rest);
                assert(rest[0] == m);
            },
            _ => {
                let head = seq![a];
                let tail = merge_texts(s.drop_first());
                assert((head + tail)[0] == a);
            },
        }
    }
}

/// After merging, no two adjacent children are both text nodes.
proof fn lemma_merge_no_adjacent(s: Seq<NodeV>)
    ensures
        no_adjacent_texts(merge_texts(s)),
    decreases s.len(),
{
    if s.len() >= 2 {
        let a = s[0];
        let b = s[1];
        match (a.data, b.data) {
            (NodeDataV::Text { contents: ca }, NodeDataV::Text { contents: cb }) => {
                let m = NodeV { data: NodeDataV::Text { contents: ca + cb }, children: a.children };
                lemma_merge_no_adjacent(seq![m] + s.skip(2));
            },
            _ => {
                lemma_merge_no_adjacent(s.drop_first());
                let head = seq![a];
                let tail = merge_texts(s.drop_first());
                let r = head + tail;
                assert forall|j: int| 0 <= j < r.len() - 1 implies !(is_text_node(
                    #[trigger] r[j],
                ) && is_text_node(r[j + 1])) by {
                    if j == 0 {
                        assert(r[0] == a);
                        if tail.len() > 0 {
                            assert(r[1] == tail[0]);
                            lemma_merge_first(s.drop_first());
                            assert(s.drop_first()[0] == b);
                            assert(!(is_text_node(a) && is_text_node(b)));
                        }
                    } else {
                        assert(r[j] == tail[j - 1]);
                        assert(r[j + 1] == tail[j]);
                    }
                }
            },
        }
    }
}

/// After normalization, no decorative element remains anywhere below the
/// root, and no two adjacent siblings are both text nodes.
pub proof fn lemma_normalize_normalized(n: NodeV)
    ensures
        normalized_node(normalize_node(n)),
    decreases count_node(n),
{
    let e = expand_seq(n.children);
    let m = merge_texts(e);
    let r = normalize_all(m);
    lemma_expand_no_decorations(n.children);
    lemma_merge_keeps_no_decorations(e);
    lemma_merge_no_adjacent(e);
    lemma_expand_count(n.children);
    lemma_merge_count(e);
    lemma_normalize_all_index(m);
    assert forall|i: int| 0 <= i < r.len() implies !is_decoration(#[trigger] r[i]) && (
    is_text_node(r[i]) == is_text_node(m[i])) by {
        assert(r[i] == normalize_node(m[i]));
        assert(r[i].data == m[i].data);
    }
    assert(no_adjacent_texts(r));
    assert forall|i: int| 0 <= i < r.len() implies normalized_node(#[trigger] r[i]) by {
        lemma_count_nodes_element(m, i);
        assert(count_node(m[i]) < count_node(n));
        lemma_normalize_normalized(m[i]);
        assert(r[i] == normalize_node(m[i]));
    }
    lemma_normalized_all_intro(r);
    assert(normalize_node(n).children == r);
}

/// Merging is a no-op where no two adjacent children are both text nodes.
proof fn lemma_merge_noop(s: Seq<NodeV>)
    requires
        no_adjacent_texts(s),
    ensures
        merge_texts(s) == s,
    decreases s.len(),
{
    if s.len() >= 2 {
        let a = s[0];
        let b = s[1];
        assert(!(is_text_node(a) && is_text_node(b)));
        match (a.data, b.data) {
            (NodeDataV::Text { contents: ca }, NodeDataV::Text { contents: cb }) => {
                assert(false);
            },
            _ => {
                assert(forall|j: int|
                    0 <= j < s.drop_first().len() ==> s.drop_first()[j] == s[j + 1]);
                lemma_merge_noop(s.drop_first());
                assert(seq![a] + s.drop_first() =~= s);
            },
        }
    }
}

/// Normalizing a subtree that holds no decorative element, and in which no
/// two adjacent siblings are both text nodes, is a no-op.
pub proof fn lemma_normalize_noop(n: NodeV)
    requires
        normalized_node(n),
    ensures
        normalize_node(n) == n,
    decreases count_node(n),
{
    lemma_expand_noop(n.children);
    lemma_merge_noop(n.children);
    lemma_normalize_all_index(n.children);
    assert forall|i: int| 0 <= i < n.children.len() implies normalize_all(n.children)[i]
        == n.children[i] by {
        lemma_normalized_all_index(n.children, i);
        lemma_count_nodes_element(n.children, i);
        lemma_normalize_noop(n.children[i]);
    }
    assert(normalize_all(n.children) =~= n.children);
    assert(normalize_node(n) =~= n);
}

/// Normalization is idempotent: a second pass changes nothing.
pub proof fn lemma_normalize_idempotent(n: NodeV)
    ensures
        normalize_node(normalize_node(n)) == normalize_node(n),
{
    lemma_normalize_normalized(n);
    lemma_normalize_noop(normalize_node(n));
}

} // verus!
