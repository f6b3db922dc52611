//! Element queries over the document tree: depth-first search by tag, text
//! aggregation, and attribute lookup.

use vstd::prelude::*;
use crate::dom::{
    attr_of, attr_value_of, elem_name_of, is_elem_named, lemma_nodes_view, lemma_nodes_view_concat,
    node_view, nodes_view, Attr, Node, NodeData, NodeV,
};
use crate::text::{str_eq, trim_text, trimmed_text};
use vstd::string::StringExecFns;

verus! {

broadcast use vstd::std_specs::vec::group_vec_axioms;

/// Every element of the subtree rooted at `n` whose tag is `name`, the root
/// included, in document (pre)order.
pub open spec fn find_in_node(n: NodeV, name: Seq<char>) -> Seq<NodeV>
    decreases n,
{
    (if is_elem_named(n, name) {
        seq![n]
    } else {
        Seq::empty()
    }) + find_in_nodes(n.children, name)
}

/// The matching elements of each subtree of `s`, concatenated in order.
pub open spec fn find_in_nodes(s: Seq<NodeV>, name: Seq<char>) -> Seq<NodeV>
    decreases s,
{
    if s.len() == 0 {
        Seq::empty()
    } else {
        find_in_nodes(s.drop_last(), name) + find_in_node(s.last(), name)
    }
}

/// The text the subtree rooted at `n` contributes: its own trimmed text, then
/// the text of each child subtree, in document order.
pub open spec fn text_of(n: NodeV) -> Seq<char>
    decreases n,
{
    (match n.data {
        crate::dom::NodeDataV::Text { contents } => trimmed_text(contents),
        _ => Seq::empty(),
    }) + texts_of(n.children)
}

/// The text of each subtree of `s`, concatenated in order.
pub open spec fn texts_of(s: Seq<NodeV>) -> Seq<char>
    decreases s,
{
    if s.len() == 0 {
        Seq::empty()
    } else {
        texts_of(s.drop_last()) + text_of(s.last())
    }
}

/// Finds every element of the subtree rooted at `node` (the root included)
/// whose tag is `elem_name`, in document order, as fresh copies.
pub fn find_elements(node: &Node, elem_name: &str) -> (r: Vec<Node>)
    ensures
        nodes_view(r@) == find_in_node(node@, elem_name@),
    decreases *node,
{
    let mut r: Vec<Node> = Vec::new();
    match &node.data {
        NodeData::Element { name, .. } => {
            if str_eq(name.as_str(), elem_name) {
                r.push(node.deep_copy());
            }
        },
        _ => {},
    }
    let ghost own: Seq<NodeV> = if is_elem_named(node@, elem_name@) {
        seq![node@]
    } else {
        Seq::empty()
    };
    proof {
        lemma_nodes_view(r@);
        assert(nodes_view(r@) =~= own);
        assert(find_in_nodes(node@.children.take(0), elem_name@) =~= Seq::<NodeV>::empty());
        assert(nodes_view(r@) =~= own + find_in_nodes(node@.children.take(0), elem_name@));
    }
    let n: usize = node.children.len();
    proof {
        lemma_nodes_view(node.children@);
    }
    let mut i: usize = 0;
    while i < n
        invariant
            i <= n,
            n == node.children@.len(),
            own == (if is_elem_named(node@, elem_name@) {
                seq![node@]
            } else {
                Seq::<NodeV>::empty()
            }),
            node@.children == nodes_view(node.children@),
            nodes_view(r@) == own + find_in_nodes(node@.children.take(i as int), elem_name@),
        decreases n - i,
    {
        let mut sub = find_elements(&node.children[i], elem_name);
        let ghost old_r = r@;
        let ghost old_sub = sub@;
        r.append(&mut sub);
        i = i + 1;
        proof {
            lemma_nodes_view(node.children@);
            lemma_nodes_view_concat(old_r, old_sub);
            let pfx = node@.children.take(i as int);
            assert(pfx.drop_last() =~= node@.children.take(i - 1));
            assert(pfx.last() == node@.children[i - 1]);
            assert(node@.children[i - 1] == node.children@[i - 1]@);
            assert(nodes_view(r@) =~= own + find_in_nodes(pfx, elem_name@));
        }
    }
    proof {
        assert(node@.children.take(n as int) =~= node@.children);
    }
    r
}

/// Concatenates the text of every descendant text node of `node`, in document
/// order, each run trimmed and blank-collapsed.
pub fn collect_text(node: &Node) -> (r: String)
    ensures
        r@ == text_of(node@),
    decreases *node,
{
    let mut text: String = match &node.data {
        NodeData::Text { contents } => trim_text(contents.as_str()),
        _ => String::new(),
    };
    proof {
        lemma_nodes_view(node.children@);
        assert(texts_of(node@.children.take(0)) =~= Seq::<char>::empty());
        assert(text@ =~= text@ + texts_of(node@.children.take(0)));
    }
    let ghost own: Seq<char> = text@;
    let n: usize = node.children.len();
    let mut i: usize = 0;
    while i < n
        invariant
            i <= n,
            n == node.children@.len(),
            node@.children == nodes_view(node.children@),
            text@ == own + texts_of(node@.children.take(i as int)),
        decreases n - i,
    {
        let sub = collect_text(&node.children[i]);
        text.append(sub.as_str());
        i = i + 1;
        proof {
            lemma_nodes_view(node.children@);
            let pfx = node@.children.take(i as int);
            assert(pfx.drop_last() =~= node@.children.take(i - 1));
            assert(pfx.last() == node@.children[i - 1]);
            assert(node@.children[i - 1] == node.children@[i - 1]@);
        }
    }
    proof {
        assert(node@.children.take(n as int) =~= node@.children);
    }
    text
}

/// The tag of `node`, or the empty string if it is not an element.
pub fn get_elem_name(node: &Node) -> (r: String)
    ensures
        r@ == elem_name_of(node@),
{
    match &node.data {
        NodeData::Element { name, .. } => name.clone(),
        _ => String::new(),
    }
}

/// The value of the first attribute of `node` named `attr_name`; `None` if
/// there is none or `node` is not an element.
pub fn get_attr(node: &Node, attr_name: &str) -> (r: Option<String>)
    ensures
        match r {
            Some(v) => attr_of(node@, attr_name@) == Some(v@),
            None => attr_of(node@, attr_name@) is None,
        },
{
    match &node.data {
        NodeData::Element { attrs, .. } => {
            let ghost attrs_v = attrs@.map_values(|a: Attr| a@);
            let n: usize = attrs.len();
            proof {
                assert(attrs_v.skip(0) =~= attrs_v);
            }
            let mut i: usize = 0;
            while i < n
                invariant
                    i <= n,
                    n == attrs@.len(),
                    attrs_v == attrs@.map_values(|a: Attr| a@),
                    attr_of(node@, attr_name@) == attr_value_of(attrs_v, attr_name@),
                    attr_value_of(attrs_v, attr_name@) == attr_value_of(
                        attrs_v.skip(i as int),
                        attr_name@,
                    ),
                decreases n - i,
            {
                let ghost pre = attrs_v.skip(i as int);
                if str_eq(attrs[i].name.as_str(), attr_name) {
                    proof {
                        assert(attrs_v[i as int] == attrs@[i as int]@);
                        assert(pre[0] == attrs_v[i as int]);
                        assert(pre.len() > 0);
                        assert(attr_value_of(pre, attr_name@) == Some(pre[0].value));
                    }
                    return Some(attrs[i].value.clone());
                }
                i = i + 1;
                proof {
                    assert(pre[0] == attrs_v[i - 1]);
                    assert(pre.drop_first() =~= attrs_v.skip(i as int));
                }
            }
            proof {
                assert(attrs_v.skip(n as int) =~= Seq::<crate::dom::AttrV>::empty());
            }
            None
        },
        _ => None,
    }
}

/// The subtree rooted at `n` as one sequence: the node itself, then each
/// child's subtree in order — document order.
pub open spec fn preorder(n: NodeV) -> Seq<NodeV>
    decreases n,
{
    seq![n] + preorder_all(n.children)
}

/// The preorder sequences of the subtrees of `s`, concatenated in order.
pub open spec fn preorder_all(s: Seq<NodeV>) -> Seq<NodeV>
    decreases s,
{
    if s.len() == 0 {
        Seq::empty()
    } else {
        preorder_all(s.drop_last()) + preorder(s.last())
    }
}

/// The text `n` itself holds: its trimmed contents if it is a text node,
/// nothing otherwise.
pub open spec fn own_text_of(n: NodeV) -> Seq<char> {
    match n.data {
        crate::dom::NodeDataV::Text { contents } => trimmed_text(contents),
        _ => Seq::empty(),
    }
}

/// The own text of each node of `s`, concatenated in order.
pub open spec fn cat_own_texts(s: Seq<NodeV>) -> Seq<char>
    decreases s.len(),
{
    if s.len() == 0 {
        Seq::empty()
    } else {
        cat_own_texts(s.drop_last()) + own_text_of(s.last())
    }
}

proof fn lemma_cat_own_texts_concat(a: Seq<NodeV>, b: Seq<NodeV>)
    ensures
        cat_own_texts(a + b) == cat_own_texts(a) + cat_own_texts(b),
    decreases b.len(),
{
    if b.len() == 0 {
        assert(a + b =~= a);
        assert(cat_own_texts(a) + cat_own_texts(b) =~= cat_own_texts(a));
    } else {
        lemma_cat_own_texts_concat(a, b.drop_last());
        assert((a + b).drop_last() =~= a + b.drop_last());
        assert((a + b).last() == b.last());
        let x = cat_own_texts(a) + (cat_own_texts(b.drop_last()) + own_text_of(b.last()));
        let y = (cat_own_texts(a) + cat_own_texts(b.drop_last())) + own_text_of(b.last());
        assert(x =~= y);
    }
}

/// `find_elements` searches in document order: what it finds is exactly the
/// preorder walk of the subtree, restricted to the elements with the wanted
/// tag.
pub proof fn lemma_find_is_preorder_filtered(n: NodeV, name: Seq<char>)
    ensures
        find_in_node(n, name) == preorder(n).filter(|m: NodeV| is_elem_named(m, name)),
    decreases n,
{
    broadcast use vstd::seq_lib::group_seq_lib_default;

    reveal(Seq::filter);
    let pred = |m: NodeV| is_elem_named(m, name);
    lemma_find_all_is_preorder_filtered(n.children, name);
    Seq::filter_distributes_over_add(seq![n], preorder_all(n.children), pred);
    assert(seq![n].drop_last() =~= Seq::<NodeV>::empty());
    assert(Seq::<NodeV>::empty().filter(pred) =~= Seq::<NodeV>::empty());
    if pred(n) {
        assert(seq![n].filter(pred) =~= seq![n]);
    } else {
        assert(seq![n].filter(pred) =~= Seq::<NodeV>::empty());
        assert(find_in_node(n, name) =~= find_in_nodes(n.children, name));
        assert(Seq::<NodeV>::empty() + preorder_all(n.children).filter(pred) =~= preorder_all(
            n.children,
        ).filter(pred));
    }
}

/// The searches of a forest, concatenated, are its concatenated preorder
/// walk, filtered.
pub proof fn lemma_find_all_is_preorder_filtered(s: Seq<NodeV>, name: Seq<char>)
    ensures
        find_in_nodes(s, name) == preorder_all(s).filter(|m: NodeV| is_elem_named(m, name)),
    decreases s,
{
    reveal(Seq::filter);
    let pred = |m: NodeV| is_elem_named(m, name);
    if s.len() == 0 {
        assert(preorder_all(s).filter(pred) =~= Seq::<NodeV>::empty());
    } else {
        lemma_find_all_is_preorder_filtered(s.drop_last(), name);
        lemma_find_is_preorder_filtered(s.last(), name);
        Seq::filter_distributes_over_add(preorder_all(s.drop_last()), preorder(s.last()), pred);
    }
}

/// `collect_text` aggregates in document order: the collected text is the
/// concatenation, over the preorder walk of the subtree, of each node's own
/// trimmed text.
pub proof fn lemma_text_is_preorder_concat(n: NodeV)
    ensures
        text_of(n) == cat_own_texts(preorder(n)),
    decreases n,
{
    lemma_texts_are_preorder_concat(n.children);
    lemma_cat_own_texts_concat(seq![n], preorder_all(n.children));
    assert(seq![n].drop_last() =~= Seq::<NodeV>::empty());
    assert(cat_own_texts(Seq::<NodeV>::empty()) =~= Seq::<char>::empty());
    assert(cat_own_texts(seq![n]) =~= cat_own_texts(seq![n].drop_last()) + own_text_of(n));
    assert(cat_own_texts(seq![n]) =~= own_text_of(n));
}

/// The texts of a forest, concatenated, are its concatenated preorder walk's
/// own texts.
pub proof fn lemma_texts_are_preorder_concat(s: Seq<NodeV>)
    ensures
        texts_of(s) == cat_own_texts(preorder_all(s)),
    decreases s,
{
    if s.len() > 0 {
        lemma_texts_are_preorder_concat(s.drop_last());
        lemma_text_is_preorder_concat(s.last());
        lemma_cat_own_texts_concat(preorder_all(s.drop_last()), preorder(s.last()));
    }
}

} // verus!
