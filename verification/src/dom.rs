//! The document tree that the whole pipeline works on: an owned recursive
//! node type, together with its mathematical view.

use vstd::prelude::*;

verus! {

broadcast use vstd::std_specs::vec::group_vec_axioms;

/// One attribute of an element: a name and a value.
pub struct Attr {
    pub name: String,
    pub value: String,
}

/// The payload of a tree node.
pub enum NodeData {
    Document,
    Element { name: String, attrs: Vec<Attr> },
    Text { contents: String },
    Comment,
    Doctype,
    ProcessingInstruction,
}

/// A node of the document tree. Children are owned and ordered.
pub struct Node {
    pub data: NodeData,
    pub children: Vec<Node>,
}

/// Spec-level attribute: name and value as character sequences.
pub ghost struct AttrV {
    pub name: Seq<char>,
    pub value: Seq<char>,
}

/// Spec-level payload.
pub ghost enum NodeDataV {
    Document,
    Element { name: Seq<char>, attrs: Seq<AttrV> },
    Text { contents: Seq<char> },
    Comment,
    Doctype,
    ProcessingInstruction,
}

/// Spec-level tree node: the mathematical model of `Node`.
#[verifier::ext_equal]
pub ghost struct NodeV {
    pub data: NodeDataV,
    pub children: Seq<NodeV>,
}

impl View for Attr {
    type V = AttrV;

    open spec fn view(&self) -> AttrV {
        AttrV { name: self.name@, value: self.value@ }
    }
}

impl View for NodeData {
    type V = NodeDataV;

    open spec fn view(&self) -> NodeDataV {
        match self {
            NodeData::Document => NodeDataV::Document,
            NodeData::Element { name, attrs } => NodeDataV::Element {
                name: name@,
                attrs: attrs@.map_values(|a: Attr| a@),
            },
            NodeData::Text { contents } => NodeDataV::Text { contents: contents@ },
            NodeData::Comment => NodeDataV::Comment,
            NodeData::Doctype => NodeDataV::Doctype,
            NodeData::ProcessingInstruction => NodeDataV::ProcessingInstruction,
        }
    }
}

/// The views of a sequence of nodes, in order.
pub open spec fn nodes_view(s: Seq<Node>) -> Seq<NodeV>
    decreases s,
{
    if s.len() == 0 {
        Seq::empty()
    } else {
        nodes_view(s.drop_last()).push(node_view(s.last()))
    }
}

/// The view of one node: the same tree over mathematical types.
pub open spec fn node_view(n: Node) -> NodeV
    decreases n,
{
    NodeV { data: n.data@, children: nodes_view(n.children@) }
}

impl View for Node {
    type V = NodeV;

    open spec fn view(&self) -> NodeV {
        node_view(*self)
    }
}

/// Whether `n` is an element with tag `name`.
pub open spec fn is_elem_named(n: NodeV, name: Seq<char>) -> bool {
    match n.data {
        NodeDataV::Element { name: tag, .. } => tag == name,
        _ => false,
    }
}

/// The tag of `n`, or the empty string if `n` is not an element.
pub open spec fn elem_name_of(n: NodeV) -> Seq<char> {
    match n.data {
        NodeDataV::Element { name: tag, .. } => tag,
        _ => Seq::empty(),
    }
}

/// Whether `n` is a text node.
pub open spec fn is_text_node(n: NodeV) -> bool {
    n.data is Text
}

/// The value of the first attribute named `name`, if any.
pub open spec fn attr_value_of(attrs: Seq<AttrV>, name: Seq<char>) -> Option<Seq<char>>
    decreases attrs.len(),
{
    if attrs.len() == 0 {
        None
    } else if attrs[0].name == name {
        Some(attrs[0].value)
    } else {
        attr_value_of(attrs.drop_first(), name)
    }
}

/// The value of the first attribute of `n` named `name`; `None` if `n` has no
/// such attribute or is not an element.
pub open spec fn attr_of(n: NodeV, name: Seq<char>) -> Option<Seq<char>> {
    match n.data {
        NodeDataV::Element { attrs, .. } => attr_value_of(attrs, name),
        _ => None,
    }
}

/// `nodes_view` maps `node_view` over the sequence, element by element.
pub proof fn lemma_nodes_view(s: Seq<Node>)
    ensures
        nodes_view(s).len() == s.len(),
        forall|i: int| 0 <= i < s.len() ==> nodes_view(s)[i] == node_view(s[i]),
    decreases s,
{
    if s.len() > 0 {
        lemma_nodes_view(s.drop_last());
    }
}

/// `nodes_view` distributes over concatenation.
pub proof fn lemma_nodes_view_concat(a: Seq<Node>, b: Seq<Node>)
    ensures
        nodes_view(a + b) == nodes_view(a) + nodes_view(b),
{
    lemma_nodes_view(a);
    lemma_nodes_view(b);
    lemma_nodes_view(a + b);
    assert(nodes_view(a + b) =~= nodes_view(a) + nodes_view(b));
}

impl Node {
    /// A structural copy of this node: the same tree, owned afresh.
    pub fn deep_copy(&self) -> (r: Node)
        ensures
            r@ == self@,
        decreases *self,
    {
        let data = match &self.data {
            NodeData::Document => NodeData::Document,
            NodeData::Element { name, attrs } => {
                let mut attrs2: Vec<Attr> = Vec::new();
                let mut i: usize = 0;
                while i < attrs.len()
                    invariant
                        i <= attrs@.len(),
                        attrs2@.len() == i,
                        forall|j: int| 0 <= j < i ==> attrs2@[j]@ == attrs@[j]@,
                    decreases attrs@.len() - i,
                {
                    attrs2.push(Attr { name: attrs[i].name.clone(), value: attrs[i].value.clone() });
                    i = i + 1;
                }
                proof {
                    assert(attrs2@.map_values(|a: Attr| a@) =~= attrs@.map_values(|a: Attr| a@));
                }
                NodeData::Element { name: name.clone(), attrs: attrs2 }
            },
            NodeData::Text { contents } => NodeData::Text { contents: contents.clone() },
            NodeData::Comment => NodeData::Comment,
            NodeData::Doctype => NodeData::Doctype,
            NodeData::ProcessingInstruction => NodeData::ProcessingInstruction,
        };
        let mut children: Vec<Node> = Vec::new();
        let mut i: usize = 0;
        while i < self.children.len()
            invariant
                i <= self.children@.len(),
                children@.len() == i,
                forall|j: int| 0 <= j < i ==> children@[j]@ == self.children@[j]@,

            decreases self.children@.len() - i,

        {
            children.push(self.children[i].deep_copy());
            i = i + 1;
        }
        proof {
            lemma_nodes_view(children@);
            lemma_nodes_view(self.children@);
            assert(nodes_view(children@) =~= nodes_view(self.children@));
        }
        Node { data, children }
    }
}

} // verus!
