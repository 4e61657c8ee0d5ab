use vstd::prelude::*;

use crate::package::{opt_strings_view, ref_name, strings_view, Package};
use crate::text::{contains_str, has_infix, has_prefix, starts_with_str};

verus! {

/// The prefix that marks a category node.
pub open spec fn category_marker() -> Seq<char> {
    seq!['c', 'a', 't', ':']
}

/// The name of an include directive.
pub open spec fn include_marker() -> Seq<char> {
    seq!['@', 'i', 'n', 'c', 'l', 'u', 'd', 'e']
}

/// What a node of the declaration tree stands for.
#[derive(PartialEq, Eq, Structural, Clone, Copy, Debug)]
pub enum NodeKind {
    Category,
    Include,
    Package,
    Other,
}

/// A node's kind, decided by its name.
pub open spec fn kind_of(name: Seq<char>) -> NodeKind {
    if has_prefix(name, category_marker()) {
        NodeKind::Category
    } else if name == include_marker() {
        NodeKind::Include
    } else if has_infix(name, category_marker()) || has_infix(name, include_marker())
        || ref_name(name).len() == 0 {
        NodeKind::Other
    } else {
        NodeKind::Package
    }
}

/// The category name that a category node's name carries after its marker.
pub open spec fn category_name_of(name: Seq<char>) -> Seq<char> {
    name.subrange(4, name.len() as int)
}

/// One node of a declaration tree. The name, the arguments, the
/// leading text and the children are what the logic reads and changes;
/// `syntax` keeps the rest of the node as it was written (its type
/// annotation, entries with their spacing, terminator and trailing text, and
/// the frame of its children block), so that rendering reproduces untouched
/// nodes exactly.
#[derive(Debug)]
pub struct Node {
    pub name: String,
    /// The string value of each entry, in order; `None` for an entry whose
    /// value is not a string.
    pub args: Vec<Option<String>>,
    pub leading: String,
    pub children: Option<Vec<Node>>,
    pub syntax: kdl::KdlNode,
}

/// One declaration file: its canonical path and its top-level nodes.
/// `syntax` keeps the file's own leading and trailing text.
#[derive(Debug)]
pub struct Document {
    pub path: String,
    pub nodes: Vec<Node>,
    pub syntax: kdl::KdlDocument,
}

/// A node as the contracts see it.
pub struct NodeView {
    pub name: Seq<char>,
    pub args: Seq<Option<Seq<char>>>,
    pub leading: Seq<char>,
    pub children: Option<Seq<NodeView>>,
    pub syntax: kdl::KdlNode,
}

/// A document as the contracts see it.
pub struct DocView {
    pub path: Seq<char>,
    pub nodes: Seq<NodeView>,
    pub syntax: kdl::KdlDocument,
}

/// The views of a sequence of nodes.
pub open spec fn view_nodes(s: Seq<Node>) -> Seq<NodeView>
    decreases s,
{
    if s.len() == 0 {
        Seq::<NodeView>::empty()
    } else {
        view_nodes(s.drop_last()).push(view_node(s.last()))
    }
}

/// The view of a node.
pub open spec fn view_node(n: Node) -> NodeView
    decreases n,
{
    NodeView {
        name: n.name@,
        args: opt_strings_view(n.args@),
        leading: n.leading@,
        children: match n.children {
            Some(c) => Some(view_nodes(c@)),
            None => None,
        },
        syntax: n.syntax,
    }
}

/// A sequence's view is made of its elements' views.
pub proof fn lemma_view_nodes(s: Seq<Node>)
    ensures
        view_nodes(s).len() == s.len(),
        forall|i: int| 0 <= i < s.len() ==> #[trigger] view_nodes(s)[i] == view_node(s[i]),
    decreases s.len(),
{
    if s.len() > 0 {
        lemma_view_nodes(s.drop_last());
        assert forall|i: int| 0 <= i < s.len() implies #[trigger] view_nodes(s)[i] == view_node(
            s[i],
        ) by {
            if i < s.len() - 1 {
                assert(s.drop_last()[i] == s[i]);
            }
        }
    }
}

/// The view of a sequence grows with the sequence.
pub proof fn lemma_view_nodes_push(s: Seq<Node>, n: Node)
    ensures
        view_nodes(s.push(n)) == view_nodes(s).push(view_node(n)),
{
    assert(s.push(n).drop_last() =~= s);
}

/// The view of a document.
pub open spec fn view_doc(d: Document) -> DocView {
    DocView { path: d.path@, nodes: view_nodes(d.nodes@), syntax: d.syntax }
}

/// The views of a sequence of documents.
pub open spec fn view_docs(s: Seq<Document>) -> Seq<DocView> {
    s.map_values(|d: Document| view_doc(d))
}

/// The view of a sequence of documents grows with the sequence.
pub proof fn lemma_view_docs_push(s: Seq<Document>, d: Document)
    ensures
        view_docs(s.push(d)) == view_docs(s).push(view_doc(d)),
{
    assert(view_docs(s.push(d)) =~= view_docs(s).push(view_doc(d)));
}

/// The names of the package nodes of a forest, in depth-first order, looking
/// under categories and packages only.
pub open spec fn declared_in(nodes: Seq<Node>) -> Seq<Seq<char>>
    decreases nodes,
{
    if nodes.len() == 0 {
        Seq::<Seq<char>>::empty()
    } else {
        let n = nodes.last();
        declared_in(nodes.drop_last()) + (if kind_of(n.name@) == NodeKind::Package {
            seq![n.name@]
        } else {
            Seq::<Seq<char>>::empty()
        }) + match n.children {
            Some(c) => if walks_into(kind_of(n.name@)) {
                declared_in(c@)
            } else {
                Seq::<Seq<char>>::empty()
            },
            None => Seq::<Seq<char>>::empty(),
        }
    }
}

/// The kinds of node whose children hold declarations: categories, and
/// packages. Include directives and unrecognised nodes are skipped whole.
pub open spec fn walks_into(k: NodeKind) -> bool {
    k == NodeKind::Category || k == NodeKind::Package
}

/// The names of the package nodes of several documents, in order.
pub open spec fn declared_in_docs(docs: Seq<Document>) -> Seq<Seq<char>>
    decreases docs.len(),
{
    if docs.len() == 0 {
        Seq::<Seq<char>>::empty()
    } else {
        declared_in_docs(docs.drop_last()) + declared_in(docs.last().nodes@)
    }
}

/// The kind of the node named `name`.
pub fn node_kind(name: &str) -> (k: NodeKind)
    ensures
        k == kind_of(name@),
{
    let cat = "cat:";
    let inc = "@include";
    proof {
        reveal_strlit("cat:");
        reveal_strlit("@include");
        assert(cat@ =~= category_marker());
        assert(inc@ =~= include_marker());
    }
    let is_category = starts_with_str(name, cat);
    let is_include = name.unicode_len() == 8 && starts_with_str(name, inc);
    proof {
        if name@.len() == 8 && has_prefix(name@, include_marker()) {
            assert(name@.subrange(0, 8) =~= name@);
        }
        if name@ == include_marker() {
            assert(name@.subrange(0, 8) =~= name@);
        }
        assert(is_include == (name@ == include_marker()));
    }
    let has_marker = contains_str(name, cat) || contains_str(name, inc);
    let empty_name = Package::from_str(name).name.unicode_len() == 0;
    if is_category {
        NodeKind::Category
    } else if is_include {
        NodeKind::Include
    } else if has_marker || empty_name {
        NodeKind::Other
    } else {
        NodeKind::Package
    }
}

/// Appends to `out` the names of the package nodes of `nodes`, depth first,
/// looking under categories and packages only.
pub(crate) fn collect_declared(nodes: &Vec<Node>, out: &mut Vec<String>)
    ensures
        strings_view(final(out)@) == strings_view(old(out)@) + declared_in(nodes@),
    decreases nodes@,
{
    let mut i: usize = 0;
    let ghost start = strings_view(out@);
    proof {
        assert(nodes@.subrange(0, 0) =~= Seq::<Node>::empty());
        assert(start + declared_in(nodes@.subrange(0, 0)) =~= start);
    }
    while i < nodes.len()
        invariant
            i <= nodes@.len(),
            strings_view(out@) == start + declared_in(nodes@.subrange(0, i as int)),
        decreases nodes@.len() - i,
    {
        let node = &nodes[i];
        let ghost before = strings_view(out@);
        let kind = node_kind(node.name.as_str());
        if kind == NodeKind::Package {
            out.push(node.name.clone());
            proof {
                assert(strings_view(out@) =~= before + seq![node.name@]);
            }
        }
        let ghost mid = strings_view(out@);
        match &node.children {
            Some(c) => {
                if kind == NodeKind::Category || kind == NodeKind::Package {
                    proof {
                        assert(decreases_to!(nodes@ => nodes@[i as int]));
                    }
                    collect_declared(c, out);
                }
            },
            None => {},
        }
        proof {
            let pre = nodes@.subrange(0, i as int);
            let post = nodes@.subrange(0, i + 1);
            assert(post.drop_last() =~= pre);
            assert(post.last() == *node);
            let own = if kind_of(node.name@) == NodeKind::Package {
                seq![node.name@]
            } else {
                Seq::<Seq<char>>::empty()
            };
            assert(mid =~= before + own);
        }
        i = i + 1;
    }
    proof {
        assert(nodes@.subrange(0, nodes@.len() as int) =~= nodes@);
    }
}

} // verus!
