use vstd::prelude::*;

use crate::diff::{contains_package, contains_same};
use crate::package::{
    copy_strings, find_last, ids, last_index_of, opt_strings_view, ref_id, same_strings, strings_view, Category, Package,
    PackageId,
};
use crate::syntax::{formatted_package_node, package_syntax};
use crate::tree::{
    category_name_of, kind_of, lemma_view_docs_push, lemma_view_nodes, lemma_view_nodes_push, node_kind, view_doc, view_docs,
    view_node, view_nodes, DocView, Document, Node, NodeKind, NodeView,
};

verus! {

/// What an insertion needs of a package: its text form and its tags.
pub type PackageEntry = (Seq<char>, Seq<Seq<char>>);

pub open spec fn entries_of(pkgs: Seq<Package>) -> Seq<PackageEntry> {
    pkgs.map_values(|p: Package| (p.text(), strings_view(p.tags@)))
}

/// Each string as a present argument.
pub open spec fn as_args(s: Seq<Seq<char>>) -> Seq<Option<Seq<char>>> {
    s.map_values(|t: Seq<char>| Some(t))
}

/// `n` spaces.
pub open spec fn spaces(n: nat) -> Seq<char> {
    Seq::new(n, |i: int| ' ')
}

/// The node that an insertion adds for a package at an indentation level:
/// four spaces of leading text per level, no children.
pub open spec fn new_package_view(e: PackageEntry, level: nat) -> NodeView {
    NodeView {
        name: e.0,
        args: as_args(e.1),
        leading: spaces(4 * level),
        children: None,
        syntax: package_syntax(e.0, e.1, level),
    }
}

pub open spec fn added_views(pkgs: Seq<PackageEntry>, level: nat) -> Seq<NodeView> {
    pkgs.map_values(|e: PackageEntry| new_package_view(e, level))
}

/// The number of spaces at the start of `s`.
pub open spec fn leading_spaces(s: Seq<char>) -> nat
    decreases s.len(),
{
    if s.len() > 0 && s[0] == ' ' {
        1 + leading_spaces(s.drop_first())
    } else {
        0
    }
}

/// The indentation that a node's leading text gives it: the spaces after its
/// last line break (after its start, when it holds none). Comments on lines
/// of their own above the node do not count.
pub open spec fn indent_width(leading: Seq<char>) -> nat {
    leading_spaces(leading.subrange(last_index_of(leading, '\n') + 1, leading.len() as int))
}

/// The indentation level of a node's children: one deeper than the node,
/// whose level is its indentation over four spaces.
pub open spec fn child_level(v: NodeView) -> nat {
    indent_width(v.leading) / 4 + 1
}

/// Whether `v`, standing under the categories `path`, is the category
/// `cname` under `cpath` (an empty `cpath` matches any place).
pub open spec fn is_target(
    v: NodeView,
    path: Seq<Seq<char>>,
    cname: Seq<char>,
    cpath: Seq<Seq<char>>,
) -> bool {
    kind_of(v.name) == NodeKind::Category && category_name_of(v.name) == cname && (cpath.len() == 0
        || path == cpath)
}

/// The categories that enclose the children of `v`.
pub open spec fn child_path(v: NodeView, path: Seq<Seq<char>>) -> Seq<Seq<char>> {
    if kind_of(v.name) == NodeKind::Category {
        path.push(category_name_of(v.name))
    } else {
        path
    }
}

pub open spec fn children_or_empty(v: NodeView) -> Seq<NodeView> {
    match v.children {
        Some(c) => c,
        None => Seq::<NodeView>::empty(),
    }
}

/// How many nodes of a forest are the target category.
pub open spec fn count_targets(
    s: Seq<NodeView>,
    path: Seq<Seq<char>>,
    cname: Seq<char>,
    cpath: Seq<Seq<char>>,
) -> nat
    decreases s,
{
    if s.len() == 0 {
        0
    } else {
        let v = s.last();
        count_targets(s.drop_last(), path, cname, cpath) + (if is_target(v, path, cname, cpath) {
            1nat
        } else {
            0nat
        }) + match v.children {
            Some(c) => count_targets(c, child_path(v, path), cname, cpath),
            None => 0,
        }
    }
}

/// The forest with the packages appended to the children of the first target
/// category in depth-first order, and whether there was one.
pub open spec fn insert_first(
    s: Seq<NodeView>,
    path: Seq<Seq<char>>,
    cname: Seq<char>,
    cpath: Seq<Seq<char>>,
    pkgs: Seq<PackageEntry>,
) -> (Seq<NodeView>, bool)
    decreases s,
{
    if s.len() == 0 {
        (Seq::<NodeView>::empty(), false)
    } else {
        let (pre, done) = insert_first(s.drop_last(), path, cname, cpath, pkgs);
        let v = s.last();
        if done {
            (pre.push(v), true)
        } else if is_target(v, path, cname, cpath) {
            (
                pre.push(
                    NodeView {
                        children: Some(children_or_empty(v) + added_views(pkgs, child_level(v))),
                        ..v
                    },
                ),
                true,
            )
        } else {
            match v.children {
                Some(c) => {
                    let (c2, d) = insert_first(c, child_path(v, path), cname, cpath, pkgs);
                    (pre.push(NodeView { children: Some(c2), ..v }), d)
                },
                None => (pre.push(v), false),
            }
        }
    }
}

/// How many nodes of the documents are the target category.
pub open spec fn count_in_docs(docs: Seq<DocView>, cname: Seq<char>, cpath: Seq<Seq<char>>) -> nat
    decreases docs.len(),
{
    if docs.len() == 0 {
        0
    } else {
        count_in_docs(docs.drop_last(), cname, cpath) + count_targets(
            docs.last().nodes,
            Seq::<Seq<char>>::empty(),
            cname,
            cpath,
        )
    }
}

/// The documents with the packages appended to the first target category,
/// taking the documents in order, and whether there was one.
pub open spec fn insert_in_docs(
    docs: Seq<DocView>,
    cname: Seq<char>,
    cpath: Seq<Seq<char>>,
    pkgs: Seq<PackageEntry>,
) -> (Seq<DocView>, bool)
    decreases docs.len(),
{
    if docs.len() == 0 {
        (Seq::<DocView>::empty(), false)
    } else {
        let (pre, done) = insert_in_docs(docs.drop_last(), cname, cpath, pkgs);
        let d = docs.last();
        if done {
            (pre.push(d), true)
        } else {
            let (n2, found) = insert_first(
                d.nodes,
                Seq::<Seq<char>>::empty(),
                cname,
                cpath,
                pkgs,
            );
            (pre.push(DocView { nodes: n2, ..d }), found)
        }
    }
}

/// The category name that a category node carries after its marker.
fn category_name(name: &String) -> (r: String)
    requires
        kind_of(name@) == NodeKind::Category,
    ensures
        r@ == category_name_of(name@),
{
    String::from_str(name.as_str().substring_char(4, name.unicode_len()))
}

/// The categories that enclose the children of the node named `name`.
fn child_path_of(name: &String, path: &Vec<String>) -> (r: Vec<String>)
    ensures
        forall|v: NodeView|
            v.name == name@ ==> strings_view(r@) == child_path(v, strings_view(path@)),
{
    let mut r = copy_strings(path);
    if node_kind(name.as_str()) == NodeKind::Category {
        let ghost prev = r@;
        r.push(category_name(name));
        proof {
            assert(strings_view(r@) =~= strings_view(prev).push(category_name_of(name@)));
        }
    }
    r
}

/// Whether the node named `name`, under the categories `path`, is the
/// category `cat`.
fn is_target_name(name: &String, path: &Vec<String>, cat: &Category) -> (r: bool)
    ensures
        forall|v: NodeView|
            v.name == name@ ==> r == is_target(v, strings_view(path@), cat.name@, cat.path_view()),
{
    if node_kind(name.as_str()) != NodeKind::Category {
        return false;
    }
    let cname = category_name(name);
    if cname != cat.name {
        return false;
    }
    cat.path.len() == 0 || same_strings(path, &cat.path)
}

/// The indentation that a node's leading text gives it.
fn indent_width_of(leading: &String) -> (r: usize)
    ensures
        r == indent_width(leading@),
        r <= leading@.len(),
{
    let s = leading.as_str();
    let n = s.unicode_len();
    let start: usize = match find_last(s, '\n') {
        Some(k) => k + 1,
        None => 0,
    };
    let ghost tail = s@.subrange(start as int, n as int);
    let mut j: usize = start;
    proof {
        assert(s@.subrange(j as int, n as int) == tail);
    }
    while j < n && s.get_char(j) == ' '
        invariant
            n == s@.len(),
            start <= j <= n,
            tail == s@.subrange(start as int, n as int),
            leading_spaces(tail) == (j - start) + leading_spaces(s@.subrange(j as int, n as int)),
        decreases n - j,
    {
        proof {
            let t = s@.subrange(j as int, n as int);
            assert(t.drop_first() =~= s@.subrange(j + 1, n as int));
            assert(t[0] == ' ');
        }
        j = j + 1;
    }
    proof {
        let t = s@.subrange(j as int, n as int);
        if j < n {
            assert(t[0] == s@[j as int]);
        }
        assert(leading_spaces(t) == 0);
    }
    j - start
}

/// Four spaces per level.
fn indentation(level: usize) -> (r: String)
    ensures
        r@ == spaces(4 * level as nat),
{
    let mut r = String::new();
    let mut k: usize = 0;
    proof {
        assert(r@ =~= spaces(0));
    }
    while k < level
        invariant
            k <= level,
            r@ == spaces(4 * k as nat),
        decreases level - k,
    {
        r.append("    ");
        proof {
            reveal_strlit("    ");
            assert(r@ =~= spaces(4 * (k + 1) as nat));
        }
        k = k + 1;
    }
    r
}

/// Each tag as a present argument.
fn tag_args(tags: &Vec<String>) -> (r: Vec<Option<String>>)
    ensures
        opt_strings_view(r@) == as_args(strings_view(tags@)),
{
    let mut r: Vec<Option<String>> = Vec::new();
    let mut i: usize = 0;
    while i < tags.len()
        invariant
            i <= tags@.len(),
            opt_strings_view(r@) == as_args(strings_view(tags@).subrange(0, i as int)),
        decreases tags@.len() - i,
    {
        let ghost prev = r@;
        let item: &String = &tags[i];
        let c = item.clone();
        r.push(Some(c));
        proof {
            assert(opt_strings_view(r@) =~= opt_strings_view(prev).push(Some(c@)));
            assert(as_args(strings_view(tags@).subrange(0, i + 1)) =~= as_args(
                strings_view(tags@).subrange(0, i as int),
            ).push(Some(c@)));
        }
        i = i + 1;
    }
    proof {
        assert(strings_view(tags@).subrange(0, tags@.len() as int) =~= strings_view(tags@));
    }
    r
}

/// The node that an insertion adds for `p` at an indentation level.
fn package_node(p: &Package, level: usize) -> (r: Node)
    ensures
        view_node(r) == new_package_view((p.text(), strings_view(p.tags@)), level as nat),
{
    let name = p.to_text();
    let tags = copy_strings(&p.tags);
    let syntax = formatted_package_node(&name, &tags, level);
    Node { name, args: tag_args(&p.tags), leading: indentation(level), children: None, syntax }
}

/// Appends to `kids` one new node per package, at an indentation level.
fn push_package_nodes(kids: &mut Vec<Node>, pkgs: &Vec<Package>, level: usize)
    ensures
        view_nodes(final(kids)@) == view_nodes(old(kids)@) + added_views(
            entries_of(pkgs@),
            level as nat,
        ),
{
    let ghost start = view_nodes(kids@);
    let mut j: usize = 0;
    proof {
        assert(start + added_views(entries_of(pkgs@).subrange(0, 0), level as nat) =~= start);
    }
    while j < pkgs.len()
        invariant
            j <= pkgs@.len(),
            view_nodes(kids@) == start + added_views(
                entries_of(pkgs@).subrange(0, j as int),
                level as nat,
            ),
        decreases pkgs@.len() - j,
    {
        let node = package_node(&pkgs[j], level);
        let ghost prev = kids@;
        kids.push(node);
        proof {
            lemma_view_nodes_push(prev, node);
            assert(added_views(entries_of(pkgs@).subrange(0, j + 1), level as nat) =~= added_views(
                entries_of(pkgs@).subrange(0, j as int),
                level as nat,
            ).push(new_package_view(entries_of(pkgs@)[j as int], level as nat)));
        }
        j = j + 1;
    }
    proof {
        assert(entries_of(pkgs@).subrange(0, pkgs@.len() as int) =~= entries_of(pkgs@));
    }
}

/// Appends the packages to the children of the first target category of
/// `nodes` (depth first), and says whether there was one.
fn insert_in(nodes: Vec<Node>, path: &Vec<String>, cat: &Category, pkgs: &Vec<Package>) -> (r: (
    Vec<Node>,
    bool,
))
    ensures
        (view_nodes(r.0@), r.1) == insert_first(
            view_nodes(nodes@),
            strings_view(path@),
            cat.name@,
            cat.path_view(),
            entries_of(pkgs@),
        ),
    decreases view_nodes(nodes@),
{
    let ghost orig = nodes@;
    let ghost p = strings_view(path@);
    let ghost es = entries_of(pkgs@);
    let mut rest = nodes;
    let mut out: Vec<Node> = Vec::new();
    let mut done = false;
    let ghost mut i: int = 0;
    proof {
        assert(orig.subrange(0, 0) =~= Seq::<Node>::empty());
        assert(orig.subrange(0, orig.len() as int) =~= orig);
    }
    while rest.len() > 0
        invariant
            0 <= i <= orig.len(),
            orig == nodes@,
            rest@ == orig.subrange(i, orig.len() as int),
            p == strings_view(path@),
            es == entries_of(pkgs@),
            (view_nodes(out@), done) == insert_first(
                view_nodes(orig.subrange(0, i)),
                p,
                cat.name@,
                cat.path_view(),
                es,
            ),
        decreases rest@.len(),
    {
        let node = rest.remove(0);
        let ghost v = view_node(node);
        let ghost pre = orig.subrange(0, i);
        proof {
            assert(node == orig[i]);
            let post = orig.subrange(0, i + 1);
            assert(post =~= pre.push(node));
            lemma_view_nodes_push(pre, node);
            assert(view_nodes(post).drop_last() =~= view_nodes(pre));
            assert(view_nodes(post).last() == v);
            assert(rest@ =~= orig.subrange(i + 1, orig.len() as int));
        }
        let ghost prev = out@;
        if done {
            out.push(node);
            proof {
                lemma_view_nodes_push(prev, node);
            }
        } else if is_target_name(&node.name, path, cat) {
            let level = indent_width_of(&node.leading) / 4 + 1;
            let Node { name, args, leading, children, syntax } = node;
            let mut kids = match children {
                Some(c) => c,
                None => Vec::new(),
            };
            let ghost kids0 = kids@;
            proof {
                assert(view_nodes(kids0) == children_or_empty(v)) by {
                    if children is None {
                        assert(kids0 =~= Seq::<Node>::empty());
                    }
                }
            }
            push_package_nodes(&mut kids, pkgs, level);
            let new_node = Node { name, args, leading, children: Some(kids), syntax };
            out.push(new_node);
            done = true;
            proof {
                lemma_view_nodes_push(prev, new_node);
                assert(view_node(new_node) == NodeView {
                    children: Some(children_or_empty(v) + added_views(es, child_level(v))),
                    ..v
                });
            }
        } else {
            let cp = child_path_of(&node.name, path);
            let Node { name, args, leading, children, syntax } = node;
            match children {
                Some(c) => {
                    proof {
                        lemma_view_nodes(orig);
                        let vs = view_nodes(orig);
                        assert(vs[i] == v);
                        assert(decreases_to!(vs => vs[i]));
                        assert(decreases_to!(v => v.children));
                        assert(v.children == Some(view_nodes(c@)));
                        assert(decreases_to!(vs => view_nodes(c@)));
                    }
                    let (c2, found) = insert_in(c, &cp, cat, pkgs);
                    let new_node = Node { name, args, leading, children: Some(c2), syntax };
                    out.push(new_node);
                    done = found;
                    proof {
                        lemma_view_nodes_push(prev, new_node);
                    }
                },
                None => {
                    let new_node = Node { name, args, leading, children: None, syntax };
                    out.push(new_node);
                    proof {
                        lemma_view_nodes_push(prev, new_node);
                        assert(view_node(new_node) == v);
                    }
                },
            }
        }
        proof {
            i = i + 1;
        }
    }
    proof {
        assert(orig.subrange(0, i) =~= orig);
    }
    (out, done)
}

pub open spec fn at_most_two(n: nat) -> nat {
    if n > 2 {
        2
    } else {
        n
    }
}

/// How many nodes of `nodes` are the target category, counted up to two.
fn count_in(nodes: &Vec<Node>, path: &Vec<String>, cat: &Category) -> (r: usize)
    ensures
        r as nat == at_most_two(
            count_targets(view_nodes(nodes@), strings_view(path@), cat.name@, cat.path_view()),
        ),
    decreases view_nodes(nodes@),
{
    let ghost p = strings_view(path@);
    let mut acc: usize = 0;
    let mut i: usize = 0;
    proof {
        assert(nodes@.subrange(0, 0) =~= Seq::<Node>::empty());
    }
    while i < nodes.len()
        invariant
            i <= nodes@.len(),
            p == strings_view(path@),
            acc as nat == at_most_two(
                count_targets(view_nodes(nodes@.subrange(0, i as int)), p, cat.name@, cat.path_view()),
            ),
        decreases nodes@.len() - i,
    {
        let node = &nodes[i];
        let ghost v = view_node(*node);
        let ghost pre = nodes@.subrange(0, i as int);
        proof {
            let post = nodes@.subrange(0, i + 1);
            assert(post =~= pre.push(*node));
            lemma_view_nodes_push(pre, *node);
            assert(view_nodes(post).drop_last() =~= view_nodes(pre));
            assert(view_nodes(post).last() == v);
        }
        let own: usize = if is_target_name(&node.name, path, cat) {
            1
        } else {
            0
        };
        let sub: usize = match &node.children {
            Some(c) => {
                let cp = child_path_of(&node.name, path);
                proof {
                    lemma_view_nodes(nodes@);
                    let vs = view_nodes(nodes@);
                    assert(vs[i as int] == v);
                    assert(decreases_to!(vs => vs[i as int]));
                    assert(decreases_to!(v => v.children));
                    assert(v.children == Some(view_nodes(c@)));
                    assert(decreases_to!(v.children => v.children->0));
                    assert(decreases_to!(vs => view_nodes(c@)));
                }
                count_in(c, &cp, cat)
            },
            None => 0,
        };
        let total = acc + own + sub;
        acc = if total > 2 {
            2
        } else {
            total
        };
        i = i + 1;
    }
    proof {
        assert(nodes@.subrange(0, nodes@.len() as int) =~= nodes@);
    }
    acc
}

/// Where an insertion went: to the only place where the category stands, or
/// to the first of several (which callers should warn about).
#[derive(PartialEq, Eq, Structural, Clone, Copy, Debug)]
pub enum Placement {
    Unique,
    Ambiguous,
}

/// Why an edit was refused.
#[derive(PartialEq, Eq, Structural, Clone, Copy, Debug)]
pub enum EditError {
    /// No category of the documents matches the one asked for.
    NoSuchCategory,
}

/// Appends one node per package to the children of the category `category`,
/// looking through all documents in order, depth first, and tracking the
/// enclosing categories of each node. A category matches when its name is
/// `category.name` and, unless `category.path` is empty, the categories that
/// enclose it are `category.path`. Only the first match receives the
/// packages, as children one indentation level deeper than it; when several
/// match the result says so. When none matches nothing changes and the
/// result is `NoSuchCategory`.
pub fn add_pkgs(docs: &mut Vec<Document>, category: &Category, pkgs: &Vec<Package>) -> (r: Result<
    Placement,
    EditError,
>)
    ensures
        (r is Err) == (count_in_docs(view_docs(old(docs)@), category.name@, category.path_view())
            == 0),
        r is Err ==> r == Err::<Placement, EditError>(EditError::NoSuchCategory) && final(docs)@
            == old(docs)@,
        r is Ok ==> view_docs(final(docs)@) == insert_in_docs(
            view_docs(old(docs)@),
            category.name@,
            category.path_view(),
            entries_of(pkgs@),
        ).0,
        r == Ok::<Placement, EditError>(Placement::Unique) <==> count_in_docs(
            view_docs(old(docs)@),
            category.name@,
            category.path_view(),
        ) == 1,
        r == Ok::<Placement, EditError>(Placement::Ambiguous) <==> count_in_docs(
            view_docs(old(docs)@),
            category.name@,
            category.path_view(),
        ) >= 2,
{
    let ghost orig = docs@;
    let ghost cname = category.name@;
    let ghost cpath = category.path_view();
    let root: Vec<String> = Vec::new();
    proof {
        assert(strings_view(root@) =~= Seq::<Seq<char>>::empty());
    }
    let mut found: usize = 0;
    let mut i: usize = 0;
    proof {
        assert(view_docs(orig.subrange(0, 0)) =~= Seq::<DocView>::empty());
    }
    while i < docs.len()
        invariant
            i <= docs@.len(),
            docs@ == orig,
            cname == category.name@,
            cpath == category.path_view(),
            strings_view(root@) == Seq::<Seq<char>>::empty(),
            found as nat == at_most_two(count_in_docs(view_docs(orig.subrange(0, i as int)), cname, cpath)),
        decreases docs@.len() - i,
    {
        let n = count_in(&docs[i].nodes, &root, category);
        proof {
            let pre = orig.subrange(0, i as int);
            assert(orig.subrange(0, i + 1) =~= pre.push(orig[i as int]));
            lemma_view_docs_push(pre, orig[i as int]);
            let post = view_docs(orig.subrange(0, i + 1));
            assert(post.drop_last() =~= view_docs(pre));
            assert(post.last().nodes == view_nodes(orig[i as int].nodes@));
            assert(n as nat == at_most_two(
                count_targets(view_nodes(orig[i as int].nodes@), Seq::<Seq<char>>::empty(), cname, cpath),
            ));
            assert(count_in_docs(post, cname, cpath) == count_in_docs(view_docs(pre), cname, cpath)
                + count_targets(view_nodes(orig[i as int].nodes@), Seq::<Seq<char>>::empty(), cname, cpath));
        }
        let total = found + n;
        found = if total > 2 {
            2
        } else {
            total
        };
        i = i + 1;
    }
    proof {
        assert(orig.subrange(0, orig.len() as int) =~= orig);
    }
    if found == 0 {
        return Err(EditError::NoSuchCategory);
    }
    let mut rest: Vec<Document> = Vec::new();
    std::mem::swap(&mut rest, docs);
    let mut out: Vec<Document> = Vec::new();
    let mut done = false;
    let ghost mut k: int = 0;
    proof {
        assert(rest@ == orig);
        assert(orig.subrange(0, 0) =~= Seq::<Document>::empty());
        assert(view_docs(out@) =~= Seq::<DocView>::empty());
        assert(orig.subrange(0, orig.len() as int) =~= orig);
    }
    while rest.len() > 0
        invariant
            0 <= k <= orig.len(),
            rest@ == orig.subrange(k, orig.len() as int),
            cname == category.name@,
            cpath == category.path_view(),
            strings_view(root@) == Seq::<Seq<char>>::empty(),
            (view_docs(out@), done) == insert_in_docs(
                view_docs(orig.subrange(0, k)),
                cname,
                cpath,
                entries_of(pkgs@),
            ),
        decreases rest@.len(),
    {
        let doc = rest.remove(0);
        let ghost prev = out@;
        let ghost dv = view_doc(doc);
        proof {
            assert(doc == orig[k]);
            let post = orig.subrange(0, k + 1);
            assert(post =~= orig.subrange(0, k).push(doc));
            lemma_view_docs_push(orig.subrange(0, k), doc);
            assert(view_docs(post).drop_last() =~= view_docs(orig.subrange(0, k)));
            assert(view_docs(post).last() == view_doc(doc));
            assert(rest@ =~= orig.subrange(k + 1, orig.len() as int));
        }
        if done {
            out.push(doc);
            proof {
                lemma_view_docs_push(prev, doc);
            }
        } else {
            let Document { path, nodes, syntax } = doc;
            let (nodes2, d) = insert_in(nodes, &root, category, pkgs);
            let new_doc = Document { path, nodes: nodes2, syntax };
            out.push(new_doc);
            done = d;
            proof {
                lemma_view_docs_push(prev, new_doc);
                assert(view_doc(new_doc) == DocView { nodes: view_nodes(nodes2@), ..dv });
                assert(dv.nodes == view_nodes(nodes@));
            }
        }
        proof {
            k = k + 1;
        }
    }
    proof {
        assert(orig.subrange(0, k) =~= orig);
    }
    *docs = out;
    if found >= 2 {
        Ok(Placement::Ambiguous)
    } else {
        Ok(Placement::Unique)
    }
}

/// How `remove_pkgs` takes a package out of the documents.
#[derive(PartialEq, Eq, Structural, Clone, Copy, Debug)]
pub enum RemoveMode {
    /// The node is removed from its parent.
    Delete,
    /// The node stays, marked inert by a slash-dash before its name.
    Comment,
}

/// The marker that makes a node inert.
pub open spec fn comment_marker() -> Seq<char> {
    seq!['/', '-', ' ']
}

/// Whether `v` is a package node for one of `pkgs`.
pub open spec fn names_package(v: NodeView, pkgs: Seq<PackageId>) -> bool {
    kind_of(v.name) == NodeKind::Package && contains_same(pkgs, ref_id(v.name))
}

/// A forest with the package nodes for `pkgs` taken out as `mode` says, at
/// every depth.
pub open spec fn removed(s: Seq<NodeView>, pkgs: Seq<PackageId>, mode: RemoveMode) -> Seq<
    NodeView,
>
    decreases s,
{
    if s.len() == 0 {
        Seq::<NodeView>::empty()
    } else {
        let v = s.last();
        let pre = removed(s.drop_last(), pkgs, mode);
        if names_package(v, pkgs) && mode == RemoveMode::Delete {
            pre
        } else {
            pre.push(
                NodeView {
                    leading: if names_package(v, pkgs) {
                        v.leading + comment_marker()
                    } else {
                        v.leading
                    },
                    children: match v.children {
                        Some(c) => Some(removed(c, pkgs, mode)),
                        None => None,
                    },
                    ..v
                },
            )
        }
    }
}

/// The documents with the package nodes for `pkgs` taken out.
pub open spec fn removed_in_docs(docs: Seq<DocView>, pkgs: Seq<PackageId>, mode: RemoveMode) -> Seq<
    DocView,
> {
    docs.map_values(|d: DocView| DocView { nodes: removed(d.nodes, pkgs, mode), ..d })
}

/// Whether the node named `name` is a package node for one of `pkgs`.
fn is_package_for(name: &String, pkgs: &Vec<Package>) -> (r: bool)
    ensures
        forall|v: NodeView| v.name == name@ ==> r == names_package(v, ids(pkgs@)),
{
    if node_kind(name.as_str()) != NodeKind::Package {
        return false;
    }
    let p = Package::from_str(name.as_str());
    contains_package(pkgs, &p)
}

/// Takes the package nodes for `pkgs` out of `nodes`, at every depth.
fn remove_in(nodes: Vec<Node>, pkgs: &Vec<Package>, mode: RemoveMode) -> (r: Vec<Node>)
    ensures
        view_nodes(r@) == removed(view_nodes(nodes@), ids(pkgs@), mode),
    decreases view_nodes(nodes@),
{
    let ghost orig = nodes@;
    let ghost ps = ids(pkgs@);
    let mut rest = nodes;
    let mut out: Vec<Node> = Vec::new();
    let ghost mut i: int = 0;
    proof {
        assert(orig.subrange(0, 0) =~= Seq::<Node>::empty());
        assert(orig.subrange(0, orig.len() as int) =~= orig);
    }
    while rest.len() > 0
        invariant
            0 <= i <= orig.len(),
            orig == nodes@,
            ps == ids(pkgs@),
            rest@ == orig.subrange(i, orig.len() as int),
            view_nodes(out@) == removed(view_nodes(orig.subrange(0, i)), ps, mode),
        decreases rest@.len(),
    {
        let node = rest.remove(0);
        let ghost v = view_node(node);
        let ghost pre = orig.subrange(0, i);
        proof {
            assert(node == orig[i]);
            let post = orig.subrange(0, i + 1);
            assert(post =~= pre.push(node));
            lemma_view_nodes_push(pre, node);
            assert(view_nodes(post).drop_last() =~= view_nodes(pre));
            assert(view_nodes(post).last() == v);
            assert(rest@ =~= orig.subrange(i + 1, orig.len() as int));
        }
        let ghost prev = out@;
        let hit = is_package_for(&node.name, pkgs);
        proof {
            assert(hit == names_package(v, ps));
        }
        if !(hit && mode == RemoveMode::Delete) {
            let Node { name, args, mut leading, children, syntax } = node;
            if hit {
                leading.append("/- ");
                proof {
                    reveal_strlit("/- ");
                }
            }
            let kids = match children {
                Some(c) => {
                    proof {
                        lemma_view_nodes(orig);
                        let vs = view_nodes(orig);
                        assert(vs[i] == v);
                        assert(decreases_to!(vs => vs[i]));
                        assert(decreases_to!(v => v.children));
                        assert(v.children == Some(view_nodes(c@)));
                        assert(decreases_to!(v.children => v.children->0));
                        assert(decreases_to!(vs => view_nodes(c@)));
                    }
                    Some(remove_in(c, pkgs, mode))
                },
                None => None,
            };
            let new_node = Node { name, args, leading, children: kids, syntax };
            out.push(new_node);
            proof {
                lemma_view_nodes_push(prev, new_node);
                assert(view_node(new_node).leading == (if names_package(v, ps) {
                    v.leading + comment_marker()
                } else {
                    v.leading
                }));
            }
        }
        proof {
            i = i + 1;
        }
    }
    proof {
        assert(orig.subrange(0, i) =~= orig);
    }
    out
}

/// Takes every package node for one of `pkgs` out of the documents, at every
/// depth: in `Delete` mode the node leaves its parent; in `Comment` mode it
/// stays with a slash-dash marker appended to its leading text, which makes
/// it inert. Other nodes, and their formatting, are left as they are.
pub fn remove_pkgs(docs: &mut Vec<Document>, pkgs: &Vec<Package>, mode: RemoveMode)
    ensures
        view_docs(final(docs)@) == removed_in_docs(view_docs(old(docs)@), ids(pkgs@), mode),
{
    let ghost orig = docs@;
    let mut rest: Vec<Document> = Vec::new();
    std::mem::swap(&mut rest, docs);
    let mut out: Vec<Document> = Vec::new();
    let ghost mut k: int = 0;
    proof {
        assert(orig.subrange(0, orig.len() as int) =~= orig);
        assert(view_docs(out@) =~= removed_in_docs(
            view_docs(orig.subrange(0, 0)),
            ids(pkgs@),
            mode,
        ));
    }
    while rest.len() > 0
        invariant
            0 <= k <= orig.len(),
            rest@ == orig.subrange(k, orig.len() as int),
            view_docs(out@) == removed_in_docs(view_docs(orig.subrange(0, k)), ids(pkgs@), mode),
        decreases rest@.len(),
    {
        let doc = rest.remove(0);
        let ghost prev = out@;
        proof {
            assert(doc == orig[k]);
            assert(rest@ =~= orig.subrange(k + 1, orig.len() as int));
        }
        let Document { path, nodes, syntax } = doc;
        let nodes2 = remove_in(nodes, pkgs, mode);
        let new_doc = Document { path, nodes: nodes2, syntax };
        out.push(new_doc);
        proof {
            lemma_view_docs_push(prev, new_doc);
            lemma_view_docs_push(orig.subrange(0, k), doc);
            assert(orig.subrange(0, k + 1) =~= orig.subrange(0, k).push(doc));
            assert(view_docs(out@) =~= removed_in_docs(
                view_docs(orig.subrange(0, k + 1)),
                ids(pkgs@),
                mode,
            ));
            k = k + 1;
        }
    }
    proof {
        assert(orig.subrange(0, k) =~= orig);
    }
    *docs = out;
}

/// Brings the declaration in line with the installed packages, as
/// `generate` does once confirmed: the declared packages that are not
/// installed are commented out, then the installed ones that are not declared
/// go to the default category. Either step is skipped when it has nothing to
/// do.
pub fn generate_changes(
    docs: &mut Vec<Document>,
    to_add: &Vec<Package>,
    to_remove: &Vec<Package>,
    default_category: &Category,
) -> (r: Result<Placement, EditError>)
    ensures
        ({
            let after_remove = if to_remove@.len() == 0 {
                view_docs(old(docs)@)
            } else {
                removed_in_docs(view_docs(old(docs)@), ids(to_remove@), RemoveMode::Comment)
            };
            let n = count_in_docs(after_remove, default_category.name@, default_category.path_view());
            &&& to_add@.len() == 0 ==> r == Ok::<Placement, EditError>(Placement::Unique)
                && view_docs(final(docs)@) == after_remove
            &&& to_add@.len() > 0 ==> {
                &&& (r is Err) == (n == 0)
                &&& r is Err ==> r == Err::<Placement, EditError>(EditError::NoSuchCategory)
                    && view_docs(final(docs)@) == after_remove
                &&& r is Ok ==> view_docs(final(docs)@) == insert_in_docs(
                    after_remove,
                    default_category.name@,
                    default_category.path_view(),
                    entries_of(to_add@),
                ).0
                &&& (r == Ok::<Placement, EditError>(Placement::Unique)) == (n == 1)
                &&& (r == Ok::<Placement, EditError>(Placement::Ambiguous)) == (n >= 2)
            }
        }),
{
    if to_remove.len() > 0 {
        remove_pkgs(docs, to_remove, RemoveMode::Comment);
    }
    if to_add.len() > 0 {
        add_pkgs(docs, default_category, to_add)
    } else {
        Ok(Placement::Unique)
    }
}

/// How many nodes a forest holds, at every depth.
pub open spec fn node_count(s: Seq<NodeView>) -> nat
    decreases s,
{
    if s.len() == 0 {
        0
    } else {
        let v = s.last();
        node_count(s.drop_last()) + 1 + match v.children {
            Some(c) => node_count(c),
            None => 0,
        }
    }
}

/// How many nodes deleting the package nodes for `pkgs` takes away: each
/// such node with everything under it.
pub open spec fn deleted_count(s: Seq<NodeView>, pkgs: Seq<PackageId>) -> nat
    decreases s,
{
    if s.len() == 0 {
        0
    } else {
        let v = s.last();
        deleted_count(s.drop_last(), pkgs) + if names_package(v, pkgs) {
            1 + match v.children {
                Some(c) => node_count(c),
                None => 0,
            }
        } else {
            match v.children {
                Some(c) => deleted_count(c, pkgs),
                None => 0,
            }
        }
    }
}

/// No node of the forest, at any depth, is a package node for `pkgs`.
pub open spec fn free_of(s: Seq<NodeView>, pkgs: Seq<PackageId>) -> bool
    decreases s,
{
    if s.len() == 0 {
        true
    } else {
        let v = s.last();
        free_of(s.drop_last(), pkgs) && !names_package(v, pkgs) && match v.children {
            Some(c) => free_of(c, pkgs),
            None => true,
        }
    }
}

/// Commenting packages out keeps every node: the forest holds as many nodes
/// as before.
pub proof fn lemma_comment_keeps_node_count(s: Seq<NodeView>, pkgs: Seq<PackageId>)
    ensures
        node_count(removed(s, pkgs, RemoveMode::Comment)) == node_count(s),
    decreases s,
{
    if s.len() > 0 {
        let v = s.last();
        let pre = removed(s.drop_last(), pkgs, RemoveMode::Comment);
        lemma_comment_keeps_node_count(s.drop_last(), pkgs);
        match v.children {
            Some(c) => {
                assert(decreases_to!(s => s[s.len() - 1]));
                lemma_comment_keeps_node_count(c, pkgs);
            },
            None => {},
        }
        let r = removed(s, pkgs, RemoveMode::Comment);
        assert(r.drop_last() =~= pre);
    }
}

/// Deleting packages takes away exactly the package nodes for them (with
/// what stands under them) and no other node: none is left, and the count
/// drops by the deleted nodes alone.
pub proof fn lemma_delete_removes_exactly(s: Seq<NodeView>, pkgs: Seq<PackageId>)
    ensures
        free_of(removed(s, pkgs, RemoveMode::Delete), pkgs),
        node_count(removed(s, pkgs, RemoveMode::Delete)) + deleted_count(s, pkgs) == node_count(s),
    decreases s,
{
    if s.len() > 0 {
        let v = s.last();
        let pre = removed(s.drop_last(), pkgs, RemoveMode::Delete);
        lemma_delete_removes_exactly(s.drop_last(), pkgs);
        match v.children {
            Some(c) => {
                assert(decreases_to!(s => s[s.len() - 1]));
                lemma_delete_removes_exactly(c, pkgs);
            },
            None => {},
        }
        let r = removed(s, pkgs, RemoveMode::Delete);
        if !names_package(v, pkgs) {
            assert(r.drop_last() =~= pre);
        }
    }
}

/// The parts of a node that hold its formatting and identity.
pub open spec fn same_but_children(a: NodeView, b: NodeView) -> bool {
    a.name == b.name && a.args == b.args && a.leading == b.leading && a.syntax == b.syntax
}

/// Inserting packages keeps every node that was there, with its name,
/// arguments, leading text and syntax, in its place; only the children of
/// the target category (and of the nodes above it) change.
pub proof fn lemma_insert_keeps_formatting(
    s: Seq<NodeView>,
    path: Seq<Seq<char>>,
    cname: Seq<char>,
    cpath: Seq<Seq<char>>,
    pkgs: Seq<PackageEntry>,
)
    ensures
        insert_first(s, path, cname, cpath, pkgs).0.len() == s.len(),
        forall|i: int|
            0 <= i < s.len() ==> same_but_children(
                #[trigger] insert_first(s, path, cname, cpath, pkgs).0[i],
                s[i],
            ),
    decreases s.len(),
{
    if s.len() > 0 {
        lemma_insert_keeps_formatting(s.drop_last(), path, cname, cpath, pkgs);
        let r = insert_first(s, path, cname, cpath, pkgs).0;
        let pre = insert_first(s.drop_last(), path, cname, cpath, pkgs).0;
        assert forall|i: int| 0 <= i < s.len() implies same_but_children(
            #[trigger] insert_first(s, path, cname, cpath, pkgs).0[i],
            s[i],
        ) by {
            if i < s.len() - 1 {
                assert(r[i] == pre[i]);
                assert(s[i] == s.drop_last()[i]);
            }
        }
    }
}

/// At the level of documents: inserting packages keeps every document, with
/// its path and frame, and every top-level node with its name, arguments,
/// leading text and syntax.
pub proof fn lemma_insert_in_docs_keeps_formatting(
    docs: Seq<DocView>,
    cname: Seq<char>,
    cpath: Seq<Seq<char>>,
    pkgs: Seq<PackageEntry>,
)
    ensures
        insert_in_docs(docs, cname, cpath, pkgs).0.len() == docs.len(),
        forall|i: int|
            0 <= i < docs.len() ==> {
                let d2 = #[trigger] insert_in_docs(docs, cname, cpath, pkgs).0[i];
                &&& d2.path == docs[i].path
                &&& d2.syntax == docs[i].syntax
                &&& d2.nodes.len() == docs[i].nodes.len()
                &&& forall|k: int|
                    0 <= k < docs[i].nodes.len() ==> same_but_children(
                        #[trigger] d2.nodes[k],
                        docs[i].nodes[k],
                    )
            },
    decreases docs.len(),
{
    if docs.len() > 0 {
        lemma_insert_in_docs_keeps_formatting(docs.drop_last(), cname, cpath, pkgs);
        let d = docs.last();
        lemma_insert_keeps_formatting(d.nodes, Seq::<Seq<char>>::empty(), cname, cpath, pkgs);
        let r = insert_in_docs(docs, cname, cpath, pkgs).0;
        let pre = insert_in_docs(docs.drop_last(), cname, cpath, pkgs).0;
        assert forall|i: int| 0 <= i < docs.len() implies {
            let d2 = #[trigger] insert_in_docs(docs, cname, cpath, pkgs).0[i];
            &&& d2.path == docs[i].path
            &&& d2.syntax == docs[i].syntax
            &&& d2.nodes.len() == docs[i].nodes.len()
            &&& forall|k: int|
                0 <= k < docs[i].nodes.len() ==> same_but_children(
                    #[trigger] d2.nodes[k],
                    docs[i].nodes[k],
                )
        } by {
            if i < docs.len() - 1 {
                assert(r[i] == pre[i]);
                assert(docs[i] == docs.drop_last()[i]);
            }
        }
    }
}

/// An insertion places the packages exactly when the target category stands
/// somewhere in the forest.
pub proof fn lemma_insert_places_iff_present(
    s: Seq<NodeView>,
    path: Seq<Seq<char>>,
    cname: Seq<char>,
    cpath: Seq<Seq<char>>,
    pkgs: Seq<PackageEntry>,
)
    ensures
        insert_first(s, path, cname, cpath, pkgs).1 <==> count_targets(s, path, cname, cpath) > 0,
    decreases s,
{
    if s.len() > 0 {
        lemma_insert_places_iff_present(s.drop_last(), path, cname, cpath, pkgs);
        let v = s.last();
        match v.children {
            Some(c) => {
                assert(decreases_to!(s => s[s.len() - 1]));
                lemma_insert_places_iff_present(c, child_path(v, path), cname, cpath, pkgs);
            },
            None => {},
        }
    }
}

/// At the level of documents: the packages are placed exactly when the
/// category stands in some document.
pub proof fn lemma_insert_in_docs_places_iff_present(
    docs: Seq<DocView>,
    cname: Seq<char>,
    cpath: Seq<Seq<char>>,
    pkgs: Seq<PackageEntry>,
)
    ensures
        insert_in_docs(docs, cname, cpath, pkgs).1 <==> count_in_docs(docs, cname, cpath) > 0,
    decreases docs.len(),
{
    if docs.len() > 0 {
        lemma_insert_in_docs_places_iff_present(docs.drop_last(), cname, cpath, pkgs);
        lemma_insert_places_iff_present(
            docs.last().nodes,
            Seq::<Seq<char>>::empty(),
            cname,
            cpath,
            pkgs,
        );
    }
}

} // verus!
