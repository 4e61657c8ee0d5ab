use vstd::prelude::*;

use crate::edit::child_path;
use crate::package::{copy_strings, same_strings, strings_view, Category};
use crate::tree::{
    category_name_of, kind_of, lemma_view_docs_push, lemma_view_nodes, lemma_view_nodes_push,
    view_docs, view_node, view_nodes, DocView, Document, Node, NodeKind, NodeView,
};

verus! {

/// A category's identity: its name and the names of the categories that
/// enclose it.
pub type CategoryId = (Seq<char>, Seq<Seq<char>>);

impl Category {
    pub open spec fn id(&self) -> CategoryId {
        (self.name@, self.path_view())
    }
}

pub open spec fn category_ids(s: Seq<Category>) -> Seq<CategoryId> {
    s.map_values(|c: Category| c.id())
}

/// The categories of a forest whose nodes stand under the categories `path`,
/// in depth-first order, each with its own path.
pub open spec fn categories_in(s: Seq<NodeView>, path: Seq<Seq<char>>) -> Seq<CategoryId>
    decreases s,
{
    if s.len() == 0 {
        Seq::<CategoryId>::empty()
    } else {
        let v = s.last();
        categories_in(s.drop_last(), path) + (if kind_of(v.name) == NodeKind::Category {
            seq![(category_name_of(v.name), path)]
        } else {
            Seq::<CategoryId>::empty()
        }) + match v.children {
            Some(c) => categories_in(c, child_path(v, path)),
            None => Seq::<CategoryId>::empty(),
        }
    }
}

/// The categories of some documents, in order.
pub open spec fn categories_in_docs(docs: Seq<DocView>) -> Seq<CategoryId>
    decreases docs.len(),
{
    if docs.len() == 0 {
        Seq::<CategoryId>::empty()
    } else {
        categories_in_docs(docs.drop_last()) + categories_in(
            docs.last().nodes,
            Seq::<Seq<char>>::empty(),
        )
    }
}

/// The first occurrence of each category of `s`, in order.
pub open spec fn unique_categories(s: Seq<CategoryId>) -> Seq<CategoryId>
    decreases s.len(),
{
    if s.len() == 0 {
        Seq::<CategoryId>::empty()
    } else {
        let d = unique_categories(s.drop_last());
        if d.contains(s.last()) {
            d
        } else {
            d.push(s.last())
        }
    }
}

/// Appends to `out` the categories of `nodes`, which stand under `path`.
fn collect_in(nodes: &Vec<Node>, path: &Vec<String>, out: &mut Vec<Category>)
    ensures
        category_ids(final(out)@) == category_ids(old(out)@) + categories_in(
            view_nodes(nodes@),
            strings_view(path@),
        ),
    decreases view_nodes(nodes@),
{
    let ghost p = strings_view(path@);
    let ghost start = category_ids(out@);
    let mut i: usize = 0;
    proof {
        assert(nodes@.subrange(0, 0) =~= Seq::<Node>::empty());
        assert(start + categories_in(view_nodes(nodes@.subrange(0, 0)), p) =~= start);
    }
    while i < nodes.len()
        invariant
            i <= nodes@.len(),
            p == strings_view(path@),
            category_ids(out@) == start + categories_in(view_nodes(nodes@.subrange(0, i as int)), p),
        decreases nodes@.len() - i,
    {
        let node = &nodes[i];
        let ghost v = view_node(*node);
        let ghost pre = nodes@.subrange(0, i as int);
        let ghost before = category_ids(out@);
        proof {
            let post = nodes@.subrange(0, i + 1);
            assert(post =~= pre.push(*node));
            lemma_view_nodes_push(pre, *node);
            assert(view_nodes(post).drop_last() =~= view_nodes(pre));
            assert(view_nodes(post).last() == v);
        }
        let is_cat = crate::tree::node_kind(node.name.as_str()) == NodeKind::Category;
        let mut cp = copy_strings(path);
        if is_cat {
            let name = String::from_str(node.name.as_str().substring_char(4, node.name.unicode_len()));
            let cat = Category { name: name.clone(), path: copy_strings(path) };
            out.push(cat);
            let ghost prev_cp = cp@;
            cp.push(name);
            proof {
                assert(category_ids(out@) =~= before.push((category_name_of(v.name), p)));
                assert(strings_view(cp@) =~= strings_view(prev_cp).push(category_name_of(v.name)));
            }
        }
        let ghost mid = category_ids(out@);
        proof {
            assert(strings_view(cp@) == child_path(v, p));
        }
        match &node.children {
            Some(c) => {
                proof {
                    lemma_view_nodes(nodes@);
                    let vs = view_nodes(nodes@);
                    assert(vs[i as int] == v);
                    assert(decreases_to!(vs => vs[i as int]));
                    assert(decreases_to!(v => v.children));
                    assert(v.children == Some(view_nodes(c@)));
                    assert(decreases_to!(v.children => v.children->0));
                    assert(decreases_to!(vs => view_nodes(c@)));
                }
                collect_in(c, &cp, out);
            },
            None => {},
        }
        proof {
            let own = if kind_of(v.name) == NodeKind::Category {
                seq![(category_name_of(v.name), p)]
            } else {
                Seq::<CategoryId>::empty()
            };
            assert(mid =~= before + own);
        }
        i = i + 1;
    }
    proof {
        assert(nodes@.subrange(0, nodes@.len() as int) =~= nodes@);
    }
}

/// Whether `s` holds a category equal to `c`.
fn contains_category(s: &Vec<Category>, c: &Category) -> (r: bool)
    ensures
        r == category_ids(s@).contains(c.id()),
{
    let mut i: usize = 0;
    while i < s.len()
        invariant
            i <= s@.len(),
            forall|k: int| 0 <= k < i ==> category_ids(s@)[k] != c.id(),
        decreases s@.len() - i,
    {
        if s[i].name == c.name && same_strings(&s[i].path, &c.path) {
            proof {
                assert(category_ids(s@)[i as int] == c.id());
            }
            return true;
        }
        i = i + 1;
    }
    false
}

/// Every category of the documents, each once, in the order in which the
/// documents first name it; each carries the names of the categories that
/// enclose it.
pub fn collect_categories(documents: &Vec<Document>) -> (r: Vec<Category>)
    ensures
        category_ids(r@) == unique_categories(categories_in_docs(view_docs(documents@))),
{
    let root: Vec<String> = Vec::new();
    let mut all: Vec<Category> = Vec::new();
    let mut i: usize = 0;
    proof {
        assert(strings_view(root@) =~= Seq::<Seq<char>>::empty());
        assert(category_ids(all@) =~= Seq::<CategoryId>::empty());
        assert(view_docs(documents@.subrange(0, 0)) =~= Seq::<DocView>::empty());
    }
    while i < documents.len()
        invariant
            i <= documents@.len(),
            strings_view(root@) == Seq::<Seq<char>>::empty(),
            category_ids(all@) == categories_in_docs(view_docs(documents@.subrange(0, i as int))),
        decreases documents@.len() - i,
    {
        collect_in(&documents[i].nodes, &root, &mut all);
        proof {
            let pre = documents@.subrange(0, i as int);
            assert(documents@.subrange(0, i + 1) =~= pre.push(documents@[i as int]));
            lemma_view_docs_push(pre, documents@[i as int]);
            assert(view_docs(documents@.subrange(0, i + 1)).drop_last() =~= view_docs(pre));
        }
        i = i + 1;
    }
    proof {
        assert(documents@.subrange(0, documents@.len() as int) =~= documents@);
    }
    let ghost ids = category_ids(all@);
    let mut r: Vec<Category> = Vec::new();
    let mut j: usize = 0;
    proof {
        assert(category_ids(r@) =~= Seq::<CategoryId>::empty());
        assert(ids.subrange(0, 0) =~= Seq::<CategoryId>::empty());
    }
    while j < all.len()
        invariant
            j <= all@.len(),
            ids == category_ids(all@),
            category_ids(r@) == unique_categories(ids.subrange(0, j as int)),
        decreases all@.len() - j,
    {
        proof {
            let post = ids.subrange(0, j + 1);
            assert(post.drop_last() =~= ids.subrange(0, j as int));
            assert(post.last() == all@[j as int].id());
        }
        if !contains_category(&r, &all[j]) {
            let c = Category { name: all[j].name.clone(), path: copy_strings(&all[j].path) };
            let ghost prev = r@;
            r.push(c);
            proof {
                assert(category_ids(r@) =~= category_ids(prev).push(all@[j as int].id()));
            }
        }
        j = j + 1;
    }
    proof {
        assert(ids.subrange(0, all@.len() as int) =~= ids);
    }
    r
}

/// `s` without the entries equal to `x`.
pub open spec fn without_category(s: Seq<CategoryId>, x: CategoryId) -> Seq<CategoryId>
    decreases s.len(),
{
    if s.len() == 0 {
        s
    } else {
        let d = without_category(s.drop_last(), x);
        if s.last() == x {
            d
        } else {
            d.push(s.last())
        }
    }
}

/// The choices offered when a category is picked: the given order, but with
/// the default category moved to the front when it is among them.
pub fn default_first(categories: &Vec<Category>, default: &Category) -> (r: Vec<Category>)
    ensures
        category_ids(r@) == if category_ids(categories@).contains(default.id()) {
            seq![default.id()] + without_category(category_ids(categories@), default.id())
        } else {
            category_ids(categories@)
        },
{
    let ghost ids = category_ids(categories@);
    let present = contains_category(categories, default);
    let mut r: Vec<Category> = Vec::new();
    if present {
        r.push(Category { name: default.name.clone(), path: copy_strings(&default.path) });
    }
    let ghost head = category_ids(r@);
    let mut j: usize = 0;
    proof {
        assert(ids.subrange(0, 0) =~= Seq::<CategoryId>::empty());
        assert(category_ids(r@) =~= head + without_category(ids.subrange(0, 0), default.id()));
    }
    while j < categories.len()
        invariant
            j <= categories@.len(),
            ids == category_ids(categories@),
            category_ids(r@) == head + (if present {
                without_category(ids.subrange(0, j as int), default.id())
            } else {
                ids.subrange(0, j as int)
            }),
        decreases categories@.len() - j,
    {
        let ghost prev = r@;
        proof {
            let post = ids.subrange(0, j + 1);
            assert(post.drop_last() =~= ids.subrange(0, j as int));
            assert(post.last() == categories@[j as int].id());
        }
        let same = categories[j].name == default.name && same_strings(
            &categories[j].path,
            &default.path,
        );
        if !(present && same) {
            let c = Category {
                name: categories[j].name.clone(),
                path: copy_strings(&categories[j].path),
            };
            r.push(c);
            proof {
                assert(category_ids(r@) =~= category_ids(prev).push(categories@[j as int].id()));
            }
        }
        j = j + 1;
    }
    proof {
        assert(ids.subrange(0, categories@.len() as int) =~= ids);
        if !present {
            assert(head =~= Seq::<CategoryId>::empty());
        }
    }
    r
}

} // verus!
