use vstd::prelude::*;

use crate::log::{log_event, log_installed_name};
use crate::package::{ids, ref_id, same_id, strings_view, Package, PackageId};
use crate::tree::{collect_declared, declared_in_docs, Document};

verus! {

/// Some element of `s` is the same package as `x`.
pub open spec fn contains_same(s: Seq<PackageId>, x: PackageId) -> bool {
    exists|i: int| 0 <= i < s.len() && same_id(s[i], x)
}

/// `s` without the packages that are the same as an earlier one.
pub open spec fn unique_ids(s: Seq<PackageId>) -> Seq<PackageId>
    decreases s.len(),
{
    if s.len() == 0 {
        Seq::<PackageId>::empty()
    } else {
        let d = unique_ids(s.drop_last());
        if contains_same(d, s.last()) {
            d
        } else {
            d.push(s.last())
        }
    }
}

/// The packages of `s` that are the same as none of `other`, in order.
pub open spec fn not_in(s: Seq<PackageId>, other: Seq<PackageId>) -> Seq<PackageId>
    decreases s.len(),
{
    if s.len() == 0 {
        Seq::<PackageId>::empty()
    } else {
        let d = not_in(s.drop_last(), other);
        if contains_same(other, s.last()) {
            d
        } else {
            d.push(s.last())
        }
    }
}

/// The declared package set of some documents, in the order in which the
/// packages are first declared.
pub open spec fn declared_set(docs: Seq<Document>) -> Seq<PackageId> {
    unique_ids(declared_in_docs(docs).map_values(|t: Seq<char>| ref_id(t)))
}

/// Whether some package of `s` is the same as `p`.
pub fn contains_package(s: &Vec<Package>, p: &Package) -> (r: bool)
    ensures
        r == contains_same(ids(s@), p.id()),
{
    let mut i: usize = 0;
    while i < s.len()
        invariant
            i <= s@.len(),
            forall|k: int| 0 <= k < i ==> !same_id(ids(s@)[k], p.id()),
        decreases s@.len() - i,
    {
        if s[i] == *p {
            proof {
                assert(ids(s@)[i as int] == s@[i as int].id());
                assert(same_id(ids(s@)[i as int], p.id()));
            }
            return true;
        }
        i = i + 1;
    }
    false
}

/// The names of the package nodes of all documents, in order.
fn declared_names(documents: &Vec<Document>) -> (r: Vec<String>)
    ensures
        strings_view(r@) == declared_in_docs(documents@),
{
    let mut out: Vec<String> = Vec::new();
    let mut i: usize = 0;
    proof {
        assert(strings_view(out@) =~= Seq::<Seq<char>>::empty());
        assert(documents@.subrange(0, 0) =~= Seq::<Document>::empty());
    }
    while i < documents.len()
        invariant
            i <= documents@.len(),
            strings_view(out@) == declared_in_docs(documents@.subrange(0, i as int)),
        decreases documents@.len() - i,
    {
        collect_declared(&documents[i].nodes, &mut out);
        proof {
            let post = documents@.subrange(0, i + 1);
            assert(post.drop_last() =~= documents@.subrange(0, i as int));
        }
        i = i + 1;
    }
    proof {
        assert(documents@.subrange(0, documents@.len() as int) =~= documents@);
    }
    out
}

/// The declared package set: every package node of every document (include
/// directives and unrecognised nodes are skipped with what stands under
/// them), each
/// package once (a later node that names the same package as an earlier one
/// adds nothing), in declaration order.
pub fn get_declared_pkg_list(documents: &Vec<Document>) -> (r: Vec<Package>)
    ensures
        ids(r@) == declared_set(documents@),
{
    let names = declared_names(documents);
    let ghost texts = declared_in_docs(documents@);
    let ghost all = texts.map_values(|t: Seq<char>| ref_id(t));
    let mut r: Vec<Package> = Vec::new();
    let mut i: usize = 0;
    proof {
        assert(all.subrange(0, 0) =~= Seq::<PackageId>::empty());
        assert(ids(r@) =~= Seq::<PackageId>::empty());
    }
    while i < names.len()
        invariant
            i <= names@.len(),
            strings_view(names@) == texts,
            all == texts.map_values(|t: Seq<char>| ref_id(t)),
            ids(r@) == unique_ids(all.subrange(0, i as int)),
        decreases names@.len() - i,
    {
        let p = Package::from_str(names[i].as_str());
        proof {
            assert(p.id() == all[i as int]);
            let post = all.subrange(0, i + 1);
            assert(post.drop_last() =~= all.subrange(0, i as int));
        }
        if !contains_package(&r, &p) {
            let ghost prev = r@;
            r.push(p);
            proof {
                assert(ids(r@) =~= ids(prev).push(p.id()));
            }
        }
        i = i + 1;
    }
    proof {
        assert(all.subrange(0, names@.len() as int) =~= all);
    }
    r
}

/// The packages of `s` that are the same as none of `other`, in order.
fn missing_from(s: &Vec<Package>, other: &Vec<Package>) -> (r: Vec<Package>)
    ensures
        ids(r@) == not_in(ids(s@), ids(other@)),
{
    let mut r: Vec<Package> = Vec::new();
    let mut i: usize = 0;
    proof {
        assert(ids(s@).subrange(0, 0) =~= Seq::<PackageId>::empty());
        assert(ids(r@) =~= Seq::<PackageId>::empty());
    }
    while i < s.len()
        invariant
            i <= s@.len(),
            ids(r@) == not_in(ids(s@).subrange(0, i as int), ids(other@)),
        decreases s@.len() - i,
    {
        proof {
            let post = ids(s@).subrange(0, i + 1);
            assert(post.drop_last() =~= ids(s@).subrange(0, i as int));
        }
        if !contains_package(other, &s[i]) {
            let p = Package {
                name: s[i].name.clone(),
                repository: s[i].repository.clone(),
                tags: Vec::new(),
            };
            let ghost prev = r@;
            r.push(p);
            proof {
                assert(ids(r@) =~= ids(prev).push(s@[i as int].id()));
            }
        }
        i = i + 1;
    }
    proof {
        assert(ids(s@).subrange(0, s@.len() as int) =~= ids(s@));
    }
    r
}

/// The two-way difference between the installed packages (in install order)
/// and the declared ones: first the installed packages that are not
/// declared, in install order; then the declared packages that are not
/// installed, in declaration order.
pub fn get_pkg_diff(documents: &Vec<Document>, installed: &Vec<Package>) -> (r: (
    Vec<Package>,
    Vec<Package>,
))
    ensures
        ids(r.0@) == not_in(ids(installed@), declared_set(documents@)),
        ids(r.1@) == not_in(declared_set(documents@), ids(installed@)),
{
    let declared = get_declared_pkg_list(documents);
    let to_add = missing_from(installed, &declared);
    let to_remove = missing_from(&declared, installed);
    (to_add, to_remove)
}

/// The explicitly installed names that the log reports installed, one entry
/// per install event, in log order.
pub open spec fn log_events(lines: Seq<Seq<char>>, explicit: Seq<Seq<char>>) -> Seq<Seq<char>>
    decreases lines.len(),
{
    if lines.len() == 0 {
        Seq::<Seq<char>>::empty()
    } else {
        let e = log_events(lines.drop_last(), explicit);
        match log_event(lines.last()) {
            Some(n) => if explicit.contains(n) {
                e.push(n)
            } else {
                e
            },
            None => e,
        }
    }
}

/// The first occurrence of each name of `s`, in order.
pub open spec fn first_occurrences(s: Seq<Seq<char>>) -> Seq<Seq<char>>
    decreases s.len(),
{
    if s.len() == 0 {
        Seq::<Seq<char>>::empty()
    } else {
        let d = first_occurrences(s.drop_last());
        if d.contains(s.last()) {
            d
        } else {
            d.push(s.last())
        }
    }
}

/// The names of `s` that `other` does not hold, in order.
pub open spec fn absent_from(s: Seq<Seq<char>>, other: Seq<Seq<char>>) -> Seq<Seq<char>>
    decreases s.len(),
{
    if s.len() == 0 {
        Seq::<Seq<char>>::empty()
    } else {
        let d = absent_from(s.drop_last(), other);
        if other.contains(s.last()) {
            d
        } else {
            d.push(s.last())
        }
    }
}

/// The explicitly installed names ordered by their first install event:
/// first those that the log never reports (in the order given), then the
/// others in the order of their first install.
pub open spec fn install_order(explicit: Seq<Seq<char>>, lines: Seq<Seq<char>>) -> Seq<Seq<char>> {
    let ev = log_events(lines, explicit);
    first_occurrences(absent_from(explicit, ev)) + first_occurrences(ev)
}

/// Whether `s` holds `x`.
fn contains_name(s: &Vec<String>, x: &String) -> (r: bool)
    ensures
        r == strings_view(s@).contains(x@),
{
    let mut i: usize = 0;
    while i < s.len()
        invariant
            i <= s@.len(),
            forall|k: int| 0 <= k < i ==> strings_view(s@)[k] != x@,
        decreases s@.len() - i,
    {
        if s[i] == *x {
            proof {
                assert(strings_view(s@)[i as int] == x@);
            }
            return true;
        }
        i = i + 1;
    }
    false
}

/// The install events of the log for the explicitly installed names.
fn install_events(explicit: &Vec<String>, log_lines: &Vec<String>) -> (r: Vec<String>)
    ensures
        strings_view(r@) == log_events(strings_view(log_lines@), strings_view(explicit@)),
{
    let ghost lines = strings_view(log_lines@);
    let ghost names = strings_view(explicit@);
    let mut r: Vec<String> = Vec::new();
    let mut i: usize = 0;
    proof {
        assert(lines.subrange(0, 0) =~= Seq::<Seq<char>>::empty());
        assert(strings_view(r@) =~= Seq::<Seq<char>>::empty());
    }
    while i < log_lines.len()
        invariant
            i <= log_lines@.len(),
            lines == strings_view(log_lines@),
            names == strings_view(explicit@),
            strings_view(r@) == log_events(lines.subrange(0, i as int), names),
        decreases log_lines@.len() - i,
    {
        proof {
            let post = lines.subrange(0, i + 1);
            assert(post.drop_last() =~= lines.subrange(0, i as int));
            assert(post.last() == log_lines@[i as int]@);
        }
        match log_installed_name(log_lines[i].as_str()) {
            Some(n) => {
                if contains_name(explicit, &n) {
                    let ghost prev = r@;
                    r.push(n);
                    proof {
                        assert(strings_view(r@) =~= strings_view(prev).push(n@));
                    }
                }
            },
            None => {},
        }
        i = i + 1;
    }
    proof {
        assert(lines.subrange(0, log_lines@.len() as int) =~= lines);
    }
    r
}

/// Appends to `out` the names of `s` that `other` does not hold and `out`
/// does not hold yet, in order.
fn append_new_names(s: &Vec<String>, other: &Vec<String>, out: &mut Vec<String>)
    requires
        strings_view(old(out)@) == first_occurrences(Seq::<Seq<char>>::empty()),
    ensures
        strings_view(final(out)@) == first_occurrences(
            absent_from(strings_view(s@), strings_view(other@)),
        ),
{
    let ghost src = strings_view(s@);
    let ghost oth = strings_view(other@);
    let mut i: usize = 0;
    proof {
        assert(src.subrange(0, 0) =~= Seq::<Seq<char>>::empty());
    }
    while i < s.len()
        invariant
            i <= s@.len(),
            src == strings_view(s@),
            oth == strings_view(other@),
            strings_view(out@) == first_occurrences(absent_from(src.subrange(0, i as int), oth)),
        decreases s@.len() - i,
    {
        proof {
            let post = src.subrange(0, i + 1);
            assert(post.drop_last() =~= src.subrange(0, i as int));
            assert(post.last() == s@[i as int]@);
            let a = absent_from(src.subrange(0, i as int), oth);
            assert(a.push(s@[i as int]@).drop_last() =~= a);
        }
        if !contains_name(other, &s[i]) && !contains_name(out, &s[i]) {
            let ghost prev = out@;
            out.push(s[i].clone());
            proof {
                assert(strings_view(out@) =~= strings_view(prev).push(s@[i as int]@));
            }
        }
        i = i + 1;
    }
    proof {
        assert(src.subrange(0, s@.len() as int) =~= src);
    }
}

/// The first occurrence of each name of `s`, in order.
fn dedup_names(s: &Vec<String>) -> (r: Vec<String>)
    ensures
        strings_view(r@) == first_occurrences(strings_view(s@)),
{
    let none: Vec<String> = Vec::new();
    let mut r: Vec<String> = Vec::new();
    proof {
        assert(strings_view(r@) =~= Seq::<Seq<char>>::empty());
        assert(strings_view(none@) =~= Seq::<Seq<char>>::empty());
        lemma_absent_from_nothing(strings_view(s@));
    }
    append_new_names(s, &none, &mut r);
    r
}

/// Nothing is taken out of `s` when there is nothing to leave out.
proof fn lemma_absent_from_nothing(s: Seq<Seq<char>>)
    ensures
        absent_from(s, Seq::<Seq<char>>::empty()) == s,
    decreases s.len(),
{
    if s.len() > 0 {
        lemma_absent_from_nothing(s.drop_last());
        assert(s.drop_last().push(s.last()) =~= s);
    }
}

/// The explicitly installed packages, ordered by the log of the package
/// manager: the packages that the log never reports installed come first
/// (in the order given), then the others in the order of their first install
/// event; a later re-install changes nothing.
pub fn get_exp_pkg_list(explicit: &Vec<String>, log_lines: &Vec<String>) -> (r: Vec<Package>)
    ensures
        ids(r@) == install_order(strings_view(explicit@), strings_view(log_lines@)).map_values(
            |t: Seq<char>| ref_id(t),
        ),
{
    let events = install_events(explicit, log_lines);
    let mut names: Vec<String> = Vec::new();
    proof {
        assert(strings_view(names@) =~= Seq::<Seq<char>>::empty());
    }
    append_new_names(explicit, &events, &mut names);
    let logged = dedup_names(&events);
    let ghost order = install_order(strings_view(explicit@), strings_view(log_lines@));
    let ghost first = strings_view(names@);
    let mut r: Vec<Package> = Vec::new();
    let mut i: usize = 0;
    proof {
        assert(order =~= first + strings_view(logged@));
        assert(ids(r@) =~= Seq::<PackageId>::empty());
    }
    while i < names.len()
        invariant
            i <= names@.len(),
            first == strings_view(names@),
            ids(r@) == first.subrange(0, i as int).map_values(|t: Seq<char>| ref_id(t)),
        decreases names@.len() - i,
    {
        let p = Package::from_str(names[i].as_str());
        let ghost prev = r@;
        r.push(p);
        proof {
            assert(p.id() == ref_id(first[i as int]));
            assert(ids(r@) =~= ids(prev).push(p.id()));
            assert(first.subrange(0, i + 1) =~= first.subrange(0, i as int).push(first[i as int]));
            assert(ids(r@) =~= first.subrange(0, i + 1).map_values(|t: Seq<char>| ref_id(t)));
        }
        i = i + 1;
    }
    let mut j: usize = 0;
    let ghost second = strings_view(logged@);
    proof {
        assert(first.subrange(0, names@.len() as int) =~= first);
        assert(order.subrange(0, first.len() as int) =~= first);
    }
    while j < logged.len()
        invariant
            j <= logged@.len(),
            second == strings_view(logged@),
            order == first + second,
            ids(r@) == order.subrange(0, first.len() + j as int).map_values(|t: Seq<char>| ref_id(t)),
        decreases logged@.len() - j,
    {
        let p = Package::from_str(logged[j].as_str());
        let ghost prev = r@;
        r.push(p);
        proof {
            assert(order[first.len() + j as int] == logged@[j as int]@);
            assert(p.id() == ref_id(order[first.len() + j as int]));
            assert(ids(r@) =~= ids(prev).push(p.id()));
            assert(order.subrange(0, first.len() + j as int + 1) =~= order.subrange(
                0,
                first.len() + j as int,
            ).push(order[first.len() + j as int]));
            assert(ids(r@) =~= order.subrange(0, first.len() + j as int + 1).map_values(
                |t: Seq<char>| ref_id(t),
            ));
        }
        j = j + 1;
    }
    proof {
        assert(order.subrange(0, (first.len() + second.len()) as int) =~= order);
    }
    r
}

/// `unique_ids` keeps only elements of its input, and never two that are the
/// same package.
pub proof fn lemma_unique_ids_distinct(s: Seq<PackageId>)
    ensures
        forall|i: int, j: int|
            0 <= i < j < unique_ids(s).len() ==> !same_id(
                #[trigger] unique_ids(s)[i],
                #[trigger] unique_ids(s)[j],
            ),
    decreases s.len(),
{
    if s.len() > 0 {
        lemma_unique_ids_distinct(s.drop_last());
        let d = unique_ids(s.drop_last());
        if !contains_same(d, s.last()) {
            assert forall|i: int, j: int|
                0 <= i < j < unique_ids(s).len() implies !same_id(
                #[trigger] unique_ids(s)[i],
                #[trigger] unique_ids(s)[j],
            ) by {
                if j == d.len() {
                    assert(unique_ids(s)[i] == d[i]);
                    if same_id(d[i], s.last()) {
                        assert(contains_same(d, s.last()));
                    }
                } else {
                    assert(unique_ids(s)[i] == d[i]);
                    assert(unique_ids(s)[j] == d[j]);
                }
            }
        }
    }
}

/// The declared package set never holds two packages that are the same,
/// however often the documents (an included file read twice, say) declare
/// them.
pub proof fn lemma_declared_set_is_a_set(documents: Seq<Document>)
    ensures
        forall|i: int, j: int|
            0 <= i < j < declared_set(documents).len() ==> !same_id(
                #[trigger] declared_set(documents)[i],
                #[trigger] declared_set(documents)[j],
            ),
{
    lemma_unique_ids_distinct(declared_in_docs(documents).map_values(|t: Seq<char>| ref_id(t)));
}

/// Nothing of `s` is missing from `other` when each of its packages is the
/// same as some package of `other`.
pub proof fn lemma_not_in_covered(s: Seq<PackageId>, other: Seq<PackageId>)
    requires
        forall|i: int| 0 <= i < s.len() ==> contains_same(other, #[trigger] s[i]),
    ensures
        not_in(s, other).len() == 0,
    decreases s.len(),
{
    if s.len() > 0 {
        assert(contains_same(other, s[s.len() - 1]));
        lemma_not_in_covered(s.drop_last(), other);
    }
}

/// The diff is empty both ways when the installed packages and the declared
/// set are the same set: each installed package is the same as a declared
/// one, and each declared package the same as an installed one.
pub proof fn lemma_diff_of_equal_sets(documents: Seq<Document>, installed: Seq<Package>)
    requires
        forall|i: int|
            0 <= i < installed.len() ==> contains_same(
                declared_set(documents),
                #[trigger] installed[i].id(),
            ),
        forall|j: int|
            0 <= j < declared_set(documents).len() ==> contains_same(
                ids(installed),
                #[trigger] declared_set(documents)[j],
            ),
    ensures
        not_in(ids(installed), declared_set(documents)).len() == 0,
        not_in(declared_set(documents), ids(installed)).len() == 0,
{
    assert forall|i: int| 0 <= i < ids(installed).len() implies contains_same(
        declared_set(documents),
        #[trigger] ids(installed)[i],
    ) by {
        assert(ids(installed)[i] == installed[i].id());
    }
    lemma_not_in_covered(ids(installed), declared_set(documents));
    lemma_not_in_covered(declared_set(documents), ids(installed));
}

} // verus!
