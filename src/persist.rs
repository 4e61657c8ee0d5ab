use vstd::prelude::*;

use crate::package::opt_view;
use crate::syntax::{kdl_writing, render_document};
use crate::tree::{lemma_view_docs_push, view_doc, view_docs, DocView, Document};

verus! {

/// The text that a document is written as.
pub fn document_text(doc: &Document) -> (r: String)
    ensures
        r@ == kdl_writing(view_doc(*doc)),
{
    render_document(doc)
}

/// A file to rewrite: its path and its new content.
pub struct PendingWrite {
    pub path: String,
    pub text: String,
}

/// Some document of `docs` was read from the file at `path`.
pub open spec fn path_among(docs: Seq<DocView>, path: Seq<char>) -> bool {
    exists|k: int| 0 <= k < docs.len() && docs[k].path == path
}

/// The documents whose text differs from what their file holds (or whose
/// file could not be read: `None`), with their new text, in order. Each file
/// comes once: a file read more than once (an included file reached along
/// two paths) is written from its first copy, which is the one that
/// insertions reach first.
pub open spec fn pending_writes(docs: Seq<DocView>, on_disk: Seq<Option<Seq<char>>>) -> Seq<
    (Seq<char>, Seq<char>),
>
    decreases docs.len(),
{
    if docs.len() == 0 || on_disk.len() != docs.len() {
        Seq::<(Seq<char>, Seq<char>)>::empty()
    } else {
        let d = docs.last();
        let pre = pending_writes(docs.drop_last(), on_disk.drop_last());
        if path_among(docs.drop_last(), d.path) || on_disk.last() == Some(kdl_writing(d)) {
            pre
        } else {
            pre.push((d.path, kdl_writing(d)))
        }
    }
}

pub open spec fn writes_view(s: Seq<PendingWrite>) -> Seq<(Seq<char>, Seq<char>)> {
    s.map_values(|w: PendingWrite| (w.path@, w.text@))
}

/// Which files must be written back: those of the documents whose text
/// differs from what their file holds now (`on_disk[i]` for `documents[i]`;
/// `None` when the file could not be read), each file once, from the first
/// document read from it. Each of these files is to be backed up first.
pub fn changed_files(documents: &Vec<Document>, on_disk: &Vec<Option<String>>) -> (r: Vec<
    PendingWrite,
>)
    requires
        documents@.len() == on_disk@.len(),
    ensures
        writes_view(r@) == pending_writes(
            view_docs(documents@),
            on_disk@.map_values(|o: Option<String>| opt_view(o)),
        ),
{
    let ghost disk = on_disk@.map_values(|o: Option<String>| opt_view(o));
    let mut r: Vec<PendingWrite> = Vec::new();
    let mut i: usize = 0;
    proof {
        assert(writes_view(r@) =~= Seq::<(Seq<char>, Seq<char>)>::empty());
        assert(view_docs(documents@.subrange(0, 0)) =~= Seq::<DocView>::empty());
    }
    while i < documents.len()
        invariant
            i <= documents@.len(),
            documents@.len() == on_disk@.len(),
            disk == on_disk@.map_values(|o: Option<String>| opt_view(o)),
            writes_view(r@) == pending_writes(
                view_docs(documents@.subrange(0, i as int)),
                disk.subrange(0, i as int),
            ),
        decreases documents@.len() - i,
    {
        let seen = read_before(documents, i);
        let text = document_text(&documents[i]);
        let same = match &on_disk[i] {
            Some(current) => *current == text,
            None => false,
        };
        let ghost prev = r@;
        proof {
            let pre = documents@.subrange(0, i as int);
            assert(documents@.subrange(0, i + 1) =~= pre.push(documents@[i as int]));
            lemma_view_docs_push(pre, documents@[i as int]);
            assert(view_docs(documents@.subrange(0, i + 1)).drop_last() =~= view_docs(pre));
            assert(disk.subrange(0, i + 1).drop_last() =~= disk.subrange(0, i as int));
            assert(disk.subrange(0, i + 1).last() == opt_view(on_disk@[i as int]));
            assert(same == (opt_view(on_disk@[i as int]) == Some(text@)));
            assert(view_docs(pre).len() == i);
            assert forall|k: int| 0 <= k < i implies #[trigger] view_docs(pre)[k].path
                == documents@[k].path@ by {
                assert(pre[k] == documents@[k]);
            }
            if seen {
                let k = choose|k: int|
                    0 <= k < i && documents@[k].path@ == documents@[i as int].path@;
                assert(view_docs(pre)[k].path == documents@[k].path@);
            }
            assert(seen == path_among(view_docs(pre), documents@[i as int].path@));
        }
        if !seen && !same {
            let w = PendingWrite { path: documents[i].path.clone(), text };
            r.push(w);
            proof {
                assert(writes_view(r@) =~= writes_view(prev).push((w.path@, w.text@)));
            }
        }
        i = i + 1;
    }
    proof {
        assert(documents@.subrange(0, documents@.len() as int) =~= documents@);
        assert(disk.subrange(0, documents@.len() as int) =~= disk);
    }
    r
}

/// The shape of a local time written as `%Y%m%d_%H%M%S`: at least fifteen
/// characters, all ASCII digits, `_` or `+` (a year past 9999 carries a
/// sign), with the `_` seven places from the end.
pub open spec fn stamp_shaped(ts: Seq<char>) -> bool {
    &&& ts.len() >= 15
    &&& forall|i: int|
        0 <= i < ts.len() ==> ('0' <= #[trigger] ts[i] && ts[i] <= '9') || ts[i] == '_' || ts[i]
            == '+'
    &&& ts[ts.len() - 7] == '_'
}

/// Whether a document before `documents[i]` was read from the same file.
fn read_before(documents: &Vec<Document>, i: usize) -> (r: bool)
    requires
        i < documents@.len(),
    ensures
        r == exists|k: int| 0 <= k < i && documents@[k].path@ == documents@[i as int].path@,
{
    let mut k: usize = 0;
    while k < i
        invariant
            i < documents@.len(),
            k <= i,
            forall|j: int| 0 <= j < k ==> documents@[j].path@ != documents@[i as int].path@,
        decreases i - k,
    {
        if documents[k].path == documents[i].path {
            return true;
        }
        k = k + 1;
    }
    false
}

/// Relies on chrono's `Local::now` and `DateTime::format`: the local time
/// now, written as `%Y%m%d_%H%M%S` (a year of four digits, or a signed one
/// past 9999, then two digits each for month, day, hour, minute, second).
#[verifier::external_body]
fn local_timestamp() -> (r: String)
    ensures
        stamp_shaped(r@),
{
    chrono::Local::now().format("%Y%m%d_%H%M%S").to_string()
}

/// The name of a backup copy of the file `file_name` taken at `timestamp`.
pub fn stamped_name(timestamp: &str, file_name: &str) -> (r: String)
    ensures
        r@ == timestamp@ + seq!['_'] + file_name@,
{
    let mut r = String::from_str(timestamp);
    r.append("_");
    r.append(file_name);
    proof {
        reveal_strlit("_");
    }
    r
}

/// The name of a backup copy of the file `file_name` taken now: the local
/// time, an underscore, and the file's name.
pub fn backup_file_name(file_name: &str) -> (r: String)
    ensures
        exists|timestamp: Seq<char>|
            stamp_shaped(timestamp) && r@ == timestamp + seq!['_'] + file_name@,
{
    let timestamp = local_timestamp();
    stamped_name(timestamp.as_str(), file_name)
}

} // verus!
