use vstd::prelude::*;

use crate::package::opt_view;
use crate::syntax::{kdl_reading, read_kdl};
use crate::tree::{
    kind_of, lemma_view_docs_push, lemma_view_nodes, node_kind, view_doc, view_docs, view_node,
    view_nodes, DocView, Document, Node, NodeKind, NodeView,
};

verus! {

/// A document whose includes are being resolved: `next` is the index of
/// the first top-level node not yet examined.
pub struct Frame {
    pub path: String,
    pub nodes: Vec<Node>,
    pub syntax: kdl::KdlDocument,
    pub next: usize,
}

/// A frame as the contracts see it.
pub struct FrameView {
    pub path: Seq<char>,
    pub nodes: Seq<NodeView>,
    pub syntax: kdl::KdlDocument,
    pub next: nat,
}

pub open spec fn view_frame(f: Frame) -> FrameView {
    FrameView { path: f.path@, nodes: view_nodes(f.nodes@), syntax: f.syntax, next: f.next as nat }
}

pub open spec fn view_frames(s: Seq<Frame>) -> Seq<FrameView> {
    s.map_values(|f: Frame| view_frame(f))
}

/// The depth-first resolution of includes: the chain of documents being
/// read, innermost last, and the documents already complete, each after
/// the documents that it includes.
pub struct Loader {
    pub stack: Vec<Frame>,
    pub documents: Vec<Document>,
}

/// What the loader asks for next.
#[derive(Debug)]
pub enum LoadStep {
    /// Read the file `target`, a path relative to the directory of the file
    /// `from`, and hand it to `enter`.
    Open { from: String, target: String },
    /// Every include is resolved; `finish` gives the documents.
    Done,
}

/// Why loading failed.
#[derive(Debug)]
pub enum LoadError {
    /// The file at this canonical path includes itself, directly or not.
    Cycle { path: String },
    /// The file at this path is not a well-formed document.
    Parse { path: String, error: kdl::KdlError },
}

/// Reads the text of the file at `path` as a declaration document.
pub fn parse_document(path: String, text: &str) -> (r: Result<Document, LoadError>)
    ensures
        match r {
            Ok(doc) => kdl_reading(text@) == Some((view_doc(doc).nodes, doc.syntax)) && doc.path@
                == path@,
            Err(LoadError::Parse { path: p, error: _ }) => kdl_reading(text@) is None && p@
                == path@,
            Err(_) => false,
        },
{
    match read_kdl(text) {
        Ok((nodes, syntax)) => Ok(Document { path, nodes, syntax }),
        Err(error) => Err(LoadError::Parse { path, error }),
    }
}

/// Whether `v` is an include directive whose first argument is a path.
pub open spec fn is_include(v: NodeView) -> bool {
    kind_of(v.name) == NodeKind::Include && v.args.len() >= 1 && v.args[0] is Some
}

/// The first include directive of `s` at or after `from`.
pub open spec fn next_include(s: Seq<NodeView>, from: nat) -> Option<nat>
    decreases s.len() - from,
{
    if from >= s.len() {
        None
    } else if is_include(s[from as int]) {
        Some(from)
    } else {
        next_include(s, from + 1)
    }
}

/// The document that a finished frame becomes.
pub open spec fn frame_doc(f: FrameView) -> DocView {
    DocView { path: f.path, nodes: f.nodes, syntax: f.syntax }
}

/// One step of resolution on the frames and the finished documents: the
/// next include of the innermost frame is asked for; a frame without one
/// left becomes a finished document and the frame that included it goes on.
pub open spec fn step_spec(stack: Seq<FrameView>, docs: Seq<DocView>) -> (
    Option<(Seq<char>, Seq<char>)>,
    Seq<FrameView>,
    Seq<DocView>,
)
    decreases stack.len(),
{
    if stack.len() == 0 {
        (None, stack, docs)
    } else {
        let top = stack.last();
        match next_include(top.nodes, top.next) {
            Some(j) => (
                Some((top.path, top.nodes[j as int].args[0]->0)),
                stack.update(stack.len() - 1, FrameView { next: j + 1, ..top }),
                docs,
            ),
            None => step_spec(stack.drop_last(), docs.push(frame_doc(top))),
        }
    }
}

/// No two frames of the chain read the same file.
pub open spec fn chain_distinct(stack: Seq<FrameView>) -> bool {
    forall|i: int, j: int|
        0 <= i < j < stack.len() ==> (#[trigger] stack[i]).path != (#[trigger] stack[j]).path
}

/// A step keeps the frames' paths apart: it only moves a frame on or drops
/// the innermost one.
pub proof fn lemma_step_keeps_chain_distinct(stack: Seq<FrameView>, docs: Seq<DocView>)
    requires
        chain_distinct(stack),
    ensures
        chain_distinct(step_spec(stack, docs).1),
    decreases stack.len(),
{
    if stack.len() > 0 {
        let top = stack.last();
        match next_include(top.nodes, top.next) {
            Some(j) => {
                let s2 = stack.update(stack.len() - 1, FrameView { next: j + 1, ..top });
                assert forall|a: int, b: int| 0 <= a < b < s2.len() implies (#[trigger] s2[a]).path
                    != (#[trigger] s2[b]).path by {
                    assert(s2[a].path == stack[a].path);
                    assert(s2[b].path == stack[b].path);
                }
            },
            None => {
                let s2 = stack.drop_last();
                assert forall|a: int, b: int| 0 <= a < b < s2.len() implies (#[trigger] s2[a]).path
                    != (#[trigger] s2[b]).path by {
                    assert(s2[a] == stack[a]);
                    assert(s2[b] == stack[b]);
                }
                lemma_step_keeps_chain_distinct(s2, docs.push(frame_doc(top)));
            },
        }
    }
}

/// Whether a frame of `stack` reads the file at `path`.
pub open spec fn in_chain(stack: Seq<FrameView>, path: Seq<char>) -> bool {
    exists|i: int| 0 <= i < stack.len() && stack[i].path == path
}

impl Loader {
    pub open spec fn frames(&self) -> Seq<FrameView> {
        view_frames(self.stack@)
    }

    pub open spec fn finished(&self) -> Seq<DocView> {
        view_docs(self.documents@)
    }

    /// No file is read twice along the chain of includes.
    pub open spec fn wf(&self) -> bool {
        chain_distinct(self.frames())
    }

    /// A loader with nothing read yet.
    pub fn new() -> (r: Loader)
        ensures
            r.frames().len() == 0,
            r.finished().len() == 0,
            r.wf(),
    {
        Loader { stack: Vec::new(), documents: Vec::new() }
    }

    /// Takes in the document read from the file at canonical path `path`.
    /// When that file is already being read further up the chain of
    /// includes, this is a cycle and nothing changes; otherwise the document
    /// becomes the innermost one.
    pub fn enter(&mut self, doc: Document) -> (r: Result<(), LoadError>)
        ensures
            r is Err <==> in_chain(old(self).frames(), doc.path@),
            r is Err ==> *final(self) == *old(self) && match r {
                Err(LoadError::Cycle { path: p }) => p@ == doc.path@,
                _ => false,
            },
            r is Ok ==> final(self).frames() == old(self).frames().push(
                FrameView { path: doc.path@, nodes: view_nodes(doc.nodes@), syntax: doc.syntax, next: 0 },
            ) && final(self).finished() == old(self).finished(),
            old(self).wf() ==> final(self).wf(),
    {
        let Document { path, nodes, syntax } = doc;
        let mut i: usize = 0;
        while i < self.stack.len()
            invariant
                i <= self.stack@.len(),
                path == doc.path,
                *self == *old(self),
                forall|k: int| 0 <= k < i ==> self.frames()[k].path != path@,
            decreases self.stack@.len() - i,
        {
            if self.stack[i].path == path {
                proof {
                    assert(self.frames()[i as int].path == path@);
                }
                return Err(LoadError::Cycle { path });
            }
            i = i + 1;
        }
        let ghost prev = self.stack@;
        proof {
            assert(i == self.stack@.len());
            assert(view_frames(prev) == self.frames());
            assert(forall|k: int| 0 <= k < self.frames().len() ==> self.frames()[k].path != path@);
        }
        let frame = Frame { path, nodes, syntax, next: 0 };
        self.stack.push(frame);
        proof {
            assert(view_frames(self.stack@) =~= view_frames(prev).push(view_frame(frame)));
            let fs = self.frames();
            let old_fs = view_frames(prev);
            if chain_distinct(old_fs) {
                assert forall|a: int, b: int| 0 <= a < b < fs.len() implies (#[trigger] fs[a]).path
                    != (#[trigger] fs[b]).path by {
                    assert(fs[a] == old_fs[a]);
                    if b == fs.len() - 1 {
                        assert(old_fs[a].path != path@);
                        assert(fs[b].path == path@);
                    } else {
                        assert(fs[b] == old_fs[b]);
                    }
                }
            }
        }
        Ok(())
    }

    /// Finds the next include of the innermost document, finishing the
    /// documents that have none left, innermost first.
    pub fn step(&mut self) -> (r: LoadStep)
        ensures
            ({
                let (ask, frames, docs) = step_spec(old(self).frames(), old(self).finished());
                &&& final(self).frames() == frames
                &&& final(self).finished() == docs
                &&& match r {
                    LoadStep::Open { from, target } => ask == Some((from@, target@)),
                    LoadStep::Done => ask is None,
                }
            }),
            old(self).wf() ==> final(self).wf(),
    {
        proof {
            if self.wf() {
                lemma_step_keeps_chain_distinct(self.frames(), self.finished());
            }
        }
        let ghost start = step_spec(self.frames(), self.finished());
        proof {
            assert(start == step_spec(old(self).frames(), old(self).finished()));
        }
        loop
            invariant
                step_spec(self.frames(), self.finished()) == start,
                start == step_spec(old(self).frames(), old(self).finished()),
                old(self).wf() ==> chain_distinct(start.1),
            decreases self.stack@.len(),
        {
            if self.stack.len() == 0 {
                proof {
                    assert(self.frames().len() == 0);
                }
                return LoadStep::Done;
            }
            let last = self.stack.len() - 1;
            let ghost top = self.frames().last();
            let found = find_include(&self.stack[last].nodes, self.stack[last].next);
            proof {
                assert(top == view_frame(self.stack@[last as int]));
            }
            match found {
                Some((j, target)) => {
                    let from = self.stack[last].path.clone();
                    let ghost prev = self.stack@;
                    let mut frame = self.stack.pop().unwrap();
                    proof {
                        assert(frame == prev[last as int]);
                    }
                    let count = frame.nodes.len();
                    proof {
                        assert(j < count);
                    }
                    frame.next = j + 1;
                    self.stack.push(frame);
                    proof {
                        lemma_view_nodes(prev[last as int].nodes@);
                        assert(view_frames(self.stack@) =~= view_frames(prev).update(
                            last as int,
                            FrameView { next: (j + 1) as nat, ..top },
                        ));
                    }
                    return LoadStep::Open { from, target };
                },
                None => {
                    let ghost prev = self.stack@;
                    let ghost prev_docs = self.documents@;
                    let frame = self.stack.pop().unwrap();
                    let Frame { path, nodes, syntax, next } = frame;
                    let doc = Document { path, nodes, syntax };
                    self.documents.push(doc);
                    proof {
                        assert(prev.drop_last() =~= self.stack@);
                        assert(view_frames(self.stack@) =~= view_frames(prev).drop_last());
                        lemma_view_docs_push(prev_docs, doc);
                        assert(view_doc(doc) == frame_doc(top));
                    }
                },
            }
        }
    }

    /// The documents, each after the documents that it includes.
    pub fn finish(self) -> (r: Vec<Document>)
        ensures
            view_docs(r@) == self.finished(),
    {
        self.documents
    }
}

/// The index of the first include directive of `nodes` at or after `from`,
/// with the path that it names.
fn find_include(nodes: &Vec<Node>, from: usize) -> (r: Option<(usize, String)>)
    ensures
        match r {
            Some((j, target)) => next_include(view_nodes(nodes@), from as nat) == Some(j as nat)
                && j < nodes@.len() && view_nodes(nodes@)[j as int].args[0] == Some(target@),
            None => next_include(view_nodes(nodes@), from as nat) is None,
        },
{
    let ghost vs = view_nodes(nodes@);
    proof {
        lemma_view_nodes(nodes@);
    }
    let mut j: usize = from;
    while j < nodes.len()
        invariant
            vs == view_nodes(nodes@),
            vs.len() == nodes@.len(),
            forall|i: int| 0 <= i < nodes@.len() ==> #[trigger] vs[i] == view_node(nodes@[i]),
            from <= j,
            next_include(vs, from as nat) == next_include(vs, j as nat),
        decreases nodes@.len() - j,
    {
        let node = &nodes[j];
        if node_kind(node.name.as_str()) == NodeKind::Include && node.args.len() >= 1 {
            match &node.args[0] {
                Some(t) => {
                    proof {
                        assert(vs[j as int] == view_node(*node));
                        assert(vs[j as int].args[0] == opt_view(node.args@[0]));
                    }
                    return Some((j, t.clone()));
                },
                None => {},
            }
        }
        proof {
            assert(vs[j as int] == view_node(*node));
        }
        j = j + 1;
    }
    None
}

} // verus!
