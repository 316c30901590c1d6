//! Recursive staging of a working tree.
//!
//! The traversal itself is pure: the caller hands over an in-memory picture
//! of the directory tree, and every visited file is hashed and staged.  At
//! each level only a child's own name is inspected: a reserved or hidden
//! name excludes the entire subtree rooted there, while a hidden file nested
//! under a visible parent is still visited.

use vstd::prelude::*;
use crate::errors::RitError;
use crate::hashing::{object_id_spec, push_all};
use crate::index::{
    Index,
    EntryV,
    field_wf,
    entry_wf,
    mode_file,
    upsert_one,
    upsert_all,
    vec_copy,
};
use crate::paths::{rejected_leaf, leaf_rejected, path_rejected, path_is_rejected};
use vstd::utf8::encode_utf8;

verus! {

broadcast use {vstd::std_specs::vec::group_vec_axioms, vstd::seq::group_seq_axioms};

/// One node of the working tree: a file with its contents, or a directory
/// with its children.  Every node carries its own name, a single path
/// segment.
pub enum WorkNode {
    File { name: Vec<u8>, data: Vec<u8> },
    Dir { name: Vec<u8>, children: Vec<WorkNode> },
}

/// A node's own name.
pub open spec fn node_name(n: WorkNode) -> Seq<u8> {
    match n {
        WorkNode::File { name, .. } => name@,
        WorkNode::Dir { name, .. } => name@,
    }
}

/// Names throughout the tree are usable as path segments: nonempty and free
/// of the index file's delimiters.
pub open spec fn node_wf(n: WorkNode) -> bool
    decreases n,
{
    field_wf(node_name(n)) && match n {
        WorkNode::File { .. } => true,
        WorkNode::Dir { children, .. } => forall|i: int|
            0 <= i < children@.len() ==> node_wf(#[trigger] children@[i]),
    }
}

/// The `(path, contents)` pairs of the files a depth-first traversal visits
/// under a node standing at `path`, skipping every child whose name is
/// reserved or hidden.
pub open spec fn walk_files(path: Seq<u8>, n: WorkNode) -> Seq<(Seq<u8>, Seq<u8>)>
    decreases n, 1int,
{
    match n {
        WorkNode::File { data, .. } => seq![(path, data@)],
        WorkNode::Dir { children, .. } => walk_children(path, children@),
    }
}

/// The files visited under a directory's children, in order.
pub open spec fn walk_children(dir: Seq<u8>, cs: Seq<WorkNode>) -> Seq<(Seq<u8>, Seq<u8>)>
    decreases cs, 0int,
{
    if cs.len() == 0 {
        Seq::empty()
    } else {
        (if rejected_leaf(node_name(cs[0])) {
            Seq::empty()
        } else {
            walk_files(dir + seq![47u8] + node_name(cs[0]), cs[0])
        }) + walk_children(dir, cs.drop_first())
    }
}

/// The index entry staged for one visited file: default regular-file mode,
/// blob identifier of the contents.
pub open spec fn staged_entry(f: (Seq<u8>, Seq<u8>)) -> EntryV {
    (f.0, mode_file(), encode_utf8(object_id_spec("blob"@, f.1)))
}

/// The entries staged for a list of visited files.
pub open spec fn staged_entries(fs: Seq<(Seq<u8>, Seq<u8>)>) -> Seq<EntryV> {
    fs.map_values(|f: (Seq<u8>, Seq<u8>)| staged_entry(f))
}

/// Visiting one more child appends its files.
pub proof fn lemma_walk_children_snoc(dir: Seq<u8>, cs: Seq<WorkNode>, c: WorkNode)
    ensures
        walk_children(dir, cs.push(c)) == walk_children(dir, cs) + (if rejected_leaf(
            node_name(c),
        ) {
            Seq::<(Seq<u8>, Seq<u8>)>::empty()
        } else {
            walk_files(dir + seq![47u8] + node_name(c), c)
        }),
    decreases cs.len(),
{
    let tail = if rejected_leaf(node_name(c)) {
        Seq::<(Seq<u8>, Seq<u8>)>::empty()
    } else {
        walk_files(dir + seq![47u8] + node_name(c), c)
    };
    if cs.len() == 0 {
        assert(cs.push(c)[0] == c);
        assert(cs.push(c).drop_first() =~= Seq::<WorkNode>::empty());
        assert(walk_children(dir, cs.push(c)) == tail + walk_children(
            dir,
            Seq::<WorkNode>::empty(),
        ));
        assert(walk_children(dir, cs.push(c)) =~= walk_children(dir, cs) + tail);
    } else {
        lemma_walk_children_snoc(dir, cs.drop_first(), c);
        assert(cs.push(c)[0] == cs[0]);
        assert(cs.push(c).drop_first() =~= cs.drop_first().push(c));
        assert(walk_children(dir, cs.push(c)) =~= walk_children(dir, cs) + tail);
    }
}

/// Upserting a concatenation is upserting each part in turn.
pub proof fn lemma_upsert_all_append(init: Seq<EntryV>, a: Seq<EntryV>, b: Seq<EntryV>)
    ensures
        upsert_all(init, a + b) == upsert_all(upsert_all(init, a), b),
    decreases a.len(),
{
    if a.len() == 0 {
        assert(a + b =~= b);
    } else {
        assert((a + b)[0] == a[0]);
        assert((a + b).drop_first() =~= a.drop_first() + b);
        lemma_upsert_all_append(upsert_one(init, a[0]), a.drop_first(), b);
    }
}

impl Index {
    /// Depth-first traversal from a node standing at `path`: hash and stage
    /// every file underneath, skipping each subtree whose own name is
    /// reserved or hidden.
    pub fn directory_traversal(&mut self, path: &Vec<u8>, node: &WorkNode)
        requires
            old(self).wf(),
            field_wf(path@),
            node_wf(*node),
        ensures
            final(self)@ == upsert_all(old(self)@, staged_entries(walk_files(path@, *node))),
            final(self).wf(),
        decreases *node,
    {
        match node {
            WorkNode::File { name: _, data } => {
                self.stage_blob(vec_copy(path.as_slice()), data);
                proof {
                    let e = staged_entry((path@, data@));
                    assert(staged_entries(walk_files(path@, *node)) =~= seq![e]);
                    assert(seq![e][0] == e);
                    assert(seq![e].drop_first() =~= Seq::<EntryV>::empty());
                    assert(upsert_all(upsert_one(old(self)@, e), Seq::<EntryV>::empty())
                        == upsert_one(old(self)@, e));
                    assert(upsert_all(old(self)@, seq![e]) == upsert_one(old(self)@, e));
                }
            },
            WorkNode::Dir { name, children } => {
                proof {
                    assert(*node == (WorkNode::Dir { name: *name, children: *children }));
                }
                let mut i: usize = 0;
                proof {
                    assert(children@.take(0) =~= Seq::<WorkNode>::empty());
                    assert(staged_entries(Seq::empty()) =~= Seq::<EntryV>::empty());
                }
                while i < children.len()
                    invariant
                        i <= children@.len(),
                        *node == (WorkNode::Dir { name: *name, children: *children }),
                        field_wf(path@),
                        forall|q: int| 0 <= q < children@.len() ==> node_wf(#[trigger] children@[q]),
                        self.wf(),
                        self@ == upsert_all(
                            old(self)@,
                            staged_entries(walk_children(path@, children@.take(i as int))),
                        ),
                    decreases children@.len() - i,
                {
                    let child = &children[i];
                    let ghost step = if rejected_leaf(node_name(*child)) {
                        Seq::<(Seq<u8>, Seq<u8>)>::empty()
                    } else {
                        walk_files(path@ + seq![47u8] + node_name(*child), *child)
                    };
                    let rejected = match child {
                        WorkNode::File { name, .. } => leaf_rejected(name.as_slice()),
                        WorkNode::Dir { name, .. } => leaf_rejected(name.as_slice()),
                    };
                    if !rejected {
                        let mut child_path = vec_copy(path.as_slice());
                        child_path.push(47);
                        match child {
                            WorkNode::File { name, .. } => {
                                push_all(&mut child_path, name.as_slice());
                            },
                            WorkNode::Dir { name, .. } => {
                                push_all(&mut child_path, name.as_slice());
                            },
                        }
                        proof {
                            assert(child_path@ =~= path@ + seq![47u8] + node_name(*child));
                            assert(field_wf(child_path@)) by {
                                assert(field_wf(node_name(*child)));
                                assert forall|q: int| 0 <= q < child_path@.len() implies (
                                #[trigger] child_path@[q]) != 32 && child_path@[q] != 10 by {
                                    if q < path@.len() {
                                        assert(child_path@[q] == path@[q]);
                                    } else if q > path@.len() {
                                        assert(child_path@[q] == node_name(*child)[q - path@.len()
                                            - 1]);
                                    }
                                }
                            }
                        }
                        proof {
                            assert((*node)->Dir_children == *children);
                            assert(decreases_to!(*node => (*node)->Dir_children));
                            assert(decreases_to!(*node => *children));
                            assert(decreases_to!(*children => children@));
                            assert(decreases_to!(children@ => children@[i as int]));
                        }
                        self.directory_traversal(&child_path, child);
                    }
                    proof {
                        lemma_walk_children_snoc(path@, children@.take(i as int), children@[
                            i as int]);
                        assert(children@.take(i as int).push(children@[i as int]) =~= children@
                            .take(i as int + 1));
                        let w_next = walk_children(path@, children@.take(i as int + 1));
                        let w_prev = walk_children(path@, children@.take(i as int));
                        assert(w_next == w_prev + step);
                        assert(staged_entries(w_next) =~= staged_entries(w_prev) + staged_entries(
                            step,
                        ));
                        lemma_upsert_all_append(old(self)@, staged_entries(w_prev), staged_entries(
                            step,
                        ));
                        if rejected_leaf(node_name(*child)) {
                            assert(staged_entries(step) =~= Seq::<EntryV>::empty());
                            assert(self@ == upsert_all(old(self)@, staged_entries(w_next)));
                        } else {
                            assert(self@ == upsert_all(old(self)@, staged_entries(w_next)));
                        }
                    }
                    i = i + 1;
                }
                proof {
                    assert(children@.take(children@.len() as int) =~= children@);
                }
            },
        }
    }

    /// Stage a whole subtree: reject the root path itself if its final
    /// segment is reserved or hidden (leaving the index unchanged), else
    /// traverse and stage every visible file underneath.
    pub fn add_recursive(&mut self, path: &Vec<u8>, node: &WorkNode) -> (r: Result<(), RitError>)
        requires
            old(self).wf(),
            field_wf(path@),
            node_wf(*node),
        ensures
            path_rejected(path@) ==> (r matches Err(e) && e == RitError::PathRejected
                && final(self)@ == old(self)@),
            !path_rejected(path@) ==> (r is Ok && final(self)@ == upsert_all(
                old(self)@,
                staged_entries(walk_files(path@, *node)),
            )),
            final(self).wf(),
    {
        if path_is_rejected(path.as_slice()) {
            return Err(RitError::PathRejected);
        }
        self.directory_traversal(path, node);
        Ok(())
    }
}

} // verus!
