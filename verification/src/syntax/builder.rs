//! `TreeBuilder`: the emission surface a recursive-descent parser drives.
//! `start_node`/`finish_node` bracket children in document order;
//! `checkpoint` + `start_node_at` retro-wrap an already-emitted prefix once
//! the parser knows the enclosing kind. An unbalanced build is a parser
//! bug, never an input error: the contracts rule it out.

use std::rc::Rc;
use vstd::prelude::*;

use super::green::{
    byte_len, children_text, lemma_children_text_push, lemma_children_text_split, lemma_node_text, elem_len, elem_text_of, elem_wf, lemma_elem_text, lemma_elem_wf, lemma_node_wf,
    lemma_prefix_len_mono, lemma_prefix_len_split, lemma_prefix_len_take, prefix_len, GreenElement,
    GreenNode, GreenToken, SyntaxKind,
};

verus! {

/// A mark into the builder's pending children; see
/// [`TreeBuilder::start_node_at`].
#[derive(Debug, Clone, Copy, PartialEq, Eq, Structural)]
pub struct Checkpoint(usize);

impl Checkpoint {
    /// The number of pending children when the mark was taken.
    pub closed spec fn pos(&self) -> usize {
        self.0
    }
}

#[derive(Debug)]
pub struct TreeBuilder {
    /// Open frames: (kind, index into `children` where the frame began).
    parents: Vec<(SyntaxKind, usize)>,
    /// Pending children of the innermost open frame(s), flat until a
    /// `finish_node` folds a suffix into a node.
    children: Vec<GreenElement>,
}

impl TreeBuilder {
    /// The open frames.
    pub closed spec fn parents_view(&self) -> Seq<(SyntaxKind, usize)> {
        self.parents@
    }

    /// The pending children.
    pub closed spec fn children_view(&self) -> Seq<GreenElement> {
        self.children@
    }

    /// The builder's invariant: pending children are well formed and their
    /// total length fits in a `u32`; frames begin in order, within the
    /// pending children.
    pub open spec fn wf(&self) -> bool {
        let c = self.children_view();
        let p = self.parents_view();
        &&& forall|i: int| 0 <= i < c.len() ==> elem_wf(#[trigger] c[i])
        &&& prefix_len(c, c.len() as int) <= u32::MAX
        &&& forall|j: int| 0 <= j < p.len() ==> (#[trigger] p[j]).1 <= c.len()
        &&& forall|j: int, k: int| 0 <= j < k < p.len() ==> (#[trigger] p[j]).1 <= (#[trigger] p[k]).1
    }

    /// The text of the pending children, in order: every token emitted so
    /// far, whatever nodes now group them.
    pub open spec fn pending_text(&self) -> Seq<char> {
        children_text(self.children_view())
    }

    /// The total length of the pending children.
    pub open spec fn pending_len(&self) -> nat {
        prefix_len(self.children_view(), self.children_view().len() as int)
    }

    pub fn new() -> (r: TreeBuilder)
        ensures
            r.wf(),
            r.parents_view().len() == 0,
            r.children_view().len() == 0,
    {
        TreeBuilder { parents: Vec::new(), children: Vec::new() }
    }

    /// Emit a token of `kind` with text `text`.
    pub fn token(&mut self, kind: SyntaxKind, text: &str)
        requires
            old(self).wf(),
            old(self).pending_len() + byte_len(text@) <= u32::MAX,
        ensures
            final(self).wf(),
            final(self).parents_view() == old(self).parents_view(),
            final(self).children_view().len() == old(self).children_view().len() + 1,
            final(self).children_view().drop_last() == old(self).children_view(),
            final(self).children_view().last() matches GreenElement::Token(t) && t.kind_view() == kind && t.text_view() == text@,
            final(self).pending_text() == old(self).pending_text() + text@,
            final(self).pending_len() == old(self).pending_len() + byte_len(text@),
    {
        let ghost old_c = self.children@;
        let t = GreenToken::new(kind, text);
        let e = GreenElement::Token(t);
        proof {
            lemma_elem_wf(e);
            lemma_elem_text(e);
        }
        self.children.push(e);
        proof {
            let c = self.children@;
            assert(c.drop_last() =~= old_c);
            assert(prefix_len(c, c.len() - 1) == prefix_len(old_c, old_c.len() as int)) by {
                lemma_prefix_len_take(c, old_c, old_c.len() as int);
            }
            assert(c[c.len() - 1] == e);
            lemma_children_text_push(old_c, e);
            assert(c =~= old_c.push(e));
            assert(elem_len(e) == byte_len(text@));
            assert(prefix_len(c, c.len() as int) == prefix_len(c, c.len() - 1) + elem_len(e));
            assert forall|i: int| 0 <= i < c.len() implies elem_wf(#[trigger] c[i]) by {
                if i < c.len() - 1 {
                    assert(c[i] == old_c[i]);
                }
            }
            let p = self.parents@;
            assert(p == old(self).parents_view());
            assert forall|j: int| 0 <= j < p.len() implies (#[trigger] p[j]).1 <= c.len() by {
                assert(old(self).parents_view()[j].1 <= old_c.len());
            }
        }
    }

    /// Open a node of `kind` at the current position.
    pub fn start_node(&mut self, kind: SyntaxKind)
        requires
            old(self).wf(),
        ensures
            final(self).wf(),
            final(self).children_view() == old(self).children_view(),
            final(self).parents_view() == old(self).parents_view().push((kind, old(self).children_view().len() as usize)),
            old(self).children_view().len() <= usize::MAX,
    {
        let n = self.children.len();
        let ghost old_p = self.parents@;
        assert(old_p == old(self).parents_view());
        assert(n == old(self).children_view().len());
        self.parents.push((kind, n));
        proof {
            let p = self.parents@;
            assert forall|j: int| 0 <= j < old_p.len() implies (#[trigger] old_p[j]).1 <= n by {
                assert(old(self).parents_view()[j].1 <= old(self).children_view().len());
            }
            assert forall|j: int, k: int| 0 <= j < k < p.len() implies (#[trigger] p[j]).1 <= (#[trigger] p[k]).1 by {
                if k == p.len() - 1 {
                    assert(old_p[j].1 <= n);
                } else {
                    assert(old_p[j].1 <= old_p[k].1);
                }
            }
        }
    }

    /// Close the innermost open node: every child emitted since it opened
    /// becomes the node's children.
    pub fn finish_node(&mut self)
        requires
            old(self).wf(),
            old(self).parents_view().len() > 0,
        ensures
            final(self).wf(),
            final(self).parents_view() == old(self).parents_view().drop_last(),
            ({
                let (kind, first) = old(self).parents_view().last();
                let c = final(self).children_view();
                &&& c.len() == first + 1
                &&& c.drop_last() == old(self).children_view().take(first as int)
                &&& c.last() matches GreenElement::Node(n) && n.kind_view() == kind
                    && n.children_view() == old(self).children_view().skip(first as int)
            }),
            final(self).pending_text() == old(self).pending_text(),
            final(self).pending_len() == old(self).pending_len(),
    {
        let ghost old_c = self.children@;
        let ghost old_p = self.parents@;
        let (kind, first) = self.parents.pop().expect("finish_node without a matching start_node");
        assert(old_p[old_p.len() - 1].1 <= old_c.len());
        let tail = self.children.split_off(first);
        proof {
            assert(tail@ =~= old_c.skip(first as int));
            assert forall|i: int| 0 <= i < tail@.len() implies elem_wf(#[trigger] tail@[i]) by {
                assert(tail@[i] == old_c[first + i]);
            }
            lemma_prefix_len_split(old_c, first as int, old_c.len() as int);
            assert(old_c.skip(first as int).len() == old_c.len() - first);
        }
        let node = GreenNode::new(kind, tail);
        proof {
            lemma_node_wf(&node);
        }
        let e = GreenElement::Node(node);
        proof {
            lemma_elem_wf(e);
        }
        self.children.push(e);
        proof {
            let c = self.children@;
            let head = old_c.take(first as int);
            assert(c.drop_last() =~= head);
            lemma_prefix_len_take(c, old_c, first as int);
            assert(prefix_len(c, c.len() as int) == prefix_len(old_c, first as int) + elem_len(e));
            lemma_elem_text(e);
            assert(elem_len(e) == byte_len(e->Node_0.text_view()));
            lemma_children_text_push(head, e);
            assert(c =~= head.push(e));
            lemma_node_text(&e->Node_0);
            lemma_children_text_split(old_c, first as int);
            assert(forall|i: int| 0 <= i < c.len() ==> elem_wf(#[trigger] c[i])) by {
                assert forall|i: int| 0 <= i < c.len() implies elem_wf(#[trigger] c[i]) by {
                    if i < first {
                        assert(c[i] == old_c[i]);
                    }
                }
            }
            let p = self.parents@;
            assert forall|j: int| 0 <= j < p.len() implies (#[trigger] p[j]).1 <= c.len() by {
                assert(old_p[j].1 <= old_p[old_p.len() - 1].1);
            }
            assert forall|j: int, k: int| 0 <= j < k < p.len() implies (#[trigger] p[j]).1 <= (#[trigger] p[k]).1 by {
                assert(old_p[j].1 <= old_p[k].1);
            }
        }
    }

    /// A mark at the current position.
    pub fn checkpoint(&self) -> (r: Checkpoint)
        ensures
            r.pos() == self.children_view().len(),
    {
        Checkpoint(self.children.len())
    }

    /// Open a node retroactively at `cp`: everything emitted since the
    /// checkpoint becomes the new node's leading children. The checkpoint
    /// must not point past the pending children nor predate the innermost
    /// open frame.
    pub fn start_node_at(&mut self, cp: Checkpoint, kind: SyntaxKind)
        requires
            old(self).wf(),
            cp.pos() <= old(self).children_view().len(),
            old(self).parents_view().len() > 0 ==> cp.pos() >= old(self).parents_view().last().1,
        ensures
            final(self).wf(),
            final(self).children_view() == old(self).children_view(),
            final(self).parents_view() == old(self).parents_view().push((kind, cp.pos())),
    {
        let in_range: Option<()> = if cp.0 <= self.children.len() { Some(()) } else { None };
        in_range.expect("checkpoint points past the emitted children");
        if self.parents.len() > 0 {
            let first = self.parents[self.parents.len() - 1].1;
            let after: Option<()> = if cp.0 >= first { Some(()) } else { None };
            after.expect("checkpoint predates the innermost open frame");
        }
        let ghost old_p = self.parents@;
        self.parents.push((kind, cp.0));
        proof {
            let p = self.parents@;
            assert forall|j: int, k: int| 0 <= j < k < p.len() implies (#[trigger] p[j]).1 <= (#[trigger] p[k]).1 by {
                if k == p.len() - 1 && j < k {
                    assert(old_p[j].1 <= old_p[old_p.len() - 1].1);
                }
            }
        }
    }

    /// Close the build: no frame may remain open and exactly one root
    /// node must remain.
    pub fn finish(self) -> (r: Rc<GreenNode>)
        requires
            self.wf(),
            self.parents_view().len() == 0,
            self.children_view().len() == 1,
            self.children_view()[0] is Node,
        ensures
            self.children_view()[0] == GreenElement::Node(r),
            r.wf(),
            r.text_view() == self.pending_text(),
    {
        let mut this = self;
        let closed: Option<()> = if this.parents.len() == 0 { Some(()) } else { None };
        closed.expect("unfinished node at finish()");
        let single: Option<()> = if this.children.len() == 1 { Some(()) } else { None };
        single.expect("finish() requires exactly one root element");
        let root = this.children.pop().expect("length checked above");
        proof {
            assert(elem_wf(root));
            lemma_elem_wf(root);
            lemma_elem_text(root);
            let c = self.children_view();
            assert(c =~= Seq::<GreenElement>::empty().push(c[0]));
            lemma_children_text_push(Seq::<GreenElement>::empty(), c[0]);
            assert(Seq::<char>::empty() + elem_text_of(c[0]) =~= elem_text_of(c[0]));
        }
        match root {
            GreenElement::Node(n) => n,
            GreenElement::Token(_) => {
                proof { assert(false); }
                GreenNode::new(SyntaxKind(0), Vec::new())
            },
        }
    }
}

} // verus!
