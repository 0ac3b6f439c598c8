//! Red layer: position-carrying cursors over a green tree. A `SyntaxNode`
//! is a cheap-to-clone `Rc` handle knowing its absolute byte range, parent
//! and children; red nodes are created on demand while walking, never
//! stored in the green tree. Two handles are equal when they stand for the
//! same green subtree at the same position of the same tree.

use std::rc::Rc;
use vstd::prelude::*;

use super::green::{
    byte_len, children_text, lemma_byte_len_concat, lemma_children_text_len, lemma_children_text_push, elem_kind, elem_len, elem_wf, lemma_elem_text, lemma_elem_wf, lemma_node_wf,
    lemma_child_decreases, lemma_children_len, lemma_children_rows_take, lemma_elem_rows, lemma_prefix_len_mono,
    node_rows, prefix_len, push_char, DumpRow, GreenElement, GreenNode, GreenToken, SyntaxKind,
};

verus! {

/// A half-open byte range `[start, end)` into the source text.
#[derive(Debug, Clone, Copy, PartialEq, Eq, Structural)]
pub struct TextRange {
    pub start: u32,
    pub end: u32,
}

impl TextRange {
    /// The range `[start, end)`; `start` may not exceed `end`.
    pub fn new(start: u32, end: u32) -> (r: TextRange)
        requires
            start <= end,
        ensures
            r.start == start,
            r.end == end,
    {
        let ordered: Option<()> = if start <= end { Some(()) } else { None };
        ordered.expect("a range may not end before it starts");
        TextRange { start, end }
    }

    /// The range's length in bytes.
    pub fn len(&self) -> (r: u32)
        requires
            self.start <= self.end,
        ensures
            r == self.end - self.start,
    {
        self.end - self.start
    }

    pub fn is_empty(&self) -> (r: bool)
        ensures
            r == (self.start == self.end),
    {
        self.start == self.end
    }

    /// Whether `offset` lies inside the range.
    pub fn contains(&self, offset: u32) -> (r: bool)
        ensures
            r == (self.start <= offset && offset < self.end),
    {
        self.start <= offset && offset < self.end
    }
}

#[derive(Debug, Clone, PartialEq, Eq)]
pub struct SyntaxNode(Rc<NodeData>);

#[derive(Debug, PartialEq, Eq)]
struct NodeData {
    green: Rc<GreenNode>,
    parent: Option<SyntaxNode>,
    offset: u32,
    index: usize,
}

#[derive(Debug, Clone, PartialEq, Eq)]
pub struct SyntaxToken {
    green: Rc<GreenToken>,
    parent: SyntaxNode,
    offset: u32,
    index: usize,
}

#[derive(Debug, Clone, PartialEq, Eq)]
pub enum SyntaxElement {
    Node(SyntaxNode),
    Token(SyntaxToken),
}

impl SyntaxNode {
    /// The green subtree this handle stands for.
    pub closed spec fn green_view(&self) -> GreenNode {
        *self.0.green
    }

    /// The absolute byte offset of the subtree's start.
    pub closed spec fn offset_view(&self) -> u32 {
        self.0.offset
    }

    /// The position among the parent's children.
    pub closed spec fn index_view(&self) -> usize {
        self.0.index
    }

    /// The parent handle (none for a root).
    pub closed spec fn parent_view(&self) -> Option<SyntaxNode> {
        self.0.parent
    }

    /// The handle is consistent: its green subtree is well formed and ends
    /// within `u32` range, and a child sits at its index in its parent's
    /// green children, at the parent's offset plus the lengths of the
    /// children before it.
    pub closed spec fn wf(&self) -> bool
        decreases self,
    {
        &&& self.0.green.wf()
        &&& self.0.offset as nat + byte_len(self.0.green.text_view()) <= u32::MAX
        &&& match self.0.parent {
            None => true,
            Some(p) => {
                &&& p.wf()
                &&& (self.0.index as int) < p.0.green.children_view().len()
                &&& p.0.green.children_view()[self.0.index as int] == GreenElement::Node(self.0.green)
                &&& self.0.offset as nat == p.0.offset as nat + prefix_len(p.0.green.children_view(), self.0.index as int)
            },
        }
    }

    /// The child element at `i`: the `i`-th green child, parented here, at
    /// this node's offset plus the lengths of the children before it.
    pub closed spec fn child_elem(&self, i: int) -> SyntaxElement {
        let c = self.0.green.children_view()[i];
        let off = (self.0.offset + prefix_len(self.0.green.children_view(), i)) as u32;
        match c {
            GreenElement::Node(n) => SyntaxElement::Node(
                SyntaxNode(Rc::new(NodeData { green: n, parent: Some(*self), offset: off, index: i as usize })),
            ),
            GreenElement::Token(t) => SyntaxElement::Token(
                SyntaxToken { green: t, parent: *self, offset: off, index: i as usize },
            ),
        }
    }

    /// The number of children.
    pub open spec fn child_count(&self) -> int {
        self.green_view().children_view().len() as int
    }

    /// All child elements, in order.
    pub open spec fn child_elems(&self) -> Seq<SyntaxElement> {
        Seq::new(self.child_count() as nat, |i: int| self.child_elem(i))
    }
}

impl SyntaxToken {
    /// The green token this handle stands for.
    pub closed spec fn green_view(&self) -> GreenToken {
        *self.green
    }

    /// The absolute byte offset of the token's start.
    pub closed spec fn offset_view(&self) -> u32 {
        self.offset
    }

    /// The position among the parent's children.
    pub closed spec fn index_view(&self) -> usize {
        self.index
    }

    /// The parent handle.
    pub closed spec fn parent_view(&self) -> SyntaxNode {
        self.parent
    }

    /// The handle is consistent: it sits at its index in its parent's
    /// green children, at the parent's offset plus the lengths of the
    /// children before it.
    pub closed spec fn wf(&self) -> bool {
        &&& self.parent.wf()
        &&& (self.index as int) < self.parent.0.green.children_view().len()
        &&& self.parent.0.green.children_view()[self.index as int] == GreenElement::Token(self.green)
        &&& self.offset as nat == self.parent.0.offset as nat + prefix_len(self.parent.0.green.children_view(), self.index as int)
    }
}

/// The element's kind.
pub open spec fn element_kind(e: SyntaxElement) -> SyntaxKind {
    match e {
        SyntaxElement::Node(n) => n.green_view().kind_view(),
        SyntaxElement::Token(t) => t.green_view().kind_view(),
    }
}

/// The element's absolute byte range.
pub open spec fn element_range(e: SyntaxElement) -> (int, int) {
    match e {
        SyntaxElement::Node(n) => (n.offset_view() as int, n.offset_view() + byte_len(n.green_view().text_view())),
        SyntaxElement::Token(t) => (t.offset_view() as int, t.offset_view() + byte_len(t.green_view().text_view())),
    }
}

/// The element's handle is consistent.
pub open spec fn element_wf(e: SyntaxElement) -> bool {
    match e {
        SyntaxElement::Node(n) => n.wf(),
        SyntaxElement::Token(t) => t.wf(),
    }
}

/// A child element of a consistent node is consistent, sits at the
/// parent's offset plus the lengths of the children before it, and
/// carries the green child's kind and length.
pub proof fn lemma_child_elem(n: SyntaxNode, i: int)
    requires
        n.wf(),
        0 <= i < n.child_count(),
    ensures
        element_wf(n.child_elem(i)),
        element_kind(n.child_elem(i)) == elem_kind(n.green_view().children_view()[i]),
        element_range(n.child_elem(i)).0 == n.offset_view() + prefix_len(n.green_view().children_view(), i),
        element_range(n.child_elem(i)).1 == n.offset_view() + prefix_len(n.green_view().children_view(), i + 1),
        element_range(n.child_elem(i)).1 <= n.offset_view() + byte_len(n.green_view().text_view()),
        match n.child_elem(i) {
            SyntaxElement::Node(c) => c.parent_view() == Some(n) && c.index_view() == i
                && n.green_view().children_view()[i] == GreenElement::Node(Rc::new(c.green_view())),
            SyntaxElement::Token(t) => t.parent_view() == n && t.index_view() == i
                && n.green_view().children_view()[i] == GreenElement::Token(Rc::new(t.green_view())),
        },
{
    let g = n.0.green;
    lemma_node_wf(&*g);
    let cs = g.children_view();
    lemma_prefix_len_mono(cs, i + 1, cs.len() as int);
    lemma_children_len(&*g);
    let c = cs[i];
    lemma_elem_wf(c);
    lemma_elem_text(c);
    assert(prefix_len(cs, i + 1) == prefix_len(cs, i) + elem_len(c));
    let off = (n.0.offset + prefix_len(cs, i)) as u32;
    assert(off as nat == n.0.offset as nat + prefix_len(cs, i));
    match c {
        GreenElement::Node(m) => {
            lemma_node_wf(&*m);
            let ch = SyntaxNode(Rc::new(NodeData { green: m, parent: Some(n), offset: off, index: i as usize }));
            assert(n.child_elem(i) == SyntaxElement::Node(ch));
            assert(ch.0.index as int == i);
            assert(ch.wf());
        },
        GreenElement::Token(t) => {
            let tk = SyntaxToken { green: t, parent: n, offset: off, index: i as usize };
            assert(n.child_elem(i) == SyntaxElement::Token(tk));
            assert(tk.wf());
        },
    }
}

impl SyntaxNode {
    /// Another handle to the same node.
    pub(crate) fn share(&self) -> (r: SyntaxNode)
        ensures
            r == *self,
    {
        SyntaxNode(Rc::clone(&self.0))
    }

    /// A root handle over `green`, at offset 0.
    pub fn new_root(green: Rc<GreenNode>) -> (r: SyntaxNode)
        requires
            green.wf(),
        ensures
            r.wf(),
            r.green_view() == *green,
            r.offset_view() == 0,
            r.index_view() == 0,
            r.parent_view() is None,
    {
        proof { lemma_node_wf(&*green); }
        SyntaxNode(Rc::new(NodeData { green, parent: None, offset: 0, index: 0 }))
    }

    pub fn kind(&self) -> (r: SyntaxKind)
        ensures
            r == self.green_view().kind_view(),
    {
        self.0.green.kind()
    }

    /// The node's absolute byte range.
    pub fn text_range(&self) -> (r: TextRange)
        requires
            self.wf(),
        ensures
            r.start == self.offset_view(),
            r.end == self.offset_view() + byte_len(self.green_view().text_view()),
    {
        let len = self.0.green.text_len();
        TextRange::new(self.0.offset, self.0.offset + len)
    }

    /// The parent node, if any.
    pub fn parent(&self) -> (r: Option<SyntaxNode>)
        requires
            self.wf(),
        ensures
            r == self.parent_view(),
            r matches Some(p) ==> p.wf(),
    {
        match &self.0.parent {
            Some(p) => Some(p.share()),
            None => None,
        }
    }

    /// The green subtree.
    pub fn green(&self) -> (r: &Rc<GreenNode>)
        ensures
            **r == self.green_view(),
    {
        &self.0.green
    }

    /// The subtree's full text.
    pub fn text(&self) -> (r: String)
        ensures
            r@ == self.green_view().text_view(),
    {
        self.0.green.text()
    }
}

/// The tokens contributed by the first `k` children of `n`, in document
/// order (a token child itself, a node child all of its tokens).
pub closed spec fn tokens_upto(n: SyntaxNode, k: int) -> Seq<SyntaxToken>
    decreases n.green_view(), k,
{
    if k <= 0 || k > n.child_count() {
        seq![]
    } else {
        let prev = tokens_upto(n, k - 1);
        match n.child_elem(k - 1) {
            SyntaxElement::Token(t) => prev.push(t),
            SyntaxElement::Node(c) => {
                proof {
                    if let GreenElement::Node(m) = n.green_view().children_view()[k - 1] {
                        lemma_child_decreases(n.green_view(), k - 1, m);
                    }
                }
                prev + tokens_of(c)
            },
        }
    }
}

/// Every token of the subtree, in document order.
pub closed spec fn tokens_of(n: SyntaxNode) -> Seq<SyntaxToken>
    decreases n.green_view(), n.child_count() + 1,
{
    tokens_upto(n, n.child_count())
}

/// The first token of a sequence, if any.
pub open spec fn first_of(s: Seq<SyntaxToken>) -> Option<SyntaxToken> {
    if s.len() == 0 { None } else { Some(s[0]) }
}

/// The last token of a sequence, if any.
pub open spec fn last_of(s: Seq<SyntaxToken>) -> Option<SyntaxToken> {
    if s.len() == 0 { None } else { Some(s.last()) }
}

/// The node children among the first `k` children, in order.
pub closed spec fn nodes_upto(n: SyntaxNode, k: int) -> Seq<SyntaxNode>
    decreases k,
{
    if k <= 0 || k > n.child_count() {
        seq![]
    } else {
        match n.child_elem(k - 1) {
            SyntaxElement::Node(c) => nodes_upto(n, k - 1).push(c),
            SyntaxElement::Token(_) => nodes_upto(n, k - 1),
        }
    }
}

/// The node's child nodes, in document order.
pub open spec fn child_nodes(n: SyntaxNode) -> Seq<SyntaxNode> {
    nodes_upto(n, n.child_count())
}

/// The parent chain, nearest first (not including `n`).
pub closed spec fn ancestors_of(n: SyntaxNode) -> Seq<SyntaxNode>
    decreases n,
{
    match n.0.parent {
        None => seq![],
        Some(p) => seq![p] + ancestors_of(p),
    }
}

/// How many ancestors `n` has.
pub closed spec fn depth_of(n: SyntaxNode) -> nat
    decreases n,
{
    match n.0.parent {
        None => 0,
        Some(p) => depth_of(p) + 1,
    }
}

/// Tokens of a shorter prefix of children start the tokens of a longer.
proof fn lemma_tokens_upto_prefix(n: SyntaxNode, k: int, m: int)
    requires
        0 <= k <= m <= n.child_count(),
    ensures
        tokens_upto(n, k).len() <= tokens_upto(n, m).len(),
        forall|i: int| 0 <= i < tokens_upto(n, k).len() ==> #[trigger] tokens_upto(n, m)[i] == tokens_upto(n, k)[i],
    decreases m - k,
{
    if k < m {
        lemma_tokens_upto_prefix(n, k, m - 1);
    }
}

/// The texts of a token sequence, concatenated in order.
pub open spec fn tokens_text(ts: Seq<SyntaxToken>) -> Seq<char>
    decreases ts.len(),
{
    if ts.len() == 0 {
        seq![]
    } else {
        tokens_text(ts.drop_last()) + ts.last().green_view().text_view()
    }
}

/// The texts of two token runs concatenate.
proof fn lemma_tokens_text_concat(a: Seq<SyntaxToken>, b: Seq<SyntaxToken>)
    ensures
        tokens_text(a + b) == tokens_text(a) + tokens_text(b),
    decreases b.len(),
{
    if b.len() == 0 {
        assert(a + b =~= a);
        assert(tokens_text(a) + tokens_text(b) =~= tokens_text(a));
    } else {
        lemma_tokens_text_concat(a, b.drop_last());
        assert((a + b).drop_last() =~= a + b.drop_last());
        assert((a + b).last() == b.last());
        let l = b.last().green_view().text_view();
        assert(tokens_text(a) + tokens_text(b.drop_last()) + l =~= tokens_text(a) + (tokens_text(b.drop_last()) + l));
    }
}

/// The tokens of the first `k` children carry those children's text,
/// each consistent and starting where the texts before it end.
proof fn lemma_tokens_upto_tile(n: SyntaxNode, k: int)
    requires
        n.wf(),
        0 <= k <= n.child_count(),
    ensures
        tokens_text(tokens_upto(n, k)) == children_text(n.green_view().children_view().take(k)),
        forall|i: int| 0 <= i < tokens_upto(n, k).len() ==> (#[trigger] tokens_upto(n, k)[i]).wf()
            && tokens_upto(n, k)[i].offset_view() == n.offset_view() + byte_len(tokens_text(tokens_upto(n, k).take(i))),
    decreases n.green_view(), k,
{
    let cs = n.green_view().children_view();
    if k == 0 {
        assert(cs.take(0) =~= Seq::<GreenElement>::empty());
        lemma_children_text_push(cs.take(0), cs[0]);
    } else {
        lemma_tokens_upto_tile(n, k - 1);
        lemma_child_elem(n, k - 1);
        let prev = tokens_upto(n, k - 1);
        assert(cs.take(k) =~= cs.take(k - 1).push(cs[k - 1]));
        lemma_children_text_push(cs.take(k - 1), cs[k - 1]);
        lemma_children_text_len(cs, k - 1);
        lemma_elem_text(cs[k - 1]);
        match n.child_elem(k - 1) {
            SyntaxElement::Token(t) => {
                let cur = prev.push(t);
                assert(tokens_upto(n, k) == cur);
                assert(cur.drop_last() =~= prev);
                assert forall|i: int| 0 <= i < cur.len() implies (#[trigger] cur[i]).wf()
                    && cur[i].offset_view() == n.offset_view() + byte_len(tokens_text(cur.take(i))) by {
                    if i < prev.len() {
                        assert(cur[i] == prev[i]);
                        assert(cur.take(i) =~= prev.take(i));
                    } else {
                        assert(cur.take(i) =~= prev);
                    }
                }
            },
            SyntaxElement::Node(c) => {
                if let GreenElement::Node(m) = cs[k - 1] {
                    lemma_child_decreases(n.green_view(), k - 1, m);
                }
                law_tokens_tile_node(c);
                let ts = tokens_of(c);
                let cur = prev + ts;
                assert(tokens_upto(n, k) == cur);
                lemma_tokens_text_concat(prev, ts);
                assert forall|i: int| 0 <= i < cur.len() implies (#[trigger] cur[i]).wf()
                    && cur[i].offset_view() == n.offset_view() + byte_len(tokens_text(cur.take(i))) by {
                    if i < prev.len() {
                        assert(cur[i] == prev[i]);
                        assert(cur.take(i) =~= prev.take(i));
                    } else {
                        let j = i - prev.len();
                        assert(cur[i] == ts[j]);
                        assert(cur.take(i) =~= prev + ts.take(j));
                        lemma_tokens_text_concat(prev, ts.take(j));
                        lemma_byte_len_concat(tokens_text(prev), tokens_text(ts.take(j)));
                    }
                }
            },
        }
    }
}

/// A node's tokens, at every depth and in document order, tile it: their
/// texts concatenate to the node's text, and each token starts where the
/// texts before it end (the first at the node's start), so their ranges
/// cover the node's range in order without gap or overlap.
pub proof fn law_tokens_tile_node(n: SyntaxNode)
    requires
        n.wf(),
    ensures
        tokens_text(tokens_of(n)) == n.green_view().text_view(),
        forall|i: int| 0 <= i < tokens_of(n).len() ==> (#[trigger] tokens_of(n)[i]).wf()
            && tokens_of(n)[i].offset_view() == n.offset_view() + byte_len(tokens_text(tokens_of(n).take(i))),
    decreases n.green_view(), n.child_count() + 1,
{
    lemma_tokens_upto_tile(n, n.child_count());
    lemma_node_wf(&n.green_view());
    assert(n.green_view().children_view().take(n.child_count()) =~= n.green_view().children_view());
}

/// The ancestors are the parent, then the parent's ancestors, nearest
/// first; a root has none, and the chain ends at a root.
pub proof fn law_ancestors_walk_to_the_root(n: SyntaxNode)
    ensures
        ancestors_of(n) == match n.parent_view() {
            None => Seq::<SyntaxNode>::empty(),
            Some(p) => seq![p] + ancestors_of(p),
        },
        ancestors_of(n).len() > 0 ==> ancestors_of(n).last().parent_view() is None,
    decreases n,
{
    if let Some(p) = n.0.parent {
        law_ancestors_walk_to_the_root(p);
        if ancestors_of(p).len() > 0 {
            assert((seq![p] + ancestors_of(p)).last() == ancestors_of(p).last());
        }
    }
}

impl SyntaxNode {
    /// The child element at `idx` (none past the last child), built alone:
    /// its offset sums the preceding green children's lengths.
    pub fn nth_child_element(&self, idx: usize) -> (r: Option<SyntaxElement>)
        requires
            self.wf(),
        ensures
            (idx as int) < self.child_count() ==> r == Some(self.child_elem(idx as int)),
            (idx as int) >= self.child_count() ==> r is None,
    {
        let children = self.0.green.children();
        if idx >= children.len() {
            return None;
        }
        proof {
            lemma_node_wf(&*self.0.green);
            lemma_prefix_len_mono(children@, idx as int, children@.len() as int);
        }
        let mut offset = self.0.offset;
        let mut j: usize = 0;
        while j < idx
            invariant
                j <= idx,
                (idx as int) < children@.len(),
                children@ == self.green_view().children_view(),
                forall|t: int| 0 <= t < children@.len() ==> elem_wf(#[trigger] children@[t]),
                prefix_len(children@, idx as int) + self.offset_view() <= u32::MAX,
                offset as nat == self.offset_view() + prefix_len(children@, j as int),
            decreases idx - j,
        {
            proof { lemma_prefix_len_mono(children@, j + 1, idx as int); }
            offset = offset + children[j].text_len();
            j = j + 1;
        }
        let r = match &children[idx] {
            GreenElement::Node(n) => SyntaxElement::Node(
                SyntaxNode(Rc::new(NodeData { green: Rc::clone(n), parent: Some(self.share()), offset, index: idx })),
            ),
            GreenElement::Token(t) => SyntaxElement::Token(
                SyntaxToken { green: Rc::clone(t), parent: self.share(), offset, index: idx },
            ),
        };
        Some(r)
    }

    /// All children, nodes and tokens, in document order.
    pub fn children_with_tokens(&self) -> (r: Vec<SyntaxElement>)
        requires
            self.wf(),
        ensures
            r@.len() == self.child_count(),
            forall|i: int| 0 <= i < r@.len() ==> #[trigger] r@[i] == self.child_elem(i),
    {
        let children = self.0.green.children();
        proof {
            lemma_node_wf(&*self.0.green);
        }
        let mut out: Vec<SyntaxElement> = Vec::new();
        let mut offset = self.0.offset;
        let mut j: usize = 0;
        while j < children.len()
            invariant
                j <= children@.len(),
                children@ == self.green_view().children_view(),
                forall|t: int| 0 <= t < children@.len() ==> elem_wf(#[trigger] children@[t]),
                prefix_len(children@, children@.len() as int) + self.offset_view() <= u32::MAX,
                offset as nat == self.offset_view() + prefix_len(children@, j as int),
                out@.len() == j,
                forall|i: int| 0 <= i < j ==> #[trigger] out@[i] == self.child_elem(i),
                self.wf(),
            decreases children@.len() - j,
        {
            let e = match &children[j] {
                GreenElement::Node(n) => SyntaxElement::Node(
                    SyntaxNode(Rc::new(NodeData { green: Rc::clone(n), parent: Some(self.share()), offset, index: j })),
                ),
                GreenElement::Token(t) => SyntaxElement::Token(
                    SyntaxToken { green: Rc::clone(t), parent: self.share(), offset, index: j },
                ),
            };
            out.push(e);
            proof { lemma_prefix_len_mono(children@, j + 1, children@.len() as int); }
            offset = offset + children[j].text_len();
            j = j + 1;
        }
        out
    }

    /// Child nodes only, in document order.
    pub fn children(&self) -> (r: Vec<SyntaxNode>)
        requires
            self.wf(),
        ensures
            r@ == child_nodes(*self),
            forall|i: int| 0 <= i < r@.len() ==> (#[trigger] r@[i]).wf(),
    {
        let all = self.children_with_tokens();
        let mut out: Vec<SyntaxNode> = Vec::new();
        let mut j: usize = 0;
        while j < all.len()
            invariant
                j <= all@.len(),
                all@.len() == self.child_count(),
                forall|i: int| 0 <= i < all@.len() ==> #[trigger] all@[i] == self.child_elem(i),
                out@ == nodes_upto(*self, j as int),
                forall|i: int| 0 <= i < out@.len() ==> (#[trigger] out@[i]).wf(),
                self.wf(),
            decreases all@.len() - j,
        {
            proof { lemma_child_elem(*self, j as int); }
            match &all[j] {
                SyntaxElement::Node(n) => {
                    out.push(n.share());
                },
                SyntaxElement::Token(_) => {},
            }
            j = j + 1;
        }
        out
    }

    /// The parent chain, nearest first; does not include `self`.
    pub fn ancestors(&self) -> (r: Vec<SyntaxNode>)
        requires
            self.wf(),
        ensures
            r@ == ancestors_of(*self),
    {
        let mut out: Vec<SyntaxNode> = Vec::new();
        let mut cur = self.parent();
        proof {
            assert(ancestors_of(*self) == match cur { None => Seq::<SyntaxNode>::empty(), Some(p) => seq![p] + ancestors_of(p) });
        }
        while cur.is_some()
            invariant
                cur matches Some(p) ==> p.wf(),
                ancestors_of(*self) == out@ + match cur { None => Seq::<SyntaxNode>::empty(), Some(p) => seq![p] + ancestors_of(p) },
            decreases match cur { None => 0, Some(p) => depth_of(p) + 1 },
        {
            let p = cur.unwrap();
            let next = p.parent();
            proof {
                assert(ancestors_of(p) == match next { None => Seq::<SyntaxNode>::empty(), Some(q) => seq![q] + ancestors_of(q) });
                assert(out@.push(p) + ancestors_of(p) =~= out@ + (seq![p] + ancestors_of(p)));
            }
            out.push(p);
            cur = next;
        }
        assert(out@ + Seq::<SyntaxNode>::empty() =~= out@);
        out
    }

    /// The element immediately before this node among its parent's
    /// children, tokens included.
    pub fn prev_sibling_or_token(&self) -> (r: Option<SyntaxElement>)
        requires
            self.wf(),
        ensures
            r == match self.parent_view() {
                None => None,
                Some(p) => if self.index_view() == 0 { None } else { Some(p.child_elem(self.index_view() - 1)) },
            },
    {
        let parent = match self.parent() {
            None => {
                return None;
            },
            Some(p) => p,
        };
        let idx = self.0.index;
        if idx == 0 {
            return None;
        }
        parent.nth_child_element(idx - 1)
    }

    /// The element immediately after this node among its parent's
    /// children, tokens included.
    pub fn next_sibling_or_token(&self) -> (r: Option<SyntaxElement>)
        requires
            self.wf(),
        ensures
            r == match self.parent_view() {
                None => None,
                Some(p) => if self.index_view() + 1 < p.child_count() { Some(p.child_elem(self.index_view() + 1)) } else { None },
            },
    {
        let parent = match self.parent() {
            None => {
                return None;
            },
            Some(p) => p,
        };
        proof { lemma_children_len(&*parent.0.green); }
        parent.nth_child_element(self.0.index + 1)
    }

    /// First token of the subtree, in document order.
    pub fn first_token(&self) -> (r: Option<SyntaxToken>)
        requires
            self.wf(),
        ensures
            r == first_of(tokens_of(*self)),
        decreases self.green_view(),
    {
        let kids = self.children_with_tokens();
        let mut i: usize = 0;
        while i < kids.len()
            invariant
                i <= kids@.len(),
                kids@.len() == self.child_count(),
                forall|t: int| 0 <= t < kids@.len() ==> #[trigger] kids@[t] == self.child_elem(t),
                tokens_upto(*self, i as int).len() == 0,
                self.wf(),
            decreases kids@.len() - i,
        {
            proof {
                lemma_child_elem(*self, i as int);
                lemma_tokens_upto_prefix(*self, i + 1, self.child_count());
            }
            match &kids[i] {
                SyntaxElement::Token(t) => {
                    proof { assert(tokens_upto(*self, i + 1)[0] == *t); }
                    return Some(t.share());
                },
                SyntaxElement::Node(c) => {
                    proof {
                        if let GreenElement::Node(m) = self.green_view().children_view()[i as int] {
                            lemma_child_decreases(self.green_view(), i as int, m);
                        }
                    }
                    let found = c.first_token();
                    if found.is_some() {
                        proof {
                            assert(tokens_upto(*self, i + 1) =~= tokens_upto(*self, i as int) + tokens_of(*c));
                            assert(tokens_upto(*self, i + 1)[0] == tokens_of(*c)[0]);
                        }
                        return found;
                    }
                },
            }
            i = i + 1;
        }
        None
    }
}

impl SyntaxToken {
    /// Another handle to the same token.
    pub(crate) fn share(&self) -> (r: SyntaxToken)
        ensures
            r == *self,
    {
        SyntaxToken { green: Rc::clone(&self.green), parent: self.parent.share(), offset: self.offset, index: self.index }
    }
}

impl SyntaxNode {
    /// Last token of the subtree, in document order: one reverse walk over
    /// the children per level, descending only into nodes actually visited.
    pub fn last_token(&self) -> (r: Option<SyntaxToken>)
        requires
            self.wf(),
        ensures
            r == last_of(tokens_of(*self)),
        decreases self.green_view(),
    {
        let kids = self.children_with_tokens();
        let mut i: usize = kids.len();
        while i > 0
            invariant
                i <= kids@.len(),
                kids@.len() == self.child_count(),
                forall|t: int| 0 <= t < kids@.len() ==> #[trigger] kids@[t] == self.child_elem(t),
                tokens_of(*self) == tokens_upto(*self, i as int),
                self.wf(),
            decreases i,
        {
            let j = i - 1;
            proof {
                lemma_child_elem(*self, j as int);
            }
            match &kids[j] {
                SyntaxElement::Token(t) => {
                    return Some(t.share());
                },
                SyntaxElement::Node(c) => {
                    proof {
                        if let GreenElement::Node(m) = self.green_view().children_view()[j as int] {
                            lemma_child_decreases(self.green_view(), j as int, m);
                        }
                    }
                    let found = c.last_token();
                    if found.is_some() {
                        return found;
                    }
                    proof {
                        assert(tokens_upto(*self, i as int) =~= tokens_upto(*self, j as int));
                    }
                },
            }
            i = j;
        }
        None
    }

    /// Every token of the subtree, document order, all depths.
    pub fn descendant_tokens(&self) -> (r: Vec<SyntaxToken>)
        requires
            self.wf(),
        ensures
            r@ == tokens_of(*self),
            forall|i: int| 0 <= i < r@.len() ==> (#[trigger] r@[i]).wf(),
        decreases self.green_view(),
    {
        let kids = self.children_with_tokens();
        let mut out: Vec<SyntaxToken> = Vec::new();
        let mut i: usize = 0;
        while i < kids.len()
            invariant
                i <= kids@.len(),
                kids@.len() == self.child_count(),
                forall|t: int| 0 <= t < kids@.len() ==> #[trigger] kids@[t] == self.child_elem(t),
                out@ == tokens_upto(*self, i as int),
                forall|t: int| 0 <= t < out@.len() ==> (#[trigger] out@[t]).wf(),
                self.wf(),
            decreases kids@.len() - i,
        {
            proof {
                lemma_child_elem(*self, i as int);
            }
            match &kids[i] {
                SyntaxElement::Token(t) => {
                    out.push(t.share());
                },
                SyntaxElement::Node(c) => {
                    proof {
                        if let GreenElement::Node(m) = self.green_view().children_view()[i as int] {
                            lemma_child_decreases(self.green_view(), i as int, m);
                        }
                    }
                    let mut sub = c.descendant_tokens();
                    let ghost before = out@;
                    out.append(&mut sub);
                    proof {
                        assert forall|t: int| 0 <= t < out@.len() implies (#[trigger] out@[t]).wf() by {
                            if t >= before.len() {
                                assert(out@[t] == tokens_of(*c)[t - before.len()]);
                            } else {
                                assert(out@[t] == before[t]);
                            }
                        }
                    }
                },
            }
            i = i + 1;
        }
        out
    }
}

impl SyntaxToken {
    pub fn kind(&self) -> (r: SyntaxKind)
        ensures
            r == self.green_view().kind_view(),
    {
        self.green.kind()
    }

    pub fn text(&self) -> (r: &str)
        ensures
            r@ == self.green_view().text_view(),
    {
        self.green.text()
    }

    /// The token's absolute byte range.
    pub fn text_range(&self) -> (r: TextRange)
        requires
            self.wf(),
        ensures
            r.start == self.offset_view(),
            r.end == self.offset_view() + byte_len(self.green_view().text_view()),
    {
        proof {
            lemma_child_elem(self.parent, self.index as int);
            assert(self.parent.child_elem(self.index as int) == SyntaxElement::Token(*self));
        }
        let len = self.green.text_len();
        TextRange::new(self.offset, self.offset + len)
    }

    /// The node the token sits in.
    pub fn parent(&self) -> (r: SyntaxNode)
        requires
            self.wf(),
        ensures
            r == self.parent_view(),
            r.wf(),
    {
        self.parent.share()
    }

    /// The element immediately before this token among its parent's
    /// children, tokens included.
    pub fn prev_sibling_or_token(&self) -> (r: Option<SyntaxElement>)
        requires
            self.wf(),
        ensures
            r == if self.index_view() == 0 { None } else { Some(self.parent_view().child_elem(self.index_view() - 1)) },
    {
        let idx = self.index;
        if idx == 0 {
            return None;
        }
        self.parent.nth_child_element(idx - 1)
    }

    /// The element immediately after this token among its parent's
    /// children, tokens included.
    pub fn next_sibling_or_token(&self) -> (r: Option<SyntaxElement>)
        requires
            self.wf(),
        ensures
            r == if self.index_view() + 1 < self.parent_view().child_count() {
                Some(self.parent_view().child_elem(self.index_view() + 1))
            } else {
                None
            },
    {
        proof { lemma_children_len(&*self.parent.0.green); }
        self.parent.nth_child_element(self.index + 1)
    }
}

impl SyntaxElement {
    pub fn kind(&self) -> (r: SyntaxKind)
        ensures
            r == element_kind(*self),
    {
        match self {
            SyntaxElement::Node(n) => n.kind(),
            SyntaxElement::Token(t) => t.kind(),
        }
    }

    /// The element's absolute byte range.
    pub fn text_range(&self) -> (r: TextRange)
        requires
            element_wf(*self),
        ensures
            (r.start as int, r.end as int) == element_range(*self),
    {
        match self {
            SyntaxElement::Node(n) => n.text_range(),
            SyntaxElement::Token(t) => t.text_range(),
        }
    }
}

/// A node's children tile its range: the first starts where the node
/// starts, each starts where the previous ends, and the last ends where
/// the node ends (an empty node's range is empty).
pub proof fn law_children_tile_parent(n: SyntaxNode)
    requires
        n.wf(),
    ensures
        n.child_count() > 0 ==> element_range(n.child_elem(0)).0 == n.offset_view(),
        forall|i: int| 0 <= i < n.child_count() - 1 ==> element_range(#[trigger] n.child_elem(i)).1 == element_range(n.child_elem(i + 1)).0,
        n.child_count() > 0 ==> element_range(n.child_elem(n.child_count() - 1)).1 == n.offset_view() + byte_len(n.green_view().text_view()),
        n.child_count() == 0 ==> byte_len(n.green_view().text_view()) == 0,
{
    lemma_node_wf(&*n.0.green);
    if n.child_count() > 0 {
        lemma_child_elem(n, 0);
        lemma_child_elem(n, n.child_count() - 1);
    }
    assert forall|i: int| 0 <= i < n.child_count() - 1 implies element_range(#[trigger] n.child_elem(i)).1 == element_range(n.child_elem(i + 1)).0 by {
        lemma_child_elem(n, i);
        lemma_child_elem(n, i + 1);
    }
}

/// Two spaces per nesting level.
pub open spec fn indent_text(depth: nat) -> Seq<char>
    decreases depth,
{
    if depth == 0 {
        seq![]
    } else {
        indent_text((depth - 1) as nat) + seq![' ', ' ']
    }
}

/// The ASCII digit for `d < 10`.
pub open spec fn digit_char(d: nat) -> char {
    (d + 48) as char
}

/// The decimal numeral of `n`, without leading zeros.
pub open spec fn decimal(n: nat) -> Seq<char>
    decreases n,
{
    if n < 10 {
        seq![digit_char(n)]
    } else {
        decimal(n / 10).push(digit_char(n % 10))
    }
}

/// What `{:?}` renders for a string: the text quoted, with escapes.
pub uninterp spec fn debug_escaped(s: Seq<char>) -> Seq<char>;

/// One dump line: indentation, kind name, `@start..end`, for a token a
/// space and its quoted text, then a line break.
pub open spec fn row_text(r: DumpRow, name: Seq<char>) -> Seq<char> {
    indent_text(r.depth) + name + seq!['@'] + decimal(r.start as nat) + seq!['.', '.'] + decimal(r.end as nat)
        + match r.text {
            Some(t) => seq![' '] + debug_escaped(t),
            None => Seq::<char>::empty(),
        } + seq!['\n']
}

/// The dump lines, each with its kind's name, in order.
pub open spec fn render(rows: Seq<DumpRow>, names: Seq<String>) -> Seq<char>
    decreases rows.len(),
{
    if rows.len() == 0 {
        seq![]
    } else {
        render(rows.drop_last(), names.drop_last()) + row_text(rows.last(), names.last()@)
    }
}

/// `names` are what `kind_name` may return for the rows' kinds, one each.
pub open spec fn names_for<F: Fn(SyntaxKind) -> String>(kind_name: F, rows: Seq<DumpRow>, names: Seq<String>) -> bool {
    &&& names.len() == rows.len()
    &&& forall|i: int| 0 <= i < rows.len() ==> call_ensures(kind_name, (#[trigger] rows[i].kind,), names[i])
}

/// Rendering distributes over concatenation.
proof fn lemma_render_concat(r1: Seq<DumpRow>, n1: Seq<String>, r2: Seq<DumpRow>, n2: Seq<String>)
    requires
        r1.len() == n1.len(),
        r2.len() == n2.len(),
    ensures
        render(r1 + r2, n1 + n2) == render(r1, n1) + render(r2, n2),
    decreases r2.len(),
{
    if r2.len() == 0 {
        assert(r1 + r2 =~= r1);
        assert(n1 + n2 =~= n1);
        assert(render(r1, n1) + render(r2, n2) =~= render(r1, n1));
    } else {
        lemma_render_concat(r1, n1, r2.drop_last(), n2.drop_last());
        assert((r1 + r2).drop_last() =~= r1 + r2.drop_last());
        assert((n1 + n2).drop_last() =~= n1 + n2.drop_last());
        assert(render(r1 + r2, n1 + n2) =~= render(r1, n1) + render(r2.drop_last(), n2.drop_last()) + row_text(r2.last(), n2.last()@));
    }
}

/// `{:?}` of a string: its text quoted, with escapes.
#[verifier::external_body]
fn debug_text(s: &str) -> (r: String)
    ensures
        r@ == debug_escaped(s@),
{
    format!("{:?}", s)
}

/// Append the decimal numeral of `n`.
pub(crate) fn push_decimal(out: &mut String, n: u64)
    ensures
        final(out)@ == old(out)@ + decimal(n as nat),
    decreases n,
{
    if n >= 10 {
        push_decimal(out, n / 10);
    }
    let d: u8 = (n % 10) as u8;
    let c: char = (d + 48u8) as char;
    proof {
        assert(c == digit_char((n % 10) as nat));
    }
    push_char(out, c);
    proof {
        if n >= 10 {
            assert(decimal(n as nat) == decimal((n / 10) as nat).push(digit_char((n % 10) as nat)));
        }
    }
}

/// Append `depth`'s indentation, `name`, and the `@start..end` range.
fn push_row_head(out: &mut String, indent: &String, name: &String, range: TextRange)
    ensures
        final(out)@ == old(out)@ + indent@ + name@ + seq!['@'] + decimal(range.start as nat) + seq!['.', '.']
            + decimal(range.end as nat),
{
    out.append(indent.as_str());
    out.append(name.as_str());
    push_char(out, '@');
    push_decimal(out, range.start as u64);
    push_char(out, '.');
    push_char(out, '.');
    push_decimal(out, range.end as u64);
    proof {
        assert(out@ =~= old(out)@ + indent@ + name@ + seq!['@'] + decimal(range.start as nat) + seq!['.', '.']
            + decimal(range.end as nat));
    }
}

/// Append the dump of `node` at `depth`; returns the kind names used, one
/// per line.
fn dump_node<F: Fn(SyntaxKind) -> String>(
    node: &SyntaxNode,
    kind_name: &F,
    indent: &String,
    Ghost(depth): Ghost<nat>,
    out: &mut String,
) -> (names: Ghost<Seq<String>>)
    requires
        node.wf(),
        indent@ == indent_text(depth),
        forall|k: SyntaxKind| call_requires(*kind_name, (k,)),
    ensures
        names_for(*kind_name, node_rows(node.green_view(), node.offset_view() as int, depth), names@),
        final(out)@ == old(out)@ + render(node_rows(node.green_view(), node.offset_view() as int, depth), names@),
    decreases node.green_view(),
{
    let ghost g = node.green_view();
    let ghost off = node.offset_view() as int;
    let ghost head = node_rows(g, off, depth)[0];
    let range = node.text_range();
    let name = kind_name(node.kind());
    push_row_head(out, indent, &name, range);
    push_char(out, '\n');
    let ghost mut names: Seq<String> = seq![name];
    proof {
        assert(render(seq![head], names) =~= row_text(head, name@)) by {
            assert(seq![head].drop_last() =~= Seq::<DumpRow>::empty());
            assert(names.drop_last() =~= Seq::<String>::empty());
            assert(render(Seq::<DumpRow>::empty(), Seq::<String>::empty()) =~= Seq::<char>::empty());
            assert(seq![head].last() == head);
        }
        assert(out@ =~= old(out)@ + render(seq![head], names));
    }
    let mut child_indent = indent.clone();
    push_char(&mut child_indent, ' ');
    push_char(&mut child_indent, ' ');
    proof {
        assert(child_indent@ =~= indent_text(depth + 1));
    }
    let kids = node.children_with_tokens();
    let ghost cs = g.children_view();
    let mut i: usize = 0;
    proof {
        lemma_children_rows_take(cs, off, depth + 1, 0);
        assert(seq![head] + crate::syntax::green::children_rows(cs.take(0), off, depth + 1) =~= seq![head]);
    }
    while i < kids.len()
        invariant
            node.wf(),
            g == node.green_view(),
            off == node.offset_view() as int,
            cs == g.children_view(),
            i <= kids@.len(),
            kids@.len() == node.child_count(),
            forall|t: int| 0 <= t < kids@.len() ==> #[trigger] kids@[t] == node.child_elem(t),
            child_indent@ == indent_text(depth + 1),
            forall|k: SyntaxKind| call_requires(*kind_name, (k,)),
            names_for(*kind_name, seq![head] + crate::syntax::green::children_rows(cs.take(i as int), off, depth + 1), names),
            out@ == old(out)@ + render(seq![head] + crate::syntax::green::children_rows(cs.take(i as int), off, depth + 1), names),
        decreases kids@.len() - i,
    {
        proof {
            lemma_child_elem(*node, i as int);
            lemma_children_rows_take(cs, off, depth + 1, i as int);
            lemma_elem_rows(cs[i as int], off + prefix_len(cs, i as int), depth + 1);
        }
        let ghost before_rows = seq![head] + crate::syntax::green::children_rows(cs.take(i as int), off, depth + 1);
        let ghost before_names = names;
        let ghost elem_rows_i = crate::syntax::green::elem_rows(cs[i as int], off + prefix_len(cs, i as int), depth + 1);
        let ghost before_out = out@;
        match &kids[i] {
            SyntaxElement::Node(c) => {
                proof {
                    if let GreenElement::Node(m) = cs[i as int] {
                        lemma_child_decreases(g, i as int, m);
                    }
                }
                let sub = dump_node(c, kind_name, &child_indent, Ghost(depth + 1), out);
                proof {
                    names = names + sub@;
                    lemma_render_concat(before_rows, before_names, elem_rows_i, sub@);
                }
            },
            SyntaxElement::Token(t) => {
                let range = t.text_range();
                let tname = kind_name(t.kind());
                push_row_head(out, &child_indent, &tname, range);
                push_char(out, ' ');
                let esc = debug_text(t.text());
                out.append(esc.as_str());
                push_char(out, '\n');
                proof {
                    let row = elem_rows_i[0];
                    assert(elem_rows_i.len() == 1);
                    assert(render(elem_rows_i, seq![tname]) =~= row_text(row, tname@)) by {
                        assert(elem_rows_i.drop_last() =~= Seq::<DumpRow>::empty());
                        assert(seq![tname].drop_last() =~= Seq::<String>::empty());
                        assert(render(Seq::<DumpRow>::empty(), Seq::<String>::empty()) =~= Seq::<char>::empty());
                        assert(seq![tname].last() == tname);
                    }
                    assert(out@ =~= before_out + render(elem_rows_i, seq![tname]));
                    names = names + seq![tname];
                    lemma_render_concat(before_rows, before_names, elem_rows_i, seq![tname]);
                }
            },
        }
        proof {
            assert(before_rows + elem_rows_i =~= seq![head] + crate::syntax::green::children_rows(cs.take(i + 1), off, depth + 1));
            let rows = seq![head] + crate::syntax::green::children_rows(cs.take(i + 1), off, depth + 1);
            assert forall|j: int| 0 <= j < rows.len() implies call_ensures(*kind_name, (#[trigger] rows[j].kind,), names[j]) by {
                if j < before_rows.len() {
                    assert(rows[j] == before_rows[j]);
                    assert(names[j] == before_names[j]);
                } else {
                    assert(rows[j] == elem_rows_i[j - before_rows.len()]);
                }
            }
        }
        i = i + 1;
    }
    proof {
        lemma_children_rows_take(cs, off, depth + 1, 0);
        if cs.len() > 0 {
            lemma_children_rows_take(cs, off, depth + 1, cs.len() - 1);
        } else {
            assert(cs.take(0) =~= cs);
        }
    }
    Ghost(names)
}

/// Render an indented tree dump for debugging and golden tests: one line
/// per node and token in document order, two spaces of indentation per
/// level, `kind@start..end`, and for a token a space and its quoted text.
/// The caller supplies the kind names.
pub fn debug_dump<F: Fn(SyntaxKind) -> String>(node: &SyntaxNode, kind_name: &F) -> (r: String)
    requires
        node.wf(),
        forall|k: SyntaxKind| call_requires(*kind_name, (k,)),
    ensures
        exists|names: Seq<String>| names_for(*kind_name, node_rows(node.green_view(), node.offset_view() as int, 0), names)
            && r@ == render(node_rows(node.green_view(), node.offset_view() as int, 0), names),
{
    let mut out = String::new();
    let indent = String::new();
    let names = dump_node(node, kind_name, &indent, Ghost(0), &mut out);
    proof {
        assert(indent@ =~= indent_text(0));
        assert(out@ =~= render(node_rows(node.green_view(), node.offset_view() as int, 0), names@));
    }
    out
}

} // verus!
