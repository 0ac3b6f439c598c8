//! Green layer: immutable, structure-shared value trees. A green tree owns
//! its exact source text and knows nothing about absolute positions (the
//! red layer adds offsets on top). Whitespace and comments are ordinary
//! tokens, so the lossless contract is one law: the root's `text()` equals
//! the source.
//!
//! Kinds are opaque `u16`s owned by the language crates.

use std::rc::Rc;
use vstd::prelude::*;
use vstd::string::StringExecFns;
use vstd::utf8::encode_utf8;

verus! {

broadcast use vstd::std_specs::vec::axiom_vec_decreases_to_view;

/// An opaque syntax-kind tag; core only ever compares kinds for equality.
#[derive(Debug, Clone, Copy, PartialEq, Eq, Structural, Hash, PartialOrd, Ord)]
pub struct SyntaxKind(pub u16);

/// The UTF-8 length of a text, in bytes.
pub open spec fn byte_len(s: Seq<char>) -> nat {
    encode_utf8(s).len()
}

/// A leaf: one token and its exact source text.
#[derive(Debug, PartialEq, Eq)]
pub struct GreenToken {
    kind: SyntaxKind,
    text: String,
}

impl GreenToken {
    /// The token's kind.
    pub closed spec fn kind_view(&self) -> SyntaxKind {
        self.kind
    }

    /// The token's text.
    pub closed spec fn text_view(&self) -> Seq<char> {
        self.text@
    }

    /// A token of `kind` with text `text`.
    pub fn new(kind: SyntaxKind, text: &str) -> (r: Rc<GreenToken>)
        ensures
            r.kind_view() == kind,
            r.text_view() == text@,
    {
        Rc::new(GreenToken { kind, text: text.to_owned() })
    }

    pub fn kind(&self) -> (r: SyntaxKind)
        ensures
            r == self.kind_view(),
    {
        self.kind
    }

    pub fn text(&self) -> (r: &str)
        ensures
            r@ == self.text_view(),
    {
        self.text.as_str()
    }

    /// Length in bytes (offsets across the framework are byte offsets),
    /// as a `u32`.
    pub fn text_len(&self) -> (r: u32)
        ensures
            r == (byte_len(self.text_view()) as usize) as u32,
            byte_len(self.text_view()) <= u32::MAX ==> r as nat == byte_len(self.text_view()),
    {
        self.text.as_str().len() as u32
    }
}

/// One child slot of a green node.
#[derive(Debug, Clone, PartialEq, Eq)]
pub enum GreenElement {
    Node(Rc<GreenNode>),
    Token(Rc<GreenToken>),
}

/// An interior node: a kind plus children, with the subtree's total text
/// length cached.
#[derive(Debug, PartialEq, Eq)]
pub struct GreenNode {
    kind: SyntaxKind,
    text_len: u32,
    children: Vec<GreenElement>,
}

/// The text of a child slot.
pub closed spec fn elem_text(e: GreenElement) -> Seq<char>
    decreases e,
{
    match e {
        GreenElement::Node(n) => children_text(n.children@),
        GreenElement::Token(t) => t.text@,
    }
}

/// The concatenated text of a child list.
pub closed spec fn children_text(s: Seq<GreenElement>) -> Seq<char>
    decreases s,
{
    if s.len() == 0 {
        seq![]
    } else {
        children_text(s.drop_last()) + elem_text(s.last())
    }
}

/// Every node of the subtree caches its exact byte length, and it fits
/// in a `u32`.
pub closed spec fn elem_wf(e: GreenElement) -> bool
    decreases e,
{
    match e {
        GreenElement::Node(n) => children_wf(n.children@) && n.text_len as nat == byte_len(children_text(n.children@)),
        GreenElement::Token(t) => byte_len(t.text@) <= u32::MAX,
    }
}

/// Every child is well formed.
pub closed spec fn children_wf(s: Seq<GreenElement>) -> bool
    decreases s,
{
    if s.len() == 0 {
        true
    } else {
        children_wf(s.drop_last()) && elem_wf(s.last())
    }
}

/// The text of a child slot (its subtree's full text).
pub open spec fn elem_text_of(e: GreenElement) -> Seq<char> {
    elem_text(e)
}

/// The kind of a child slot.
pub open spec fn elem_kind(e: GreenElement) -> SyntaxKind {
    match e {
        GreenElement::Node(n) => n.kind_view(),
        GreenElement::Token(t) => t.kind_view(),
    }
}

/// The byte length of a child slot's text.
pub open spec fn elem_len(e: GreenElement) -> nat {
    byte_len(elem_text(e))
}

/// The summed byte length of the first `k` children.
pub open spec fn prefix_len(s: Seq<GreenElement>, k: int) -> nat
    decreases k,
{
    if k <= 0 {
        0
    } else {
        prefix_len(s, k - 1) + elem_len(s[k - 1])
    }
}

/// The byte length of a concatenation is the sum of the byte lengths.
pub proof fn lemma_byte_len_concat(a: Seq<char>, b: Seq<char>)
    ensures
        byte_len(a + b) == byte_len(a) + byte_len(b),
        encode_utf8(a + b) == encode_utf8(a) + encode_utf8(b),
    decreases a.len(),
{
    if a.len() == 0 {
        assert(a + b =~= b);
        assert(encode_utf8(a) =~= Seq::<u8>::empty());
        assert(encode_utf8(a) + encode_utf8(b) =~= encode_utf8(b));
    } else {
        lemma_byte_len_concat(a.drop_first(), b);
        assert((a + b).drop_first() =~= a.drop_first() + b);
        assert((a + b)[0] == a[0]);
        assert(encode_utf8(a + b) =~= encode_utf8(a) + encode_utf8(b));
    }
}

/// The text of a child list is its children's texts in order, and its
/// byte length the sum of theirs.
pub proof fn lemma_children_text_len(s: Seq<GreenElement>, k: int)
    requires
        0 <= k <= s.len(),
    ensures
        byte_len(children_text(s.take(k))) == prefix_len(s, k),
    decreases k,
{
    if k > 0 {
        lemma_children_text_len(s, k - 1);
        assert(s.take(k).drop_last() =~= s.take(k - 1));
        assert(s.take(k).last() == s[k - 1]);
        lemma_byte_len_concat(children_text(s.take(k - 1)), elem_text(s[k - 1]));
    } else {
        assert(s.take(0) =~= Seq::<GreenElement>::empty());
    }
}

impl GreenNode {
    /// The node's kind.
    pub closed spec fn kind_view(&self) -> SyntaxKind {
        self.kind
    }

    /// The node's children.
    pub closed spec fn children_view(&self) -> Seq<GreenElement> {
        self.children@
    }

    /// The subtree's full text.
    pub closed spec fn text_view(&self) -> Seq<char> {
        children_text(self.children@)
    }

    /// Every node of the subtree caches its exact byte length, which fits
    /// in a `u32`.
    pub closed spec fn wf(&self) -> bool {
        elem_wf(GreenElement::Node(Rc::new(*self)))
    }

    /// A node of `kind` over `children`, caching their total length.
    pub fn new(kind: SyntaxKind, children: Vec<GreenElement>) -> (r: Rc<GreenNode>)
        requires
            forall|i: int| 0 <= i < children@.len() ==> elem_wf(#[trigger] children@[i]),
            prefix_len(children@, children@.len() as int) <= u32::MAX,
        ensures
            r.kind_view() == kind,
            r.children_view() == children@,
            r.wf(),
    {
        let mut total: u32 = 0;
        let mut i: usize = 0;
        while i < children.len()
            invariant
                i <= children@.len(),
                forall|j: int| 0 <= j < children@.len() ==> elem_wf(#[trigger] children@[j]),
                prefix_len(children@, children@.len() as int) <= u32::MAX,
                total as nat == prefix_len(children@, i as int),
                children_wf(children@.take(i as int)),
            decreases children@.len() - i,
        {
            proof {
                lemma_prefix_len_mono(children@, i + 1, children@.len() as int);
                assert(children@.take(i + 1).drop_last() =~= children@.take(i as int));
            }
            let len = children[i].text_len();
            total = total + len;
            i = i + 1;
        }
        proof {
            assert(children@.take(children@.len() as int) =~= children@);
            lemma_children_text_len(children@, children@.len() as int);
        }
        Rc::new(GreenNode { kind, text_len: total, children })
    }

    pub fn kind(&self) -> (r: SyntaxKind)
        ensures
            r == self.kind_view(),
    {
        self.kind
    }

    /// The subtree's byte length.
    pub fn text_len(&self) -> (r: u32)
        requires
            self.wf(),
        ensures
            r as nat == byte_len(self.text_view()),
    {
        self.text_len
    }

    pub fn children(&self) -> (r: &[GreenElement])
        ensures
            r@ == self.children_view(),
    {
        self.children.as_slice()
    }

    /// The subtree's full text.
    pub fn text(&self) -> (r: String)
        ensures
            r@ == self.text_view(),
    {
        let mut out = String::new();
        self.write_text(&mut out);
        out
    }

    fn write_text(&self, out: &mut String)
        ensures
            final(out)@ == old(out)@ + self.text_view(),
        decreases self,
    {
        let ghost start = out@;
        let mut i: usize = 0;
        while i < self.children.len()
            invariant
                i <= self.children@.len(),
                out@ == start + children_text(self.children@.take(i as int)),
            decreases self.children@.len() - i,
        {
            proof {
                assert(self.children@.take(i + 1).drop_last() =~= self.children@.take(i as int));
                assert(self.children@.take(i + 1).last() == self.children@[i as int]);
            }
            match &self.children[i] {
                GreenElement::Token(t) => {
                    assert(elem_text(self.children@[i as int]) == t.text_view());
                    out.append(t.text());
                },
                GreenElement::Node(n) => {
                    assert(elem_text(self.children@[i as int]) == n.text_view());
                    assert(decreases_to!(self => self.children@[i as int]));
                    n.write_text(out);
                },
            }
            assert(out@ =~= start + children_text(self.children@.take(i + 1)));
            i = i + 1;
        }
        assert(self.children@.take(self.children@.len() as int) =~= self.children@);
    }
}

/// The text of a child list splits at any point.
pub proof fn lemma_children_text_split(s: Seq<GreenElement>, k: int)
    requires
        0 <= k <= s.len(),
    ensures
        children_text(s) == children_text(s.take(k)) + children_text(s.skip(k)),
    decreases s.len() - k,
{
    if k == s.len() {
        assert(s.take(k) =~= s);
        assert(s.skip(k) =~= Seq::<GreenElement>::empty());
        assert(children_text(s) + Seq::<char>::empty() =~= children_text(s));
    } else {
        lemma_children_text_split(s, k + 1);
        assert(s.take(k + 1).drop_last() =~= s.take(k));
        assert(s.take(k + 1).last() == s[k]);
        lemma_children_text_cons(s.skip(k));
        assert(s.skip(k).drop_first() =~= s.skip(k + 1));
        assert(s.skip(k)[0] == s[k]);
    }
}

/// The text of a non-empty child list is its first child's text followed
/// by the rest's.
pub proof fn lemma_children_text_cons(s: Seq<GreenElement>)
    requires
        s.len() > 0,
    ensures
        children_text(s) == elem_text(s[0]) + children_text(s.drop_first()),
    decreases s.len(),
{
    if s.len() == 1 {
        assert(s.drop_last() =~= Seq::<GreenElement>::empty());
        assert(s.drop_first() =~= Seq::<GreenElement>::empty());
        assert(elem_text(s[0]) + Seq::<char>::empty() =~= elem_text(s[0]));
        assert(Seq::<char>::empty() + elem_text(s[0]) =~= elem_text(s[0]));
    } else {
        lemma_children_text_cons(s.drop_last());
        assert(s.drop_last().drop_first() =~= s.drop_first().drop_last());
        assert(s.drop_first().last() == s.last());
        assert(s.drop_last()[0] == s[0]);
    }
}

/// A node's text is its children's texts in order.
pub proof fn lemma_node_text(n: &GreenNode)
    ensures
        n.text_view() == children_text(n.children_view()),
{
}

/// A node's child list fits in memory.
pub proof fn lemma_children_len(n: &GreenNode)
    ensures
        n.children_view().len() <= usize::MAX,
{
    broadcast use vstd::std_specs::vec::axiom_spec_len;
    assert(n.children.len() as int == n.children@.len());
}

/// A child node is structurally below its parent.
pub proof fn lemma_child_decreases(g: GreenNode, i: int, m: Rc<GreenNode>)
    requires
        0 <= i < g.children_view().len(),
        g.children_view()[i] == GreenElement::Node(m),
    ensures
        decreases_to!(g => *m),
{
    assert(decreases_to!(g => g.children));
    assert(decreases_to!(g.children => g.children@));
    assert(decreases_to!(g.children@ => g.children@[i]));
    assert(decreases_to!(g.children@[i] => g.children@[i]->Node_0));
    assert(g.children@[i]->Node_0 == m);
}

/// Longer prefixes are no shorter.
pub proof fn lemma_prefix_len_mono(s: Seq<GreenElement>, a: int, b: int)
    requires
        0 <= a <= b,
    ensures
        prefix_len(s, a) <= prefix_len(s, b),
    decreases b - a,
{
    if a < b {
        lemma_prefix_len_mono(s, a, b - 1);
    }
}

/// A child slot's text is its node's or token's text.
pub proof fn lemma_elem_text(e: GreenElement)
    ensures
        elem_text(e) == match e {
            GreenElement::Node(n) => n.text_view(),
            GreenElement::Token(t) => t.text_view(),
        },
{
}

/// A child slot is well formed when its node is, or when its token's
/// length fits in a `u32`.
pub proof fn lemma_elem_wf(e: GreenElement)
    ensures
        elem_wf(e) == match e {
            GreenElement::Node(n) => n.wf(),
            GreenElement::Token(t) => byte_len(t.text_view()) <= u32::MAX,
        },
{
    if let GreenElement::Node(n) = e {
        assert(n.wf() == elem_wf(GreenElement::Node(Rc::new(*n))));
    }
}

/// The text of a child list grows by each appended child's text.
pub proof fn lemma_children_text_push(s: Seq<GreenElement>, e: GreenElement)
    ensures
        children_text(Seq::<GreenElement>::empty()) == Seq::<char>::empty(),
        children_text(s.push(e)) == children_text(s) + elem_text(e),
{
    assert(s.push(e).drop_last() =~= s);
}

/// A well-formed node's children are well formed, and its text is its
/// children's texts in order, with a byte length that fits in a `u32`
/// and equals the sum of the children's.
pub proof fn lemma_node_wf(n: &GreenNode)
    requires
        n.wf(),
    ensures
        forall|i: int| 0 <= i < n.children_view().len() ==> elem_wf(#[trigger] n.children_view()[i]),
        n.text_view() == children_text(n.children_view()),
        byte_len(n.text_view()) <= u32::MAX,
        prefix_len(n.children_view(), n.children_view().len() as int) == byte_len(n.text_view()),
{
    lemma_children_wf_all(n.children@);
    lemma_children_text_len(n.children@, n.children@.len() as int);
    assert(n.children@.take(n.children@.len() as int) =~= n.children@);
}

/// Every child of a well-formed child list is well formed (and back).
pub proof fn lemma_children_wf_all(s: Seq<GreenElement>)
    ensures
        children_wf(s) == forall|i: int| 0 <= i < s.len() ==> elem_wf(#[trigger] s[i]),
    decreases s.len(),
{
    if s.len() > 0 {
        lemma_children_wf_all(s.drop_last());
        if forall|i: int| 0 <= i < s.len() ==> elem_wf(#[trigger] s[i]) {
            assert forall|i: int| 0 <= i < s.drop_last().len() implies elem_wf(#[trigger] s.drop_last()[i]) by {
                assert(s.drop_last()[i] == s[i]);
            }
        }
        if children_wf(s) {
            assert forall|i: int| 0 <= i < s.len() implies elem_wf(#[trigger] s[i]) by {
                if i < s.len() - 1 {
                    assert(s.drop_last()[i] == s[i]);
                }
            }
        }
    }
}

/// Splitting a child list splits its length sum.
pub proof fn lemma_prefix_len_split(s: Seq<GreenElement>, a: int, b: int)
    requires
        0 <= a <= b <= s.len(),
    ensures
        prefix_len(s, b) == prefix_len(s, a) + prefix_len(s.skip(a), b - a),
    decreases b - a,
{
    if a < b {
        lemma_prefix_len_split(s, a, b - 1);
        assert(s.skip(a)[b - 1 - a] == s[b - 1]);
    }
}

/// A prefix sum only reads the children it covers.
pub proof fn lemma_prefix_len_take(s: Seq<GreenElement>, t: Seq<GreenElement>, k: int)
    requires
        0 <= k <= s.len(),
        k <= t.len(),
        forall|i: int| 0 <= i < k ==> s[i] == t[i],
    ensures
        prefix_len(s, k) == prefix_len(t, k),
    decreases k,
{
    if k > 0 {
        lemma_prefix_len_take(s, t, k - 1);
    }
}

impl GreenElement {
    pub fn kind(&self) -> (r: SyntaxKind)
        ensures
            r == elem_kind(*self),
    {
        match self {
            GreenElement::Node(n) => n.kind(),
            GreenElement::Token(t) => t.kind(),
        }
    }

    /// The slot's byte length.
    pub fn text_len(&self) -> (r: u32)
        requires
            elem_wf(*self),
        ensures
            r as nat == elem_len(*self),
    {
        match self {
            GreenElement::Node(n) => {
                proof { assert(n.wf() == elem_wf(*self)); }
                n.text_len()
            },
            GreenElement::Token(t) => t.text_len(),
        }
    }
}

/// One line of a tree dump: nesting depth, kind, absolute byte range, and
/// for a token its text.
pub struct DumpRow {
    pub depth: nat,
    pub kind: SyntaxKind,
    pub start: int,
    pub end: int,
    pub text: Option<Seq<char>>,
}

/// The dump lines of a child slot starting at `offset`, in document order:
/// the slot's own line, then its subtree one level deeper.
pub closed spec fn elem_rows(e: GreenElement, offset: int, depth: nat) -> Seq<DumpRow>
    decreases e,
{
    match e {
        GreenElement::Node(n) => seq![DumpRow {
            depth,
            kind: n.kind,
            start: offset,
            end: offset + byte_len(children_text(n.children@)),
            text: None,
        }] + children_rows(n.children@, offset, depth + 1),
        GreenElement::Token(t) => seq![DumpRow {
            depth,
            kind: t.kind,
            start: offset,
            end: offset + byte_len(t.text@),
            text: Some(t.text@),
        }],
    }
}

/// The dump lines of a child list starting at `offset`.
pub closed spec fn children_rows(s: Seq<GreenElement>, offset: int, depth: nat) -> Seq<DumpRow>
    decreases s,
{
    if s.len() == 0 {
        seq![]
    } else {
        children_rows(s.drop_last(), offset, depth) + elem_rows(s.last(), offset + prefix_len(s, s.len() - 1), depth)
    }
}

/// The dump lines of a node starting at `offset`.
pub open spec fn node_rows(g: GreenNode, offset: int, depth: nat) -> Seq<DumpRow> {
    seq![DumpRow {
        depth,
        kind: g.kind_view(),
        start: offset,
        end: offset + byte_len(g.text_view()),
        text: None,
    }] + children_rows(g.children_view(), offset, depth + 1)
}

/// A child list's dump grows child by child.
pub proof fn lemma_children_rows_take(s: Seq<GreenElement>, offset: int, depth: nat, i: int)
    requires
        0 <= i <= s.len(),
    ensures
        i < s.len() ==> children_rows(s.take(i + 1), offset, depth) == children_rows(s.take(i), offset, depth)
            + elem_rows(s[i], offset + prefix_len(s, i), depth),
        children_rows(s.take(0), offset, depth) == Seq::<DumpRow>::empty(),
        children_rows(s.take(s.len() as int), offset, depth) == children_rows(s, offset, depth),
{
    if i < s.len() {
        let t = s.take(i + 1);
        assert(t.drop_last() =~= s.take(i));
        lemma_prefix_len_take(t, s, i);
    }
    assert(s.take(s.len() as int) =~= s);
    assert(s.take(0).len() == 0);
}

/// The dump of a child node is the node's dump; a token's is one line.
pub proof fn lemma_elem_rows(e: GreenElement, offset: int, depth: nat)
    ensures
        match e {
            GreenElement::Node(n) => elem_rows(e, offset, depth) == node_rows(*n, offset, depth),
            GreenElement::Token(t) => elem_rows(e, offset, depth) == seq![DumpRow {
                depth,
                kind: t.kind_view(),
                start: offset,
                end: offset + byte_len(t.text_view()),
                text: Some(t.text_view()),
            }],
        },
{
}

/// `String::push`: appends `c` to `s`.
#[verifier::external_body]
pub(crate) fn push_char(s: &mut String, c: char)
    ensures
        final(s)@ == old(s)@.push(c),
{
    s.push(c)
}

} // verus!
