//! The typed-view contract: a view is a wrapper over a `SyntaxNode` of a
//! known kind. Concrete views live in the language crates; core owns only
//! the casting contract and the child/token lookup helpers views are
//! written with.

use vstd::prelude::*;

use super::green::SyntaxKind;
use super::red::{child_nodes, element_kind, SyntaxElement, SyntaxNode, SyntaxToken};

verus! {

/// A typed view over nodes of one kind.
pub trait AstNode: Sized {
    /// The view of `node`, if its kind is the view's.
    spec fn cast_of(node: SyntaxNode) -> Option<Self>;

    fn can_cast(kind: SyntaxKind) -> bool;

    fn cast(node: SyntaxNode) -> (r: Option<Self>)
        ensures
            r == Self::cast_of(node),
    ;

    fn syntax(&self) -> &SyntaxNode;
}

/// The first view castable among `nodes`, if any.
pub open spec fn first_cast<N: AstNode>(nodes: Seq<SyntaxNode>) -> Option<N>
    decreases nodes.len(),
{
    if nodes.len() == 0 {
        None
    } else {
        match N::cast_of(nodes[0]) {
            Some(v) => Some(v),
            None => first_cast::<N>(nodes.drop_first()),
        }
    }
}

/// Every view castable among `nodes`, in order.
pub open spec fn all_casts<N: AstNode>(nodes: Seq<SyntaxNode>) -> Seq<N>
    decreases nodes.len(),
{
    if nodes.len() == 0 {
        seq![]
    } else {
        let rest = all_casts::<N>(nodes.drop_last());
        match N::cast_of(nodes.last()) {
            Some(v) => rest.push(v),
            None => rest,
        }
    }
}

/// The first of `elems` that is a token of `kind`, if any.
pub open spec fn first_token_of_kind(elems: Seq<SyntaxElement>, kind: SyntaxKind) -> Option<SyntaxToken>
    decreases elems.len(),
{
    if elems.len() == 0 {
        None
    } else {
        match elems[0] {
            SyntaxElement::Token(t) => if t.green_view().kind_view() == kind {
                Some(t)
            } else {
                first_token_of_kind(elems.drop_first(), kind)
            },
            SyntaxElement::Node(_) => first_token_of_kind(elems.drop_first(), kind),
        }
    }
}

/// First child node castable to `N`.
pub fn child<N: AstNode>(parent: &SyntaxNode) -> (r: Option<N>)
    requires
        parent.wf(),
    ensures
        r == first_cast::<N>(child_nodes(*parent)),
{
    let kids = parent.children();
    let mut i: usize = 0;
    assert(kids@.skip(0) =~= kids@);
    while i < kids.len()
        invariant
            i <= kids@.len(),
            kids@ == child_nodes(*parent),
            first_cast::<N>(kids@) == first_cast::<N>(kids@.skip(i as int)),
        decreases kids@.len() - i,
    {
        proof {
            assert(kids@.skip(i as int).drop_first() =~= kids@.skip(i + 1));
            assert(kids@.skip(i as int)[0] == kids@[i as int]);
        }
        let node = kids[i].share();
        let found = N::cast(node);
        if found.is_some() {
            return found;
        }
        i = i + 1;
    }
    None
}

/// All child nodes castable to `N`, in document order.
pub fn children<N: AstNode>(parent: &SyntaxNode) -> (r: Vec<N>)
    requires
        parent.wf(),
    ensures
        r@ == all_casts::<N>(child_nodes(*parent)),
{
    let kids = parent.children();
    let mut out: Vec<N> = Vec::new();
    let mut i: usize = 0;
    while i < kids.len()
        invariant
            i <= kids@.len(),
            kids@ == child_nodes(*parent),
            out@ == all_casts::<N>(kids@.take(i as int)),
        decreases kids@.len() - i,
    {
        proof {
            assert(kids@.take(i + 1).drop_last() =~= kids@.take(i as int));
            assert(kids@.take(i + 1).last() == kids@[i as int]);
        }
        let node = kids[i].share();
        match N::cast(node) {
            Some(v) => {
                out.push(v);
            },
            None => {},
        }
        i = i + 1;
    }
    assert(kids@.take(kids@.len() as int) =~= kids@);
    out
}

/// First child token of the given kind (direct children only).
pub fn token(parent: &SyntaxNode, kind: SyntaxKind) -> (r: Option<SyntaxToken>)
    requires
        parent.wf(),
    ensures
        r == first_token_of_kind(parent.child_elems(), kind),
{
    let kids = parent.children_with_tokens();
    proof {
        assert(kids@ =~= parent.child_elems());
    }
    let mut i: usize = 0;
    assert(kids@.skip(0) =~= kids@);
    while i < kids.len()
        invariant
            i <= kids@.len(),
            kids@ == parent.child_elems(),
            first_token_of_kind(kids@, kind) == first_token_of_kind(kids@.skip(i as int), kind),
        decreases kids@.len() - i,
    {
        proof {
            assert(kids@.skip(i as int).drop_first() =~= kids@.skip(i + 1));
            assert(kids@.skip(i as int)[0] == kids@[i as int]);
        }
        match &kids[i] {
            SyntaxElement::Token(t) => {
                if t.kind() == kind {
                    return Some(t.share());
                }
            },
            SyntaxElement::Node(_) => {},
        }
        i = i + 1;
    }
    None
}

/// Whether `e` is a token of `kind`.
pub open spec fn is_token_of(e: SyntaxElement, kind: SyntaxKind) -> bool {
    e matches SyntaxElement::Token(t) && t.green_view().kind_view() == kind
}

/// The token `token` finds is the first child token of the kind: it sits
/// at some child index with that kind and no earlier child is a token of
/// the kind; and it finds none exactly when no child is such a token.
pub proof fn law_token_is_the_first_of_its_kind(elems: Seq<SyntaxElement>, kind: SyntaxKind)
    ensures
        match first_token_of_kind(elems, kind) {
            Some(t) => exists|i: int| 0 <= i < elems.len() && elems[i] == SyntaxElement::Token(t)
                && t.green_view().kind_view() == kind
                && forall|j: int| 0 <= j < i ==> !is_token_of(#[trigger] elems[j], kind),
            None => forall|j: int| 0 <= j < elems.len() ==> !is_token_of(#[trigger] elems[j], kind),
        },
    decreases elems.len(),
{
    if elems.len() > 0 {
        let rest = elems.drop_first();
        law_token_is_the_first_of_its_kind(rest, kind);
        if is_token_of(elems[0], kind) {
            assert(elems[0] == SyntaxElement::Token(first_token_of_kind(elems, kind)->Some_0));
        } else {
            match first_token_of_kind(rest, kind) {
                Some(t) => {
                    let i = choose|i: int| 0 <= i < rest.len() && rest[i] == SyntaxElement::Token(t)
                        && t.green_view().kind_view() == kind
                        && forall|j: int| 0 <= j < i ==> !is_token_of(#[trigger] rest[j], kind);
                    assert(elems[i + 1] == rest[i]);
                    assert forall|j: int| 0 <= j < i + 1 implies !is_token_of(#[trigger] elems[j], kind) by {
                        if j > 0 {
                            assert(elems[j] == rest[j - 1]);
                        }
                    }
                },
                None => {
                    assert forall|j: int| 0 <= j < elems.len() implies !is_token_of(#[trigger] elems[j], kind) by {
                        if j > 0 {
                            assert(elems[j] == rest[j - 1]);
                        }
                    }
                },
            }
        }
    }
}

} // verus!
