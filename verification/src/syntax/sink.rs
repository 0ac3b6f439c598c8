//! The language-agnostic green-emission pair every parser drives: a
//! source-layout pass that reconstructs verbatim per-token text and the
//! trivia between tokens, and a [`GreenSink`] that feeds a [`TreeBuilder`]
//! from that schedule. Kinds stay an opaque per-language space (`K: Copy +
//! Into<SyntaxKind>`); which token kinds are trivia, how a token's end is
//! derived and what whitespace's kind is arrive through [`LayoutToken`]
//! facts built by the language's adapter.

use std::rc::Rc;
use vstd::prelude::*;
use vstd::std_specs::convert::IntoSpec;

use super::builder::{Checkpoint, TreeBuilder};
use super::green::{byte_len, lemma_children_text_push, push_char, GreenElement, GreenNode, SyntaxKind};

verus! {

/// One significant token's verbatim text plus the trivia pieces between
/// the previous significant token and this one, in source order.
pub struct SigLayout<K> {
    /// Verbatim source text of this significant token ("" for the end).
    pub text: String,
    /// Trivia pieces before this token, in source order.
    pub trivia_before: Vec<(K, String)>,
}

/// How a token's end is derived from its start.
#[derive(Clone, Copy)]
pub enum EndRule {
    /// Start plus this many source characters.
    Chars(u32),
    /// The token runs to the end of its source line.
    ToLineEnd,
    /// The token is empty at its start position (the end of input).
    AtStart,
}

/// Whether a token lands in the significant stream or in the trivia
/// schedule, and under which kind trivia reprints.
#[derive(Clone, Copy)]
pub enum TokenClass<K> {
    Significant,
    Trivia(K),
}

/// One token's layout facts: 1-based line and character column of its
/// start, how its end is derived, and its class.
pub struct LayoutToken<K> {
    pub line: u32,
    pub col: u32,
    pub end: EndRule,
    pub class: TokenClass<K>,
}

/// `s` is what converting `k` gives, when `K`'s conversion follows its
/// stated specification.
pub open spec fn converts<K: Into<SyntaxKind>>(k: K, s: SyntaxKind) -> bool {
    <K as IntoSpec<SyntaxKind>>::obeys_into_spec() ==> s == k.into_spec()
}

/// The summed byte length of trivia texts.
pub open spec fn trivia_len<K>(t: Seq<(K, String)>) -> nat
    decreases t.len(),
{
    if t.len() == 0 {
        0
    } else {
        trivia_len(t.drop_last()) + byte_len(t.last().1@)
    }
}

/// The concatenated trivia texts.
pub open spec fn trivia_text<K>(t: Seq<(K, String)>) -> Seq<char>
    decreases t.len(),
{
    if t.len() == 0 {
        seq![]
    } else {
        trivia_text(t.drop_last()) + t.last().1@
    }
}

/// The byte length an entry still holds.
pub open spec fn entry_len<K>(e: SigLayout<K>) -> nat {
    byte_len(e.text@) + trivia_len(e.trivia_before@)
}

/// The byte length the entries still hold.
pub open spec fn entries_len<K>(s: Seq<SigLayout<K>>) -> nat
    decreases s.len(),
{
    if s.len() == 0 {
        0
    } else {
        entries_len(s.drop_last()) + entry_len(s.last())
    }
}

/// `added` are tokens for `pieces`, one each, in order.
pub open spec fn emits<K: Into<SyntaxKind>>(added: Seq<GreenElement>, pieces: Seq<(K, String)>) -> bool {
    &&& added.len() == pieces.len()
    &&& forall|i: int| 0 <= i < added.len() ==> (#[trigger] added[i] matches GreenElement::Token(t)
        && t.text_view() == pieces[i].1@ && converts(pieces[i].0, t.kind_view()))
}

/// A [`TreeBuilder`] fed from a [`SigLayout`] schedule. The parser stays
/// the single owner of grammar decisions; the sink only mirrors token
/// consumption and node boundaries.
pub struct GreenSink<K> {
    builder: TreeBuilder,
    entries: Vec<SigLayout<K>>,
    /// First significant-token index whose trivia is not yet emitted.
    flushed_upto: usize,
    /// Currently open nodes.
    open: usize,
}

impl<K: Copy + Into<SyntaxKind>> GreenSink<K> {
    /// The builder being fed.
    pub closed spec fn builder_view(&self) -> TreeBuilder {
        self.builder
    }

    /// The schedule, with emitted pieces taken out.
    pub closed spec fn entries_view(&self) -> Seq<SigLayout<K>> {
        self.entries@
    }

    /// The first position whose trivia is not yet emitted.
    pub closed spec fn flushed_view(&self) -> usize {
        self.flushed_upto
    }

    /// The number of open nodes the sink counts.
    pub closed spec fn open_view(&self) -> usize {
        self.open
    }

    /// The sink's invariant: the builder is consistent, one frame per open
    /// node, and everything still to emit fits alongside what was.
    pub open spec fn wf(&self) -> bool {
        &&& self.builder_view().wf()
        &&& self.builder_view().pending_len() + entries_len(self.entries_view()) <= u32::MAX
        &&& self.open_view() == self.builder_view().parents_view().len()
        &&& self.flushed_view() <= self.entries_view().len()
        &&& forall|j: int| 0 <= j < self.flushed_view() ==> (#[trigger] self.entries_view()[j]).trivia_before@.len() == 0
    }

    /// The text emitted so far followed by the text still scheduled.
    pub open spec fn sink_text(&self) -> Seq<char> {
        self.builder_view().pending_text() + schedule_text(self.entries_view())
    }

    /// How many nodes are open.
    pub open spec fn depth_view(&self) -> nat {
        self.builder_view().parents_view().len()
    }

    /// A sink over `entries` with an empty builder.
    pub fn new(entries: Vec<SigLayout<K>>) -> (r: GreenSink<K>)
        requires
            entries_len(entries@) <= u32::MAX,
        ensures
            r.wf(),
            r.entries_view() == entries@,
            r.flushed_view() == 0,
            r.depth_view() == 0,
            r.builder_view().children_view().len() == 0,
            r.builder_view().parents_view().len() == 0,
            r.sink_text() == schedule_text(entries@),
    {
        let r = GreenSink { builder: TreeBuilder::new(), entries, flushed_upto: 0, open: 0 };
        proof {
            lemma_children_text_push(Seq::<GreenElement>::empty(), arbitrary());
            assert(r.builder_view().children_view() =~= Seq::<GreenElement>::empty());
            assert(r.builder_view().pending_text() =~= Seq::<char>::empty());
            assert(r.sink_text() =~= schedule_text(entries@));
        }
        r
    }
}

/// Changing one entry changes the remaining length by its difference.
pub proof fn lemma_entries_len_update<K>(s: Seq<SigLayout<K>>, i: int, e: SigLayout<K>)
    requires
        0 <= i < s.len(),
    ensures
        entries_len(s.update(i, e)) + entry_len(s[i]) == entries_len(s) + entry_len(e),
    decreases s.len(),
{
    let u = s.update(i, e);
    if i < s.len() - 1 {
        assert(u.drop_last() =~= s.drop_last().update(i, e));
        lemma_entries_len_update(s.drop_last(), i, e);
    } else {
        assert(u.drop_last() =~= s.drop_last());
    }
}

/// One entry's length is part of the remaining length.
pub proof fn lemma_entry_len_le<K>(s: Seq<SigLayout<K>>, i: int)
    requires
        0 <= i < s.len(),
    ensures
        entry_len(s[i]) <= entries_len(s),
    decreases s.len(),
{
    if i < s.len() - 1 {
        lemma_entry_len_le(s.drop_last(), i);
        assert(s.drop_last()[i] == s[i]);
    }
}

/// The trivia length of a prefix grows piece by piece.
proof fn lemma_trivia_take<K>(t: Seq<(K, String)>, k: int)
    requires
        0 <= k < t.len(),
    ensures
        trivia_len(t.take(k + 1)) == trivia_len(t.take(k)) + byte_len(t[k].1@),
        trivia_text(t.take(k + 1)) == trivia_text(t.take(k)) + t[k].1@,
        trivia_len(t.take(k + 1)) <= trivia_len(t),
{
    assert(t.take(k + 1).drop_last() =~= t.take(k));
    lemma_trivia_prefix(t, k + 1);
}

/// A prefix of the trivia is no longer than all of it.
proof fn lemma_trivia_prefix<K>(t: Seq<(K, String)>, k: int)
    requires
        0 <= k <= t.len(),
    ensures
        trivia_len(t.take(k)) <= trivia_len(t),
    decreases t.len() - k,
{
    if k < t.len() {
        lemma_trivia_prefix(t, k + 1);
        assert(t.take(k + 1).drop_last() =~= t.take(k));
    } else {
        assert(t.take(k) =~= t);
    }
}

/// Every entry before `pos` has been emitted entirely.
pub open spec fn drained_before<K>(s: Seq<SigLayout<K>>, pos: int) -> bool {
    forall|j: int| 0 <= j < pos ==> (#[trigger] s[j]).text@.len() == 0 && s[j].trivia_before@.len() == 0
}

/// A schedule's text is its prefix's text then its suffix's.
proof fn lemma_schedule_split<K>(s: Seq<SigLayout<K>>, k: int)
    requires
        0 <= k <= s.len(),
    ensures
        schedule_text(s) == schedule_text(s.take(k)) + schedule_text(s.skip(k)),
    decreases s.len(),
{
    if k == s.len() {
        assert(s.take(k) =~= s);
        assert(s.skip(k).len() == 0);
        assert(schedule_text(s) + Seq::<char>::empty() =~= schedule_text(s));
    } else {
        lemma_schedule_split(s.drop_last(), k);
        assert(s.drop_last().take(k) =~= s.take(k));
        assert(s.skip(k).drop_last() =~= s.drop_last().skip(k));
        assert(s.skip(k).last() == s.last());
        assert(schedule_text(s) =~= schedule_text(s.take(k)) + schedule_text(s.skip(k)));
    }
}

/// A drained prefix holds no text.
proof fn lemma_schedule_drained<K>(s: Seq<SigLayout<K>>, pos: int)
    requires
        0 <= pos <= s.len(),
        drained_before(s, pos),
    ensures
        schedule_text(s.take(pos)) == Seq::<char>::empty(),
    decreases pos,
{
    if pos > 0 {
        lemma_schedule_drained(s, pos - 1);
        let t = s.take(pos);
        assert(t.drop_last() =~= s.take(pos - 1));
        assert(t.last() == s[pos - 1]);
        assert(s[pos - 1].trivia_before@ =~= Seq::<(K, String)>::empty());
        assert(s[pos - 1].text@ =~= Seq::<char>::empty());
        assert(schedule_text(t) =~= Seq::<char>::empty());
    } else {
        assert(s.take(0).len() == 0);
    }
}

/// With everything before `pos` drained, the schedule's text is entry
/// `pos`'s trivia and text, then the rest.
proof fn lemma_schedule_at<K>(s: Seq<SigLayout<K>>, pos: int)
    requires
        0 <= pos < s.len(),
        drained_before(s, pos),
    ensures
        schedule_text(s) == trivia_text(s[pos].trivia_before@) + s[pos].text@ + schedule_text(s.skip(pos + 1)),
{
    lemma_schedule_split(s, pos + 1);
    lemma_schedule_drained(s, pos);
    let t = s.take(pos + 1);
    assert(t.drop_last() =~= s.take(pos));
    assert(t.last() == s[pos]);
    assert(schedule_text(t) =~= trivia_text(s[pos].trivia_before@) + s[pos].text@);
}

/// Two schedules equal from `k` on have the same text from `k` on.
proof fn lemma_schedule_same_suffix<K>(a: Seq<SigLayout<K>>, b: Seq<SigLayout<K>>, k: int)
    requires
        0 <= k <= a.len(),
        a.len() == b.len(),
        forall|j: int| k <= j < a.len() ==> a[j] == b[j],
    ensures
        schedule_text(a.skip(k)) == schedule_text(b.skip(k)),
{
    assert(a.skip(k) =~= b.skip(k));
}

/// Emitting entry `pos`'s pieces in order moves text from the schedule to
/// the builder without changing their concatenation: the emitted `moved`
/// text is what the entry loses, everything before it being drained.
proof fn lemma_emit_keeps_text<K>(
    old_e: Seq<SigLayout<K>>,
    new_e: Seq<SigLayout<K>>,
    old_p: Seq<char>,
    new_p: Seq<char>,
    pos: int,
    moved: Seq<char>,
)
    requires
        0 <= pos < old_e.len(),
        new_e.len() == old_e.len(),
        drained_before(old_e, pos),
        forall|j: int| 0 <= j < old_e.len() && j != pos ==> #[trigger] new_e[j] == old_e[j],
        new_p == old_p + moved,
        trivia_text(old_e[pos].trivia_before@) + old_e[pos].text@
            == moved + trivia_text(new_e[pos].trivia_before@) + new_e[pos].text@,
    ensures
        drained_before(new_e, pos),
        new_p + schedule_text(new_e) == old_p + schedule_text(old_e),
{
    assert forall|j: int| 0 <= j < pos implies (#[trigger] new_e[j]).text@.len() == 0 && new_e[j].trivia_before@.len() == 0 by {
        assert(new_e[j] == old_e[j]);
    }
    lemma_schedule_at(old_e, pos);
    lemma_schedule_at(new_e, pos);
    lemma_schedule_same_suffix(old_e, new_e, pos + 1);
    assert(new_p + schedule_text(new_e) =~= old_p + schedule_text(old_e));
}

impl<K: Copy + Into<SyntaxKind>> GreenSink<K> {
    /// Emit the trivia before position `pos` into the innermost open node,
    /// once: a later call at the same or an earlier position is a no-op.
    /// Positions are flushed in order.
    pub fn flush(&mut self, pos: usize)
        requires
            old(self).wf(),
            old(self).flushed_view() >= pos,
            old(self).flushed_view() == pos ==> (pos as int) < old(self).entries_view().len(),
        ensures
            final(self).wf(),
            final(self).open_view() == old(self).open_view(),
            final(self).builder_view().parents_view() == old(self).builder_view().parents_view(),
            final(self).flushed_view() > pos,
            old(self).flushed_view() > pos ==> final(self).flushed_view() == old(self).flushed_view()
                && final(self).entries_view() == old(self).entries_view()
                && final(self).builder_view().children_view() == old(self).builder_view().children_view(),
            old(self).flushed_view() == pos ==> ({
                let old_e = old(self).entries_view();
                let new_e = final(self).entries_view();
                let old_c = old(self).builder_view().children_view();
                let new_c = final(self).builder_view().children_view();
                &&& final(self).flushed_view() == pos + 1
                &&& new_e.len() == old_e.len()
                &&& forall|j: int| 0 <= j < old_e.len() && j != pos ==> #[trigger] new_e[j] == old_e[j]
                &&& new_e[pos as int].text@ == old_e[pos as int].text@
                &&& new_e[pos as int].trivia_before@.len() == 0
                &&& new_c.len() >= old_c.len()
                &&& new_c.take(old_c.len() as int) == old_c
                &&& emits(new_c.skip(old_c.len() as int), old_e[pos as int].trivia_before@)
                &&& final(self).builder_view().pending_text() == old(self).builder_view().pending_text() + trivia_text(old_e[pos as int].trivia_before@)
            }),
            drained_before(old(self).entries_view(), pos as int) ==> drained_before(final(self).entries_view(), pos as int)
                && final(self).sink_text() == old(self).sink_text(),
    {
        if self.flushed_upto > pos {
            return;
        }
        let in_order: Option<()> = if self.flushed_upto == pos { Some(()) } else { None };
        in_order.expect("trivia flushed out of order");
        let ghost old_e = self.entries@;
        let ghost old_c = self.builder.children_view();
        let ghost old_text = self.builder.pending_text();
        let ghost old_pending = self.builder.pending_len();
        let mut trivia: Vec<(K, String)> = Vec::new();
        std::mem::swap(&mut trivia, &mut self.entries[pos].trivia_before);
        proof {
            assert(trivia@ == old_e[pos as int].trivia_before@);
            let e2 = self.entries@[pos as int];
            lemma_entries_len_update(old_e, pos as int, e2);
            assert(self.entries@ == old_e.update(pos as int, e2));
            assert(entry_len(e2) == byte_len(old_e[pos as int].text@));
            assert(trivia_len(e2.trivia_before@) == 0);
            assert(trivia@.take(0) =~= Seq::<(K, String)>::empty());
        }
        let ghost mid_e = self.entries@;
        let mut i: usize = 0;
        while i < trivia.len()
            invariant
                i <= trivia@.len(),
                self.entries@ == mid_e,
                mid_e.len() == old_e.len(),
                pos < mid_e.len(),
                self.flushed_upto == pos,
                self.builder.wf(),
                self.open == self.builder.parents_view().len(),
                self.builder.parents_view() == old(self).builder_view().parents_view(),
                self.builder.pending_len() == old_pending + trivia_len(trivia@.take(i as int)),
                old_pending + trivia_len(trivia@) + entries_len(self.entries@) <= u32::MAX,
                self.builder.children_view().len() == old_c.len() + i,
                self.builder.children_view().take(old_c.len() as int) == old_c,
                emits(self.builder.children_view().skip(old_c.len() as int), trivia@.take(i as int)),
                self.builder.pending_text() == old_text + trivia_text(trivia@.take(i as int)),
            decreases trivia@.len() - i,
        {
            proof {
                lemma_trivia_take(trivia@, i as int);
            }
            let ghost before_c = self.builder.children_view();
            let kind: SyntaxKind = trivia[i].0.into();
            self.builder.token(kind, trivia[i].1.as_str());
            proof {
                let c = self.builder.children_view();
                assert(c.drop_last() == before_c);
                assert(c.take(old_c.len() as int) =~= before_c.take(old_c.len() as int));
                assert(c.skip(old_c.len() as int) =~= before_c.skip(old_c.len() as int).push(c.last()));
                assert(trivia@.take(i + 1) =~= trivia@.take(i as int).push(trivia@[i as int]));
                assert(old_text + trivia_text(trivia@.take(i + 1)) =~= old_text + trivia_text(trivia@.take(i as int)) + trivia@[i as int].1@);
            }
            i = i + 1;
        }
        proof {
            assert(trivia@.take(trivia@.len() as int) =~= trivia@);
        }
        assert(pos < self.entries.len());
        self.flushed_upto = pos + 1;
        proof {
            if drained_before(old(self).entries_view(), pos as int) {
                lemma_emit_keeps_text(old_e, self.entries@, old_text, self.builder.pending_text(), pos as int,
                    trivia_text(old_e[pos as int].trivia_before@));
            }
        }
    }
}

impl<K: Copy + Into<SyntaxKind>> GreenSink<K> {
    /// The trivia that a flush at `pos` emits: the pieces before `pos` when
    /// `pos` is the next position to flush, none otherwise.
    pub open spec fn pieces_at(&self, pos: usize) -> Seq<(K, String)> {
        if self.flushed_view() == pos {
            self.entries_view()[pos as int].trivia_before@
        } else {
            seq![]
        }
    }

    /// Flush, then emit significant token `pos` verbatim under `kind`. Each
    /// significant token is emitted once.
    pub fn token(&mut self, pos: usize, kind: K)
        requires
            old(self).wf(),
            old(self).flushed_view() >= pos,
            (pos as int) < old(self).entries_view().len(),
            old(self).entries_view()[pos as int].text@.len() > 0,
        ensures
            final(self).wf(),
            final(self).open_view() == old(self).open_view(),
            final(self).builder_view().parents_view() == old(self).builder_view().parents_view(),
            final(self).flushed_view() == (if old(self).flushed_view() == pos { (pos + 1) as usize } else { old(self).flushed_view() }),
            final(self).flushed_view() > pos,
            ({
                let old_e = old(self).entries_view();
                let new_e = final(self).entries_view();
                let old_c = old(self).builder_view().children_view();
                let new_c = final(self).builder_view().children_view();
                let pieces = old(self).pieces_at(pos);
                let n = (old_c.len() + pieces.len()) as int;
                &&& new_e.len() == old_e.len()
                &&& forall|j: int| 0 <= j < old_e.len() && j != pos ==> #[trigger] new_e[j] == old_e[j]
                &&& new_e[pos as int].text@.len() == 0
                &&& old(self).flushed_view() == pos ==> new_e[pos as int].trivia_before@.len() == 0
                &&& old(self).flushed_view() > pos ==> new_e[pos as int].trivia_before == old_e[pos as int].trivia_before
                &&& new_c.len() == n + 1
                &&& new_c.take(old_c.len() as int) == old_c
                &&& emits(new_c.subrange(old_c.len() as int, n), pieces)
                &&& new_c.last() matches GreenElement::Token(t) && t.text_view() == old_e[pos as int].text@
                    && converts(kind, t.kind_view())
                &&& final(self).builder_view().pending_text() == old(self).builder_view().pending_text()
                    + trivia_text(pieces) + old_e[pos as int].text@
            }),
            drained_before(old(self).entries_view(), pos as int) ==> drained_before(final(self).entries_view(), pos + 1)
                && final(self).sink_text() == old(self).sink_text(),
    {
        let ghost old_c = self.builder.children_view();
        self.flush(pos);
        let ghost mid_e = self.entries@;
        let ghost mid_c = self.builder.children_view();
        let mut text = String::new();
        std::mem::swap(&mut text, &mut self.entries[pos].text);
        let fresh: Option<()> = if text.as_str().is_empty() { None } else { Some(()) };
        fresh.expect("significant token emitted twice");
        proof {
            let e2 = self.entries@[pos as int];
            lemma_entries_len_update(mid_e, pos as int, e2);
            assert(self.entries@ == mid_e.update(pos as int, e2));
            assert(text@ == mid_e[pos as int].text@);
            assert(byte_len(e2.text@) == 0);
            assert(trivia_text(Seq::<(K, String)>::empty()) =~= Seq::<char>::empty());
        }
        let k: SyntaxKind = kind.into();
        self.builder.token(k, text.as_str());
        proof {
            let c = self.builder.children_view();
            assert(c.drop_last() == mid_c);
            assert(c.take(old_c.len() as int) =~= mid_c.take(old_c.len() as int));
            assert(c.subrange(old_c.len() as int, mid_c.len() as int) =~= mid_c.skip(old_c.len() as int));
            if old(self).flushed_view() != pos {
                assert(mid_c =~= old_c);
            }
            let old_e = old(self).entries_view();
            let new_e = self.entries@;
            if drained_before(old_e, pos as int) {
                let pieces = old(self).pieces_at(pos);
                if old(self).flushed_view() != pos {
                    assert(old_e[pos as int].trivia_before@ =~= Seq::<(K, String)>::empty());
                }
                assert(new_e[pos as int].trivia_before@ =~= Seq::<(K, String)>::empty());
                assert(trivia_text(Seq::<(K, String)>::empty()) =~= Seq::<char>::empty());
                assert(trivia_text(old_e[pos as int].trivia_before@) + old_e[pos as int].text@
                    =~= (trivia_text(pieces) + old_e[pos as int].text@) + trivia_text(new_e[pos as int].trivia_before@) + new_e[pos as int].text@);
                assert(self.builder.pending_text() =~= old(self).builder_view().pending_text() + (trivia_text(pieces) + old_e[pos as int].text@));
                lemma_emit_keeps_text(old_e, new_e, old(self).builder_view().pending_text(), self.builder.pending_text(), pos as int,
                    trivia_text(pieces) + old_e[pos as int].text@);
            }
        }
    }

    /// Open a node of `kind` at the current position.
    pub fn start(&mut self, kind: K)
        requires
            old(self).wf(),
            old(self).open_view() < usize::MAX,
        ensures
            final(self).wf(),
            final(self).open_view() == old(self).open_view() + 1,
            final(self).entries_view() == old(self).entries_view(),
            final(self).flushed_view() == old(self).flushed_view(),
            final(self).builder_view().children_view() == old(self).builder_view().children_view(),
            final(self).builder_view().parents_view().drop_last() == old(self).builder_view().parents_view(),
            converts(kind, final(self).builder_view().parents_view().last().0),
            final(self).builder_view().parents_view().last().1 == old(self).builder_view().children_view().len(),
            final(self).sink_text() == old(self).sink_text(),
    {
        let k: SyntaxKind = kind.into();
        let ghost n = self.builder.children_view().len();
        self.builder.start_node(k);
        self.open = self.open + 1;
        proof {
            assert(self.builder.parents_view().drop_last() =~= old(self).builder_view().parents_view());
            assert(self.builder.parents_view().last() == (k, n as usize));
        }
    }

    /// Close the innermost open node.
    pub fn finish(&mut self)
        requires
            old(self).wf(),
            old(self).open_view() > 0,
        ensures
            final(self).wf(),
            final(self).open_view() == old(self).open_view() - 1,
            final(self).entries_view() == old(self).entries_view(),
            final(self).flushed_view() == old(self).flushed_view(),
            final(self).builder_view().parents_view() == old(self).builder_view().parents_view().drop_last(),
            ({
                let (kind, first) = old(self).builder_view().parents_view().last();
                let c = final(self).builder_view().children_view();
                &&& c.len() == first + 1
                &&& c.drop_last() == old(self).builder_view().children_view().take(first as int)
                &&& c.last() matches GreenElement::Node(n) && n.kind_view() == kind
                    && n.children_view() == old(self).builder_view().children_view().skip(first as int)
            }),
            final(self).builder_view().pending_text() == old(self).builder_view().pending_text(),
            final(self).sink_text() == old(self).sink_text(),
    {
        let open: Option<()> = if self.open > 0 { Some(()) } else { None };
        open.expect("finish without a matching start");
        self.builder.finish_node();
        self.open = self.open - 1;
    }

    /// A mark at the current position.
    pub fn checkpoint(&self) -> (r: Checkpoint)
        ensures
            r.pos() == self.builder_view().children_view().len(),
    {
        self.builder.checkpoint()
    }

    /// Open a node of `kind` retroactively at `cp`.
    pub fn start_at(&mut self, cp: Checkpoint, kind: K)
        requires
            old(self).wf(),
            old(self).open_view() < usize::MAX,
            cp.pos() <= old(self).builder_view().children_view().len(),
            old(self).builder_view().parents_view().len() > 0 ==> cp.pos() >= old(self).builder_view().parents_view().last().1,
        ensures
            final(self).wf(),
            final(self).open_view() == old(self).open_view() + 1,
            final(self).entries_view() == old(self).entries_view(),
            final(self).flushed_view() == old(self).flushed_view(),
            final(self).builder_view().children_view() == old(self).builder_view().children_view(),
            final(self).builder_view().parents_view().drop_last() == old(self).builder_view().parents_view(),
            converts(kind, final(self).builder_view().parents_view().last().0),
            final(self).builder_view().parents_view().last().1 == cp.pos(),
            final(self).sink_text() == old(self).sink_text(),
    {
        let k: SyntaxKind = kind.into();
        self.builder.start_node_at(cp, k);
        self.open = self.open + 1;
        proof {
            assert(self.builder.parents_view().drop_last() =~= old(self).builder_view().parents_view());
        }
    }

    /// How many nodes are open.
    pub fn open_depth(&self) -> (r: usize)
        requires
            self.wf(),
        ensures
            r == self.depth_view(),
    {
        self.open
    }

    /// Close open nodes until exactly `depth` remain; the partially built
    /// nodes close as they are, their children staying in the tree: the
    /// outermost closed node sits last among the pending children, and
    /// each closed node holds the children emitted into it, then the node
    /// closed inside it.
    pub fn finish_to(&mut self, depth: usize)
        requires
            old(self).wf(),
            depth <= old(self).open_view(),
        ensures
            final(self).wf(),
            final(self).open_view() == depth,
            final(self).entries_view() == old(self).entries_view(),
            final(self).flushed_view() == old(self).flushed_view(),
            final(self).builder_view().parents_view() == old(self).builder_view().parents_view().take(depth as int),
            final(self).builder_view().pending_text() == old(self).builder_view().pending_text(),
            final(self).sink_text() == old(self).sink_text(),
            depth == old(self).open_view() ==> final(self).builder_view().children_view() == old(self).builder_view().children_view(),
            depth < old(self).open_view() ==> ({
                let p = old(self).builder_view().parents_view();
                let before = old(self).builder_view().children_view();
                let c = final(self).builder_view().children_view();
                &&& c.len() == p[depth as int].1 + 1
                &&& c.drop_last() == before.take(p[depth as int].1 as int)
                &&& closed_nest(c.last(), before, p, depth as int)
            }),
    {
        let ghost p = old(self).builder_view().parents_view();
        let ghost before = old(self).builder_view().children_view();
        let ghost top = old(self).open_view();
        while self.open > depth
            invariant
                self.wf(),
                depth <= self.open_view(),
                self.open_view() <= top,
                top == old(self).open_view(),
                p == old(self).builder_view().parents_view(),
                before == old(self).builder_view().children_view(),
                old(self).builder_view().wf(),
                p.len() == top,
                self.entries_view() == old(self).entries_view(),
                self.flushed_view() == old(self).flushed_view(),
                self.builder_view().parents_view() == p.take(self.open_view() as int),
                self.builder_view().pending_text() == old(self).builder_view().pending_text(),
                self.open_view() == top ==> self.builder_view().children_view() == before,
                self.open_view() < top ==> ({
                    let c = self.builder_view().children_view();
                    &&& c.len() == p[self.open_view() as int].1 + 1
                    &&& c.drop_last() == before.take(p[self.open_view() as int].1 as int)
                    &&& closed_nest(c.last(), before, p, self.open_view() as int)
                }),
            decreases self.open,
        {
            let ghost cur = self.builder_view().children_view();
            let ghost level = self.open_view() - 1;
            let ghost was_top = self.open_view() == top;
            self.finish();
            proof {
                assert(p.take(level + 1).drop_last() =~= p.take(level));
                assert(p.take(level + 1).last() == p[level]);
                let first = p[level].1 as int;
                let c = self.builder_view().children_view();
                if let GreenElement::Node(n) = c.last() {
                    if was_top {
                        assert(n.children_view() == before.skip(first));
                    } else {
                        let next = p[level + 1].1 as int;
                        assert(p[level].1 <= p[level + 1].1);
                        assert(cur.take(first) =~= before.take(first));
                        assert(n.children_view() == cur.skip(first));
                        assert(next <= before.len());
                        assert(cur.drop_last() == before.take(next));
                        assert(cur.skip(first).drop_last() =~= cur.drop_last().skip(first));
                        assert(before.take(next).skip(first) =~= before.subrange(first, next));
                        assert(cur.skip(first).last() == cur.last());
                    }
                }
            }
        }
    }

    /// Emit the trailing trivia (the last entry's schedule), finish the
    /// root node, and close the build. The root is the one open node, and
    /// was opened before anything was emitted.
    pub fn finish_tree(self, pos_after_last: usize) -> (r: Rc<GreenNode>)
        requires
            self.wf(),
            self.flushed_view() >= pos_after_last,
            self.flushed_view() == pos_after_last ==> (pos_after_last as int) < self.entries_view().len(),
            self.open_view() == 1,
            self.builder_view().parents_view()[0].1 == 0,
        ensures
            r.wf(),
            r.kind_view() == self.builder_view().parents_view()[0].0,
            r.text_view() == self.builder_view().pending_text() + trivia_text(self.pieces_at(pos_after_last)),
            drained_before(self.entries_view(), pos_after_last as int)
                && pos_after_last + 1 == self.entries_view().len()
                && self.entries_view()[pos_after_last as int].text@.len() == 0 ==> r.text_view() == self.sink_text(),
    {
        let mut this = self;
        this.flush(pos_after_last);
        proof {
            if self.flushed_view() != pos_after_last {
                assert(trivia_text(Seq::<(K, String)>::empty()) =~= Seq::<char>::empty());
            }
        }
        let ghost before = this.builder;
        proof {
            let e = self.entries_view();
            let p = pos_after_last as int;
            if drained_before(e, p) && p + 1 == e.len() && e[p].text@.len() == 0 {
                lemma_schedule_at(e, p);
                assert(e.skip(p + 1).len() == 0);
                assert(e[p].text@ =~= Seq::<char>::empty());
                if self.flushed_view() != pos_after_last {
                    assert(e[p].trivia_before@ =~= Seq::<(K, String)>::empty());
                }
                assert(schedule_text(e) =~= trivia_text(self.pieces_at(pos_after_last)));
            }
            assert(before.parents_view() == self.builder_view().parents_view());
            assert(before.parents_view().last() == before.parents_view()[0]);
        }
        this.builder.finish_node();
        proof {
            let c = this.builder.children_view();
            assert(before.children_view().take(0) =~= Seq::<GreenElement>::empty());
            assert(c.len() == 1);
        }
        let ghost fin = this.builder;
        let r = this.builder.finish();
        proof {
            assert(fin.children_view()[0] == fin.children_view().last());
        }
        r
    }
}

/// Whether `c` has the Unicode White_Space property: tab through
/// carriage return, space, next line, no-break space, ogham space mark,
/// en quad through hair space, the line and paragraph separators, narrow
/// no-break space, medium mathematical space and ideographic space.
pub open spec fn unicode_whitespace(c: char) -> bool {
    let u = c as u32;
    ||| 0x09 <= u <= 0x0D
    ||| u == 0x20
    ||| u == 0x85
    ||| u == 0xA0
    ||| u == 0x1680
    ||| 0x2000 <= u <= 0x200A
    ||| u == 0x2028
    ||| u == 0x2029
    ||| u == 0x202F
    ||| u == 0x205F
    ||| u == 0x3000
}

/// Whether `c` has the Unicode White_Space property, as
/// `char::is_whitespace` decides it.
pub fn is_whitespace(c: char) -> (r: bool)
    ensures
        r == unicode_whitespace(c),
{
    let u = c as u32;
    (0x09 <= u && u <= 0x0D) || u == 0x20 || u == 0x85 || u == 0xA0 || u == 0x1680
        || (0x2000 <= u && u <= 0x200A) || u == 0x2028 || u == 0x2029 || u == 0x202F || u == 0x205F
        || u == 0x3000
}

/// The characters of `s`, in order.
pub(crate) fn chars_of(s: &str) -> (r: Vec<char>)
    ensures
        r@ == s@,
{
    let mut out: Vec<char> = Vec::new();
    for c in it: s.chars()
        invariant
            out@ == it.seq().take(it.index()),
    {
        out.push(c);
    }
    out
}

/// Line and column, both 1-based and counting characters, of character
/// index `k` of `src`.
pub open spec fn line_col_at(src: Seq<char>, k: int) -> (int, int)
    decreases k,
{
    if k <= 0 {
        (1, 1)
    } else {
        let (l, c) = line_col_at(src, k - 1);
        if src[k - 1] == '\n' {
            (l + 1, 1)
        } else {
            (l, c + 1)
        }
    }
}

/// `a` comes strictly before `b`, line first.
pub open spec fn before(a: (int, int), b: (int, int)) -> bool {
    a.0 < b.0 || (a.0 == b.0 && a.1 < b.1)
}

/// Character `k` of `src` sits at `line`, `col`.
pub open spec fn starts_at(src: Seq<char>, line: int, col: int, k: int) -> bool {
    0 <= k < src.len() && line_col_at(src, k) == (line, col)
}

/// Some character of `src` sits at `line`, `col`.
pub open spec fn has_index(src: Seq<char>, line: int, col: int) -> bool {
    exists|k: int| starts_at(src, line, col, k)
}

/// The character index at `line`, `col`, where there is one.
pub open spec fn index_at(src: Seq<char>, line: int, col: int) -> int {
    choose|k: int| starts_at(src, line, col, k)
}

/// The character index of token `i`'s position.
pub open spec fn token_index<K>(src: Seq<char>, toks: Seq<LayoutToken<K>>, i: int) -> int {
    index_at(src, toks[i].line as int, toks[i].col as int)
}

/// Tokens `0..=i` all sit at characters of `src`, in order.
pub open spec fn placed<K>(src: Seq<char>, toks: Seq<LayoutToken<K>>, i: int) -> bool
    decreases i,
{
    &&& 0 <= i < toks.len()
    &&& has_index(src, toks[i].line as int, toks[i].col as int)
    &&& (i == 0 || (placed(src, toks, i - 1) && token_index(src, toks, i - 1) <= token_index(src, toks, i)))
}

/// Where token `i` starts: at its position where every token up to it is
/// placed in order, else at the end of the text.
pub open spec fn token_start<K>(src: Seq<char>, toks: Seq<LayoutToken<K>>, i: int) -> int {
    if placed(src, toks, i) {
        token_index(src, toks, i)
    } else {
        src.len() as int
    }
}

/// The first line break at or after `start`, or the end of the text.
pub open spec fn line_end(src: Seq<char>, start: int) -> int
    decreases src.len() - start,
{
    if start >= src.len() {
        src.len() as int
    } else if src[start] == '\n' {
        start
    } else {
        line_end(src, start + 1)
    }
}

/// Where a token starting at `start` ends, by its rule.
pub open spec fn token_end(src: Seq<char>, rule: EndRule, start: int) -> int {
    match rule {
        EndRule::ToLineEnd => line_end(src, start),
        EndRule::AtStart => start,
        EndRule::Chars(n) => if start + n <= src.len() { start + n } else { src.len() as int },
    }
}

/// Every character of `s` is white space.
pub open spec fn all_white(s: Seq<char>) -> bool {
    forall|i: int| 0 <= i < s.len() ==> unicode_whitespace(#[trigger] s[i])
}

/// The layout pass after a prefix of the tokens: the entries made, the
/// trivia pending for the next significant token, the cursor, and whether
/// every token so far met the lexer's contract.
pub struct LayoutState<K> {
    pub entries: Seq<(Seq<(K, Seq<char>)>, Seq<char>)>,
    pub pending: Seq<(K, Seq<char>)>,
    pub cursor: int,
    pub ok: bool,
}

/// One token's step of the layout pass.
pub open spec fn layout_step<K>(src: Seq<char>, toks: Seq<LayoutToken<K>>, ws: K, st: LayoutState<K>, i: int) -> LayoutState<K> {
    let start = token_start(src, toks, i);
    let gap = src.subrange(st.cursor, start);
    let ok = st.ok && st.cursor <= start && all_white(gap)
        && (placed(src, toks, i) || toks[i].end is AtStart);
    let pending = if gap.len() > 0 { st.pending.push((ws, gap)) } else { st.pending };
    let end = token_end(src, toks[i].end, start);
    let text = src.subrange(start, end);
    match toks[i].class {
        TokenClass::Trivia(k) => LayoutState { entries: st.entries, pending: pending.push((k, text)), cursor: end, ok },
        TokenClass::Significant => LayoutState { entries: st.entries.push((pending, text)), pending: seq![], cursor: end, ok },
    }
}

/// The layout pass over the first `n` tokens.
pub open spec fn layout_upto<K>(src: Seq<char>, toks: Seq<LayoutToken<K>>, ws: K, n: int) -> LayoutState<K>
    decreases n,
{
    if n <= 0 {
        LayoutState { entries: seq![], pending: seq![], cursor: 0, ok: true }
    } else {
        layout_step(src, toks, ws, layout_upto(src, toks, ws, n - 1), n - 1)
    }
}

/// How many of the first `n` tokens are significant.
pub open spec fn significant_count<K>(toks: Seq<LayoutToken<K>>, n: int) -> nat
    decreases n,
{
    if n <= 0 {
        0
    } else {
        significant_count(toks, n - 1) + if toks[n - 1].class is Significant { 1nat } else { 0nat }
    }
}

/// A trivia kind the layout can give a piece: the whitespace kind, or a
/// trivia token's own kind.
pub open spec fn piece_kind_from<K>(toks: Seq<LayoutToken<K>>, ws: K, k: K) -> bool {
    k == ws || exists|i: int| 0 <= i < toks.len() && #[trigger] toks[i].class == TokenClass::Trivia(k)
}

proof fn lemma_layout_upto_shape<K>(src: Seq<char>, toks: Seq<LayoutToken<K>>, ws: K, n: int)
    requires
        0 <= n <= toks.len(),
    ensures
        layout_upto(src, toks, ws, n).entries.len() == significant_count(toks, n),
        forall|e: int, q: int| 0 <= e < layout_upto(src, toks, ws, n).entries.len()
            && 0 <= q < layout_upto(src, toks, ws, n).entries[e].0.len()
            ==> piece_kind_from(toks, ws, #[trigger] layout_upto(src, toks, ws, n).entries[e].0[q].0),
        forall|q: int| 0 <= q < layout_upto(src, toks, ws, n).pending.len()
            ==> piece_kind_from(toks, ws, #[trigger] layout_upto(src, toks, ws, n).pending[q].0),
    decreases n,
{
    if n > 0 {
        lemma_layout_upto_shape(src, toks, ws, n - 1);
        let st = layout_upto(src, toks, ws, n - 1);
        let nx = layout_upto(src, toks, ws, n);
        let start = token_start(src, toks, n - 1);
        let gap = src.subrange(st.cursor, start);
        let pending = if gap.len() > 0 { st.pending.push((ws, gap)) } else { st.pending };
        assert forall|q: int| 0 <= q < pending.len() implies piece_kind_from(toks, ws, #[trigger] pending[q].0) by {
            if q < st.pending.len() {
                assert(pending[q] == st.pending[q]);
            }
        }
        match toks[n - 1].class {
            TokenClass::Trivia(k) => {
                assert(piece_kind_from(toks, ws, k));
                assert forall|q: int| 0 <= q < nx.pending.len() implies piece_kind_from(toks, ws, #[trigger] nx.pending[q].0) by {
                    if q < pending.len() {
                        assert(nx.pending[q] == pending[q]);
                    }
                }
            },
            TokenClass::Significant => {
                assert forall|e: int, q: int| 0 <= e < nx.entries.len() && 0 <= q < nx.entries[e].0.len()
                    implies piece_kind_from(toks, ws, #[trigger] nx.entries[e].0[q].0) by {
                    if e < st.entries.len() {
                        assert(nx.entries[e] == st.entries[e]);
                    } else {
                        assert(nx.entries[e].0 == pending);
                    }
                }
            },
        }
    }
}

/// The text of token `i`: from its start to where its rule ends it.
pub open spec fn token_text<K>(src: Seq<char>, toks: Seq<LayoutToken<K>>, i: int) -> Seq<char> {
    let start = token_start(src, toks, i);
    src.subrange(start, token_end(src, toks[i].end, start))
}

/// A trivia piece the layout can make: a run of white space of the
/// whitespace kind, or a trivia token's own text with its own kind.
pub open spec fn layout_piece<K>(src: Seq<char>, toks: Seq<LayoutToken<K>>, ws: K, q: (K, Seq<char>)) -> bool {
    ||| q.0 == ws && all_white(q.1)
    ||| exists|i: int| 0 <= i < toks.len() && #[trigger] toks[i].class == TokenClass::Trivia(q.0) && q.1 == token_text(src, toks, i)
}

proof fn lemma_layout_upto_pieces<K>(src: Seq<char>, toks: Seq<LayoutToken<K>>, ws: K, n: int)
    requires
        0 <= n <= toks.len(),
        layout_upto(src, toks, ws, n).ok,
    ensures
        forall|e: int, q: int| 0 <= e < layout_upto(src, toks, ws, n).entries.len()
            && 0 <= q < layout_upto(src, toks, ws, n).entries[e].0.len()
            ==> layout_piece(src, toks, ws, #[trigger] layout_upto(src, toks, ws, n).entries[e].0[q]),
        forall|q: int| 0 <= q < layout_upto(src, toks, ws, n).pending.len()
            ==> layout_piece(src, toks, ws, #[trigger] layout_upto(src, toks, ws, n).pending[q]),
    decreases n,
{
    if n > 0 {
        lemma_layout_upto_pieces(src, toks, ws, n - 1);
        let st = layout_upto(src, toks, ws, n - 1);
        let nx = layout_upto(src, toks, ws, n);
        let start = token_start(src, toks, n - 1);
        let gap = src.subrange(st.cursor, start);
        let pending = if gap.len() > 0 { st.pending.push((ws, gap)) } else { st.pending };
        assert forall|q: int| 0 <= q < pending.len() implies layout_piece(src, toks, ws, #[trigger] pending[q]) by {
            if q < st.pending.len() {
                assert(pending[q] == st.pending[q]);
            }
        }
        match toks[n - 1].class {
            TokenClass::Trivia(k) => {
                let text = token_text(src, toks, n - 1);
                assert(toks[n - 1].class == TokenClass::Trivia(k));
                assert(layout_piece(src, toks, ws, (k, text)));
                assert forall|q: int| 0 <= q < nx.pending.len() implies layout_piece(src, toks, ws, #[trigger] nx.pending[q]) by {
                    if q < pending.len() {
                        assert(nx.pending[q] == pending[q]);
                    }
                }
            },
            TokenClass::Significant => {
                assert forall|e: int, q: int| 0 <= e < nx.entries.len() && 0 <= q < nx.entries[e].0.len()
                    implies layout_piece(src, toks, ws, #[trigger] nx.entries[e].0[q]) by {
                    if e < st.entries.len() {
                        assert(nx.entries[e] == st.entries[e]);
                    } else {
                        assert(nx.entries[e].0 == pending);
                    }
                }
            },
        }
    }
}

/// Under the lexer's contract, every trivia piece the layout schedules is
/// a run of white space with the whitespace kind, or a trivia token's own
/// text with that token's kind.
pub proof fn law_layout_pieces_keep_their_kinds<K>(src: Seq<char>, toks: Seq<LayoutToken<K>>, ws: K)
    requires
        layout_ok(src, toks, ws),
    ensures
        forall|e: int, q: int| 0 <= e < layout_of(src, toks, ws).entries.len()
            && 0 <= q < layout_of(src, toks, ws).entries[e].0.len()
            ==> layout_piece(src, toks, ws, #[trigger] layout_of(src, toks, ws).entries[e].0[q]),
{
    lemma_layout_upto_pieces(src, toks, ws, toks.len() as int);
}

/// The layout makes one entry per significant token, in order, and every
/// trivia piece it schedules is either a whitespace gap (the given kind)
/// or a trivia token (that token's kind).
pub proof fn law_layout_entry_per_significant_token<K>(src: Seq<char>, toks: Seq<LayoutToken<K>>, ws: K)
    ensures
        layout_of(src, toks, ws).entries.len() == significant_count(toks, toks.len() as int),
        forall|e: int, q: int| 0 <= e < layout_of(src, toks, ws).entries.len()
            && 0 <= q < layout_of(src, toks, ws).entries[e].0.len()
            ==> piece_kind_from(toks, ws, #[trigger] layout_of(src, toks, ws).entries[e].0[q].0),
{
    lemma_layout_upto_shape(src, toks, ws, toks.len() as int);
}

/// The layout pass over all tokens.
pub open spec fn layout_of<K>(src: Seq<char>, toks: Seq<LayoutToken<K>>, ws: K) -> LayoutState<K> {
    layout_upto(src, toks, ws, toks.len() as int)
}

/// The tokens meet the lexer's contract for `src`: gaps between tokens are
/// white space, every token that is not empty sits at a character, no
/// trivia follows the last significant token, and the tokens cover the text.
pub open spec fn layout_ok<K>(src: Seq<char>, toks: Seq<LayoutToken<K>>, ws: K) -> bool {
    let st = layout_of(src, toks, ws);
    &&& st.ok
    &&& st.pending.len() == 0
    &&& st.cursor == src.len()
}

/// Trivia pieces as plain text.
pub open spec fn pieces_view<K>(t: Seq<(K, String)>) -> Seq<(K, Seq<char>)> {
    t.map_values(|p: (K, String)| (p.0, p.1@))
}

/// An entry as plain text.
pub open spec fn entry_view<K>(e: SigLayout<K>) -> (Seq<(K, Seq<char>)>, Seq<char>) {
    (pieces_view(e.trivia_before@), e.text@)
}

/// The text of a schedule: each entry's trivia, then its token, in order.
pub open spec fn schedule_text<K>(s: Seq<SigLayout<K>>) -> Seq<char>
    decreases s.len(),
{
    if s.len() == 0 {
        seq![]
    } else {
        schedule_text(s.drop_last()) + trivia_text(s.last().trivia_before@) + s.last().text@
    }
}

/// Positions strictly increase along the text.
proof fn lemma_line_col_increasing(src: Seq<char>, j: int, k: int)
    requires
        0 <= j < k,
    ensures
        before(line_col_at(src, j), line_col_at(src, k)),
        line_col_at(src, k).0 >= 1,
        line_col_at(src, k).1 >= 1,
    decreases k,
{
    if j < k - 1 {
        lemma_line_col_increasing(src, j, k - 1);
    } else {
        lemma_line_col_positive(src, j);
    }
}

/// Lines and columns start at one.
proof fn lemma_line_col_positive(src: Seq<char>, k: int)
    ensures
        line_col_at(src, k).0 >= 1,
        line_col_at(src, k).1 >= 1,
        line_col_at(src, k).0 + line_col_at(src, k).1 <= (if k > 0 { k } else { 0 }) + 2,
    decreases k,
{
    if k > 0 {
        lemma_line_col_positive(src, k - 1);
    }
}

/// A position names at most one character.
proof fn lemma_index_unique(src: Seq<char>, line: int, col: int, k: int)
    requires
        starts_at(src, line, col, k),
    ensures
        has_index(src, line, col),
        index_at(src, line, col) == k,
{
    let k2 = index_at(src, line, col);
    assert(starts_at(src, line, col, k2));
    if k2 < k {
        lemma_line_col_increasing(src, k2, k);
    } else if k < k2 {
        lemma_line_col_increasing(src, k, k2);
    }
}

/// Every token before a placed one is placed.
proof fn lemma_placed_prefix<K>(src: Seq<char>, toks: Seq<LayoutToken<K>>, i: int, j: int)
    requires
        placed(src, toks, j),
        0 <= i <= j,
    ensures
        placed(src, toks, i),
    decreases j - i,
{
    if i < j {
        lemma_placed_prefix(src, toks, i, j - 1);
    }
}

/// Where each token starts, as a character index.
fn start_offsets<K>(chars: &Vec<char>, tokens: &[LayoutToken<K>]) -> (r: Vec<usize>)
    requires
        chars@.len() < usize::MAX,
        forall|i: int| 0 <= i < tokens@.len() ==> placed(chars@, tokens@, i) || tokens@[i].end is AtStart,
    ensures
        r@.len() == tokens@.len(),
        forall|i: int| 0 <= i < tokens@.len() ==> r@[i] == token_start(chars@, tokens@, i),
{
    let ghost src = chars@;
    let ghost toks = tokens@;
    let n = chars.len();
    let mut offsets: Vec<usize> = Vec::new();
    let mut ti: usize = 0;
    let mut line: usize = 1;
    let mut col: usize = 1;
    let mut k: usize = 0;
    while k < n
        invariant
            src == chars@,
            toks == tokens@,
            n == src.len(),
            n < usize::MAX,
            k <= n,
            ti <= toks.len(),
            offsets@.len() == ti,
            (line as int, col as int) == line_col_at(src, k as int),
            forall|j: int| 0 <= j < ti ==> #[trigger] placed(src, toks, j),
            forall|j: int| 0 <= j < ti ==> #[trigger] offsets@[j] == token_index(src, toks, j),
            ti > 0 ==> offsets@[ti - 1] <= k,
            ti < toks.len() ==> forall|k2: int| 0 <= k2 < k ==> !(#[trigger] starts_at(src, toks[ti as int].line as int, toks[ti as int].col as int, k2)
                && (ti == 0 || offsets@[ti - 1] <= k2)),
        decreases n - k,
    {
        while ti < tokens.len() && tokens[ti].line as usize == line && tokens[ti].col as usize == col
            invariant
                src == chars@,
                toks == tokens@,
                n == src.len(),
                k < n,
                ti <= toks.len(),
                offsets@.len() == ti,
                (line as int, col as int) == line_col_at(src, k as int),
                forall|j: int| 0 <= j < ti ==> #[trigger] placed(src, toks, j),
            forall|j: int| 0 <= j < ti ==> #[trigger] offsets@[j] == token_index(src, toks, j),
                ti > 0 ==> offsets@[ti - 1] <= k,
                ti < toks.len() ==> forall|k2: int| 0 <= k2 < k ==> !(#[trigger] starts_at(src, toks[ti as int].line as int, toks[ti as int].col as int, k2)
                    && (ti == 0 || offsets@[ti - 1] <= k2)),
            decreases toks.len() - ti,
        {
            proof {
                let t = toks[ti as int];
                assert(starts_at(src, t.line as int, t.col as int, k as int));
                lemma_index_unique(src, t.line as int, t.col as int, k as int);
                if ti > 0 {
                    assert(placed(src, toks, ti - 1));
                    assert(offsets@[ti - 1] == token_index(src, toks, ti - 1));
                }
                assert(placed(src, toks, ti as int));
            }
            let ghost prev = offsets@;
            offsets.push(k);
            ti = ti + 1;
            proof {
                assert forall|j: int| 0 <= j < ti implies #[trigger] offsets@[j] == token_index(src, toks, j) by {
                    if j < ti - 1 {
                        assert(offsets@[j] == prev[j]);
                    }
                }
            }
        }
        proof {
            lemma_line_col_positive(src, k as int);
            lemma_line_col_positive(src, k + 1);
        }
        if chars[k] == '\n' {
            line = line + 1;
            col = 1;
        } else {
            col = col + 1;
        }
        k = k + 1;
    }
    let ghost ti0 = ti;
    proof {
        if ti < toks.len() {
            if placed(src, toks, ti as int) {
                let t = toks[ti as int];
                let k2 = token_index(src, toks, ti as int);
                assert(starts_at(src, t.line as int, t.col as int, k2));
                if ti > 0 {
                    assert(offsets@[ti - 1] == token_index(src, toks, ti - 1));
                }
                assert(false);
            }
        }
    }
    while ti < tokens.len()
        invariant
            src == chars@,
            toks == tokens@,
            n == src.len(),
            ti0 <= ti <= toks.len(),
            offsets@.len() == ti,
            forall|j: int| 0 <= j < ti0 ==> #[trigger] placed(src, toks, j),
            forall|j: int| 0 <= j < ti0 ==> #[trigger] offsets@[j] == token_index(src, toks, j),
            forall|j: int| ti0 <= j < ti ==> #[trigger] offsets@[j] == n,
            ti0 < toks.len() ==> !placed(src, toks, ti0 as int),
            forall|i: int| 0 <= i < toks.len() ==> placed(src, toks, i) || toks[i].end is AtStart,
        decreases toks.len() - ti,
    {
        proof {
            if placed(src, toks, ti as int) {
                lemma_placed_prefix(src, toks, ti0 as int, ti as int);
            }
        }
        let empty: Option<()> = match tokens[ti].end {
            EndRule::AtStart => Some(()),
            _ => None,
        };
        empty.expect("unplaced non-empty token");
        let ghost prev = offsets@;
        offsets.push(n);
        ti = ti + 1;
        proof {
            assert forall|j: int| 0 <= j < ti0 implies #[trigger] offsets@[j] == token_index(src, toks, j) by {
                assert(offsets@[j] == prev[j]);
            }
            assert forall|j: int| ti0 <= j < ti implies #[trigger] offsets@[j] == n by {
                if j < ti - 1 {
                    assert(offsets@[j] == prev[j]);
                }
            }
        }
    }
    proof {
        assert forall|i: int| 0 <= i < toks.len() implies offsets@[i] == token_start(src, toks, i) by {
            if i >= ti0 {
                if placed(src, toks, i) {
                    lemma_placed_prefix(src, toks, ti0 as int, i);
                }
            }
        }
    }
    offsets
}

/// The first line break at or after `start` lies within the text.
proof fn lemma_line_end_bounds(src: Seq<char>, start: int)
    requires
        0 <= start <= src.len(),
    ensures
        start <= line_end(src, start) <= src.len(),
    decreases src.len() - start,
{
    if start < src.len() && src[start] != '\n' {
        lemma_line_end_bounds(src, start + 1);
    }
}

/// Where a token starting at `start` ends, as a character index.
fn end_offset(chars: &Vec<char>, rule: EndRule, start: usize) -> (r: usize)
    requires
        start <= chars@.len(),
    ensures
        r == token_end(chars@, rule, start as int),
        start <= r <= chars@.len(),
{
    match rule {
        EndRule::ToLineEnd => {
            proof {
                lemma_line_end_bounds(chars@, start as int);
            }
            let mut e = start;
            while e < chars.len() && chars[e] != '\n'
                invariant
                    start <= e <= chars@.len(),
                    line_end(chars@, e as int) == line_end(chars@, start as int),
                decreases chars@.len() - e,
            {
                e = e + 1;
            }
            e
        },
        EndRule::AtStart => start,
        EndRule::Chars(n) => {
            if (n as usize) <= chars.len() - start {
                start + n as usize
            } else {
                chars.len()
            }
        },
    }
}

/// The text of `chars[from..to]`.
fn text_between(chars: &Vec<char>, from: usize, to: usize) -> (r: String)
    requires
        from <= to <= chars@.len(),
    ensures
        r@ == chars@.subrange(from as int, to as int),
{
    let mut out = String::new();
    let mut g = from;
    while g < to
        invariant
            from <= g <= to <= chars@.len(),
            out@ == chars@.subrange(from as int, g as int),
        decreases to - g,
    {
        push_char(&mut out, chars[g]);
        g = g + 1;
        proof {
            assert(out@ =~= chars@.subrange(from as int, g as int));
        }
    }
    out
}

/// Every token that the pass took without fault leaves the pass without
/// fault so far.
proof fn lemma_layout_ok_prefix<K>(src: Seq<char>, toks: Seq<LayoutToken<K>>, ws: K, i: int, n: int)
    requires
        0 <= i <= n,
        layout_upto(src, toks, ws, n).ok,
    ensures
        layout_upto(src, toks, ws, i).ok,
    decreases n - i,
{
    if i < n {
        lemma_layout_ok_prefix(src, toks, ws, i, n - 1);
    }
}

/// Trivia text grows piece by piece.
proof fn lemma_trivia_text_push<K>(t: Seq<(K, String)>, p: (K, String))
    ensures
        trivia_text(t.push(p)) == trivia_text(t) + p.1@,
        pieces_view(t.push(p)) == pieces_view(t).push((p.0, p.1@)),
{
    assert(t.push(p).drop_last() =~= t);
    assert(pieces_view(t.push(p)) =~= pieces_view(t).push((p.0, p.1@)));
}

/// Schedule text grows entry by entry.
proof fn lemma_schedule_text_push<K>(s: Seq<SigLayout<K>>, e: SigLayout<K>)
    ensures
        schedule_text(s.push(e)) == schedule_text(s) + trivia_text(e.trivia_before@) + e.text@,
{
    assert(s.push(e).drop_last() =~= s);
}

/// The layout pass: each significant token's verbatim text and the trivia
/// before it, reconstructed from the token facts and the source text.
/// Gaps between tokens reprint as trivia of kind `whitespace`. The pieces
/// of all entries, in order, are the source. The tokens must meet the
/// lexer's contract (a violation is a lexer bug and stops the program).
pub fn layout<K: Copy>(source: &str, tokens: &[LayoutToken<K>], whitespace: K) -> (r: Vec<SigLayout<K>>)
    requires
        source@.len() < usize::MAX,
        layout_ok(source@, tokens@, whitespace),
    ensures
        r@.len() == layout_of(source@, tokens@, whitespace).entries.len(),
        forall|i: int| 0 <= i < r@.len() ==> #[trigger] entry_view(r@[i]) == layout_of(source@, tokens@, whitespace).entries[i],
        schedule_text(r@) == source@,
{
    let ghost src = source@;
    let ghost toks = tokens@;
    let ghost ws = whitespace;
    let chars = chars_of(source);
    proof {
        assert forall|i: int| 0 <= i < toks.len() implies placed(src, toks, i) || toks[i].end is AtStart by {
            lemma_layout_ok_prefix(src, toks, ws, i + 1, toks.len() as int);
        }
    }
    let starts = start_offsets(&chars, tokens);
    let mut entries: Vec<SigLayout<K>> = Vec::new();
    let mut pending: Vec<(K, String)> = Vec::new();
    let mut cursor: usize = 0;
    let mut i: usize = 0;
    proof {
        assert(pieces_view(pending@) =~= Seq::<(K, Seq<char>)>::empty());
        assert(src.subrange(0, 0) =~= Seq::<char>::empty());
        assert(schedule_text(entries@) + trivia_text(pending@) =~= Seq::<char>::empty());
    }
    while i < tokens.len()
        invariant
            src == source@,
            src == chars@,
            toks == tokens@,
            ws == whitespace,
            layout_ok(src, toks, ws),
            i <= toks.len(),
            starts@.len() == toks.len(),
            forall|j: int| 0 <= j < toks.len() ==> #[trigger] starts@[j] == token_start(src, toks, j),
            entries@.len() == layout_upto(src, toks, ws, i as int).entries.len(),
            forall|j: int| 0 <= j < entries@.len() ==> #[trigger] entry_view(entries@[j]) == layout_upto(src, toks, ws, i as int).entries[j],
            pieces_view(pending@) == layout_upto(src, toks, ws, i as int).pending,
            cursor == layout_upto(src, toks, ws, i as int).cursor,
            cursor <= src.len(),
            schedule_text(entries@) + trivia_text(pending@) == src.subrange(0, cursor as int),
        decreases toks.len() - i,
    {
        let ghost st = layout_upto(src, toks, ws, i as int);
        proof {
            lemma_layout_ok_prefix(src, toks, ws, i + 1, toks.len() as int);
            assert(layout_upto(src, toks, ws, i + 1) == layout_step(src, toks, ws, st, i as int));
            if placed(src, toks, i as int) {
                assert(starts_at(src, toks[i as int].line as int, toks[i as int].col as int, token_index(src, toks, i as int)));
            }
        }
        let start = starts[i];
        let in_order: Option<()> = if cursor <= start { Some(()) } else { None };
        in_order.expect("token starts before the previous one ends");
        let mut gap = String::new();
        let mut g = cursor;
        while g < start
            invariant
                cursor <= g <= start <= chars@.len(),
                gap@ == chars@.subrange(cursor as int, g as int),
                all_white(chars@.subrange(cursor as int, start as int)),
            decreases start - g,
        {
            let c = chars[g];
            proof {
                assert(chars@.subrange(cursor as int, start as int)[g - cursor] == c);
            }
            let white: Option<()> = if is_whitespace(c) { Some(()) } else { None };
            white.expect("non-whitespace between tokens");
            push_char(&mut gap, c);
            g = g + 1;
            proof {
                assert(gap@ =~= chars@.subrange(cursor as int, g as int));
            }
        }
        let ghost pending0 = pending@;
        if start > cursor {
            pending.push((whitespace, gap));
            proof {
                lemma_trivia_text_push(pending0, (whitespace, gap));
            }
        } else {
            proof {
                assert(gap@ =~= Seq::<char>::empty());
            }
        }
        let end = end_offset(&chars, tokens[i].end, start);
        let text = text_between(&chars, start, end);
        let ghost pending1 = pending@;
        let ghost entries0 = entries@;
        proof {
            assert(trivia_text(pending1) =~= trivia_text(pending0) + gap@);
            assert(src.subrange(0, start as int) =~= src.subrange(0, cursor as int) + gap@);
            assert(schedule_text(entries0) + trivia_text(pending1) =~= src.subrange(0, start as int));
        }
        match tokens[i].class {
            TokenClass::Trivia(kind) => {
                pending.push((kind, text));
                proof {
                    lemma_trivia_text_push(pending1, (kind, text));
                }
            },
            TokenClass::Significant => {
                let mut taken: Vec<(K, String)> = Vec::new();
                std::mem::swap(&mut taken, &mut pending);
                let e = SigLayout { text, trivia_before: taken };
                entries.push(e);
                proof {
                    lemma_schedule_text_push(entries0, e);
                    assert(pieces_view(pending@) =~= Seq::<(K, Seq<char>)>::empty());
                    assert(trivia_text(pending@) =~= Seq::<char>::empty());
                    let st1 = layout_upto(src, toks, ws, i + 1);
                    assert forall|j: int| 0 <= j < entries@.len() implies #[trigger] entry_view(entries@[j]) == st1.entries[j] by {
                        if j < entries0.len() {
                            assert(entries@[j] == entries0[j]);
                        }
                    }
                }
            },
        }
        cursor = end;
        i = i + 1;
        proof {
            assert(src.subrange(0, end as int) =~= src.subrange(0, start as int) + src.subrange(start as int, end as int));
        }
    }
    let done: Option<()> = if pending.len() == 0 { Some(()) } else { None };
    done.expect("trivia after the last significant token");
    let covered: Option<()> = if cursor == chars.len() { Some(()) } else { None };
    covered.expect("source tail not covered");
    proof {
        assert(trivia_text(pending@) =~= Seq::<char>::empty());
        assert(src.subrange(0, cursor as int) =~= src);
        assert(schedule_text(entries@) + Seq::<char>::empty() =~= schedule_text(entries@));
    }
    entries
}

/// The node closed at nesting level `j` of the open frames `p`, over the
/// children `before` pending when closing began: a node of the frame's
/// kind holding the children emitted into the frame, then (below the
/// innermost frame) the node closed at the next level.
pub open spec fn closed_nest(e: GreenElement, before: Seq<GreenElement>, p: Seq<(SyntaxKind, usize)>, j: int) -> bool
    decreases p.len() - j,
{
    if j < 0 || j >= p.len() {
        false
    } else {
        e matches GreenElement::Node(n) && n.kind_view() == p[j].0 && if j == p.len() - 1 {
            n.children_view() == before.skip(p[j].1 as int)
        } else {
            &&& n.children_view().len() == p[j + 1].1 - p[j].1 + 1
            &&& n.children_view().drop_last() == before.subrange(p[j].1 as int, p[j + 1].1 as int)
            &&& closed_nest(n.children_view().last(), before, p, j + 1)
        }
    }
}

} // verus!

