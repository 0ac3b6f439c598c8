//! The bookkeeping of the mono stamp closure: the routine copies a link
//! mints, one per distinct (routine, composite) and, for a copy entered by
//! a jump, per call site. A copy is named `<routine>.<digest8>` after the
//! CRC-32 of its composite's canonical key; copies spliced at different
//! sites share that digest and are numbered `.1`, `.2`, … instead; any
//! other name already in play (a hand-written routine or an earlier copy)
//! refuses the copy rather than letting two identities share a name.

use std::collections::{HashMap, VecDeque};

use vstd::prelude::*;

use super::binding_label::{hex8, le32, push_hex8, push_le32};
use super::compose::{canonical_key, composite_key, copy_composite, digest, identity_composite, push_u64_le, u64_bytes, Composite, CompositeTape};
use super::crc32::spec_crc32;
use super::engine::{same_key, SiteKind};
use super::object::RoutineSig;
use super::resolve::FuncRef;
use super::tables::u32_at;
use super::LinkError;
use crate::names::{holds_name, names_of};
use crate::syntax::green::push_char;
use crate::syntax::red::{decimal, digit_char, push_decimal};

verus! {

/// Where a copy entered by a jump returns to: `ret` lands on `return_to`, the
/// instruction after the call, and `retx #k` on exit `k`.
#[derive(Clone, Debug)]
pub struct SpliceSite {
    /// The calling function's index in the order.
    pub caller: usize,
    /// The blob offset of the instruction after the call.
    pub return_to: u32,
    /// The blob offsets of the site's exits.
    pub exits: Vec<u32>,
}

/// A splice site as the closure records it: in a hand-written caller the
/// offsets are final; in a caller that is itself a copy they are offsets
/// of that copy's original routine, translated once the copy is built.
#[derive(Clone, Debug)]
pub enum PendingSite {
    Resolved(SpliceSite),
    InStamp { slot: usize, return_to: u32, exits: Vec<u32> },
}

impl PendingSite {
    /// The caller, return point and exits that tell two splices apart,
    /// a copy's caller counted after the `order_len` hand-written ones.
    pub open spec fn spec_key_parts(self, order_len: int) -> (int, u32, Seq<u32>) {
        match self {
            PendingSite::Resolved(s) => (s.caller as int, s.return_to, s.exits@),
            PendingSite::InStamp { slot, return_to, exits } => (order_len + slot, return_to, exits@),
        }
    }

    /// The `(caller, return_to, exits)` triple that widens a copy's key.
    pub fn key_parts(&self, order_len: usize) -> (r: (usize, u32, &[u32]))
        requires
            self is InStamp ==> order_len + self->slot <= usize::MAX,
        ensures
            (r.0 as int, r.1, r.2@) == self.spec_key_parts(order_len as int),
    {
        match self {
            PendingSite::Resolved(s) => (s.caller, s.return_to, s.exits.as_slice()),
            PendingSite::InStamp { slot, return_to, exits } => (order_len + *slot, *return_to, exits.as_slice()),
        }
    }
}

/// Little-endian bytes of each offset, in order.
pub open spec fn offsets_bytes(e: Seq<u32>) -> Seq<u8>
    decreases e.len(),
{
    if e.len() == 0 {
        seq![]
    } else {
        offsets_bytes(e.drop_last()) + le32(e.last())
    }
}

/// The bytes a splice site adds to its copy's key: the caller as eight
/// little-endian bytes, then the return point and each exit as four.
pub open spec fn site_key(site: Option<PendingSite>, order_len: int) -> Seq<u8> {
    match site {
        None => seq![],
        Some(s) => {
            let (caller, return_to, exits) = s.spec_key_parts(order_len);
            u64_bytes(caller as u64) + le32(return_to) + offsets_bytes(exits)
        },
    }
}

/// `c` re-pointed at `routine`.
pub open spec fn retargeted(c: Composite, routine: usize) -> Composite {
    Composite { routine, tapes: c.tapes }
}

/// The name a copy of the routine named `routine_name` under `c` is minted
/// with: the routine's name, a period, the digest as eight hex digits.
pub open spec fn stamp_base(routine_name: Seq<char>, c: Composite) -> Seq<char> {
    routine_name + seq!['.'] + hex8(spec_crc32(composite_key(c)))
}

/// The `j`-th candidate name: `base` itself, return_to `base.1`, `base.2`, ….
pub open spec fn numbered(base: Seq<char>, j: nat) -> Seq<char> {
    if j == 0 {
        base
    } else {
        base + seq!['.'] + decimal(j)
    }
}

/// `j` is the first candidate not yet in `used`.
pub open spec fn first_free(base: Seq<char>, used: Seq<Seq<char>>, j: nat) -> bool {
    &&& !used.contains(numbered(base, j))
    &&& forall|i: nat| i < j ==> used.contains(#[trigger] numbered(base, i))
}

/// The name a copy takes: its base name, or for a splice the first free
/// numbered candidate.
pub open spec fn minted(base: Seq<char>, used: Seq<Seq<char>>, splice: bool) -> Seq<char> {
    if splice {
        numbered(base, choose|j: nat| first_free(base, used, j))
    } else {
        base
    }
}

/// A numeral has at least one digit, and two for ten and up.
proof fn lemma_decimal_len(n: nat)
    ensures
        decimal(n).len() >= 1,
        n >= 10 ==> decimal(n).len() >= 2,
    decreases n,
{
    if n >= 10 {
        lemma_decimal_len(n / 10);
    }
}

/// Different numbers have different numerals.
proof fn lemma_decimal_injective(a: nat, b: nat)
    requires
        decimal(a) == decimal(b),
    ensures
        a == b,
    decreases a,
{
    lemma_decimal_len(a);
    lemma_decimal_len(b);
    if a < 10 && b < 10 {
        assert(decimal(a)[0] == digit_char(a));
        assert(decimal(b)[0] == digit_char(b));
    } else if a >= 10 && b >= 10 {
        let da = decimal(a);
        let db = decimal(b);
        assert(da.last() == digit_char(a % 10));
        assert(db.last() == digit_char(b % 10));
        assert(da.drop_last() =~= decimal(a / 10));
        assert(db.drop_last() =~= decimal(b / 10));
        lemma_decimal_injective(a / 10, b / 10);
    } else {
        lemma_decimal_len(if a >= 10 { a } else { b });
    }
}

/// Distinct candidates have distinct names.
proof fn lemma_numbered_injective(base: Seq<char>, i: nat, j: nat)
    requires
        numbered(base, i) == numbered(base, j),
    ensures
        i == j,
{
    lemma_decimal_len(i);
    lemma_decimal_len(j);
    if i > 0 && j > 0 {
        let n = base.len() + 1int;
        assert(numbered(base, i).skip(n) =~= decimal(i));
        assert(numbered(base, j).skip(n) =~= decimal(j));
        lemma_decimal_injective(i, j);
    } else if i > 0 || j > 0 {
        assert(numbered(base, i).len() != numbered(base, j).len());
    }
}

/// At most as many distinct candidates as `used` holds names are taken.
proof fn lemma_candidates_bounded(base: Seq<char>, used: Seq<Seq<char>>, n: nat)
    requires
        forall|i: nat| i < n ==> used.contains(#[trigger] numbered(base, i)),
    ensures
        n <= used.len(),
{
    let c = Seq::new(n, |i: int| numbered(base, i as nat));
    assert(c.no_duplicates()) by {
        assert forall|i: int, j: int| 0 <= i < c.len() && 0 <= j < c.len() && i != j implies c[i] != c[j] by {
            if c[i] == c[j] {
                lemma_numbered_injective(base, i as nat, j as nat);
            }
        }
    }
    c.unique_seq_to_set();
    assert(c.to_set().subset_of(used.to_set())) by {
        assert forall|x: Seq<char>| c.to_set().contains(x) implies used.to_set().contains(x) by {
            let i = choose|i: int| 0 <= i < c.len() && c[i] == x;
            assert(used.contains(numbered(base, i as nat)));
        }
    }
    used.lemma_cardinality_of_set();
    vstd::set_lib::lemma_len_subset(c.to_set(), used.to_set());
}

/// Only one candidate is the first free one.
proof fn lemma_first_free_unique(base: Seq<char>, used: Seq<Seq<char>>, i: nat, j: nat)
    requires
        first_free(base, used, i),
        first_free(base, used, j),
    ensures
        i == j,
{
    if i < j {
        assert(used.contains(numbered(base, i)));
    }
    if j < i {
        assert(used.contains(numbered(base, j)));
    }
}

/// One copy the closure has interned.
pub struct StampNode {
    /// The routine copied, by its index in the order.
    pub routine: usize,
    /// The composite the copy runs under, pointing at `routine`.
    pub composite: Composite,
    /// The copy's name.
    pub name: String,
    /// For a copy entered by a jump, the site it splices.
    pub site: Option<PendingSite>,
}

/// The key a node is interned under: its composite's canonical key, then
/// its splice site's bytes.
pub open spec fn node_key(n: StampNode, order_len: int) -> Seq<u8> {
    composite_key(n.composite) + site_key(n.site, order_len)
}

/// The names of the routines in the order.
pub open spec fn order_names(order: Seq<FuncRef>) -> Seq<Seq<char>> {
    order.map_values(|f: FuncRef| f.name@)
}

/// The names of the interned copies.
pub open spec fn node_names(nodes: Seq<StampNode>) -> Seq<Seq<char>> {
    nodes.map_values(|n: StampNode| n.name@)
}

/// The closure's table of copies: each interned once under its key, in
/// intern order, with a worklist of copies still to walk and every name
/// in play.
pub struct Closure<'o> {
    order: &'o [FuncRef],
    machine_sig: &'o RoutineSig,
    /// The interned copies: slot `i` is `nodes[i]`.
    pub nodes: Vec<StampNode>,
    keys: Vec<Vec<u8>>,
    worklist: VecDeque<usize>,
    used_names: Vec<String>,
}

impl<'o> Closure<'o> {
    /// The interned copies, by slot.
    pub closed spec fn nodes_view(&self) -> Seq<StampNode> {
        self.nodes@
    }

    /// The hand-written routines, in order.
    pub closed spec fn order_view(&self) -> Seq<FuncRef> {
        self.order@
    }

    /// The machine's own signature.
    pub closed spec fn machine_view(&self) -> RoutineSig {
        *self.machine_sig
    }

    /// The key of each slot.
    pub closed spec fn keys_view(&self) -> Seq<Seq<u8>> {
        self.keys@.map_values(|k: Vec<u8>| k@)
    }

    /// The slots still to walk, first first.
    pub closed spec fn worklist_view(&self) -> Seq<usize> {
        self.worklist@
    }

    /// Every name in play: the routines', then the copies'.
    pub closed spec fn used_view(&self) -> Seq<Seq<char>> {
        names_of(self.used_names@)
    }

    /// Slot `i` holds key `keys[i]`, each copy points at its routine, and
    /// the names in play are the routines' then the copies'.
    pub open spec fn wf(&self) -> bool {
        &&& self.keys_view().len() == self.nodes_view().len()
        &&& forall|i: int| 0 <= i < self.nodes_view().len() ==>
            #[trigger] self.keys_view()[i] == node_key(self.nodes_view()[i], self.order_view().len() as int)
        &&& forall|i: int| 0 <= i < self.nodes_view().len() ==> (#[trigger] self.nodes_view()[i]).composite.routine == self.nodes_view()[i].routine
        &&& self.used_view() == order_names(self.order_view()) + node_names(self.nodes_view())
    }

    /// The first slot interned under `key`, if any.
    pub open spec fn slot_of(&self, key: Seq<u8>) -> Option<int> {
        if exists|i: int| 0 <= i < self.keys_view().len() && self.keys_view()[i] == key {
            Some(choose|i: int| 0 <= i < self.keys_view().len() && self.keys_view()[i] == key
                && forall|j: int| 0 <= j < i ==> self.keys_view()[j] != key)
        } else {
            None
        }
    }

    /// An empty closure over `order`, every routine's name in play.
    pub fn new(order: &'o [FuncRef], machine_sig: &'o RoutineSig) -> (r: Closure<'o>)
        ensures
            r.wf(),
            r.order_view() == order@,
            r.machine_view() == *machine_sig,
            r.nodes_view().len() == 0,
            r.worklist_view().len() == 0,
    {
        let mut used_names: Vec<String> = Vec::new();
        let mut i: usize = 0;
        while i < order.len()
            invariant
                i <= order@.len(),
                names_of(used_names@) == order_names(order@).take(i as int),
            decreases order@.len() - i,
        {
            let ghost before = used_names@;
            used_names.push(order[i].name.clone());
            proof {
                assert(names_of(used_names@) =~= names_of(before).push(order@[i as int].name@));
                assert(order_names(order@).take(i + 1) =~= order_names(order@).take(i as int).push(order@[i as int].name@));
            }
            i = i + 1;
        }
        let r = Closure {
            order,
            machine_sig,
            nodes: Vec::new(),
            keys: Vec::new(),
            worklist: VecDeque::new(),
            used_names,
        };
        proof {
            assert(order_names(order@).take(order@.len() as int) =~= order_names(order@));
            assert(node_names(r.nodes_view()) =~= Seq::<Seq<char>>::empty());
            assert(r.used_view() =~= order_names(order@) + node_names(r.nodes_view()));
            assert(r.keys_view() =~= Seq::<Seq<u8>>::empty());
        }
        r
    }

    /// The composite the machine's own frame runs under, where a walk
    /// starts.
    pub fn identity(&self) -> (r: Composite)
        ensures
            r.routine == 0,
            r.tapes@.len() == self.machine_view().arity,
            r.canonical(),
            forall|k: int| 0 <= k < r.tapes@.len() ==> (#[trigger] r.tapes@[k]).phys == k as u8
                && r.tapes@[k].rmap.spec_is_identity() && r.tapes@[k].wmap.spec_is_identity(),
    {
        identity_composite(self.machine_sig.arity as usize, 0)
    }

    /// The composite a plain call's callee runs under: the caller's own,
    /// re-pointed at the callee, since a plain call changes no frame.
    pub fn plain_child(&self, enclosing: &Composite, callee: usize) -> (r: Composite)
        ensures
            r.routine == callee,
            r.tapes@.len() == enclosing.tapes@.len(),
            forall|k: int| 0 <= k < enclosing.tapes@.len() ==> super::compose::same_tape(#[trigger] r.tapes@[k], enclosing.tapes@[k]),
    {
        let mut child = copy_composite(enclosing);
        child.routine = callee;
        child
    }

    /// The next slot to walk, in the order the slots were interned.
    pub fn pop(&mut self) -> (r: Option<usize>)
        ensures
            final(self).nodes_view() == old(self).nodes_view(),
            final(self).keys_view() == old(self).keys_view(),
            final(self).used_view() == old(self).used_view(),
            final(self).order_view() == old(self).order_view(),
            final(self).machine_view() == old(self).machine_view(),
            old(self).worklist_view().len() == 0 ==> r is None && final(self).worklist_view() == old(self).worklist_view(),
            old(self).worklist_view().len() > 0 ==> r == Some(old(self).worklist_view()[0])
                && final(self).worklist_view() == old(self).worklist_view().drop_first(),
    {
        self.worklist.pop_front()
    }

    /// A slot's index in the final order, the copies following the
    /// hand-written routines.
    pub fn stamp_index(&self, slot: usize) -> (r: usize)
        requires
            self.order_view().len() + slot <= usize::MAX,
        ensures
            r == self.order_view().len() + slot,
    {
        self.order.len() + slot
    }
}

/// The first slot whose key is `key`, if any.
fn find_key(keys: &Vec<Vec<u8>>, key: &Vec<u8>) -> (r: Option<usize>)
    ensures
        match r {
            Some(i) => i < keys@.len() && keys@[i as int]@ == key@ && forall|j: int| 0 <= j < i ==> keys@[j]@ != key@,
            None => forall|j: int| 0 <= j < keys@.len() ==> keys@[j]@ != key@,
        },
{
    let mut i: usize = 0;
    while i < keys.len()
        invariant
            i <= keys@.len(),
            forall|j: int| 0 <= j < i ==> keys@[j]@ != key@,
        decreases keys@.len() - i,
    {
        if same_key(&keys[i], key) {
            return Some(i);
        }
        i = i + 1;
    }
    None
}

impl<'o> Closure<'o> {
    /// Intern a copy of `routine` under `composite` (re-pointed at
    /// `routine`), and for a copy entered by a jump under its splice
    /// `site` too: a key already interned gives its slot's order index
    /// and `true`. A new copy is named `<routine>.<digest8>`, a splice
    /// numbered past the names in play; a name already in play refuses
    /// the copy and leaves the closure as it was. Otherwise the copy
    /// takes the next slot, joins the worklist, and its order index comes
    /// back with `false`.
    pub fn intern(&mut self, routine: usize, composite: Composite, site: Option<PendingSite>) -> (r: Result<(usize, bool), LinkError>)
        requires
            old(self).wf(),
            routine < old(self).order_view().len(),
            old(self).order_view().len() + old(self).nodes_view().len() < usize::MAX,
            site matches Some(PendingSite::InStamp { slot, .. }) ==> old(self).order_view().len() + slot <= usize::MAX,
            old(self).used_view().len() < u32::MAX,
        ensures
            final(self).wf(),
            final(self).order_view() == old(self).order_view(),
            final(self).machine_view() == old(self).machine_view(),
            ({
                let c = retargeted(composite, routine);
                let n = old(self).order_view().len() as int;
                let key = composite_key(c) + site_key(site, n);
                let name = minted(stamp_base(old(self).order_view()[routine as int].name@, c), old(self).used_view(), site is Some);
                let slot = old(self).nodes_view().len() as int;
                let unchanged = final(self).nodes_view() == old(self).nodes_view()
                    && final(self).keys_view() == old(self).keys_view()
                    && final(self).used_view() == old(self).used_view()
                    && final(self).worklist_view() == old(self).worklist_view();
                match old(self).slot_of(key) {
                    Some(s) => r == Ok::<(usize, bool), LinkError>(((n + s) as usize, true)) && unchanged,
                    None => if old(self).used_view().contains(name) {
                        &&& r matches Err(LinkError::StampNameCollision(m)) && m@ == name
                        &&& unchanged
                    } else {
                        &&& r == Ok::<(usize, bool), LinkError>(((n + slot) as usize, false))
                        &&& final(self).nodes_view().len() == slot + 1
                        &&& final(self).nodes_view().drop_last() == old(self).nodes_view()
                        &&& final(self).nodes_view()[slot].routine == routine
                        &&& final(self).nodes_view()[slot].composite == c
                        &&& final(self).nodes_view()[slot].name@ == name
                        &&& final(self).nodes_view()[slot].site == site
                        &&& final(self).keys_view() == old(self).keys_view().push(key)
                        &&& final(self).used_view() == old(self).used_view().push(name)
                        &&& final(self).worklist_view() == old(self).worklist_view().push(slot as usize)
                    },
                }
            }),
    {
        let ghost c = retargeted(composite, routine);
        let mut composite = composite;
        composite.routine = routine;
        assert(composite == c);
        let n = self.order.len();
        let mut key = canonical_key(&composite);
        match &site {
            Some(s) => {
                let (caller, return_to, exits) = s.key_parts(n);
                push_u64_le(&mut key, caller as u64);
                push_le32(&mut key, return_to);
                let ghost head = key@;
                let mut k: usize = 0;
                proof {
                    assert(exits@.take(0) =~= Seq::<u32>::empty());
                    assert(head + offsets_bytes(exits@.take(0)) =~= head);
                }
                while k < exits.len()
                    invariant
                        k <= exits@.len(),
                        key@ == head + offsets_bytes(exits@.take(k as int)),
                    decreases exits@.len() - k,
                {
                    push_le32(&mut key, exits[k]);
                    proof {
                        assert(exits@.take(k + 1).drop_last() =~= exits@.take(k as int));
                        assert(key@ =~= head + offsets_bytes(exits@.take(k + 1)));
                    }
                    k = k + 1;
                }
                proof {
                    assert(exits@.take(exits@.len() as int) =~= exits@);
                    assert(key@ =~= composite_key(c) + site_key(site, n as int));
                }
            },
            None => {
                assert(key@ =~= composite_key(c) + site_key(site, n as int));
            },
        }
        let ghost key_v = key@;
        let ghost old_keys = self.keys_view();
        match find_key(&self.keys, &key) {
            Some(slot) => {
                proof {
                    assert(self.keys_view()[slot as int] == key_v);
                    let w = choose|i: int| 0 <= i < old_keys.len() && old_keys[i] == key_v
                        && forall|j: int| 0 <= j < i ==> old_keys[j] != key_v;
                    if w < slot {
                        assert(self.keys@[w]@ != key_v);
                    }
                    if w > slot {
                        assert(old_keys[slot as int] != key_v);
                    }
                }
                return Ok((self.stamp_index(slot), true));
            },
            None => {
                proof {
                    assert forall|i: int| 0 <= i < old_keys.len() implies old_keys[i] != key_v by {
                        assert(self.keys@[i]@ != key_v);
                    }
                }
            },
        }
        let slot = self.nodes.len();
        let ghost used = self.used_view();
        let ghost base = stamp_base(self.order@[routine as int].name@, c);
        let mut name = String::new();
        name.append(self.order[routine].name.as_str());
        push_char(&mut name, '.');
        push_hex8(&mut name, digest(&composite));
        proof {
            assert(name@ =~= base);
        }
        if site.is_some() {
            let base_name = name.clone();
            let mut count: u32 = 1;
            proof {
                assert(name@ == numbered(base, 0));
            }
            while holds_name(&self.used_names, &name)
                invariant
                    names_of(self.used_names@) == used,
                    used.len() < u32::MAX,
                    base_name@ == base,
                    1 <= count,
                    count - 1 <= used.len(),
                    name@ == numbered(base, (count - 1) as nat),
                    forall|i: nat| i < count - 1 ==> used.contains(#[trigger] numbered(base, i)),
                decreases used.len() + 1 - count,
            {
                proof {
                    assert forall|i: nat| i < count implies used.contains(#[trigger] numbered(base, i)) by {
                        if i == count - 1 {
                            assert(numbered(base, i) == name@);
                        }
                    }
                    lemma_candidates_bounded(base, used, count as nat);
                }
                let mut next = base_name.clone();
                push_char(&mut next, '.');
                push_decimal(&mut next, count as u64);
                proof {
                    assert(next@ =~= numbered(base, count as nat));
                }
                name = next;
                count = count + 1;
            }
            proof {
                assert(first_free(base, used, (count - 1) as nat));
                let j = choose|j: nat| first_free(base, used, j);
                lemma_first_free_unique(base, used, j, (count - 1) as nat);
            }
        }
        proof {
            assert(name@ == minted(base, used, site is Some));
        }
        if holds_name(&self.used_names, &name) {
            return Err(LinkError::StampNameCollision(name));
        }
        let ghost old_nodes = self.nodes@;
        let ghost old_used = self.used_names@;
        self.used_names.push(name.clone());
        self.nodes.push(StampNode { routine, composite, name, site });
        self.keys.push(key);
        self.worklist.push_back(slot);
        proof {
            assert(names_of(self.used_names@) =~= names_of(old_used).push(self.nodes@[slot as int].name@));
            assert(node_names(self.nodes@) =~= node_names(old_nodes).push(self.nodes@[slot as int].name@));
            assert(self.used_view() =~= order_names(self.order@) + node_names(self.nodes@));
            assert(self.keys_view() =~= old_keys.push(key_v));
            assert(self.nodes@.drop_last() =~= old_nodes);
        }
        Ok((self.stamp_index(slot), false))
    }
}

/// A site through which the callee runs in the machine's own frame, and
/// that callee: a plain call, or a bound call that collapses.
pub open spec fn keeps_frame_to(site: SiteKind, c: usize) -> bool {
    match site {
        SiteKind::Plain { callee } => callee == c,
        SiteKind::Bound { callee, collapse, .. } => collapse && callee == c,
        SiteKind::RawCallM { .. } => false,
    }
}

/// Routine `a` reaches routine `b` in the machine's own frame through
/// one of its sites.
pub open spec fn frame_edge(sites: Seq<Vec<SiteKind>>, a: int, b: int) -> bool {
    &&& 0 <= a < sites.len()
    &&& 0 <= b <= usize::MAX
    &&& exists|j: int| 0 <= j < sites[a]@.len() && #[trigger] keeps_frame_to(sites[a]@[j], b as usize)
}

/// Routine `b` is the entry or reached from it in the machine's own
/// frame in at most `k` steps.
pub open spec fn world_within(sites: Seq<Vec<SiteKind>>, k: nat, b: int) -> bool
    decreases k,
{
    if k == 0 {
        b == 0
    } else {
        world_within(sites, (k - 1) as nat, b) || exists|a: int|
            world_within(sites, (k - 1) as nat, a) && #[trigger] frame_edge(sites, a, b)
    }
}

/// Routine `b` runs in the machine's own frame: the entry, or reached
/// from it through plain calls and collapsing bound calls.
pub open spec fn in_identity_world(sites: Seq<Vec<SiteKind>>, b: int) -> bool {
    exists|k: nat| #[trigger] world_within(sites, k, b)
}

/// How many flags are set.
pub open spec fn count_set(s: Seq<bool>) -> nat
    decreases s.len(),
{
    if s.len() == 0 {
        0
    } else {
        count_set(s.drop_last()) + (if s.last() { 1nat } else { 0nat })
    }
}

proof fn lemma_count_set_bound(s: Seq<bool>)
    ensures
        count_set(s) <= s.len(),
    decreases s.len(),
{
    if s.len() > 0 {
        lemma_count_set_bound(s.drop_last());
    }
}

proof fn lemma_count_set_update(s: Seq<bool>, c: int)
    requires
        0 <= c < s.len(),
        !s[c],
    ensures
        count_set(s.update(c, true)) == count_set(s) + 1,
    decreases s.len(),
{
    let u = s.update(c, true);
    if c == s.len() - 1 {
        assert(u.drop_last() =~= s.drop_last());
    } else {
        assert(u.drop_last() =~= s.drop_last().update(c, true));
        lemma_count_set_update(s.drop_last(), c);
    }
}

/// Every step of the world stays among the first `n` routines.
proof fn lemma_world_in_range(sites: Seq<Vec<SiteKind>>, n: int, k: nat, b: int)
    requires
        n > 0,
        forall|a: int, j: int, c: usize| 0 <= a < n && 0 <= j < sites[a]@.len() && #[trigger] keeps_frame_to(sites[a]@[j], c) ==> c < n,
        world_within(sites, k, b),
        n <= sites.len(),
    ensures
        0 <= b < n,
    decreases k,
{
    if k > 0 {
        if !world_within(sites, (k - 1) as nat, b) {
            let a = choose|a: int| world_within(sites, (k - 1) as nat, a) && #[trigger] frame_edge(sites, a, b);
            lemma_world_in_range(sites, n, (k - 1) as nat, a);
            let j = choose|j: int| 0 <= j < sites[a]@.len() && #[trigger] keeps_frame_to(sites[a]@[j], b as usize);
            assert(keeps_frame_to(sites[a]@[j], b as usize));
        } else {
            lemma_world_in_range(sites, n, (k - 1) as nat, b);
        }
    }
}

/// The routines that run in the machine's own frame, among the first
/// `n`: the entry and whatever it reaches through plain calls and
/// collapsing bound calls. Only these are stamped at the machine's
/// identity.
pub fn identity_world(sites: &Vec<Vec<SiteKind>>, n: usize) -> (r: Vec<bool>)
    requires
        n <= sites@.len(),
        forall|a: int, j: int, c: usize| 0 <= a < n && 0 <= j < sites@[a]@.len() && #[trigger] keeps_frame_to(sites@[a]@[j], c) ==> c < n,
    ensures
        r@.len() == n,
        forall|c: int| 0 <= c < n ==> #[trigger] r@[c] == in_identity_world(sites@, c),
{
    let mut in_world: Vec<bool> = Vec::new();
    let mut i: usize = 0;
    while i < n
        invariant
            i <= n,
            in_world@.len() == i,
            forall|c: int| 0 <= c < i ==> !#[trigger] in_world@[c],
        decreases n - i,
    {
        in_world.push(false);
        i = i + 1;
    }
    let mut queue: VecDeque<usize> = VecDeque::new();
    let mut marked: usize = 0;
    proof {
        assert(count_set(in_world@) == 0) by {
            lemma_count_set_zero(in_world@);
        }
    }
    if n > 0 {
        proof {
            lemma_count_set_update(in_world@, 0);
            assert(world_within(sites@, 0, 0));
        }
        in_world.set(0, true);
        queue.push_back(0);
        marked = 1;
    }
    proof {
        assert forall|a: int| 0 <= a < n && in_world@[a] implies a == 0 && queue@.contains(0usize) by {
            assert(queue@[0] == 0usize);
        }
    }
    while queue.len() > 0
        invariant
            n <= sites@.len(),
            forall|a: int, j: int, c: usize| 0 <= a < n && 0 <= j < sites@[a]@.len() && #[trigger] keeps_frame_to(sites@[a]@[j], c) ==> c < n,
            in_world@.len() == n,
            marked == count_set(in_world@),
            marked <= n,
            n > 0 ==> in_world@[0],
            queue@.no_duplicates(),
            forall|q: int| 0 <= q < queue@.len() ==> #[trigger] queue@[q] < n && in_world@[queue@[q] as int],
            forall|c: int| 0 <= c < n && #[trigger] in_world@[c] ==> in_identity_world(sites@, c),
            forall|a: int, b: int| 0 <= a < n && in_world@[a] && !queue@.contains(a as usize) && #[trigger] frame_edge(sites@, a, b)
                ==> in_world@[b],
        decreases n - marked, queue@.len(),
    {
        proof {
            lemma_count_set_bound(in_world@);
        }
        let ghost before_pop = queue@;
        let fi = match queue.pop_front() {
            Some(x) => x,
            None => 0,
        };
        proof {
            assert(fi == before_pop[0]);
            assert(!queue@.contains(fi)) by {
                if queue@.contains(fi) {
                    let q = choose|q: int| 0 <= q < queue@.len() && queue@[q] == fi;
                    assert(before_pop[q + 1] == before_pop[0]);
                }
            }
            assert forall|q: int| 0 <= q < queue@.len() implies #[trigger] queue@[q] < n && in_world@[queue@[q] as int] by {
                assert(queue@[q] == before_pop[q + 1]);
            }
            assert(queue@.no_duplicates()) by {
                assert forall|x: int, y: int| 0 <= x < y < queue@.len() implies queue@[x] != queue@[y] by {
                    assert(queue@[x] == before_pop[x + 1] && queue@[y] == before_pop[y + 1]);
                }
            }
            assert forall|a: int, b: int| 0 <= a < n && in_world@[a] && !queue@.contains(a as usize) && a != fi
                && #[trigger] frame_edge(sites@, a, b) implies in_world@[b] by {
                if before_pop.contains(a as usize) {
                    let q = choose|q: int| 0 <= q < before_pop.len() && before_pop[q] == a as usize;
                    if q > 0 {
                        assert(queue@[q - 1] == a as usize);
                    }
                }
            }
        }
        let ghost marked_before = marked;
        let calls = &sites[fi];
        let mut j: usize = 0;
        while j < calls.len()
            invariant
                n <= sites@.len(),
                fi < n,
                *calls == sites@[fi as int],
                forall|a: int, jj: int, c: usize| 0 <= a < n && 0 <= jj < sites@[a]@.len() && #[trigger] keeps_frame_to(sites@[a]@[jj], c) ==> c < n,
                in_world@.len() == n,
                marked == count_set(in_world@),
                marked <= n,
                marked >= marked_before,
                n > 0 ==> in_world@[0],
                in_world@[fi as int],
                in_identity_world(sites@, fi as int),
                !queue@.contains(fi),
                queue@.no_duplicates(),
                queue@.len() >= before_pop.len() - 1,
                marked == marked_before + (queue@.len() - (before_pop.len() - 1)),
                forall|q: int| 0 <= q < queue@.len() ==> #[trigger] queue@[q] < n && in_world@[queue@[q] as int],
                forall|c: int| 0 <= c < n && #[trigger] in_world@[c] ==> in_identity_world(sites@, c),
                forall|a: int, b: int| 0 <= a < n && in_world@[a] && !queue@.contains(a as usize) && a != fi
                    && #[trigger] frame_edge(sites@, a, b) ==> in_world@[b],
                forall|jj: int, b: usize| 0 <= jj < j && #[trigger] keeps_frame_to(calls@[jj], b) ==> in_world@[b as int],
            decreases calls@.len() - j,
        {
            let next: Option<usize> = match &calls[j] {
                SiteKind::Plain { callee } => Some(*callee),
                SiteKind::Bound { callee, collapse, .. } => if *collapse { Some(*callee) } else { None },
                SiteKind::RawCallM { .. } => None,
            };
            if let Some(c) = next {
                proof {
                    assert(keeps_frame_to(calls@[j as int], c));
                    assert(sites@[fi as int]@[j as int] == calls@[j as int]);
                }
                if !in_world[c] {
                    proof {
                        lemma_count_set_update(in_world@, c as int);
                        lemma_count_set_bound(in_world@.update(c as int, true));
                        let k = choose|k: nat| #[trigger] world_within(sites@, k, fi as int);
                        assert(keeps_frame_to(sites@[fi as int]@[j as int], c));
                        assert((c as int) as usize == c);
                        assert(keeps_frame_to(sites@[fi as int]@[j as int], (c as int) as usize));
                        assert(exists|jj: int| 0 <= jj < sites@[fi as int]@.len()
                            && #[trigger] keeps_frame_to(sites@[fi as int]@[jj], (c as int) as usize));
                        assert(frame_edge(sites@, fi as int, c as int));
                        assert(world_within(sites@, k + 1, c as int));
                        assert(queue@.push(c).no_duplicates()) by {
                            assert forall|x: int, y: int| 0 <= x < y < queue@.push(c).len() implies queue@.push(c)[x] != queue@.push(c)[y] by {
                                if y == queue@.len() {
                                    assert(in_world@[queue@[x] as int]);
                                }
                            }
                        }
                    }
                    let ghost old_world = in_world@;
                    let ghost old_queue = queue@;
                    in_world.set(c, true);
                    queue.push_back(c);
                    marked = marked + 1;
                    proof {
                        assert(in_world@ == old_world.update(c as int, true));
                        assert(queue@.drop_last() =~= old_queue);
                        assert forall|a: int, b: int| 0 <= a < n && in_world@[a] && !queue@.contains(a as usize) && a != fi
                            && #[trigger] frame_edge(sites@, a, b) implies in_world@[b] by {
                            if a == c as int {
                                assert(queue@[queue@.len() - 1] == c);
                            } else {
                                assert(old_world[a]);
                                assert(!old_queue.contains(a as usize)) by {
                                    if old_queue.contains(a as usize) {
                                        let q = choose|q: int| 0 <= q < old_queue.len() && old_queue[q] == a as usize;
                                        assert(queue@[q] == a as usize);
                                    }
                                }
                                assert(old_world[b]);
                            }
                        }
                        assert(!queue@.contains(fi)) by {
                            if queue@.contains(fi) {
                                let q = choose|q: int| 0 <= q < queue@.len() && queue@[q] == fi;
                                if q < queue@.len() - 1 {
                                    assert(queue@.drop_last()[q] == fi);
                                }
                            }
                        }
                    }
                }
            }
            j = j + 1;
        }
        proof {
            assert forall|a: int, b: int| 0 <= a < n && in_world@[a] && !queue@.contains(a as usize)
                && #[trigger] frame_edge(sites@, a, b) implies in_world@[b] by {
                if a == fi as int {
                    let jj = choose|jj: int| 0 <= jj < sites@[a]@.len() && #[trigger] keeps_frame_to(sites@[a]@[jj], b as usize);
                    assert(keeps_frame_to(calls@[jj], b as usize));
                }
            }
        }
    }
    proof {
        assert forall|c: int| 0 <= c < n implies #[trigger] in_world@[c] == in_identity_world(sites@, c) by {
            if in_identity_world(sites@, c) {
                let k = choose|k: nat| #[trigger] world_within(sites@, k, c);
                lemma_world_marked(sites@, n as int, in_world@, k, c);
            }
        }
    }
    in_world
}

/// No flag set in an all-clear list.
proof fn lemma_count_set_zero(s: Seq<bool>)
    requires
        forall|c: int| 0 <= c < s.len() ==> !#[trigger] s[c],
    ensures
        count_set(s) == 0,
    decreases s.len(),
{
    if s.len() > 0 {
        lemma_count_set_zero(s.drop_last());
    }
}

/// A marked set holding the entry and closed under frame edges holds
/// every routine of the world.
proof fn lemma_world_marked(sites: Seq<Vec<SiteKind>>, n: int, marked: Seq<bool>, k: nat, b: int)
    requires
        n > 0,
        n <= sites.len(),
        marked.len() == n,
        marked[0],
        forall|a: int, j: int, c: usize| 0 <= a < n && 0 <= j < sites[a]@.len() && #[trigger] keeps_frame_to(sites[a]@[j], c) ==> c < n,
        forall|a: int, c: int| 0 <= a < n && marked[a] && #[trigger] frame_edge(sites, a, c) ==> marked[c],
        world_within(sites, k, b),
    ensures
        0 <= b < n,
        marked[b],
    decreases k,
{
    lemma_world_in_range(sites, n, k, b);
    if k > 0 {
        if world_within(sites, (k - 1) as nat, b) {
            lemma_world_marked(sites, n, marked, (k - 1) as nat, b);
        } else {
            let a = choose|a: int| world_within(sites, (k - 1) as nat, a) && #[trigger] frame_edge(sites, a, b);
            lemma_world_marked(sites, n, marked, (k - 1) as nat, a);
        }
    }
}

/// One callee virtual tape's read projection: its physical tape and that
/// tape's cardinality, the ascending physical preimage of each virtual
/// symbol, and the physical symbols that read as no valid virtual symbol.
pub struct TapeProj {
    pub phys: usize,
    pub phys_card: u32,
    pub preimage: HashMap<u16, Vec<u8>>,
    pub holes: Vec<u8>,
}

/// The virtual symbol physical symbol `p` reads as on tape `t`, when it
/// lies in the callee's alphabet or is its opaque index `callee_card`.
pub open spec fn spec_read_image(t: CompositeTape, p: u16, callee_card: u32) -> Option<u16> {
    match t.rmap.spec_apply(p) {
        Some(v) => if v as u32 <= callee_card { Some(v) } else { None },
        None => None,
    }
}

/// The physical symbol virtual symbol `v` writes as on tape `t`, when it
/// lies in the physical alphabet.
pub open spec fn spec_write_image(t: CompositeTape, v: u16, phys_card: u32) -> Option<u16> {
    match t.wmap.spec_apply(v) {
        Some(p) => if (p as u32) < phys_card { Some(p) } else { None },
        None => None,
    }
}

/// What physical symbol `p` reads as; `None` for a read hole.
pub fn read_image(t: &CompositeTape, p: u16, callee_card: u32) -> (r: Option<u16>)
    requires
        t.rmap.wf(),
    ensures
        r == spec_read_image(*t, p, callee_card),
{
    match t.rmap.apply(p) {
        Some(v) => if (v as u32) <= callee_card { Some(v) } else { None },
        None => None,
    }
}

/// What virtual symbol `v` writes as; `None` for a write hole.
pub fn write_image(t: &CompositeTape, v: u16, phys_card: u32) -> (r: Option<u16>)
    requires
        t.wmap.wf(),
    ensures
        r == spec_write_image(*t, v, phys_card),
{
    match t.wmap.apply(v) {
        Some(p) => if (p as u32) < phys_card { Some(p) } else { None },
        None => None,
    }
}

/// Read the dispatch table at `d_off`: its `u16` count, then that many
/// `u32` code offsets; a table cut short is malformed at its start.
pub fn read_dispatch(table: &[u8], d_off: u32, name: &str) -> (r: Result<Vec<u32>, LinkError>)
    requires
        d_off as int + 0x4_0002 <= usize::MAX,
    ensures
        ({
            let t = table@;
            let base = d_off as int;
            if base + 2 > t.len() || base + 2 + 4 * (t[base] as int + 256 * (t[base + 1] as int)) > t.len() {
                r matches Err(LinkError::MalformedTable { symbol, at }) && symbol@ == name@ && at == d_off
            } else {
                r matches Ok(v) && v@.len() == t[base] as int + 256 * (t[base + 1] as int)
                    && forall|i: int| 0 <= i < v@.len() ==> #[trigger] v@[i] == u32_at(t, base + 2 + 4 * i)
            }
        }),
{
    let base = d_off as usize;
    if base + 2 > table.len() {
        return Err(LinkError::MalformedTable { symbol: name.to_owned(), at: d_off });
    }
    let count = table[base] as usize + 256 * (table[base + 1] as usize);
    if base + 2 + count * 4 > table.len() {
        return Err(LinkError::MalformedTable { symbol: name.to_owned(), at: d_off });
    }
    let tl = table.len();
    let mut out: Vec<u32> = Vec::new();
    let mut i: usize = 0;
    while i < count
        invariant
            base == d_off,
            tl == table@.len(),
            base + 2 + count * 4 <= tl,
            count == table@[base as int] as int + 256 * (table@[base + 1] as int),
            i <= count,
            out@.len() == i,
            forall|j: int| 0 <= j < i ==> #[trigger] out@[j] == u32_at(table@, base + 2 + 4 * j),
        decreases count - i,
    {
        let at = base + 2 + i * 4;
        let v = table[at] as u32 + 256 * (table[at + 1] as u32) + 65536 * (table[at + 2] as u32)
            + 16777216 * (table[at + 3] as u32);
        out.push(v);
        i = i + 1;
    }
    Ok(out)
}

/// The move vector projected to `ma` physical tapes through the first `k`
/// callee tapes: callee tape `j`'s move code lands on its physical tape,
/// every other stays (0).
pub open spec fn moves_projected(vec: Seq<u32>, projs: Seq<TapeProj>, ma: int, k: int) -> Seq<u8>
    decreases k,
{
    if k <= 0 {
        Seq::new(ma as nat, |i: int| 0u8)
    } else {
        moves_projected(vec, projs, ma, k - 1).update(projs[k - 1].phys as int, vec[k - 1] as u8)
    }
}

/// How many callee tapes a projection covers.
pub open spec fn projected_tapes(a: int, b: int) -> int {
    if a <= b { a } else { b }
}

/// Project a move vector to the machine's `ma` tapes: each callee tape's
/// move code lands on its physical tape, every other tape stays. Moves
/// are motion, not symbols, so nothing is translated.
pub fn project_moves(vec: &[u32], projs: &[TapeProj], ma: usize) -> (r: Vec<u8>)
    requires
        forall|k: int| 0 <= k < projected_tapes(vec@.len() as int, projs@.len() as int) ==> #[trigger] projs@[k].phys < ma,
    ensures
        r@ == moves_projected(vec@, projs@, ma as int, projected_tapes(vec@.len() as int, projs@.len() as int)),
{
    let mut out: Vec<u8> = Vec::new();
    let mut i: usize = 0;
    while i < ma
        invariant
            i <= ma,
            out@ == Seq::new(i as nat, |x: int| 0u8),
        decreases ma - i,
    {
        out.push(0);
        proof {
            assert(out@ =~= Seq::new((i + 1) as nat, |x: int| 0u8));
        }
        i = i + 1;
    }
    let n = if vec.len() <= projs.len() { vec.len() } else { projs.len() };
    let mut k: usize = 0;
    while k < n
        invariant
            n == projected_tapes(vec@.len() as int, projs@.len() as int),
            forall|q: int| 0 <= q < n ==> #[trigger] projs@[q].phys < ma,
            k <= n,
            out@ == moves_projected(vec@, projs@, ma as int, k as int),
            out@.len() == ma,
        decreases n - k,
    {
        out.set(projs[k].phys, vec[k] as u8);
        k = k + 1;
    }
    out
}

/// A vector encoded into a blob: its bytes, the last with its top bit set.
pub open spec fn encoded_vec(vals: Seq<u8>) -> Seq<u8> {
    vals.update(vals.len() - 1, vals.last() | 0x80)
}

/// Append a vector operand: its bytes, the last with its top bit set to
/// end it.
pub fn encode_vec_into(blob: &mut Vec<u8>, vals: &[u8])
    requires
        vals@.len() > 0,
    ensures
        final(blob)@ == old(blob)@ + encoded_vec(vals@),
{
    let last = vals.len() - 1;
    let mut i: usize = 0;
    while i < vals.len()
        invariant
            last == vals@.len() - 1,
            i <= vals@.len(),
            blob@ == old(blob)@ + encoded_vec(vals@).take(i as int),
        decreases vals@.len() - i,
    {
        let v = vals[i];
        blob.push(if i == last { v | 0x80 } else { v });
        proof {
            assert(encoded_vec(vals@).take(i + 1) =~= encoded_vec(vals@).take(i as int).push(encoded_vec(vals@)[i as int]));
        }
        i = i + 1;
    }
    proof {
        assert(encoded_vec(vals@).take(vals@.len() as int) =~= encoded_vec(vals@));
    }
}

/// Emit a move projected to the machine's `ma` tapes.
pub fn emit_move(blob: &mut Vec<u8>, opcode: u8, vec: &[u32], projs: &[TapeProj], ma: usize)
    requires
        ma > 0,
        forall|k: int| 0 <= k < projected_tapes(vec@.len() as int, projs@.len() as int) ==> #[trigger] projs@[k].phys < ma,
    ensures
        final(blob)@ == old(blob)@.push(opcode)
            + encoded_vec(moves_projected(vec@, projs@, ma as int, projected_tapes(vec@.len() as int, projs@.len() as int))),
{
    let out = project_moves(vec, projs, ma);
    blob.push(opcode);
    proof {
        lemma_moves_projected_len(vec@, projs@, ma as int, projected_tapes(vec@.len() as int, projs@.len() as int));
    }
    encode_vec_into(blob, out.as_slice());
}

proof fn lemma_moves_projected_len(vec: Seq<u32>, projs: Seq<TapeProj>, ma: int, k: int)
    requires
        ma >= 0,
        forall|q: int| 0 <= q < k ==> #[trigger] projs[q].phys < ma,
    ensures
        moves_projected(vec, projs, ma, k).len() == ma,
    decreases k,
{
    if k > 0 {
        lemma_moves_projected_len(vec, projs, ma, k - 1);
    }
}

/// A write vector projected to the machine's tapes, or why not: a
/// virtual symbol with no physical image (the write traps), or an image
/// past the 7-bit symbol budget.
pub enum Projected {
    Out(Seq<u8>),
    Hole,
    Budget,
}

/// The write vector projected through the first `k` callee tapes: each
/// written symbol (0x7F keeps) translated through its tape's write map
/// onto its physical tape, every other tape keeping its symbol.
pub open spec fn writes_projected(vec: Seq<u32>, comp: Composite, projs: Seq<TapeProj>, ma: int, k: int) -> Projected
    decreases k,
{
    if k <= 0 {
        Projected::Out(Seq::new(ma as nat, |i: int| 0x7Fu8))
    } else {
        match writes_projected(vec, comp, projs, ma, k - 1) {
            Projected::Out(o) => {
                let v = vec[k - 1];
                if v == 0x7F {
                    Projected::Out(o)
                } else {
                    match spec_write_image(comp.tapes@[k - 1], v as u16, projs[k - 1].phys_card) {
                        Some(p) => if p <= 0x7E {
                            Projected::Out(o.update(projs[k - 1].phys as int, p as u8))
                        } else {
                            Projected::Budget
                        },
                        None => Projected::Hole,
                    }
                }
            },
            other => other,
        }
    }
}

/// Project a write vector to the machine's `ma` tapes through the
/// composite: `None` when a written symbol has no physical image (the
/// whole write traps), an error when an image lies past the 7-bit budget.
pub fn project_writes(vec: &[u32], comp: &Composite, projs: &[TapeProj], ma: usize, name: &str) -> (r: Result<Option<Vec<u8>>, LinkError>)
    requires
        projected_tapes(vec@.len() as int, comp.tapes@.len() as int) <= projs@.len(),
        forall|k: int| 0 <= k < projected_tapes(vec@.len() as int, comp.tapes@.len() as int) ==>
            (#[trigger] projs@[k]).phys < ma && comp.tapes@[k].wmap.wf(),
    ensures
        match writes_projected(vec@, *comp, projs@, ma as int, projected_tapes(vec@.len() as int, comp.tapes@.len() as int)) {
            Projected::Out(o) => r matches Ok(Some(v)) && v@ == o,
            Projected::Hole => r matches Ok(None),
            Projected::Budget => r matches Err(LinkError::BadFrameDescriptor { symbol, message }) && symbol@ == name@
                && message@ == "a stamped write maps onto a physical symbol past the 7-bit budget"@,
        },
{
    let n = if vec.len() <= comp.tapes.len() { vec.len() } else { comp.tapes.len() };
    let mut out: Vec<u8> = Vec::new();
    let mut i: usize = 0;
    while i < ma
        invariant
            n == projected_tapes(vec@.len() as int, comp.tapes@.len() as int),
            n <= projs@.len(),
            forall|q: int| 0 <= q < n ==> (#[trigger] projs@[q]).phys < ma && comp.tapes@[q].wmap.wf(),
            i <= ma,
            out@ == Seq::new(i as nat, |x: int| 0x7Fu8),
        decreases ma - i,
    {
        out.push(0x7F);
        proof {
            assert(out@ =~= Seq::new((i + 1) as nat, |x: int| 0x7Fu8));
        }
        i = i + 1;
    }
    let mut k: usize = 0;
    while k < n
        invariant
            n == projected_tapes(vec@.len() as int, comp.tapes@.len() as int),
            n <= projs@.len(),
            forall|q: int| 0 <= q < n ==> (#[trigger] projs@[q]).phys < ma && comp.tapes@[q].wmap.wf(),
            k <= n,
            writes_projected(vec@, *comp, projs@, ma as int, k as int) == Projected::Out(out@),
            out@.len() == ma,
        decreases n - k,
    {
        let v = vec[k];
        if v != 0x7F {
            match write_image(&comp.tapes[k], v as u16, projs[k].phys_card) {
                Some(p) => {
                    if p <= 0x7E {
                        out.set(projs[k].phys, p as u8);
                    } else {
                        proof {
                            lemma_writes_stop(vec@, *comp, projs@, ma as int, k + 1, n as int);
                        }
                        return Err(LinkError::BadFrameDescriptor {
                            symbol: name.to_owned(),
                            message: "a stamped write maps onto a physical symbol past the 7-bit budget".to_owned(),
                        });
                    }
                },
                None => {
                    proof {
                        lemma_writes_stop(vec@, *comp, projs@, ma as int, k + 1, n as int);
                    }
                    return Ok(None);
                },
            }
        }
        k = k + 1;
    }
    Ok(Some(out))
}

/// A projection that failed stays failed.
proof fn lemma_writes_stop(vec: Seq<u32>, comp: Composite, projs: Seq<TapeProj>, ma: int, m: int, n: int)
    requires
        0 <= m <= n,
        !(writes_projected(vec, comp, projs, ma, m) is Out),
    ensures
        writes_projected(vec, comp, projs, ma, n) == writes_projected(vec, comp, projs, ma, m),
    decreases n - m,
{
    if m < n {
        lemma_writes_stop(vec, comp, projs, ma, m + 1, n);
    }
}

/// Each combination so far, extended in turn by every value at `pos`:
/// the first `c` combinations' extensions.
pub open spec fn extended(prev: Seq<Seq<(usize, u8)>>, pos: usize, vals: Seq<u8>, c: int) -> Seq<Seq<(usize, u8)>>
    decreases c,
{
    if c <= 0 {
        seq![]
    } else {
        extended(prev, pos, vals, c - 1) + Seq::new(vals.len(), |v: int| prev[c - 1].push((pos, vals[v])))
    }
}

/// The cartesian product of the first `n` option lists, position order
/// and each list's order kept.
pub open spec fn product(opts: Seq<(usize, Vec<u8>)>, n: int) -> Seq<Seq<(usize, u8)>>
    decreases n,
{
    if n <= 0 {
        seq![seq![]]
    } else {
        let prev = product(opts, n - 1);
        extended(prev, opts[n - 1].0, opts[n - 1].1@, prev.len() as int)
    }
}

/// The cartesian product of per-position option lists, preserving
/// position order and each list's order.
pub fn cartesian(opts: &[(usize, Vec<u8>)]) -> (r: Vec<Vec<(usize, u8)>>)
    ensures
        r@.len() == product(opts@, opts@.len() as int).len(),
        forall|i: int| 0 <= i < r@.len() ==> (#[trigger] r@[i])@ == product(opts@, opts@.len() as int)[i],
{
    let mut result: Vec<Vec<(usize, u8)>> = Vec::new();
    result.push(Vec::new());
    let mut n: usize = 0;
    proof {
        assert(product(opts@, 0) =~= seq![Seq::<(usize, u8)>::empty()]);
    }
    while n < opts.len()
        invariant
            n <= opts@.len(),
            result@.len() == product(opts@, n as int).len(),
            forall|i: int| 0 <= i < result@.len() ==> (#[trigger] result@[i])@ == product(opts@, n as int)[i],
        decreases opts@.len() - n,
    {
        let pos = opts[n].0;
        let vals = &opts[n].1;
        let ghost prev = product(opts@, n as int);
        let mut next: Vec<Vec<(usize, u8)>> = Vec::new();
        let mut c: usize = 0;
        while c < result.len()
            invariant
                c <= result@.len(),
                result@.len() == prev.len(),
                forall|i: int| 0 <= i < result@.len() ==> (#[trigger] result@[i])@ == prev[i],
                *vals == opts@[n as int].1,
                pos == opts@[n as int].0,
                next@.len() == extended(prev, pos, vals@, c as int).len(),
                forall|i: int| 0 <= i < next@.len() ==> (#[trigger] next@[i])@ == extended(prev, pos, vals@, c as int)[i],
            decreases result@.len() - c,
        {
            let ghost before = next@;
            let mut v: usize = 0;
            while v < vals.len()
                invariant
                    c < result@.len(),
                    v <= vals@.len(),
                    next@.len() == before.len() + v,
                    forall|i: int| 0 <= i < before.len() ==> #[trigger] next@[i] == before[i],
                    forall|i: int| 0 <= i < v ==> (#[trigger] next@[before.len() + i])@ == result@[c as int]@.push((pos, vals@[i])),
                decreases vals@.len() - v,
            {
                let mut combo = copy_combo(&result[c]);
                combo.push((pos, vals[v]));
                next.push(combo);
                v = v + 1;
            }
            proof {
                let ext = Seq::new(vals@.len(), |x: int| prev[c as int].push((pos, vals@[x])));
                assert(extended(prev, pos, vals@, c + 1) == extended(prev, pos, vals@, c as int) + ext);
                assert forall|i: int| 0 <= i < next@.len() implies (#[trigger] next@[i])@ == extended(prev, pos, vals@, c + 1)[i] by {
                    if i >= before.len() {
                        assert(next@[before.len() + (i - before.len())] == next@[i]);
                    }
                }
            }
            c = c + 1;
        }
        result = next;
        n = n + 1;
    }
    result
}

/// A copy of a combination.
fn copy_combo(c: &Vec<(usize, u8)>) -> (r: Vec<(usize, u8)>)
    ensures
        r@ == c@,
{
    let mut out: Vec<(usize, u8)> = Vec::new();
    let mut i: usize = 0;
    while i < c.len()
        invariant
            i <= c@.len(),
            out@ == c@.take(i as int),
        decreases c@.len() - i,
    {
        out.push(c[i]);
        proof {
            assert(c@.take(i + 1) =~= c@.take(i as int).push(c@[i as int]));
        }
        i = i + 1;
    }
    proof {
        assert(c@.take(c@.len() as int) =~= c@);
    }
    out
}

} // verus!
