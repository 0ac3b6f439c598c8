//! Names in the order `String` sorts them (lexicographic by code point),
//! and sorted, duplicate-free name lists.

use vstd::prelude::*;
use vstd::string::StrSliceExecFns;

verus! {

/// Lexicographic order on character sequences: the order `String`
/// compares in (UTF-8 byte order is code point order).
pub open spec fn seq_lt(a: Seq<char>, b: Seq<char>) -> bool
    decreases a.len(),
{
    if a.len() == 0 {
        b.len() > 0
    } else if b.len() == 0 {
        false
    } else if a[0] != b[0] {
        (a[0] as int) < (b[0] as int)
    } else {
        seq_lt(a.drop_first(), b.drop_first())
    }
}

/// The character views of a list of strings.
pub open spec fn names_of(v: Seq<String>) -> Seq<Seq<char>> {
    v.map_values(|s: String| s@)
}

/// Strictly increasing in [`seq_lt`] order (so also duplicate-free).
pub open spec fn sorted_names(s: Seq<Seq<char>>) -> bool {
    forall|i: int, j: int| 0 <= i < j < s.len() ==> seq_lt(#[trigger] s[i], #[trigger] s[j])
}

/// No sequence is below itself.
pub proof fn lemma_seq_lt_irreflexive(a: Seq<char>)
    ensures
        !seq_lt(a, a),
    decreases a.len(),
{
    if a.len() > 0 {
        lemma_seq_lt_irreflexive(a.drop_first());
    }
}

/// Two different sequences are ordered one way or the other, never both.
pub proof fn lemma_seq_lt_total(a: Seq<char>, b: Seq<char>)
    ensures
        a != b ==> (seq_lt(a, b) || seq_lt(b, a)),
        !(seq_lt(a, b) && seq_lt(b, a)),
    decreases a.len(),
{
    if a.len() > 0 && b.len() > 0 && a[0] == b[0] {
        lemma_seq_lt_total(a.drop_first(), b.drop_first());
        if a != b {
            assert(a.drop_first() != b.drop_first()) by {
                if a.drop_first() == b.drop_first() {
                    assert(a =~= seq![a[0]] + a.drop_first());
                    assert(b =~= seq![b[0]] + b.drop_first());
                }
            }
        }
    } else if a.len() == 0 && b.len() == 0 {
        assert(a =~= b);
    } else if a.len() > 0 && b.len() > 0 {
        assert((a[0] as int) != (b[0] as int));
    }
}

/// The order is transitive.
pub proof fn lemma_seq_lt_transitive(a: Seq<char>, b: Seq<char>, c: Seq<char>)
    requires
        seq_lt(a, b),
        seq_lt(b, c),
    ensures
        seq_lt(a, c),
    decreases a.len(),
{
    if a.len() > 0 && b.len() > 0 && c.len() > 0 && a[0] == b[0] && b[0] == c[0] {
        lemma_seq_lt_transitive(a.drop_first(), b.drop_first(), c.drop_first());
    }
}

/// Whether `a` sorts before `b`.
pub fn str_lt(a: &str, b: &str) -> (r: bool)
    ensures
        r == seq_lt(a@, b@),
{
    let la = a.unicode_len();
    let lb = b.unicode_len();
    let mut i: usize = 0;
    assert(a@.skip(0) =~= a@);
    assert(b@.skip(0) =~= b@);
    while i < la && i < lb
        invariant
            la == a@.len(),
            lb == b@.len(),
            i <= la,
            i <= lb,
            seq_lt(a@, b@) == seq_lt(a@.skip(i as int), b@.skip(i as int)),
        decreases la - i,
    {
        let ca = a.get_char(i);
        let cb = b.get_char(i);
        proof {
            assert(a@.skip(i as int)[0] == ca);
            assert(b@.skip(i as int)[0] == cb);
        }
        if ca != cb {
            return ca < cb;
        }
        proof {
            assert(a@.skip(i as int).drop_first() =~= a@.skip(i + 1));
            assert(b@.skip(i as int).drop_first() =~= b@.skip(i + 1));
        }
        i = i + 1;
    }
    i == la && i < lb
}

/// Whether the sorted list `v` holds `s`, and where it would go: the
/// first position whose name is not below `s`.
pub fn find_name_slot(v: &Vec<String>, s: &str) -> (r: (usize, bool))
    requires
        sorted_names(names_of(v@)),
    ensures
        r.0 <= v@.len(),
        forall|j: int| 0 <= j < r.0 ==> seq_lt(#[trigger] names_of(v@)[j], s@),
        r.0 < v@.len() ==> !seq_lt(names_of(v@)[r.0 as int], s@),
        r.1 == (r.0 < v@.len() && names_of(v@)[r.0 as int] == s@),
        r.1 == names_of(v@).contains(s@),
{
    let mut i: usize = 0;
    while i < v.len() && str_lt(v[i].as_str(), s)
        invariant
            i <= v@.len(),
            forall|j: int| 0 <= j < i ==> seq_lt(#[trigger] names_of(v@)[j], s@),
        decreases v@.len() - i,
    {
        i = i + 1;
    }
    let found = i < v.len() && !str_lt(s, v[i].as_str());
    proof {
        let n = names_of(v@);
        if found {
            lemma_seq_lt_total(n[i as int], s@);
            assert(n[i as int] == s@);
        }
        if n.contains(s@) && !found {
            let j = choose|j: int| 0 <= j < n.len() && n[j] == s@;
            if j < i {
                lemma_seq_lt_irreflexive(s@);
            } else {
                assert(i < v@.len());
                lemma_seq_lt_total(n[i as int], s@);
                if j > i {
                    assert(seq_lt(n[i as int], n[j]));
                }
            }
        }
    }
    (i, found)
}

/// Add `s` to the sorted name list `v` (no change when already present).
pub fn insert_name(v: &mut Vec<String>, s: String)
    requires
        sorted_names(names_of(old(v)@)),
    ensures
        sorted_names(names_of(final(v)@)),
        forall|x: Seq<char>| #[trigger] names_of(final(v)@).contains(x) == (names_of(old(v)@).contains(x) || x == s@),
{
    let (pos, found) = find_name_slot(v, s.as_str());
    if found {
        return;
    }
    let ghost old_n = names_of(v@);
    let ghost sv = s@;
    v.insert(pos, s);
    proof {
        assert(names_of(v@) =~= old_n.insert(pos as int, sv));
        lemma_insert_at_slot(old_n, pos as int, sv);
    }
}

/// Inserting a name at its slot keeps a sorted list sorted and adds just
/// that name.
pub proof fn lemma_insert_at_slot(old_n: Seq<Seq<char>>, pos: int, sv: Seq<char>)
    requires
        sorted_names(old_n),
        0 <= pos <= old_n.len(),
        forall|j: int| 0 <= j < pos ==> seq_lt(#[trigger] old_n[j], sv),
        pos < old_n.len() ==> !seq_lt(old_n[pos], sv),
        !old_n.contains(sv),
    ensures
        sorted_names(old_n.insert(pos, sv)),
        forall|x: Seq<char>| #[trigger] old_n.insert(pos, sv).contains(x) == (old_n.contains(x) || x == sv),
{
    let n = old_n.insert(pos, sv);
    if pos < old_n.len() {
        lemma_seq_lt_total(old_n[pos], sv);
        assert(old_n[pos] != sv);
    }
    assert forall|i: int, j: int| 0 <= i < j < n.len() implies seq_lt(#[trigger] n[i], #[trigger] n[j]) by {
        if j < pos {
        } else if j == pos {
        } else if i < pos {
            assert(n[j] == old_n[j - 1]);
            if j - 1 > pos {
                assert(seq_lt(old_n[pos], old_n[j - 1]));
                lemma_seq_lt_transitive(sv, old_n[pos], old_n[j - 1]);
            }
            lemma_seq_lt_transitive(n[i], sv, n[j]);
        } else if i == pos {
            if j - 1 > pos {
                assert(seq_lt(old_n[pos], old_n[j - 1]));
                lemma_seq_lt_transitive(sv, old_n[pos], old_n[j - 1]);
            }
        } else {
            assert(seq_lt(old_n[i - 1], old_n[j - 1]));
        }
    }
    assert forall|x: Seq<char>| #[trigger] n.contains(x) == (old_n.contains(x) || x == sv) by {
        if n.contains(x) {
            let i = choose|i: int| 0 <= i < n.len() && n[i] == x;
            if i < pos {
                assert(old_n[i] == x);
            } else if i > pos {
                assert(old_n[i - 1] == x);
            }
        }
        if old_n.contains(x) {
            let i = choose|i: int| 0 <= i < old_n.len() && old_n[i] == x;
            if i < pos {
                assert(n[i] == x);
            } else {
                assert(n[i + 1] == x);
            }
        }
        if x == sv {
            assert(n[pos] == x);
        }
    }
}

/// Removing an entry keeps a sorted list sorted.
pub proof fn lemma_remove_sorted(old_n: Seq<Seq<char>>, pos: int)
    requires
        sorted_names(old_n),
        0 <= pos < old_n.len(),
    ensures
        sorted_names(old_n.remove(pos)),
{
    let n = old_n.remove(pos);
    assert forall|i: int, j: int| 0 <= i < j < n.len() implies seq_lt(#[trigger] n[i], #[trigger] n[j]) by {
        let oi = if i < pos { i } else { i + 1 };
        let oj = if j < pos { j } else { j + 1 };
        assert(n[i] == old_n[oi]);
        assert(n[j] == old_n[oj]);
    }
}

/// In a sorted list each name sits at one position only.
pub proof fn lemma_sorted_unique(n: Seq<Seq<char>>, i: int, j: int)
    requires
        sorted_names(n),
        0 <= i < n.len(),
        0 <= j < n.len(),
        n[i] == n[j],
    ensures
        i == j,
{
    if i < j {
        lemma_seq_lt_irreflexive(n[i]);
    } else if j < i {
        lemma_seq_lt_irreflexive(n[i]);
    }
}

/// Whether `v` holds the name `t`.
pub fn holds_name(v: &Vec<String>, t: &String) -> (r: bool)
    ensures
        r == names_of(v@).contains(t@),
{
    let mut k: usize = 0;
    while k < v.len()
        invariant
            k <= v@.len(),
            forall|j: int| 0 <= j < k ==> v@[j]@ != t@,
        decreases v@.len() - k,
    {
        if v[k] == *t {
            proof {
                assert(names_of(v@)[k as int] == t@);
            }
            return true;
        }
        k = k + 1;
    }
    proof {
        if names_of(v@).contains(t@) {
            let j = choose|j: int| 0 <= j < names_of(v@).len() && names_of(v@)[j] == t@;
            assert(v@[j]@ == t@);
        }
    }
    false
}

} // verus!
