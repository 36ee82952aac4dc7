//! Sorted, de-duplicated character sequences: the canonical rendering of a
//! character set, and the operations that build one.

use vstd::prelude::*;

verus! {

/// A strictly ascending character sequence: sorted by code point, no duplicates.
pub open spec fn sorted_unique(s: Seq<char>) -> bool {
    forall|i: int, j: int| 0 <= i < j < s.len() ==> s[i] < s[j]
}

/// The canonical sorted rendering of a character set: the unique strictly
/// ascending sequence whose elements are exactly the members of the set.
pub open spec fn sorted_render(cs: Set<char>) -> Seq<char> {
    choose|s: Seq<char>| sorted_unique(s) && s.to_set() == cs
}

/// The set of a strictly ascending sequence loses exactly the head when the
/// head is dropped.
proof fn lemma_tail_set(s: Seq<char>)
    requires
        sorted_unique(s),
        s.len() > 0,
    ensures
        s.drop_first().to_set() == s.to_set().remove(s[0]),
{
    let t = s.drop_first();
    assert forall|x: char| t.to_set().contains(x) implies s.to_set().remove(s[0]).contains(x) by {
        let i = choose|i: int| 0 <= i < t.len() && t[i] == x;
        assert(s[i + 1] == x);
        assert(s[0] < s[i + 1]);
    }
    assert forall|x: char| s.to_set().remove(s[0]).contains(x) implies t.to_set().contains(x) by {
        let i = choose|i: int| 0 <= i < s.len() && s[i] == x;
        assert(i != 0);
        assert(t[i - 1] == x);
    }
    assert(t.to_set() =~= s.to_set().remove(s[0]));
}

/// Two strictly ascending sequences over the same character set are equal:
/// the sorted rendering of a set is unique.
pub proof fn lemma_sorted_unique_same_set(s1: Seq<char>, s2: Seq<char>)
    requires
        sorted_unique(s1),
        sorted_unique(s2),
        s1.to_set() == s2.to_set(),
    ensures
        s1 == s2,
    decreases s1.len(),
{
    if s1.len() == 0 {
        if s2.len() > 0 {
            assert(s2.to_set().contains(s2[0]));
            assert(s1.to_set().contains(s2[0]));
        }
        assert(s1 =~= s2);
    } else {
        assert(s1.to_set().contains(s1[0]));
        assert(s2.to_set().contains(s1[0]));
        assert(s2.len() > 0);
        let j = choose|j: int| 0 <= j < s2.len() && s2[j] == s1[0];
        assert(s2.to_set().contains(s2[0]));
        assert(s1.to_set().contains(s2[0]));
        let k = choose|k: int| 0 <= k < s1.len() && s1[k] == s2[0];
        assert(s1[0] == s2[0]) by {
            if j > 0 {
                assert(s2[0] < s2[j]);
                if k > 0 {
                    assert(s1[0] < s1[k]);
                }
            }
        }
        lemma_tail_set(s1);
        lemma_tail_set(s2);
        lemma_sorted_unique_same_set(s1.drop_first(), s2.drop_first());
        assert forall|i: int| 0 <= i < s1.len() implies s1[i] == s2[i] by {
            if i > 0 {
                assert(s1.drop_first()[i - 1] == s2.drop_first()[i - 1]);
            }
        }
        assert(s1 =~= s2);
    }
}

/// Places `c` into a strictly ascending sequence, keeping it strictly ascending.
spec fn insert_sorted(s: Seq<char>, c: char) -> Seq<char>
    decreases s.len(),
{
    if s.len() == 0 {
        seq![c]
    } else if c < s[0] {
        seq![c] + s
    } else if c == s[0] {
        s
    } else {
        seq![s[0]] + insert_sorted(s.drop_first(), c)
    }
}

/// `insert_sorted` keeps the sequence strictly ascending and adds exactly `c`
/// to its set of characters.
proof fn lemma_insert_sorted(s: Seq<char>, c: char)
    requires
        sorted_unique(s),
    ensures
        sorted_unique(insert_sorted(s, c)),
        insert_sorted(s, c).to_set() == s.to_set().insert(c),
    decreases s.len(),
{
    let r = insert_sorted(s, c);
    if s.len() == 0 {
        assert(r == seq![c]);
        assert(r.to_set().contains(c)) by {
            assert(r[0] == c);
        }
        assert(r.to_set() =~= s.to_set().insert(c));
    } else if c < s[0] {
        assert(r == seq![c] + s);
        assert forall|p: int, q: int| 0 <= p < q < r.len() implies r[p] < r[q] by {
            if p == 0 {
                assert(r[q] == s[q - 1]);
                if q > 1 {
                    assert(s[0] < s[q - 1]);
                }
            } else {
                assert(r[p] == s[p - 1] && r[q] == s[q - 1]);
            }
        }
        assert forall|x: char| r.to_set().contains(x) implies s.to_set().insert(c).contains(x) by {
            let i = choose|i: int| 0 <= i < r.len() && r[i] == x;
            if i > 0 {
                assert(s[i - 1] == x);
            }
        }
        assert forall|x: char| s.to_set().insert(c).contains(x) implies r.to_set().contains(x) by {
            if x == c {
                assert(r[0] == x);
            } else {
                let i = choose|i: int| 0 <= i < s.len() && s[i] == x;
                assert(r[i + 1] == x);
            }
        }
        assert(r.to_set() =~= s.to_set().insert(c));
    } else if c == s[0] {
        assert(s.to_set().contains(c)) by {
            assert(s[0] == c);
        }
        assert(r.to_set() =~= s.to_set().insert(c));
    } else {
        let t = s.drop_first();
        lemma_tail_set(s);
        lemma_insert_sorted(t, c);
        let ri = insert_sorted(t, c);
        assert(r == seq![s[0]] + ri);
        assert forall|k: int| 0 <= k < ri.len() implies s[0] < ri[k] by {
            assert(ri.to_set().contains(ri[k]));
            if ri[k] == c {
            } else {
                assert(t.to_set().contains(ri[k]));
                let i = choose|i: int| 0 <= i < t.len() && t[i] == ri[k];
                assert(s[i + 1] == ri[k]);
                assert(s[0] < s[i + 1]);
            }
        }
        assert forall|p: int, q: int| 0 <= p < q < r.len() implies r[p] < r[q] by {
            if p == 0 {
                assert(r[q] == ri[q - 1]);
            } else {
                assert(r[p] == ri[p - 1] && r[q] == ri[q - 1]);
            }
        }
        assert forall|x: char| r.to_set().contains(x) implies s.to_set().insert(c).contains(x) by {
            let i = choose|i: int| 0 <= i < r.len() && r[i] == x;
            if i == 0 {
                assert(s[0] == x);
            } else {
                assert(ri[i - 1] == x);
                assert(ri.to_set().contains(x));
            }
        }
        assert forall|x: char| s.to_set().insert(c).contains(x) implies r.to_set().contains(x) by {
            if x == s[0] {
                assert(r[0] == x);
            } else {
                assert(ri.to_set().contains(x));
                let i = choose|i: int| 0 <= i < ri.len() && ri[i] == x;
                assert(r[i + 1] == x);
            }
        }
        assert(r.to_set() =~= s.to_set().insert(c));
    }
}

/// The canonical rendering of a finite character set is strictly ascending
/// and holds exactly the set's members.
pub proof fn lemma_sorted_render(cs: Set<char>)
    requires
        cs.finite(),
    ensures
        sorted_unique(sorted_render(cs)),
        sorted_render(cs).to_set() == cs,
    decreases cs.len(),
{
    if cs.len() == 0 {
        cs.lemma_len0_is_empty();
        let w = Seq::<char>::empty();
        assert(w.to_set() =~= cs);
        assert(sorted_unique(w) && w.to_set() == cs);
        assert(exists|s: Seq<char>| sorted_unique(s) && s.to_set() == cs);
    } else {
        assert(cs.contains(cs.choose())) by {
            if !(exists|x: char| cs.contains(x)) {
                assert(cs =~= Set::<char>::empty());
            }
        }
        let c = cs.choose();
        let rest = cs.remove(c);
        lemma_sorted_render(rest);
        let s0 = sorted_render(rest);
        lemma_insert_sorted(s0, c);
        let w = insert_sorted(s0, c);
        assert(w.to_set() =~= cs);
        assert(sorted_unique(w) && w.to_set() == cs);
        assert(exists|s: Seq<char>| sorted_unique(s) && s.to_set() == cs);
    }
}

/// A strictly ascending sequence is the canonical rendering of its own set.
pub proof fn lemma_render_of(s: Seq<char>)
    requires
        sorted_unique(s),
    ensures
        sorted_render(s.to_set()) == s,
{
    assert(exists|t: Seq<char>| sorted_unique(t) && t.to_set() == s.to_set());
    lemma_sorted_unique_same_set(sorted_render(s.to_set()), s);
}

/// Inserts `c` into a strictly ascending vector, keeping it strictly ascending;
/// a character already present is not inserted twice.
pub fn insert_char(v: &mut Vec<char>, c: char)
    requires
        sorted_unique(old(v)@),
    ensures
        sorted_unique(final(v)@),
        final(v)@.to_set() == old(v)@.to_set().insert(c),
{
    let mut i: usize = 0;
    while i < v.len() && v[i] < c
        invariant
            0 <= i <= v@.len(),
            sorted_unique(v@),
            v@ == old(v)@,
            forall|k: int| 0 <= k < i ==> v@[k] < c,
        decreases v@.len() - i,
    {
        i = i + 1;
    }
    if i < v.len() && v[i] == c {
        proof {
            assert(v@.to_set().contains(c));
            assert(v@.to_set() =~= old(v)@.to_set().insert(c));
        }
    } else {
        let ghost pre = v@;
        v.insert(i, c);
        proof {
            assert forall|p: int, q: int| 0 <= p < q < v@.len() implies v@[p] < v@[q] by {
                if q < i {
                } else if p < i && q == i {
                } else if p == i {
                    assert(v@[q] == pre[q - 1]);
                    if q - 1 == i {
                        assert(pre[i as int] != c);
                        assert(pre[i as int] >= c);
                    } else {
                        assert(pre[i as int] < pre[q - 1]);
                        assert(pre[i as int] >= c);
                    }
                } else if p < i {
                    assert(v@[p] == pre[p] && v@[q] == pre[q - 1]);
                } else {
                    assert(v@[p] == pre[p - 1] && v@[q] == pre[q - 1]);
                }
            }
            assert forall|x: char| v@.to_set().contains(x) implies pre.to_set().insert(
                c,
            ).contains(x) by {
                let j = choose|j: int| 0 <= j < v@.len() && v@[j] == x;
                if j < i {
                    assert(pre[j] == x);
                } else if j == i {
                } else {
                    assert(pre[j - 1] == x);
                }
            }
            assert forall|x: char| pre.to_set().insert(c).contains(x) implies v@.to_set().contains(
                x,
            ) by {
                if x == c {
                    assert(v@[i as int] == c);
                } else {
                    let j = choose|j: int| 0 <= j < pre.len() && pre[j] == x;
                    if j < i {
                        assert(v@[j] == x);
                    } else {
                        assert(v@[j + 1] == x);
                    }
                }
            }
            assert(v@.to_set() =~= pre.to_set().insert(c));
        }
    }
}

} // verus!
