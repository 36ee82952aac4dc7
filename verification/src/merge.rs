//! Union of two already-rendered character sequences into one sorted,
//! de-duplicated sequence.

use vstd::prelude::*;
use vstd::seq_lib::seq_to_set_is_finite;
use vstd::string::StrSliceExecFns;
use crate::charset::insert_char;
use crate::charset::lemma_render_of;
use crate::charset::lemma_sorted_render;
use crate::charset::sorted_render;
use crate::charset::sorted_unique;

verus! {

/// The merge of two character sequences: the canonical sorted rendering of the
/// union of their character sets.
pub open spec fn merged(a: Seq<char>, b: Seq<char>) -> Seq<char> {
    sorted_render(a.to_set().union(b.to_set()))
}

/// Extending a prefix by one element adds exactly that element to its set.
proof fn lemma_prefix_set_extend(s: Seq<char>, i: int)
    requires
        0 <= i < s.len(),
    ensures
        s.subrange(0, i + 1).to_set() == s.subrange(0, i).to_set().insert(s[i]),
{
    let short = s.subrange(0, i);
    let long = s.subrange(0, i + 1);
    assert forall|x: char| long.to_set().contains(x) implies short.to_set().insert(s[i]).contains(
        x,
    ) by {
        let j = choose|j: int| 0 <= j < long.len() && long[j] == x;
        if j < i {
            assert(short[j] == x);
        }
    }
    assert forall|x: char| short.to_set().insert(s[i]).contains(x) implies long.to_set().contains(
        x,
    ) by {
        if x == s[i] {
            assert(long[i] == x);
        } else {
            let j = choose|j: int| 0 <= j < short.len() && short[j] == x;
            assert(long[j] == x);
        }
    }
    assert(long.to_set() =~= short.to_set().insert(s[i]));
}

/// Inserts every character of `s` into the strictly ascending vector `v`.
fn insert_str_chars(v: &mut Vec<char>, s: &str)
    requires
        sorted_unique(old(v)@),
    ensures
        sorted_unique(final(v)@),
        final(v)@.to_set() == old(v)@.to_set().union(s@.to_set()),
{
    let n = s.unicode_len();
    let mut i: usize = 0;
    while i < n
        invariant
            n == s@.len(),
            0 <= i <= n,
            sorted_unique(v@),
            v@.to_set() == old(v)@.to_set().union(s@.subrange(0, i as int).to_set()),
        decreases n - i,
    {
        let c = s.get_char(i);
        insert_char(v, c);
        proof {
            lemma_prefix_set_extend(s@, i as int);
            assert(v@.to_set() =~= old(v)@.to_set().union(s@.subrange(0, i + 1).to_set()));
        }
        i = i + 1;
    }
    proof {
        assert(s@.subrange(0, n as int) == s@);
    }
}

/// Relies on `String::push`, which appends the given character to the end of
/// the string.
#[verifier::external_body]
pub(crate) fn push_char(s: &mut String, c: char)
    ensures
        final(s)@ == old(s)@.push(c),
{
    s.push(c)
}

/// Renders a character vector as the string of exactly those characters.
pub(crate) fn chars_to_string(v: &Vec<char>) -> (r: String)
    ensures
        r@ == v@,
{
    let mut r = String::new();
    let mut i: usize = 0;
    while i < v.len()
        invariant
            0 <= i <= v@.len(),
            r@ == v@.subrange(0, i as int),
        decreases v@.len() - i,
    {
        push_char(&mut r, v[i]);
        proof {
            assert(v@.subrange(0, i as int).push(v@[i as int]) =~= v@.subrange(0, i + 1));
        }
        i = i + 1;
    }
    proof {
        assert(v@.subrange(0, v@.len() as int) == v@);
    }
    r
}

/// Unions two character sequences into one sorted, de-duplicated sequence:
/// the canonical rendering of all characters occurring in either input.
pub fn merge(prev: &str, new: &str) -> (r: String)
    ensures
        r@ == merged(prev@, new@),
        sorted_unique(r@),
        r@.to_set() == prev@.to_set().union(new@.to_set()),
{
    let mut v: Vec<char> = Vec::new();
    proof {
        assert(v@.to_set() =~= Set::<char>::empty());
    }
    insert_str_chars(&mut v, prev);
    insert_str_chars(&mut v, new);
    proof {
        assert(v@.to_set() =~= prev@.to_set().union(new@.to_set()));
        lemma_render_of(v@);
    }
    chars_to_string(&v)
}

/// Law: merging is commutative — the merge of A with B equals the merge of
/// B with A.
pub proof fn lemma_merge_commutative(a: Seq<char>, b: Seq<char>)
    ensures
        merged(a, b) == merged(b, a),
{
    assert(a.to_set().union(b.to_set()) =~= b.to_set().union(a.to_set()));
}

/// Law: merging a sequence with itself yields exactly its own sorted,
/// de-duplicated rendering.
pub proof fn lemma_merge_idempotent(a: Seq<char>)
    ensures
        merged(a, a) == sorted_render(a.to_set()),
{
    assert(a.to_set().union(a.to_set()) =~= a.to_set());
}

/// Law: a merge of two sequences that hold no line terminator holds no line
/// terminator either.
pub proof fn lemma_merge_no_terminators(a: Seq<char>, b: Seq<char>)
    requires
        !a.contains('\n'),
        !a.contains('\r'),
        !b.contains('\n'),
        !b.contains('\r'),
    ensures
        !merged(a, b).contains('\n'),
        !merged(a, b).contains('\r'),
{
    broadcast use seq_to_set_is_finite;

    let u = a.to_set().union(b.to_set());
    vstd::set_lib::lemma_set_union_finite_iff(a.to_set(), b.to_set());
    lemma_sorted_render(u);
    assert(!u.contains('\n'));
    assert(!u.contains('\r'));
    if merged(a, b).contains('\n') {
        assert(merged(a, b).to_set().contains('\n'));
    }
    if merged(a, b).contains('\r') {
        assert(merged(a, b).to_set().contains('\r'));
    }
}

} // verus!
