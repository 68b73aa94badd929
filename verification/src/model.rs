//! Mathematical model of tokens, weighted links and link sets.
//!
//! The executable types in the rest of the crate are specified against the
//! ghost types and spec functions defined here.

use vstd::prelude::*;

verus! {

/// Ghost image of a token: a word's raw bytes, or the end-of-sentence sentinel.
pub enum TokenV {
    Word(Seq<u8>),
    End,
}

/// Ghost image of a weighted link leaving a context.
pub struct LinkV {
    pub token: TokenV,
    pub count: nat,
}

/// A count bumped by one, saturating at the machine limit.
pub open spec fn sat_inc(c: nat) -> nat {
    if c < usize::MAX as nat {
        c + 1
    } else {
        c
    }
}

/// Index of the first link carrying `t`, or -1 if no link does.
pub open spec fn find_token(s: Seq<LinkV>, t: TokenV) -> int
    decreases s.len(),
{
    if s.len() == 0 {
        -1
    } else if s[0].token == t {
        0
    } else {
        let r = find_token(s.drop_first(), t);
        if r == -1 {
            -1
        } else {
            r + 1
        }
    }
}

pub open spec fn ls_has(s: Seq<LinkV>, t: TokenV) -> bool {
    find_token(s, t) != -1
}

/// Total weight carried by `t` across the whole sequence (0 if absent).
pub open spec fn ls_count(s: Seq<LinkV>, t: TokenV) -> nat
    decreases s.len(),
{
    if s.len() == 0 {
        0
    } else {
        (if s.last().token == t {
            s.last().count
        } else {
            0
        }) + ls_count(s.drop_last(), t)
    }
}

/// How many links carry `t`.
pub open spec fn ls_occurrences(s: Seq<LinkV>, t: TokenV) -> nat
    decreases s.len(),
{
    if s.len() == 0 {
        0
    } else {
        (if s.last().token == t {
            1nat
        } else {
            0
        }) + ls_occurrences(s.drop_last(), t)
    }
}

/// Well-formed link set: at most one link per token, unit-or-larger counts
/// that fit the machine, and weights ordered descending.
pub open spec fn wf_links(s: Seq<LinkV>) -> bool {
    &&& forall|i: int, j: int|
        0 <= i < j < s.len() ==> (#[trigger] s[i]).token != (#[trigger] s[j]).token
    &&& forall|i: int| 0 <= i < s.len() ==> 1 <= (#[trigger] s[i]).count <= usize::MAX as nat
    &&& forall|i: int, j: int| 0 <= i < j < s.len() ==> (#[trigger] s[i]).count >= (#[trigger] s[j]).count
}

/// Two adjacent elements exchanged.
pub open spec fn swap_adjacent(s: Seq<LinkV>, i: int) -> Seq<LinkV>
    recommends
        1 <= i < s.len(),
{
    s.update(i - 1, s[i]).update(i, s[i - 1])
}

/// Move the (possibly too heavy) element at `i` left until descending order
/// is restored.
pub open spec fn bubble_up(s: Seq<LinkV>, i: int) -> Seq<LinkV>
    decreases i,
{
    if i <= 0 || i >= s.len() {
        s
    } else if s[i - 1].count < s[i].count {
        bubble_up(swap_adjacent(s, i), i - 1)
    } else {
        s
    }
}

/// Insert-with-merge: bump the existing link for `t` and restore the order,
/// or append a fresh unit-weight link.
pub open spec fn ls_insert(s: Seq<LinkV>, t: TokenV) -> Seq<LinkV> {
    let i = find_token(s, t);
    if i == -1 {
        s.push(LinkV { token: t, count: 1 })
    } else {
        bubble_up(s.update(i, LinkV { token: t, count: sat_inc(s[i].count) }), i)
    }
}

pub proof fn lemma_find_token_props(s: Seq<LinkV>, t: TokenV)
    ensures
        -1 <= find_token(s, t) < s.len(),
        find_token(s, t) != -1 ==> s[find_token(s, t)].token == t,
        forall|k: int| 0 <= k < s.len() && (find_token(s, t) == -1 || k < find_token(s, t))
            ==> (#[trigger] s[k]).token != t,
    decreases s.len(),
{
    if s.len() > 0 && s[0].token != t {
        let d = s.drop_first();
        lemma_find_token_props(d, t);
        assert forall|k: int|
            0 <= k < s.len() && (find_token(s, t) == -1 || k < find_token(s, t))
            implies (#[trigger] s[k]).token != t by {
            if k > 0 {
                assert(s[k] == d[k - 1]);
            }
        }
    }
}

pub proof fn lemma_find_token_is(s: Seq<LinkV>, t: TokenV, j: int)
    requires
        0 <= j < s.len(),
        s[j].token == t,
        forall|k: int| 0 <= k < j ==> (#[trigger] s[k]).token != t,
    ensures
        find_token(s, t) == j,
    decreases s.len(),
{
    if j > 0 {
        lemma_find_token_is(s.drop_first(), t, j - 1);
    }
}

pub proof fn lemma_find_token_none(s: Seq<LinkV>, t: TokenV)
    requires
        forall|k: int| 0 <= k < s.len() ==> (#[trigger] s[k]).token != t,
    ensures
        find_token(s, t) == -1,
    decreases s.len(),
{
    if s.len() > 0 {
        lemma_find_token_none(s.drop_first(), t);
    }
}

/// `ls_count` and `ls_occurrences` after replacing one element.
pub proof fn lemma_ls_update(s: Seq<LinkV>, i: int, l: LinkV, t: TokenV)
    requires
        0 <= i < s.len(),
    ensures
        ls_count(s.update(i, l), t) + (if s[i].token == t { s[i].count } else { 0 })
            == ls_count(s, t) + (if l.token == t { l.count } else { 0 }),
        ls_occurrences(s.update(i, l), t) + (if s[i].token == t { 1nat } else { 0 })
            == ls_occurrences(s, t) + (if l.token == t { 1nat } else { 0 }),
    decreases s.len(),
{
    let s2 = s.update(i, l);
    assert(s2.len() == s.len());
    if i == s.len() - 1 {
        assert(s2.drop_last() =~= s.drop_last());
        assert(s2.last() == l);
    } else {
        assert(s2.drop_last() =~= s.drop_last().update(i, l));
        assert(s2.last() == s.last());
        lemma_ls_update(s.drop_last(), i, l, t);
    }
}

pub proof fn lemma_ls_swap(s: Seq<LinkV>, i: int, t: TokenV)
    requires
        1 <= i < s.len(),
    ensures
        ls_count(swap_adjacent(s, i), t) == ls_count(s, t),
        ls_occurrences(swap_adjacent(s, i), t) == ls_occurrences(s, t),
{
    let s1 = s.update(i - 1, s[i]);
    lemma_ls_update(s, i - 1, s[i], t);
    lemma_ls_update(s1, i, s[i - 1], t);
    assert(s1[i] == s[i]);
}

pub proof fn lemma_bubble_up_content(s: Seq<LinkV>, i: int, t: TokenV)
    ensures
        ls_count(bubble_up(s, i), t) == ls_count(s, t),
        ls_occurrences(bubble_up(s, i), t) == ls_occurrences(s, t),
        bubble_up(s, i).len() == s.len(),
    decreases i,
{
    if 0 < i < s.len() && s[i - 1].count < s[i].count {
        lemma_ls_swap(s, i, t);
        lemma_bubble_up_content(swap_adjacent(s, i), i - 1, t);
    }
}

/// In a set without duplicate tokens, the weight of `t` is the count stored
/// at its unique index.
pub proof fn lemma_ls_count_at(s: Seq<LinkV>, t: TokenV)
    requires
        forall|i: int, j: int|
            0 <= i < j < s.len() ==> (#[trigger] s[i]).token != (#[trigger] s[j]).token,
    ensures
        find_token(s, t) == -1 ==> ls_count(s, t) == 0 && ls_occurrences(s, t) == 0,
        find_token(s, t) != -1 ==> ls_count(s, t) == s[find_token(s, t)].count
            && ls_occurrences(s, t) == 1,
    decreases s.len(),
{
    lemma_find_token_props(s, t);
    if s.len() > 0 {
        let d = s.drop_last();
        assert(forall|i: int, j: int|
            0 <= i < j < d.len() ==> (#[trigger] d[i]).token != (#[trigger] d[j]).token);
        lemma_ls_count_at(d, t);
        lemma_find_token_props(d, t);
        let i = find_token(s, t);
        if i != -1 {
            if i == s.len() - 1 {
                lemma_find_token_none(d, t);
            } else {
                assert(d[i] == s[i]);
                lemma_find_token_is(d, t, i);
                assert(s.last().token != t);
            }
        } else {
            assert(s.last().token != t);
            lemma_find_token_none(d, t);
        }
    }
}

/// Ordered-except-at-`i`: every pair is descending unless the later element
/// is the one at `i`, and `i` itself dominates everything after it.
pub open spec fn sorted_but(s: Seq<LinkV>, i: int) -> bool {
    &&& forall|a: int, b: int|
        0 <= a < b < s.len() && b != i ==> (#[trigger] s[a]).count >= (#[trigger] s[b]).count
    &&& forall|b: int| i < b < s.len() ==> s[i].count >= (#[trigger] s[b]).count
}

pub proof fn lemma_bubble_up_sorts(s: Seq<LinkV>, i: int)
    requires
        0 <= i < s.len(),
        sorted_but(s, i),
    ensures
        forall|a: int, b: int|
            0 <= a < b < bubble_up(s, i).len()
                ==> (#[trigger] bubble_up(s, i)[a]).count >= (#[trigger] bubble_up(s, i)[b]).count,
        forall|a: int|
            0 <= a < bubble_up(s, i).len()
                ==> exists|b: int| 0 <= b < s.len() && #[trigger] bubble_up(s, i)[a] == s[b],
    decreases i,
{
    if i > 0 && s[i - 1].count < s[i].count {
        let s2 = swap_adjacent(s, i);
        assert(sorted_but(s2, i - 1));
        lemma_bubble_up_sorts(s2, i - 1);
        assert forall|a: int| 0 <= a < bubble_up(s, i).len()
            implies exists|b: int| 0 <= b < s.len() && #[trigger] bubble_up(s, i)[a] == s[b] by {
            assert(bubble_up(s, i) == bubble_up(s2, i - 1));
            let c: int = choose|c: int| 0 <= c < s2.len() && bubble_up(s2, i - 1)[a] == s2[c];
            if c == i - 1 {
                assert(bubble_up(s, i)[a] == s[i]);
            } else if c == i {
                assert(bubble_up(s, i)[a] == s[i - 1]);
            } else {
                assert(bubble_up(s, i)[a] == s[c]);
            }
        }
    } else {
        assert forall|a: int, b: int| 0 <= a < b < s.len()
            implies (#[trigger] s[a]).count >= (#[trigger] s[b]).count by {
            if b == i {
                if a < i - 1 {
                    assert(s[a].count >= s[i - 1].count);
                }
            }
        }
        assert(bubble_up(s, i) == s);
        assert forall|a: int| 0 <= a < s.len()
            implies exists|b: int| 0 <= b < s.len() && #[trigger] s[a] == s[b] by {
            assert(s[a] == s[a]);
        }
    }
}

/// Inserting preserves well-formedness, raises the weight of the inserted
/// token by one (saturating), and leaves every other token's weight alone.
pub proof fn lemma_ls_insert(s: Seq<LinkV>, t: TokenV)
    requires
        wf_links(s),
    ensures
        wf_links(ls_insert(s, t)),
        ls_count(ls_insert(s, t), t) == sat_inc(ls_count(s, t)),
        ls_occurrences(ls_insert(s, t), t) == 1,
        forall|u: TokenV| u != t ==> ls_count(ls_insert(s, t), u) == ls_count(s, u)
            && ls_occurrences(ls_insert(s, t), u) == ls_occurrences(s, u),
        ls_insert(s, t).len() >= 1,
        ls_insert(s, t).len() == if ls_has(s, t) { s.len() as int } else { s.len() + 1int },
{
    lemma_find_token_props(s, t);
    let i = find_token(s, t);
    if i == -1 {
        let s2 = s.push(LinkV { token: t, count: 1 });
        assert(s2.drop_last() =~= s);
        lemma_ls_count_at(s, t);
        assert forall|u: TokenV| u != t implies ls_count(s2, u) == ls_count(s, u)
            && ls_occurrences(s2, u) == ls_occurrences(s, u) by {
            assert(s2.last().token != u);
        }
        lemma_push_keeps_unique_and_sorted(s, t);
    } else {
        let grown = LinkV { token: t, count: sat_inc(s[i].count) };
        let s1 = s.update(i, grown);
        let s2 = bubble_up(s1, i);
        lemma_ls_count_at(s, t);
        lemma_ls_update(s, i, grown, t);
        assert(ls_count(s1, t) == sat_inc(ls_count(s, t)));
        assert(ls_occurrences(s1, t) == 1);
        lemma_bubble_up_content(s1, i, t);
        assert forall|u: TokenV| u != t implies ls_count(s2, u) == ls_count(s, u)
            && ls_occurrences(s2, u) == ls_occurrences(s, u) by {
            lemma_ls_update(s, i, grown, u);
            lemma_bubble_up_content(s1, i, u);
        }
        assert(sorted_but(s1, i));
        lemma_bubble_up_sorts(s1, i);
        assert forall|a: int, b: int| 0 <= a < b < s2.len()
            implies (#[trigger] s2[a]).token != (#[trigger] s2[b]).token by {
            let ta = s2[a].token;
            lemma_ls_count_at(s, ta);
            if ta == t {
                assert(ls_occurrences(s2, ta) == 1);
            } else {
                assert(ls_occurrences(s2, ta) == ls_occurrences(s, ta));
            }
            if s2[b].token == ta {
                lemma_two_occurrences(s2, a, b);
            }
        }
        assert forall|a: int| 0 <= a < s2.len()
            implies 1 <= (#[trigger] s2[a]).count <= usize::MAX as nat by {
            let b: int = choose|b: int| 0 <= b < s1.len() && s2[a] == s1[b];
        }
    }
}

proof fn lemma_push_keeps_unique_and_sorted(s: Seq<LinkV>, t: TokenV)
    requires
        wf_links(s),
        find_token(s, t) == -1,
    ensures
        wf_links(s.push(LinkV { token: t, count: 1 })),
{
    let s2 = s.push(LinkV { token: t, count: 1 });
    lemma_find_token_props(s, t);
    assert forall|i: int, j: int| 0 <= i < j < s2.len()
        implies (#[trigger] s2[i]).token != (#[trigger] s2[j]).token by {
        if j == s.len() {
            assert(s[i].token != t);
        }
    }
    assert forall|i: int, j: int| 0 <= i < j < s2.len()
        implies (#[trigger] s2[i]).count >= (#[trigger] s2[j]).count by {
        if j == s.len() {
            assert(s2[j].count == 1);
        }
    }
}

/// Two distinct positions carrying the same token force at least two
/// occurrences of it.
pub proof fn lemma_two_occurrences(s: Seq<LinkV>, a: int, b: int)
    requires
        0 <= a < b < s.len(),
        s[a].token == s[b].token,
    ensures
        ls_occurrences(s, s[a].token) >= 2,
    decreases s.len(),
{
    let t = s[a].token;
    if b == s.len() - 1 {
        lemma_one_occurrence(s.drop_last(), a);
    } else {
        lemma_two_occurrences(s.drop_last(), a, b);
    }
}

pub proof fn lemma_one_occurrence(s: Seq<LinkV>, a: int)
    requires
        0 <= a < s.len(),
    ensures
        ls_occurrences(s, s[a].token) >= 1,
    decreases s.len(),
{
    if a < s.len() - 1 {
        lemma_one_occurrence(s.drop_last(), a);
    }
}

} // verus!
