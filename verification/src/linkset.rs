//! Executable tokens, weighted links, and the ordered link set.

use vstd::prelude::*;

use crate::model::{
    bubble_up, find_token, lemma_find_token_is, lemma_find_token_none, lemma_find_token_props,
    lemma_ls_insert, ls_count, ls_has, ls_insert, ls_occurrences, sat_inc, wf_links, LinkV, TokenV,
};
use vstd::pervasive::VecAdditionalExecFns;

verus! {

/// A vocabulary unit: a word's raw bytes, or the end-of-sentence sentinel.
pub enum Token {
    Word(Vec<u8>),
    End,
}

impl DeepView for Token {
    type V = TokenV;

    open spec fn deep_view(&self) -> TokenV {
        match self {
            Token::Word(w) => TokenV::Word(w@),
            Token::End => TokenV::End,
        }
    }
}

impl Token {
    /// An independent token with the same content.
    pub fn duplicate(&self) -> (r: Token)
        ensures
            r.deep_view() == self.deep_view(),
    {
        match self {
            Token::Word(w) => Token::Word(clone_bytes(w)),
            Token::End => Token::End,
        }
    }
}

impl PartialEq for Token {
    fn eq(&self, other: &Self) -> (r: bool) {
        match (self, other) {
            (Token::Word(a), Token::Word(b)) => bytes_eq(a, b),
            (Token::End, Token::End) => true,
            _ => false,
        }
    }
}

impl Eq for Token {}

impl vstd::std_specs::cmp::PartialEqSpecImpl for Token {
    open spec fn obeys_eq_spec() -> bool {
        true
    }

    open spec fn eq_spec(&self, other: &Token) -> bool {
        self.deep_view() == other.deep_view()
    }
}

/// Content equality of two byte strings.
pub fn bytes_eq(a: &Vec<u8>, b: &Vec<u8>) -> (r: bool)
    ensures
        r == (a@ == b@),
{
    if a.len() != b.len() {
        return false;
    }
    let n = a.len();
    let mut i: usize = 0;
    while i < n
        invariant
            n == a.len() == b.len(),
            i <= n,
            forall|k: int| 0 <= k < i ==> a@[k] == b@[k],
        decreases n - i,
    {
        if a[i] != b[i] {
            return false;
        }
        i += 1;
    }
    proof {
        assert(a@ =~= b@);
    }
    true
}

/// An independent copy of a byte string.
pub fn clone_bytes(v: &Vec<u8>) -> (r: Vec<u8>)
    ensures
        r@ == v@,
{
    let mut out: Vec<u8> = Vec::new();
    let n = v.len();
    let mut i: usize = 0;
    while i < n
        invariant
            n == v.len(),
            i <= n,
            out@ =~= v@.take(i as int),
        decreases n - i,
    {
        out.push(v[i]);
        i += 1;
    }
    proof {
        assert(out@ =~= v@);
    }
    out
}

/// A weighted edge: a token and how often it was trained.
pub struct Link {
    pub token: Token,
    pub count: usize,
}

impl DeepView for Link {
    type V = LinkV;

    open spec fn deep_view(&self) -> LinkV {
        LinkV { token: self.token.deep_view(), count: self.count as nat }
    }
}

impl From<Token> for Link {
    /// A fresh unit-weight link for `token`.
    fn from(token: Token) -> (r: Link) {
        Link { token, count: 1 }
    }
}

impl vstd::std_specs::convert::FromSpecImpl<Token> for Link {
    open spec fn obeys_from_spec() -> bool {
        true
    }

    open spec fn from_spec(token: Token) -> Link {
        Link { token, count: 1 }
    }
}

impl Link {
    /// Fold an equally-labelled link into this one, adding the counts
    /// (saturating at the machine limit).
    pub fn merge(&mut self, rhs: &Link)
        requires
            old(self).token.deep_view() == rhs.token.deep_view(),
        ensures
            final(self).token == old(self).token,
            final(self).count == if old(self).count + rhs.count <= usize::MAX {
                old(self).count + rhs.count
            } else {
                usize::MAX as int
            },
    {
        self.count = sat_add(self.count, rhs.count);
    }
}

/// Saturating addition on machine words.
pub fn sat_add(a: usize, b: usize) -> (r: usize)
    ensures
        r == if a + b <= usize::MAX { a + b } else { usize::MAX as int },
{
    if a <= usize::MAX - b {
        a + b
    } else {
        usize::MAX
    }
}

/// The ordered, deduplicated collection of links leaving one context.
pub struct LinkSet {
    links: Vec<Link>,
}

impl View for LinkSet {
    type V = Seq<LinkV>;

    closed spec fn view(&self) -> Seq<LinkV> {
        self.links.deep_view()
    }
}

impl DeepView for LinkSet {
    type V = Seq<LinkV>;

    open spec fn deep_view(&self) -> Seq<LinkV> {
        self.view()
    }
}

impl LinkSet {
    /// A well-formed link set (see [`wf_links`]).
    pub open spec fn wf(&self) -> bool {
        wf_links(self@)
    }

    /// Every stored count is a machine word.
    pub proof fn lemma_counts_bounded(&self)
        ensures
            forall|i: int| 0 <= i < self@.len() ==> (#[trigger] self@[i]).count <= usize::MAX as nat,
    {
        assert forall|i: int| 0 <= i < self@.len()
            implies (#[trigger] self@[i]).count <= usize::MAX as nat by {
            assert(self@[i] == self.links@[i].deep_view());
        }
    }

    /// A link set holding exactly these links, in this order.
    pub fn from_links(links: Vec<Link>) -> (r: LinkSet)
        ensures
            r@ == links.deep_view(),
    {
        LinkSet { links }
    }

    pub fn new() -> (r: LinkSet)
        ensures
            r@ == Seq::<LinkV>::empty(),
            r.wf(),
    {
        let r = LinkSet { links: Vec::new() };
        proof {
            assert(r@ =~= Seq::<LinkV>::empty());
        }
        r
    }

    pub fn len(&self) -> (n: usize)
        ensures
            n == self@.len(),
    {
        self.links.len()
    }

    pub fn get(&self, i: usize) -> (l: &Link)
        requires
            i < self@.len(),
        ensures
            l.deep_view() == self@[i as int],
    {
        &self.links[i]
    }

    /// The trained weight of `token`, 0 if it was never inserted.
    pub fn count_of(&self, token: &Token) -> (n: usize)
        requires
            self.wf(),
        ensures
            n == ls_count(self@, token.deep_view()),
    {
        let ghost tv = token.deep_view();
        let n = self.links.len();
        let mut i: usize = 0;
        while i < n
            invariant
                self.wf(),
                n == self@.len(),
                i <= n,
                forall|k: int| 0 <= k < i ==> (#[trigger] self@[k]).token != tv,
                tv == token.deep_view(),
            decreases n - i,
        {
            if self.links[i].token == *token {
                proof {
                    lemma_find_token_is(self@, tv, i as int);
                    crate::model::lemma_ls_count_at(self@, tv);
                }
                return self.links[i].count;
            }
            i += 1;
        }
        proof {
            lemma_find_token_none(self@, tv);
            crate::model::lemma_ls_count_at(self@, tv);
        }
        0
    }

    /// Insert-with-merge: bump the existing link for `token` and restore
    /// descending order, or append a fresh unit-weight link.
    #[verifier::loop_isolation(false)]
    pub fn insert(&mut self, token: Token)
        requires
            old(self).wf(),
        ensures
            final(self)@ == ls_insert(old(self)@, token.deep_view()),
            final(self).wf(),
            final(self)@.len() >= 1,
            ls_count(final(self)@, token.deep_view())
                == sat_inc(ls_count(old(self)@, token.deep_view())),
            forall|u: TokenV| u != token.deep_view()
                ==> ls_count(final(self)@, u) == ls_count(old(self)@, u),
    {
        let ghost s0 = self@;
        let ghost tv = token.deep_view();
        proof {
            lemma_ls_insert(s0, tv);
        }
        let n = self.links.len();
        let mut i: usize = 0;
        while i < n
            invariant
                wf_links(s0),
                self@ == s0,
                n == s0.len(),
                i <= n,
                forall|k: int| 0 <= k < i ==> (#[trigger] s0[k]).token != tv,
                tv == token.deep_view(),
            decreases n - i,
        {
            if self.links[i].token == token {
                proof {
                    lemma_find_token_is(s0, tv, i as int);
                }
                let mut l = self.take_link(i);
                let c = l.count;
                let grown = if c < usize::MAX {
                    c + 1
                } else {
                    c
                };
                l.count = grown;
                self.put_link(i, l);
                proof {
                    assert(self@ =~= s0.update(
                        i as int,
                        LinkV { token: tv, count: sat_inc(s0[i as int].count) },
                    ));
                }
                self.bubble(i, Ghost(s0), Ghost(tv));
                return;
            }
            i += 1;
        }
        proof {
            lemma_find_token_none(s0, tv);
        }
        self.links.push(Link::from(token));
        proof {
            assert(self@ =~= s0.push(LinkV { token: tv, count: 1 }));
        }
    }

    /// Restore descending order by moving the element at `i` left.
    #[verifier::loop_isolation(false)]
    fn bubble(&mut self, i: usize, Ghost(s0): Ghost<Seq<LinkV>>, Ghost(tv): Ghost<TokenV>)
        requires
            i < old(self)@.len(),
            find_token(s0, tv) == i,
            wf_links(s0),
            old(self)@ == s0.update(i as int, LinkV { token: tv, count: sat_inc(s0[i as int].count) }),
        ensures
            final(self)@ == ls_insert(s0, tv),
    {
        let ghost s1 = self@;
        proof {
            lemma_find_token_props(s0, tv);
            assert(ls_insert(s0, tv) == bubble_up(s1, i as int));
        }
        let mut j = i;
        while j > 0 && self.links[j - 1].count < self.links[j].count
            invariant
                j < self@.len(),
                self@.len() == s1.len(),
                bubble_up(self@, j as int) == bubble_up(s1, i as int),
            decreases j,
        {
            let ghost cur = self@;
            let a = self.take_link(j - 1);
            let b = self.take_link(j);
            self.put_link(j - 1, b);
            self.put_link(j, a);
            proof {
                assert(self@ =~= crate::model::swap_adjacent(cur, j as int));
            }
            j -= 1;
        }
        proof {
            assert(bubble_up(self@, j as int) == self@);
        }
    }

    /// Move the link at `i` out, leaving a unit-weight end placeholder.
    fn take_link(&mut self, i: usize) -> (r: Link)
        requires
            i < old(self)@.len(),
        ensures
            r.deep_view() == old(self)@[i as int],
            final(self)@ == old(self)@.update(i as int, LinkV { token: TokenV::End, count: 1 }),
    {
        let mut slot = Link { token: Token::End, count: 1 };
        self.links.set_and_swap(i, &mut slot);
        proof {
            assert(self@ =~= old(self)@.update(i as int, LinkV { token: TokenV::End, count: 1 }));
        }
        slot
    }

    fn put_link(&mut self, i: usize, l: Link)
        requires
            i < old(self)@.len(),
        ensures
            final(self)@ == old(self)@.update(i as int, l.deep_view()),
    {
        let ghost lv = l.deep_view();
        self.links.set(i, l);
        proof {
            assert(self@ =~= old(self)@.update(i as int, lv));
        }
    }
}

/// Merging the same token into a link set twice leaves exactly one link for
/// it, carrying weight two: duplicates merge, they do not pile up.
pub proof fn lemma_insert_twice_merges(s: Seq<LinkV>, t: TokenV)
    requires
        wf_links(s),
        !ls_has(s, t),
    ensures
        ls_count(ls_insert(ls_insert(s, t), t), t) == 2,
        ls_occurrences(ls_insert(ls_insert(s, t), t), t) == 1,
        ls_insert(ls_insert(s, t), t).len() == s.len() + 1,
{
    lemma_ls_insert(s, t);
    lemma_find_token_props(s, t);
    crate::model::lemma_ls_count_at(s, t);
    let s1 = ls_insert(s, t);
    lemma_ls_insert(s1, t);
    crate::model::lemma_ls_count_at(s1, t);
    lemma_find_token_props(s1, t);
}

} // verus!
