//! The trained model: a context-to-link-set chain, its start tokens, and the
//! training engine, all specified against [`crate::chainmodel`].

use vstd::prelude::*;

use crate::chainmodel::{
    chain_insert, do_width, do_widths, do_windows, find_ctx, lemma_find_ctx_is,
    lemma_find_ctx_none, lemma_keep_nonempty_elts, sentences_of, starts_insert, train_seq_m,
    train_text_m, train_words_m, wf_markov, EntryV, MarkovV,
};
use crate::linkset::{bytes_eq, clone_bytes, LinkSet, Token};
use crate::model::{wf_links, LinkV};
use crate::text::{split_sentences, words_view};
use vstd::pervasive::VecAdditionalExecFns;
use vstd::string::StringSliceAdditionalSpecFns;

verus! {

/// One row of the chain: a context and the links trained out of it.
pub struct ChainEntry {
    pub context: Vec<Vec<u8>>,
    pub links: LinkSet,
}

impl DeepView for ChainEntry {
    type V = EntryV;

    open spec fn deep_view(&self) -> EntryV {
        EntryV { context: words_view(self.context@), links: self.links@ }
    }
}

/// Content equality of two word lists.
pub fn words_eq(a: &Vec<Vec<u8>>, b: &Vec<Vec<u8>>) -> (r: bool)
    ensures
        r == (words_view(a@) == words_view(b@)),
{
    if a.len() != b.len() {
        proof {
            assert(words_view(a@).len() != words_view(b@).len());
        }
        return false;
    }
    let n = a.len();
    let mut i: usize = 0;
    while i < n
        invariant
            n == a@.len() == b@.len(),
            i <= n,
            forall|k: int| 0 <= k < i ==> a@[k]@ == b@[k]@,
        decreases n - i,
    {
        if !bytes_eq(&a[i], &b[i]) {
            assert(words_view(a@)[i as int] != words_view(b@)[i as int]);
            return false;
        }
        i += 1;
    }
    proof {
        assert(words_view(a@) =~= words_view(b@));
    }
    true
}

/// Does `a` hold the same words as `words[from..to]`?
fn words_eq_range(a: &Vec<Vec<u8>>, words: &Vec<Vec<u8>>, from: usize, to: usize) -> (r: bool)
    requires
        from <= to <= words@.len(),
    ensures
        r == (words_view(a@) == words_view(words@).subrange(from as int, to as int)),
{
    let ghost target = words_view(words@).subrange(from as int, to as int);
    if a.len() != to - from {
        proof {
            assert(words_view(a@).len() != target.len());
        }
        return false;
    }
    let n = a.len();
    let mut i: usize = 0;
    while i < n
        invariant
            n == a@.len(),
            n == to - from,
            from <= to <= words@.len(),
            i <= n,
            target == words_view(words@).subrange(from as int, to as int),
            forall|k: int| 0 <= k < i ==> a@[k]@ == #[trigger] target[k],
        decreases n - i,
    {
        if !bytes_eq(&a[i], &words[from + i]) {
            assert(words_view(a@)[i as int] != target[i as int]);
            return false;
        }
        i += 1;
    }
    proof {
        assert(words_view(a@) =~= target);
    }
    true
}

/// A fresh copy of `words[from..to]`.
fn copy_words_range(words: &Vec<Vec<u8>>, from: usize, to: usize) -> (r: Vec<Vec<u8>>)
    requires
        from <= to <= words@.len(),
    ensures
        words_view(r@) == words_view(words@).subrange(from as int, to as int),
{
    let mut out: Vec<Vec<u8>> = Vec::new();
    let mut i: usize = from;
    while i < to
        invariant
            from <= i <= to <= words@.len(),
            out@.len() == i - from,
            forall|k: int| 0 <= k < i - from ==> out@[k]@ == #[trigger] words@[from + k]@,
        decreases to - i,
    {
        out.push(clone_bytes(&words[i]));
        i += 1;
    }
    proof {
        let target = words_view(words@).subrange(from as int, to as int);
        assert forall|k: int| 0 <= k < to - from implies words_view(out@)[k] == target[k] by {
            assert(out@[k]@ == words@[from + k]@);
        }
        assert(words_view(out@) =~= target);
    }
    out
}

/// The trained model: context-to-link-set chain, start set, depth and name.
pub struct Markov {
    chain: Vec<ChainEntry>,
    starts: Vec<Vec<u8>>,
    depth: usize,
    name: String,
}

impl View for Markov {
    type V = MarkovV;

    closed spec fn view(&self) -> MarkovV {
        MarkovV {
            chain: self.chain.deep_view(),
            starts: words_view(self.starts@),
            depth: self.depth as nat,
            name: self.name@,
        }
    }
}

impl Markov {
    /// A well-formed chain (see [`wf_markov`]).
    pub open spec fn wf(&self) -> bool {
        wf_markov(self@)
    }

    /// An empty chain at the given depth.
    pub fn new(depth: usize, name: String) -> (r: Markov)
        requires
            depth >= 1,
        ensures
            r@.chain == Seq::<EntryV>::empty(),
            r@.starts == Seq::<Seq<u8>>::empty(),
            r@.depth == depth,
            r@.name == name@,
            r.wf(),
    {
        let r = Markov { chain: Vec::new(), starts: Vec::new(), depth, name };
        proof {
            assert(r@.chain =~= Seq::<EntryV>::empty());
            assert(r@.starts =~= Seq::<Seq<u8>>::empty());
        }
        r
    }

    /// A chain assembled from already-built parts, exactly as given.
    pub fn from_parts(chain: Vec<ChainEntry>, starts: Vec<Vec<u8>>, depth: usize, name: String) -> (r:
        Markov)
        ensures
            r@ == (MarkovV {
                chain: chain.deep_view(),
                starts: words_view(starts@),
                depth: depth as nat,
                name: name@,
            }),
    {
        Markov { chain, starts, depth, name }
    }

    pub fn depth(&self) -> (d: usize)
        ensures
            d == self@.depth,
    {
        self.depth
    }

    pub fn name(&self) -> (n: &str)
        ensures
            n@ == self@.name,
    {
        self.name.as_str()
    }

    pub fn context_count(&self) -> (n: usize)
        ensures
            n == self@.chain.len(),
    {
        self.chain.len()
    }

    pub fn start_count(&self) -> (n: usize)
        ensures
            n == self@.starts.len(),
    {
        self.starts.len()
    }

    pub fn start_at(&self, i: usize) -> (w: &Vec<u8>)
        requires
            i < self@.starts.len(),
        ensures
            w@ == self@.starts[i as int],
    {
        &self.starts[i]
    }

    /// Is `w` recorded as a start token?
    pub fn has_start(&self, w: &Vec<u8>) -> (r: bool)
        ensures
            r == self@.starts.contains(w@),
    {
        let n = self.starts.len();
        let mut i: usize = 0;
        while i < n
            invariant
                n == self@.starts.len(),
                i <= n,
                forall|k: int| 0 <= k < i ==> self@.starts[k] != w@,
            decreases n - i,
        {
            if bytes_eq(&self.starts[i], w) {
                assert(self@.starts[i as int] == w@);
                return true;
            }
            i += 1;
        }
        assert(!self@.starts.contains(w@));
        false
    }

    pub fn entry_at(&self, i: usize) -> (e: &ChainEntry)
        requires
            i < self@.chain.len(),
        ensures
            e.deep_view() == self@.chain[i as int],
    {
        &self.chain[i]
    }

    /// The link set trained for exactly this context, if any.
    pub fn links_for(&self, context: &Vec<Vec<u8>>) -> (r: Option<&LinkSet>)
        ensures
            match r {
                Some(ls) => {
                    &&& find_ctx(self@.chain, words_view(context@)) != -1
                    &&& ls@ == self@.chain[find_ctx(self@.chain, words_view(context@))].links
                },
                None => find_ctx(self@.chain, words_view(context@)) == -1,
            },
    {
        let ghost ctxv = words_view(context@);
        let n = self.chain.len();
        let mut i: usize = 0;
        while i < n
            invariant
                n == self@.chain.len(),
                i <= n,
                forall|k: int| 0 <= k < i ==> (#[trigger] self@.chain[k]).context != ctxv,
                ctxv == words_view(context@),
            decreases n - i,
        {
            if words_eq(&self.chain[i].context, context) {
                proof {
                    lemma_find_ctx_is(self@.chain, ctxv, i as int);
                }
                return Some(&self.chain[i].links);
            }
            i += 1;
        }
        proof {
            lemma_find_ctx_none(self@.chain, ctxv);
        }
        None
    }

    /// The link set trained for the context `words[from..to]`, if any.
    pub fn links_for_range(&self, words: &Vec<Vec<u8>>, from: usize, to: usize) -> (r: Option<
        &LinkSet,
    >)
        requires
            from <= to <= words@.len(),
        ensures
            match r {
                Some(ls) => {
                    &&& find_ctx(
                        self@.chain,
                        words_view(words@).subrange(from as int, to as int),
                    ) != -1
                    &&& ls@ == self@.chain[find_ctx(
                        self@.chain,
                        words_view(words@).subrange(from as int, to as int),
                    )].links
                },
                None => find_ctx(
                    self@.chain,
                    words_view(words@).subrange(from as int, to as int),
                ) == -1,
            },
    {
        let ghost ctxv = words_view(words@).subrange(from as int, to as int);
        let n = self.chain.len();
        let mut i: usize = 0;
        while i < n
            invariant
                n == self@.chain.len(),
                i <= n,
                from <= to <= words@.len(),
                forall|k: int| 0 <= k < i ==> (#[trigger] self@.chain[k]).context != ctxv,
                ctxv == words_view(words@).subrange(from as int, to as int),
            decreases n - i,
        {
            if words_eq_range(&self.chain[i].context, words, from, to) {
                proof {
                    lemma_find_ctx_is(self@.chain, ctxv, i as int);
                }
                return Some(&self.chain[i].links);
            }
            i += 1;
        }
        proof {
            lemma_find_ctx_none(self@.chain, ctxv);
        }
        None
    }

    /// Move the entry at `i` out, leaving an empty placeholder.
    fn take_entry(&mut self, i: usize) -> (r: ChainEntry)
        requires
            i < old(self)@.chain.len(),
        ensures
            r.deep_view() == old(self)@.chain[i as int],
            final(self)@.chain == old(self)@.chain.update(
                i as int,
                EntryV { context: Seq::empty(), links: Seq::empty() },
            ),
            final(self)@.starts == old(self)@.starts,
            final(self)@.depth == old(self)@.depth,
            final(self)@.name == old(self)@.name,
    {
        let mut slot = ChainEntry { context: Vec::new(), links: LinkSet::new() };
        proof {
            assert(slot.deep_view().context =~= Seq::<Seq<u8>>::empty());
        }
        self.chain.set_and_swap(i, &mut slot);
        proof {
            assert(self@.chain =~= old(self)@.chain.update(
                i as int,
                EntryV { context: Seq::empty(), links: Seq::empty() },
            ));
        }
        slot
    }

    fn put_entry(&mut self, i: usize, e: ChainEntry)
        requires
            i < old(self)@.chain.len(),
        ensures
            final(self)@.chain == old(self)@.chain.update(i as int, e.deep_view()),
            final(self)@.starts == old(self)@.starts,
            final(self)@.depth == old(self)@.depth,
            final(self)@.name == old(self)@.name,
    {
        let ghost ev = e.deep_view();
        self.chain.set(i, e);
        proof {
            assert(self@.chain =~= old(self)@.chain.update(i as int, ev));
        }
    }

    /// Merge one token into the link set of `words[from..to]`, opening a
    /// fresh entry if that context was never seen.
    #[verifier::loop_isolation(false)]
    fn train_link(&mut self, words: &Vec<Vec<u8>>, from: usize, to: usize, token: Token)
        requires
            old(self).wf(),
            from < to <= words@.len(),
            to - from <= old(self)@.depth,
        ensures
            final(self)@.chain == chain_insert(
                old(self)@.chain,
                words_view(words@).subrange(from as int, to as int),
                token.deep_view(),
            ),
            final(self)@.starts == old(self)@.starts,
            final(self)@.depth == old(self)@.depth,
            final(self)@.name == old(self)@.name,
            final(self).wf(),
    {
        let ghost es0 = self@.chain;
        let ghost ctxv = words_view(words@).subrange(from as int, to as int);
        let ghost tv = token.deep_view();
        let n = self.chain.len();
        let mut i: usize = 0;
        while i < n
            invariant
                i <= n,
                self@ == old(self)@,
                n == self@.chain.len(),
                forall|k: int| 0 <= k < i ==> (#[trigger] es0[k]).context != ctxv,
            decreases n - i,
        {
            if words_eq_range(&self.chain[i].context, words, from, to) {
                proof {
                    lemma_find_ctx_is(es0, ctxv, i as int);
                }
                let mut e = self.take_entry(i);
                e.links.insert(token);
                self.put_entry(i, e);
                proof {
                    assert(self@.chain =~= chain_insert(es0, ctxv, tv));
                }
                return;
            }
            i += 1;
        }
        proof {
            lemma_find_ctx_none(es0, ctxv);
        }
        let ctx = copy_words_range(words, from, to);
        let mut ls = LinkSet::new();
        ls.insert(token);
        self.chain.push(ChainEntry { context: ctx, links: ls });
        proof {
            let lv = seq![LinkV { token: tv, count: 1 }];
            assert(ls@ =~= lv);
            assert(self@.chain =~= es0.push(EntryV { context: ctxv, links: lv }));
            let es1 = self@.chain;
            assert forall|a: int, b: int| 0 <= a < b < es1.len()
                implies (#[trigger] es1[a]).context != (#[trigger] es1[b]).context by {
                if b == es1.len() - 1 {
                    assert(es0[a].context != ctxv);
                }
            }
            assert(lv[0].count == 1);
            assert(wf_links(lv));
            assert(1 <= ctxv.len() <= self@.depth);
        }
    }

    /// Record a start token, keeping the set free of duplicates.
    #[verifier::loop_isolation(false)]
    fn add_start(&mut self, w: &Vec<u8>)
        requires
            old(self).wf(),
        ensures
            final(self)@.starts == starts_insert(old(self)@.starts, w@),
            final(self)@.chain == old(self)@.chain,
            final(self)@.depth == old(self)@.depth,
            final(self)@.name == old(self)@.name,
            final(self).wf(),
    {
        let n = self.starts.len();
        let mut i: usize = 0;
        while i < n
            invariant
                self@ == old(self)@,
                n == self@.starts.len(),
                i <= n,
                forall|k: int| 0 <= k < i ==> old(self)@.starts[k] != w@,
            decreases n - i,
        {
            if bytes_eq(&self.starts[i], w) {
                assert(self@.starts[i as int] == w@);
                assert(self@.starts.contains(w@));
                return;
            }
            i += 1;
        }
        assert(!self@.starts.contains(w@));
        self.starts.push(clone_bytes(w));
        proof {
            assert(self@.starts =~= old(self)@.starts.push(w@));
            let ss = self@.starts;
            let so = old(self)@.starts;
            assert forall|a: int, b: int| 0 <= a < b < ss.len()
                implies #[trigger] ss[a] != #[trigger] ss[b] by {
                if b == ss.len() - 1 {
                    assert(ss[a] == so[a]);
                    assert(so[a] != w@);
                } else {
                    assert(ss[a] == so[a] && ss[b] == so[b]);
                    assert(so[a] != so[b]);
                }
            }
            assert(self@.chain == old(self)@.chain);
            assert(forall|a: int, b: int|
                0 <= a < b < self@.chain.len() ==> (#[trigger] self@.chain[a]).context != (
                #[trigger] self@.chain[b]).context);
            assert(forall|a: int|
                0 <= a < self@.chain.len() ==> wf_links((#[trigger] self@.chain[a]).links)
                    && self@.chain[a].links.len() >= 1 && 1 <= self@.chain[a].context.len()
                    <= self@.depth);
            assert(self@.depth >= 1);
            assert(self.wf());
        }
    }

    /// Train one sentence: record its first word as a start, then train a
    /// link for every window of every width up to `min(depth, len - 1)`.
    #[verifier::loop_isolation(false)]
    pub fn train_words(&mut self, words: &Vec<Vec<u8>>)
        requires
            old(self).wf(),
            words@.len() >= 1,
        ensures
            final(self)@ == train_words_m(old(self)@, words_view(words@)),
            final(self).wf(),
    {
        let ghost m0 = self@;
        let ghost wv = words_view(words@);
        let len = words.len();
        let d = if self.depth < len - 1 {
            self.depth
        } else {
            len - 1
        };
        self.add_start(&words[0]);
        let mut w: usize = 1;
        while w <= d
            invariant
                1 <= w <= d + 1,
                self@.chain == do_widths(m0.chain, wv, w - 1),
                self@.starts == starts_insert(m0.starts, wv[0]),
                self@.depth == m0.depth,
                self@.name == m0.name,
                self.wf(),
            decreases d + 1 - w,
        {
            let mut j: usize = 0;
            while j < len - w
                invariant
                    1 <= w <= d,
                    j <= len - w,
                    self@.chain == do_windows(do_widths(m0.chain, wv, w - 1), wv, w as int, j as int),
                    self@.starts == starts_insert(m0.starts, wv[0]),
                    self@.depth == m0.depth,
                    self@.name == m0.name,
                    self.wf(),
                decreases len - w - j,
            {
                let t = Token::Word(clone_bytes(&words[j + w]));
                proof {
                    assert(t.deep_view() == crate::model::TokenV::Word(wv[j + w]));
                }
                self.train_link(words, j, j + w, t);
                j += 1;
            }
            self.train_link(words, len - w, len, Token::End);
            proof {
                assert(self@.chain == do_width(do_widths(m0.chain, wv, w - 1), wv, w as int));
                assert(self@.chain == do_widths(m0.chain, wv, w as int));
            }
            w += 1;
        }
        proof {
            assert(self@ =~= train_words_m(m0, wv));
        }
    }

    /// Train raw text: split into sentences and train each in order.
    #[verifier::loop_isolation(false)]
    pub fn train_bytes(&mut self, data: &[u8])
        requires
            old(self).wf(),
        ensures
            final(self)@ == train_text_m(old(self)@, data@),
            final(self).wf(),
    {
        let ghost m0 = self@;
        let sentences = split_sentences(data);
        let ghost sv = Seq::new(sentences@.len(), |i: int| words_view(sentences@[i]@));
        proof {

            assert(sv == sentences_of(data@));
            lemma_keep_nonempty_elts(Seq::new(
                crate::chainmodel::split_on(data@, false).len(),
                |i: int| crate::chainmodel::tokenize(crate::chainmodel::split_on(data@, false)[i]),
            ));
        }
        let n = sentences.len();
        let mut i: usize = 0;
        while i < n
            invariant
                i <= n,
                self@ == train_seq_m(m0, sv.take(i as int)),
                self.wf(),
            decreases n - i,
        {
            proof {
                assert(sv.take(i + 1).drop_last() =~= sv.take(i as int));
                assert(sv.take(i + 1).last() == sv[i as int]);
                assert(sv[i as int].len() > 0);
            }
            self.train_words(&sentences[i]);
            i += 1;
        }
        proof {
            assert(sv.take(n as int) =~= sv);
        }
    }

    /// Train text: normalize Unicode whitespace, split on sentence
    /// delimiters and whitespace over the text's UTF-8 bytes, then train
    /// each sentence.
    pub fn train_text(&mut self, text: &str)
        requires
            old(self).wf(),
        ensures
            final(self)@ == train_text_m(
                old(self)@,
                crate::chainmodel::ws_normalize(text.spec_bytes()),
            ),
            final(self).wf(),
    {
        let bytes = crate::text::normalize_ws(text.as_bytes());
        self.train_bytes(bytes.as_slice());
    }
}

} // verus!
