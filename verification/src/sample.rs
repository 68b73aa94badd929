//! The generation engine: weighted cyclic selection, order-backoff word
//! sampling, and the outer utterance loop.

use vstd::prelude::*;

use crate::chainmodel::{find_ctx, MarkovV};
use crate::linkset::{clone_bytes, sat_add, Link, Token};
use crate::markov::Markov;
use crate::model::TokenV;
use crate::rng::Rand;
use crate::text::words_view;
use vstd::pervasive::VecAdditionalExecFns;
use vstd::string::StringExecFns;

verus! {

/// `t` stands somewhere in the chain's link sets.
pub open spec fn token_from_chain(m: MarkovV, t: TokenV) -> bool {
    exists|i: int, j: int|
        0 <= i < m.chain.len() && 0 <= j < m.chain[i].links.len() && m.chain[i].links[j].token == t
}

/// No trailing window of `ctx`, of any consulted width, is a trained
/// context of `m`.
pub open spec fn no_context_match(m: MarkovV, ctx: Seq<Seq<u8>>) -> bool {
    forall|w: int|
        1 <= w <= vstd::math::min(m.depth as int, ctx.len() as int) ==> find_ctx(
            m.chain,
            #[trigger] ctx.subrange(ctx.len() - w, ctx.len() as int),
        ) == -1
}

/// `t` is a token of the link set of some matching trailing window of
/// `ctx` — the pool `next_word` samples from.
pub open spec fn token_from_match(m: MarkovV, ctx: Seq<Seq<u8>>, t: TokenV) -> bool {
    exists|w: int|
        {
            let e = find_ctx(m.chain, #[trigger] ctx.subrange(ctx.len() - w, ctx.len() as int));
            &&& 1 <= w <= vstd::math::min(m.depth as int, ctx.len() as int)
            &&& e != -1
            &&& crate::model::ls_has(m.chain[e].links, t)
        }
}

/// How many tokens the markers say were injected.
pub open spec fn injection_count(fs: Seq<bool>) -> nat
    decreases fs.len(),
{
    if fs.len() == 0 {
        0
    } else {
        injection_count(fs.drop_last()) + (if fs.last() {
            1nat
        } else {
            0
        })
    }
}

/// What generation promises of an utterance `ws`: its length bounds, and a
/// marker sequence `fs` telling injected query copies apart from tokens the
/// chain supplied — at most two injections, never two in a row.
pub open spec fn utterance_ok(
    m: MarkovV,
    q: Option<Seq<u8>>,
    min: int,
    max: int,
    ws: Seq<Seq<u8>>,
    fs: Seq<bool>,
) -> bool {
    &&& ws.len() >= 1
    &&& ws.len() >= min || ws.len() >= max
    &&& (q is None && min <= max && max >= 1 ==> ws.len() <= max)
    &&& fs.len() == ws.len()
    &&& injection_count(fs) <= 2
    &&& forall|k: int| 0 <= k < ws.len() && #[trigger] fs[k] ==> q == Some(ws[k])
    &&& forall|k: int|
        0 <= k < ws.len() && !(#[trigger] fs[k]) ==> m.starts.contains(ws[k]) || token_from_chain(
            m,
            TokenV::Word(ws[k]),
        )
    &&& forall|k: int| 0 <= k < ws.len() - 1 && #[trigger] fs[k] ==> !fs[k + 1]
}

/// Some marker sequence shows the token list is an admissible utterance.
pub open spec fn utterance_admissible(
    m: MarkovV,
    q: Option<Seq<u8>>,
    min: int,
    max: int,
    ws: Seq<Seq<u8>>,
) -> bool {
    exists|fs: Seq<bool>| #[trigger] utterance_ok(m, q, min, max, ws, fs)
}

/// The string is the join of some admissible token list.
pub open spec fn generated_ok(
    m: MarkovV,
    q: Option<Seq<u8>>,
    min: int,
    max: int,
    out: Seq<char>,
) -> bool {
    exists|ws: Seq<Seq<u8>>|
        out == #[trigger] utter_join(ws) && utterance_admissible(m, q, min, max, ws)
}

proof fn lemma_injection_push(fs: Seq<bool>, b: bool)
    ensures
        injection_count(fs.push(b)) == injection_count(fs) + (if b {
            1int
        } else {
            0
        }),
{
    assert(fs.push(b).drop_last() =~= fs);
}

pub open spec fn query_view(q: Option<&Vec<u8>>) -> Option<Seq<u8>> {
    match q {
        Some(v) => Some(v@),
        None => None,
    }
}

/// The utterance string a token list stands for: tokens that are valid
/// UTF-8, joined by single spaces; invalid tokens are skipped.
pub open spec fn utter_join(ws: Seq<Seq<u8>>) -> Seq<char>
    decreases ws.len(),
{
    if ws.len() == 0 {
        Seq::empty()
    } else {
        let rest = utter_join(ws.drop_last());
        let w = ws.last();
        if vstd::utf8::valid_utf8(w) {
            if rest.len() == 0 {
                vstd::utf8::decode_utf8(w)
            } else {
                rest + seq![' '] + vstd::utf8::decode_utf8(w)
            }
        } else {
            rest
        }
    }
}

/// Join tokens into the utterance string.
#[verifier::loop_isolation(false)]
pub fn join_words(words: &Vec<Vec<u8>>) -> (r: String)
    ensures
        r@ == utter_join(words_view(words@)),
{
    let ghost wv = words_view(words@);
    let mut out = String::new();
    let n = words.len();
    let mut i: usize = 0;
    while i < n
        invariant
            i <= n,
            n == words@.len(),
            out@ == utter_join(wv.take(i as int)),
        decreases n - i,
    {
        proof {
            assert(wv.take(i + 1).drop_last() =~= wv.take(i as int));
            assert(wv.take(i + 1).last() == words@[i as int]@);
        }
        match crate::persist::bytes_as_str(words[i].as_slice()) {
            Some(s) => {
                proof {
                    vstd::utf8::encode_utf8_decode_utf8(s@);
                }
                let empty = out.as_str().is_empty();
                if !empty {
                    out.append(" ");
                    proof {
                        reveal_strlit(" ");
                        assert(" "@ =~= seq![' ']);
                    }
                }
                out.append(s);
            },
            None => {
            },
        }
        i += 1;
    }
    proof {
        assert(wv.take(n as int) =~= wv);
    }
    out
}

/// Saturating multiplication on machine words.
pub fn sat_mul(a: usize, b: usize) -> (r: usize)
    ensures
        r == if a * b <= usize::MAX {
            a * b
        } else {
            usize::MAX as int
        },
        a >= 1 && b >= 1 ==> r >= 1,
    {
    proof {
        assert(a >= 1 && b >= 1 ==> a * b >= 1) by (nonlinear_arith);
    }
    match a.checked_mul(b) {
        Some(v) => v,
        None => usize::MAX,
    }
}

/// An event with the given per-mille probability.
pub fn chance(rng: &mut Rand, permille: usize) -> bool {
    rng.below(1000) < permille
}

/// The total weight of a link list, saturating at the machine limit as the
/// executable sum does.
pub open spec fn sat_total(ls: Seq<Link>) -> nat
    decreases ls.len(),
{
    if ls.len() == 0 {
        0
    } else {
        let rest = sat_total(ls.drop_last());
        if rest + ls.last().count <= usize::MAX {
            (rest + ls.last().count) as nat
        } else {
            usize::MAX as nat
        }
    }
}

/// The index the cyclic walk picks: starting at `i`, subtract each visited
/// link's weight from `remaining` and stop where it first reaches zero.
pub open spec fn walk_pick(ls: Seq<Link>, i: int, remaining: nat) -> int
    recommends
        0 <= i < ls.len(),
    decreases remaining,
{
    if ls[i].count <= 0 {
        i
    } else if remaining <= ls[i].count {
        i
    } else {
        walk_pick(
            ls,
            if i + 1 == ls.len() {
                0
            } else {
                i + 1
            },
            (remaining - ls[i].count) as nat,
        )
    }
}

/// The walk itself, on an already drawn remainder: exactly
/// `walk_pick` from position `r % len` with the total weight remaining.
#[verifier::loop_isolation(false)]
pub fn select_at(links: &Vec<Link>, r: usize) -> (i: usize)
    requires
        links@.len() >= 1,
        forall|k: int| 0 <= k < links@.len() ==> (#[trigger] links@[k]).count >= 1,
    ensures
        i < links@.len(),
        i == walk_pick(links@, r as int % links@.len() as int, sat_total(links@)),
{
    let n = links.len();
    let total = total_weight(links);
    let mut i: usize = r % n;
    let mut remaining = total;
    proof {
        assert(total >= 1);
    }
    loop
        invariant
            i < n,
            1 <= remaining,
            walk_pick(links@, i as int, remaining as nat) == walk_pick(
                links@,
                r as int % links@.len() as int,
                sat_total(links@),
            ),
        decreases remaining,
    {
        let c = links[i].count;
        if remaining <= c {
            return i;
        }
        remaining = remaining - c;
        i = if i + 1 == n {
            0
        } else {
            i + 1
        };
    }
}

/// The saturating total weight.
#[verifier::loop_isolation(false)]
pub fn total_weight(links: &Vec<Link>) -> (total: usize)
    ensures
        total == sat_total(links@),
        links@.len() >= 1 && (forall|k: int|
            0 <= k < links@.len() ==> (#[trigger] links@[k]).count >= 1) ==> total >= 1,
{
    let n = links.len();
    let mut total: usize = 0;
    let mut k: usize = 0;
    while k < n
        invariant
            k <= n,
            total == sat_total(links@.take(k as int)),
        decreases n - k,
    {
        proof {
            assert(links@.take(k + 1).drop_last() =~= links@.take(k as int));
            assert(links@.take(k + 1).last() == links@[k as int]);
        }
        total = sat_add(total, links[k].count);
        k += 1;
    }
    proof {
        assert(links@.take(n as int) =~= links@);
    }
    total
}

/// Weighted cyclic selection: draw a remainder below the total weight, then
/// walk the list cyclically from an arbitrary start subtracting each link's
/// weight, and return the index at which the remainder first reaches zero.
/// Which remainder was drawn is the only part left open.
pub fn weighted_selection(rng: &mut Rand, links: &Vec<Link>) -> (i: usize)
    requires
        links@.len() >= 1,
        forall|k: int| 0 <= k < links@.len() ==> (#[trigger] links@[k]).count >= 1,
    ensures
        i < links@.len(),
        exists|r: int|
            0 <= r < sat_total(links@) && i == #[trigger] walk_pick(
                links@,
                r % links@.len() as int,
                sat_total(links@),
            ),
{
    let total = total_weight(links);
    let r = rng.below(total);
    let i = select_at(links, r);
    proof {
        assert(0 <= (r as int) < sat_total(links@) && i == walk_pick(
            links@,
            r as int % links@.len() as int,
            sat_total(links@),
        ));
    }
    i
}

impl Markov {
    /// Sample the next token after `words`: pool the link sets of every
    /// matching trailing window, weighting wider windows more heavily, and
    /// select from the pool; the end sentinel if no window matches.
    #[verifier::loop_isolation(false)]
    pub fn next_word(&self, rng: &mut Rand, words: &Vec<Vec<u8>>) -> (t: Token)
        requires
            self.wf(),
            words@.len() >= 1,
        ensures
            no_context_match(self@, words_view(words@)) ==> t.deep_view() == TokenV::End,
            !no_context_match(self@, words_view(words@)) ==> token_from_match(
                self@,
                words_view(words@),
                t.deep_view(),
            ),
            (t.deep_view() matches TokenV::Word(_)) ==> token_from_chain(self@, t.deep_view()),
    {
        let len = words.len();
        let d = self.depth();
        let maxw = if d < len {
            d
        } else {
            len
        };
        let mut pooled: Vec<Link> = Vec::new();
        let mut c: usize = 0;
        while c < maxw
            invariant
                c <= maxw,
                forall|k: int|
                    0 <= k < pooled@.len() ==> (#[trigger] pooled@[k]).count >= 1
                        && token_from_chain(self@, pooled@[k].deep_view().token)
                        && token_from_match(self@, words_view(words@), pooled@[k].deep_view().token),
                pooled@.len() == 0 ==> forall|w2: int|
                    1 <= w2 <= c ==> find_ctx(
                        self@.chain,
                        #[trigger] words_view(words@).subrange(
                            words@.len() - w2,
                            words@.len() as int,
                        ),
                    ) == -1,
                pooled@.len() > 0 ==> exists|w2: int|
                    1 <= w2 <= c && find_ctx(
                        self@.chain,
                        #[trigger] words_view(words@).subrange(
                            words@.len() - w2,
                            words@.len() as int,
                        ),
                    ) != -1,
            decreases maxw - c,
        {
            let w = c + 1;
            match self.links_for_range(words, len - w, len) {
                Some(ls) => {
                    let ghost ci = find_ctx(
                        self@.chain,
                        words_view(words@).subrange(len - w, len as int),
                    );
                    let m = ls.len();
                    proof {
                        crate::chainmodel::lemma_find_ctx_props(
                            self@.chain,
                            words_view(words@).subrange(len - w, len as int),
                        );
                        assert(0 <= ci < self@.chain.len());
                        assert(m >= 1);
                    }
                    let mut k: usize = 0;
                    while k < m
                        invariant
                            k <= m,
                            m == ls@.len(),
                            1 <= w <= maxw,
                            ls@ == self@.chain[ci].links,
                            0 <= ci < self@.chain.len(),
                            forall|x: int|
                                0 <= x < pooled@.len() ==> (#[trigger] pooled@[x]).count >= 1
                                    && token_from_chain(self@, pooled@[x].deep_view().token)
                                    && token_from_match(
                                    self@,
                                    words_view(words@),
                                    pooled@[x].deep_view().token,
                                ),
                            k >= 1 ==> pooled@.len() >= 1,
                        decreases m - k,
                    {
                        let lk = ls.get(k);
                        proof {
                            assert(ls@[k as int].count >= 1);
                            assert(self@.chain[ci].links[k as int].token == ls@[k as int].token);
                            assert(token_from_chain(self@, ls@[k as int].token));
                            crate::model::lemma_find_token_props(ls@, ls@[k as int].token);
                            assert(crate::model::ls_has(ls@, ls@[k as int].token));
                            assert(maxw == vstd::math::min(self@.depth as int, words@.len() as int));
                            let ctxg = words_view(words@);
                            assert(ctxg.len() == words@.len());
                            assert(ctxg.subrange(ctxg.len() - (w as int), ctxg.len() as int)
                                =~= words_view(words@).subrange(len - w, len as int));
                            assert(find_ctx(
                                self@.chain,
                                ctxg.subrange(ctxg.len() - (w as int), ctxg.len() as int),
                            ) == ci);
                            assert(1 <= w as int <= vstd::math::min(
                                self@.depth as int,
                                ctxg.len() as int,
                            ));
                            assert(token_from_match(self@, ctxg, ls@[k as int].token));
                        }
                        let scaled = sat_mul(lk.count, w);
                        let t = lk.token.duplicate();
                        let pn = pooled.len();
                        let mut idx: usize = 0;
                        let mut found = false;
                        while idx < pn && !found
                            invariant
                                idx <= pn,
                                pn == pooled@.len(),
                                found ==> idx < pn,
                            decreases pn - idx + (if found { 0int } else { 1 }),
                        {
                            if pooled[idx].token == t {
                                found = true;
                            } else {
                                idx += 1;
                            }
                        }
                        if found {
                            let ghost p0 = pooled@;
                            let mut slot = Link { token: Token::End, count: 1 };
                            pooled.set_and_swap(idx, &mut slot);
                            slot.count = sat_add(slot.count, scaled);
                            pooled.set_and_swap(idx, &mut slot);
                            proof {
                                assert forall|x: int| 0 <= x < pooled@.len()
                                    implies (#[trigger] pooled@[x]).count >= 1
                                        && token_from_chain(self@, pooled@[x].deep_view().token)
                                        && token_from_match(
                                        self@,
                                        words_view(words@),
                                        pooled@[x].deep_view().token,
                                    ) by {
                                    if x == idx {
                                        assert(pooled@[x].deep_view().token
                                            == p0[x].deep_view().token);
                                        assert(p0[x].count >= 1);
                                    } else {
                                        assert(pooled@[x] == p0[x]);
                                    }
                                }
                            }
                        } else {
                            pooled.push(Link { token: t, count: scaled });
                            proof {
                                assert(pooled@.last().deep_view().token == ls@[k as int].token);
                            }
                        }
                        k += 1;
                    }
                }
                None => {
                }
            }
            c += 1;
        }
        if pooled.len() == 0 {
            return Token::End;
        }
        proof {
            assert(maxw == vstd::math::min(self@.depth as int, words@.len() as int));
            let ctx = words_view(words@);
            let w2 = choose|w2: int|
                1 <= w2 <= maxw && #[trigger] find_ctx(
                    self@.chain,
                    ctx.subrange(words@.len() - w2, words@.len() as int),
                ) != -1;
            assert(ctx.len() == words@.len());
            assert(find_ctx(self@.chain, ctx.subrange(ctx.len() - w2, ctx.len() as int)) != -1);
            assert(!no_context_match(self@, ctx));
        }
        let i = weighted_selection(rng, &pooled);
        let out = pooled[i].token.duplicate();
        proof {
            assert(token_from_chain(self@, pooled@[i as int].deep_view().token));
        }
        out
    }

    /// Build one utterance as a token list. Fails exactly when the start
    /// set is empty; otherwise it succeeds, with at least `min` tokens
    /// unless `max` cut the walk short, and never more than `max` when no
    /// query is injected.
    #[verifier::loop_isolation(false)]
    pub fn generate_tokens(
        &self,
        rng: &mut Rand,
        min: usize,
        max: usize,
        query: Option<&Vec<u8>>,
    ) -> (r: Option<Vec<Vec<u8>>>)
        requires
            self.wf(),
        ensures
            r is Some <==> self@.starts.len() > 0,
            match r {
                Some(words) => utterance_admissible(
                    self@,
                    query_view(query),
                    min as int,
                    max as int,
                    words_view(words@),
                ),
                None => self@.starts.len() == 0,
            },
    {
        if self.start_count() == 0 {
            return None;
        }
        let ghost qv = query_view(query);
        let c0 = rng.below(300) + 100;
        let c1 = rng.below(300) + 100;
        let mut desired: usize = rng.below(2) + 1;
        let mut last = false;
        let mut words: Vec<Vec<u8>> = Vec::new();
        let ghost mut fs: Seq<bool> = Seq::empty();
        loop
            invariant
                words@.len() == 0 || words@.len() < min,
                query is None && min <= max && max >= 1 ==> words@.len() <= max,
                fs.len() == words@.len(),
                injection_count(fs) + desired <= 2,
                forall|k: int| 0 <= k < words@.len() && #[trigger] fs[k] ==> qv == Some(words@[k]@),
                forall|k: int|
                    0 <= k < words@.len() && !(#[trigger] fs[k]) ==> self@.starts.contains(
                        words@[k]@,
                    ) || token_from_chain(self@, TokenV::Word(words@[k]@)),
                forall|k: int| 0 <= k < words@.len() - 1 && #[trigger] fs[k] ==> !fs[k + 1],
                !last ==> fs.len() == 0 || !fs[fs.len() - 1],
            decreases min + 1 - words@.len(),
        {
            let mut seeded = false;
            if let Some(q) = query {
                if chance(rng, c0) && desired > 0 && !last {
                    words.push(clone_bytes(q));
                    proof {
                        lemma_injection_push(fs, true);
                        fs = fs.push(true);
                    }
                    desired -= 1;
                    last = true;
                    seeded = true;
                }
            }
            if !seeded {
                let sc = self.start_count();
                if sc == 0 {
                    return None;
                }
                let si = rng.below(sc);
                let sw = clone_bytes(self.start_at(si));
                proof {
                    assert(self@.starts[si as int] == sw@);
                    assert(self@.starts.contains(sw@));
                    lemma_injection_push(fs, false);
                    fs = fs.push(false);
                }
                words.push(sw);
                last = false;
            }
            if words.len() >= max {
                break;
            }
            let ghost seeded_len = words@.len();
            loop
                invariant
                    seeded_len <= words@.len(),
                    1 <= words@.len() < max,
                    query is Some || self@.starts.len() > 0,
                    fs.len() == words@.len(),
                    injection_count(fs) + desired <= 2,
                    forall|k: int|
                        0 <= k < words@.len() && #[trigger] fs[k] ==> qv == Some(words@[k]@),
                    forall|k: int|
                        0 <= k < words@.len() && !(#[trigger] fs[k]) ==> self@.starts.contains(
                            words@[k]@,
                        ) || token_from_chain(self@, TokenV::Word(words@[k]@)),
                    forall|k: int| 0 <= k < words@.len() - 1 && #[trigger] fs[k] ==> !fs[k + 1],
                    !last ==> fs.len() == 0 || !fs[fs.len() - 1],
                decreases max - words@.len(),
            {
                match self.next_word(rng, &words) {
                    Token::End => {
                        break;
                    },
                    Token::Word(wd) => {
                        proof {
                            assert(token_from_chain(self@, TokenV::Word(wd@)));
                        }
                        if let Some(q) = query {
                            if chance(rng, c1) && desired > 0 && !last {
                                words.push(clone_bytes(q));
                                proof {
                                    lemma_injection_push(fs, true);
                                    fs = fs.push(true);
                                }
                                desired -= 1;
                            }
                        }
                        words.push(wd);
                        proof {
                            lemma_injection_push(fs, false);
                            fs = fs.push(false);
                        }
                        last = false;
                        if words.len() >= max {
                            break;
                        }
                    },
                }
            }
            if words.len() >= min {
                break;
            }
        }
        proof {
            let ws = words_view(words@);
            assert forall|k: int| 0 <= k < ws.len() && #[trigger] fs[k] implies qv == Some(
                ws[k],
            ) by {
                assert(ws[k] == words@[k]@);
            }
            assert forall|k: int|
                0 <= k < ws.len() && !(#[trigger] fs[k]) implies self@.starts.contains(ws[k])
                || token_from_chain(self@, TokenV::Word(ws[k])) by {
                assert(ws[k] == words@[k]@);
            }
            assert(utterance_ok(self@, qv, min as int, max as int, ws, fs));
            assert(utterance_ok(
                self@,
                query_view(query),
                min as int,
                max as int,
                words_view(words@),
                fs,
            ));
            assert(utterance_admissible(
                self@,
                query_view(query),
                min as int,
                max as int,
                words_view(words@),
            ));
        }
        Some(words)
    }

    /// Build one utterance as a string: the generated tokens joined by
    /// single spaces, tokens that are not valid text skipped.
    pub fn generate(&self, rng: &mut Rand, min: usize, max: usize, query: Option<&Vec<u8>>) -> (r:
        Option<String>)
        requires
            self.wf(),
        ensures
            r is Some <==> self@.starts.len() > 0,
            r matches Some(s) ==> generated_ok(
                self@,
                query_view(query),
                min as int,
                max as int,
                s@,
            ),
    {
        match self.generate_tokens(rng, min, max, query) {
            Some(words) => {
                let s = join_words(&words);
                proof {
                    let ws = words_view(words@);
                    assert(s@ == utter_join(ws));
                    assert(generated_ok(self@, query_view(query), min as int, max as int, s@));
                }
                Some(s)
            },
            None => None,
        }
    }
}

} // verus!
