//! Mathematical model of the chain and of the training pipeline: sentence
//! splitting, tokenisation, and window-by-window link insertion.

use vstd::prelude::*;

use crate::model::{ls_insert, wf_links, LinkV, TokenV};

verus! {

/// Ghost image of one chain entry: a context and its link set.
pub struct EntryV {
    pub context: Seq<Seq<u8>>,
    pub links: Seq<LinkV>,
}

/// Ghost image of a whole chain.
pub struct MarkovV {
    pub chain: Seq<EntryV>,
    pub starts: Seq<Seq<u8>>,
    pub depth: nat,
    pub name: Seq<char>,
}

/// Index of the entry holding `ctx`, or -1 if no entry does.
pub open spec fn find_ctx(es: Seq<EntryV>, ctx: Seq<Seq<u8>>) -> int
    decreases es.len(),
{
    if es.len() == 0 {
        -1
    } else if es[0].context == ctx {
        0
    } else {
        let r = find_ctx(es.drop_first(), ctx);
        if r == -1 {
            -1
        } else {
            r + 1
        }
    }
}

/// Train one link: merge `t` into the entry for `ctx`, or open a fresh entry.
pub open spec fn chain_insert(es: Seq<EntryV>, ctx: Seq<Seq<u8>>, t: TokenV) -> Seq<EntryV> {
    let i = find_ctx(es, ctx);
    if i == -1 {
        es.push(EntryV { context: ctx, links: seq![LinkV { token: t, count: 1 }] })
    } else {
        es.update(i, EntryV { context: es[i].context, links: ls_insert(es[i].links, t) })
    }
}

/// Record a start token, keeping the set free of duplicates.
pub open spec fn starts_insert(ss: Seq<Seq<u8>>, w: Seq<u8>) -> Seq<Seq<u8>> {
    if ss.contains(w) {
        ss
    } else {
        ss.push(w)
    }
}

/// The first `j` windows of width `w` trained into `es`.
pub open spec fn do_windows(es: Seq<EntryV>, words: Seq<Seq<u8>>, w: int, j: int) -> Seq<EntryV>
    decreases j,
{
    if j <= 0 {
        es
    } else {
        chain_insert(
            do_windows(es, words, w, j - 1),
            words.subrange(j - 1, j - 1 + w),
            TokenV::Word(words[j - 1 + w]),
        )
    }
}

/// One full width pass: every window of `w` words to its successor, then the
/// sentence's final `w` words to the end sentinel.
pub open spec fn do_width(es: Seq<EntryV>, words: Seq<Seq<u8>>, w: int) -> Seq<EntryV> {
    chain_insert(
        do_windows(es, words, w, words.len() - w),
        words.subrange(words.len() - w, words.len() as int),
        TokenV::End,
    )
}

/// All width passes from 1 up to `w`.
pub open spec fn do_widths(es: Seq<EntryV>, words: Seq<Seq<u8>>, w: int) -> Seq<EntryV>
    decreases w,
{
    if w <= 0 {
        es
    } else {
        do_width(do_widths(es, words, w - 1), words, w)
    }
}

/// Train one sentence: record its first word as a start, then train every
/// n-gram order up to the effective depth `min(depth, len - 1)`.
pub open spec fn train_words_m(m: MarkovV, words: Seq<Seq<u8>>) -> MarkovV
    recommends
        words.len() >= 1,
{
    let d = if m.depth < words.len() - 1 {
        m.depth as int
    } else {
        words.len() - 1
    };
    MarkovV {
        chain: do_widths(m.chain, words, d),
        starts: starts_insert(m.starts, words[0]),
        depth: m.depth,
        name: m.name,
    }
}

/// Train a list of sentences, first to last.
pub open spec fn train_seq_m(m: MarkovV, ss: Seq<Seq<Seq<u8>>>) -> MarkovV
    decreases ss.len(),
{
    if ss.len() == 0 {
        m
    } else {
        train_words_m(train_seq_m(m, ss.drop_last()), ss.last())
    }
}

/// Sentence delimiters: '.', '?', '!' and newline.
pub open spec fn is_delim(b: u8) -> bool {
    b == 46 || b == 63 || b == 33 || b == 10
}

/// Whitespace separating words within a sentence.
pub open spec fn is_ws(b: u8) -> bool {
    b == 32 || b == 9 || b == 13 || b == 11 || b == 12
}

/// Length of the UTF-8 encoding of a non-ASCII Unicode whitespace
/// character standing at the front of `s`: 2 or 3, or 0 if none does.
/// These are the White_Space characters beyond ASCII: next line, no-break
/// space, ogham space mark, the en-quad..hair-space run, line and paragraph
/// separators, narrow no-break space, medium mathematical space, and the
/// ideographic space.
pub open spec fn ws_prefix(s: Seq<u8>) -> int {
    if s.len() >= 2 && s[0] == 0xc2 && (s[1] == 0x85 || s[1] == 0xa0) {
        2
    } else if s.len() >= 3 && s[0] == 0xe1 && s[1] == 0x9a && s[2] == 0x80 {
        3
    } else if s.len() >= 3 && s[0] == 0xe2 && s[1] == 0x80 && (0x80 <= s[2] <= 0x8a || s[2] == 0xa8
        || s[2] == 0xa9 || s[2] == 0xaf) {
        3
    } else if s.len() >= 3 && s[0] == 0xe2 && s[1] == 0x81 && s[2] == 0x9f {
        3
    } else if s.len() >= 3 && s[0] == 0xe3 && s[1] == 0x80 && s[2] == 0x80 {
        3
    } else {
        0
    }
}

/// Replace every non-ASCII Unicode whitespace character by a single space
/// byte, so that the byte-level splitters see it. On valid UTF-8 this is
/// exactly a per-character replacement: no such sequence can start inside
/// another character's encoding.
pub open spec fn ws_normalize(s: Seq<u8>) -> Seq<u8>
    decreases s.len(),
{
    if s.len() == 0 {
        Seq::empty()
    } else {
        let l = ws_prefix(s);
        if l > 0 {
            seq![32u8] + ws_normalize(s.skip(l))
        } else {
            seq![s[0]] + ws_normalize(s.skip(1))
        }
    }
}

pub open spec fn byte_splits(b: u8, ws: bool) -> bool {
    if ws {
        is_ws(b)
    } else {
        is_delim(b)
    }
}

/// Index of the first splitting byte, or the length if there is none.
pub open spec fn idx_of_first(data: Seq<u8>, ws: bool) -> int
    decreases data.len(),
{
    if data.len() == 0 {
        0
    } else if byte_splits(data[0], ws) {
        0
    } else {
        1 + idx_of_first(data.drop_first(), ws)
    }
}

/// Split on the chosen byte class; every segment is kept, empty ones included.
pub open spec fn split_on(data: Seq<u8>, ws: bool) -> Seq<Seq<u8>>
    decreases data.len() via split_on_dec
{
    let i = idx_of_first(data, ws);
    if i == data.len() {
        seq![data]
    } else {
        seq![data.take(i)] + split_on(data.skip(i + 1), ws)
    }
}

#[via_fn]
proof fn split_on_dec(data: Seq<u8>, ws: bool) {
    lemma_idx_of_first_props(data, ws);
}

/// Drop the empty pieces.
pub open spec fn keep_nonempty<A>(ss: Seq<Seq<A>>) -> Seq<Seq<A>>
    decreases ss.len(),
{
    if ss.len() == 0 {
        Seq::empty()
    } else {
        keep_nonempty(ss.drop_last()) + (if ss.last().len() > 0 {
            seq![ss.last()]
        } else {
            Seq::empty()
        })
    }
}

/// A sentence's words: split on whitespace, empties dropped.
pub open spec fn tokenize(s: Seq<u8>) -> Seq<Seq<u8>> {
    keep_nonempty(split_on(s, true))
}

/// A text's sentences, each as its non-empty word list.
pub open spec fn sentences_of(data: Seq<u8>) -> Seq<Seq<Seq<u8>>> {
    let raw = split_on(data, false);
    keep_nonempty(Seq::new(raw.len(), |i: int| tokenize(raw[i])))
}

/// The whole training pipeline on raw bytes.
pub open spec fn train_text_m(m: MarkovV, data: Seq<u8>) -> MarkovV {
    train_seq_m(m, sentences_of(data))
}

/// Well-formed chain: distinct contexts of bounded width with well-formed,
/// non-empty link sets; distinct starts; a positive depth.
pub open spec fn wf_markov(m: MarkovV) -> bool {
    &&& forall|i: int, j: int|
        0 <= i < j < m.chain.len() ==> (#[trigger] m.chain[i]).context != (#[trigger] m.chain[j]).context
    &&& forall|i: int|
        0 <= i < m.chain.len() ==> wf_links((#[trigger] m.chain[i]).links)
            && m.chain[i].links.len() >= 1 && 1 <= m.chain[i].context.len() <= m.depth
    &&& forall|i: int, j: int|
        0 <= i < j < m.starts.len() ==> #[trigger] m.starts[i] != #[trigger] m.starts[j]
    &&& m.depth >= 1
}

/// Everything `keep_nonempty` keeps is non-empty.
pub proof fn lemma_keep_nonempty_elts<A>(ss: Seq<Seq<A>>)
    ensures
        forall|k: int|
            0 <= k < keep_nonempty(ss).len() ==> (#[trigger] keep_nonempty(ss)[k]).len() > 0,
        keep_nonempty(ss).len() <= ss.len(),
    decreases ss.len(),
{
    if ss.len() > 0 {
        lemma_keep_nonempty_elts(ss.drop_last());
    }
}

pub proof fn lemma_find_ctx_props(es: Seq<EntryV>, ctx: Seq<Seq<u8>>)
    ensures
        -1 <= find_ctx(es, ctx) < es.len(),
        find_ctx(es, ctx) != -1 ==> es[find_ctx(es, ctx)].context == ctx,
        forall|k: int| 0 <= k < es.len() && (find_ctx(es, ctx) == -1 || k < find_ctx(es, ctx))
            ==> (#[trigger] es[k]).context != ctx,
    decreases es.len(),
{
    if es.len() > 0 && es[0].context != ctx {
        let d = es.drop_first();
        lemma_find_ctx_props(d, ctx);
        assert forall|k: int|
            0 <= k < es.len() && (find_ctx(es, ctx) == -1 || k < find_ctx(es, ctx))
            implies (#[trigger] es[k]).context != ctx by {
            if k > 0 {
                assert(es[k] == d[k - 1]);
            }
        }
    }
}

pub proof fn lemma_find_ctx_is(es: Seq<EntryV>, ctx: Seq<Seq<u8>>, j: int)
    requires
        0 <= j < es.len(),
        es[j].context == ctx,
        forall|k: int| 0 <= k < j ==> (#[trigger] es[k]).context != ctx,
    ensures
        find_ctx(es, ctx) == j,
    decreases es.len(),
{
    if j > 0 {
        lemma_find_ctx_is(es.drop_first(), ctx, j - 1);
    }
}

pub proof fn lemma_find_ctx_none(es: Seq<EntryV>, ctx: Seq<Seq<u8>>)
    requires
        forall|k: int| 0 <= k < es.len() ==> (#[trigger] es[k]).context != ctx,
    ensures
        find_ctx(es, ctx) == -1,
    decreases es.len(),
{
    if es.len() > 0 {
        lemma_find_ctx_none(es.drop_first(), ctx);
    }
}

/// Characterise `idx_of_first` by what the bytes look like.
pub proof fn lemma_idx_of_first_props(data: Seq<u8>, ws: bool)
    ensures
        0 <= idx_of_first(data, ws) <= data.len(),
        idx_of_first(data, ws) < data.len() ==> byte_splits(data[idx_of_first(data, ws)], ws),
        forall|k: int| 0 <= k < idx_of_first(data, ws) ==> !byte_splits(#[trigger] data[k], ws),
    decreases data.len(),
{
    if data.len() > 0 && !byte_splits(data[0], ws) {
        let d = data.drop_first();
        lemma_idx_of_first_props(d, ws);
        assert forall|k: int| 0 <= k < idx_of_first(data, ws)
            implies !byte_splits(#[trigger] data[k], ws) by {
            if k > 0 {
                assert(data[k] == d[k - 1]);
            }
        }
    }
}

pub proof fn lemma_idx_of_first_is(data: Seq<u8>, ws: bool, j: int)
    requires
        0 <= j <= data.len(),
        j < data.len() ==> byte_splits(data[j], ws),
        forall|k: int| 0 <= k < j ==> !byte_splits(#[trigger] data[k], ws),
    ensures
        idx_of_first(data, ws) == j,
    decreases data.len(),
{
    if j > 0 {
        let d = data.drop_first();
        lemma_idx_of_first_is(d, ws, j - 1);
    }
}

} // verus!
