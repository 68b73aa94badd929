//! The persistence codec: a length-prefixed binary form of a chain, written
//! and read by verified code, with the round-trip law proved, and Snappy
//! block compression over it behind trusted wrappers.

use vstd::prelude::*;

use crate::chainmodel::{EntryV, MarkovV};
use crate::model::{LinkV, TokenV};
use vstd::utf8::{decode_utf8, encode_utf8, valid_utf8};

verus! {

pub open spec fn pow256(k: nat) -> int
    decreases k,
{
    if k == 0 {
        1
    } else {
        256 * pow256((k - 1) as nat)
    }
}

/// `n` in `k` little-endian bytes.
pub open spec fn le_bytes(n: nat, k: nat) -> Seq<u8>
    decreases k,
{
    if k == 0 {
        Seq::empty()
    } else {
        seq![(n % 256) as u8] + le_bytes(n / 256, (k - 1) as nat)
    }
}

/// The number held by little-endian bytes.
pub open spec fn de_le(s: Seq<u8>) -> nat
    decreases s.len(),
{
    if s.len() == 0 {
        0
    } else {
        (s[0] + 256 * de_le(s.drop_first())) as nat
    }
}

/// A length, as eight little-endian bytes.
pub open spec fn enc_len(n: nat) -> Seq<u8> {
    le_bytes(n, 8)
}

/// A byte string: its length, then its bytes.
pub open spec fn enc_bytes(b: Seq<u8>) -> Seq<u8> {
    enc_len(b.len()) + b
}

/// A list of byte strings, in order.
pub open spec fn enc_words(ss: Seq<Seq<u8>>) -> Seq<u8>
    decreases ss.len(),
{
    if ss.len() == 0 {
        Seq::empty()
    } else {
        enc_bytes(ss.first()) + enc_words(ss.drop_first())
    }
}

/// A link: a tag byte (1 for a word with its bytes, 0 for the end
/// sentinel), then the count.
pub open spec fn enc_link(l: LinkV) -> Seq<u8> {
    (match l.token {
        TokenV::Word(w) => seq![1u8] + enc_bytes(w),
        TokenV::End => seq![0u8],
    }) + enc_len(l.count)
}

pub open spec fn enc_links(ls: Seq<LinkV>) -> Seq<u8>
    decreases ls.len(),
{
    if ls.len() == 0 {
        Seq::empty()
    } else {
        enc_link(ls.first()) + enc_links(ls.drop_first())
    }
}

/// An entry: its context word list, then its link list, each counted.
pub open spec fn enc_entry(e: EntryV) -> Seq<u8> {
    enc_len(e.context.len()) + enc_words(e.context) + enc_len(e.links.len()) + enc_links(e.links)
}

pub open spec fn enc_entries(es: Seq<EntryV>) -> Seq<u8>
    decreases es.len(),
{
    if es.len() == 0 {
        Seq::empty()
    } else {
        enc_entry(es.first()) + enc_entries(es.drop_first())
    }
}

/// A whole chain: depth, name (as UTF-8 bytes), starts, entries.
pub open spec fn enc_markov(m: MarkovV) -> Seq<u8> {
    enc_len(m.depth) + enc_bytes(encode_utf8(m.name)) + enc_len(m.starts.len()) + enc_words(
        m.starts,
    ) + enc_len(m.chain.len()) + enc_entries(m.chain)
}

/// Every count the encoding writes fits the machine; true of any chain an
/// executable value stands for.
pub open spec fn size_ok(m: MarkovV) -> bool {
    &&& m.depth <= usize::MAX as nat
    &&& encode_utf8(m.name).len() <= usize::MAX as nat
    &&& m.starts.len() <= usize::MAX as nat
    &&& forall|i: int| 0 <= i < m.starts.len() ==> (#[trigger] m.starts[i]).len() <= usize::MAX as nat
    &&& m.chain.len() <= usize::MAX as nat
    &&& forall|i: int|
        0 <= i < m.chain.len() ==> entry_size_ok(#[trigger] m.chain[i])
}

pub open spec fn entry_size_ok(e: EntryV) -> bool {
    &&& e.context.len() <= usize::MAX as nat
    &&& forall|j: int| 0 <= j < e.context.len() ==> (#[trigger] e.context[j]).len() <= usize::MAX as nat
    &&& e.links.len() <= usize::MAX as nat
    &&& forall|j: int| 0 <= j < e.links.len() ==> link_size_ok(#[trigger] e.links[j])
}

pub open spec fn link_size_ok(l: LinkV) -> bool {
    &&& l.count <= usize::MAX as nat
    &&& match l.token {
        TokenV::Word(w) => w.len() <= usize::MAX as nat,
        TokenV::End => true,
    }
}

// ---------------------------------------------------------------------------
// Spec-level decoding, the exact mirror of the executable reader.

pub open spec fn dec_len_s(s: Seq<u8>) -> Option<(nat, Seq<u8>)> {
    if s.len() < 8 {
        None
    } else {
        Some((de_le(s.take(8)), s.skip(8)))
    }
}

pub open spec fn dec_bytes_s(s: Seq<u8>) -> Option<(Seq<u8>, Seq<u8>)> {
    match dec_len_s(s) {
        Some((n, r)) => if r.len() >= n {
            Some((r.take(n as int), r.skip(n as int)))
        } else {
            None
        },
        None => None,
    }
}

pub open spec fn dec_words_s(s: Seq<u8>, n: nat) -> Option<(Seq<Seq<u8>>, Seq<u8>)>
    decreases n,
{
    if n == 0 {
        Some((Seq::empty(), s))
    } else {
        match dec_bytes_s(s) {
            Some((b, r)) => match dec_words_s(r, (n - 1) as nat) {
                Some((bs, r2)) => Some((seq![b] + bs, r2)),
                None => None,
            },
            None => None,
        }
    }
}

pub open spec fn dec_link_s(s: Seq<u8>) -> Option<(LinkV, Seq<u8>)> {
    if s.len() < 1 {
        None
    } else if s[0] == 1 {
        match dec_bytes_s(s.drop_first()) {
            Some((w, r)) => match dec_len_s(r) {
                Some((c, r2)) => Some((LinkV { token: TokenV::Word(w), count: c }, r2)),
                None => None,
            },
            None => None,
        }
    } else if s[0] == 0 {
        match dec_len_s(s.drop_first()) {
            Some((c, r2)) => Some((LinkV { token: TokenV::End, count: c }, r2)),
            None => None,
        }
    } else {
        None
    }
}

pub open spec fn dec_links_s(s: Seq<u8>, n: nat) -> Option<(Seq<LinkV>, Seq<u8>)>
    decreases n,
{
    if n == 0 {
        Some((Seq::empty(), s))
    } else {
        match dec_link_s(s) {
            Some((l, r)) => match dec_links_s(r, (n - 1) as nat) {
                Some((ls, r2)) => Some((seq![l] + ls, r2)),
                None => None,
            },
            None => None,
        }
    }
}

pub open spec fn dec_entry_s(s: Seq<u8>) -> Option<(EntryV, Seq<u8>)> {
    match dec_len_s(s) {
        Some((cn, r)) => match dec_words_s(r, cn) {
            Some((ctx, r2)) => match dec_len_s(r2) {
                Some((ln, r3)) => match dec_links_s(r3, ln) {
                    Some((ls, r4)) => Some((EntryV { context: ctx, links: ls }, r4)),
                    None => None,
                },
                None => None,
            },
            None => None,
        },
        None => None,
    }
}

pub open spec fn dec_entries_s(s: Seq<u8>, n: nat) -> Option<(Seq<EntryV>, Seq<u8>)>
    decreases n,
{
    if n == 0 {
        Some((Seq::empty(), s))
    } else {
        match dec_entry_s(s) {
            Some((e, r)) => match dec_entries_s(r, (n - 1) as nat) {
                Some((es, r2)) => Some((seq![e] + es, r2)),
                None => None,
            },
            None => None,
        }
    }
}

pub open spec fn dec_markov_s(s: Seq<u8>) -> Option<MarkovV> {
    match dec_len_s(s) {
        Some((depth, r)) => match dec_bytes_s(r) {
            Some((nb, r2)) => if valid_utf8(nb) {
                match dec_len_s(r2) {
                    Some((sn, r3)) => match dec_words_s(r3, sn) {
                        Some((starts, r4)) => match dec_len_s(r4) {
                            Some((en, r5)) => match dec_entries_s(r5, en) {
                                Some((es, r6)) => if r6.len() == 0 {
                                    Some(
                                        MarkovV {
                                            chain: es,
                                            starts,
                                            depth,
                                            name: decode_utf8(nb),
                                        },
                                    )
                                } else {
                                    None
                                },
                                None => None,
                            },
                            None => None,
                        },
                        None => None,
                    },
                    None => None,
                }
            } else {
                None
            },
            None => None,
        },
        None => None,
    }
}

// ---------------------------------------------------------------------------
// Decoding inverts encoding.

pub proof fn lemma_le_bytes_len(n: nat, k: nat)
    ensures
        le_bytes(n, k).len() == k,
    decreases k,
{
    if k > 0 {
        lemma_le_bytes_len(n / 256, (k - 1) as nat);
    }
}

/// Little-endian bytes always hold a value below `256^k`.
pub proof fn lemma_de_le_bound(s: Seq<u8>)
    ensures
        de_le(s) < pow256(s.len()),
    decreases s.len(),
{
    if s.len() > 0 {
        lemma_de_le_bound(s.drop_first());
    }
}

pub proof fn lemma_dec_words_len(s: Seq<u8>, n: nat)
    ensures
        dec_words_s(s, n) matches Some((ss, _)) ==> ss.len() == n,
    decreases n,
{
    if n > 0 {
        match dec_bytes_s(s) {
            Some((b, r)) => {
                lemma_dec_words_len(r, (n - 1) as nat);
            },
            None => {
            },
        }
    }
}

pub proof fn lemma_dec_links_len(s: Seq<u8>, n: nat)
    ensures
        dec_links_s(s, n) matches Some((ls, _)) ==> ls.len() == n,
    decreases n,
{
    if n > 0 {
        match dec_link_s(s) {
            Some((l, r)) => {
                lemma_dec_links_len(r, (n - 1) as nat);
            },
            None => {
            },
        }
    }
}

pub proof fn lemma_dec_entries_len(s: Seq<u8>, n: nat)
    ensures
        dec_entries_s(s, n) matches Some((es, _)) ==> es.len() == n,
    decreases n,
{
    if n > 0 {
        match dec_entry_s(s) {
            Some((e, r)) => {
                lemma_dec_entries_len(r, (n - 1) as nat);
            },
            None => {
            },
        }
    }
}

pub proof fn lemma_pow256_mono(k: nat)
    requires
        k <= 8,
    ensures
        pow256(k) <= pow256(8),
    decreases 8 - k,
{
    if k < 8 {
        lemma_pow256_mono((k + 1) as nat);
        lemma_pow256_pos(k);
        assert(pow256((k + 1) as nat) == 256 * pow256(k));
    }
}

pub proof fn lemma_pow256_pos(k: nat)
    ensures
        pow256(k) >= 1,
    decreases k,
{
    if k > 0 {
        lemma_pow256_pos((k - 1) as nat);
    }
}

pub proof fn lemma_le_roundtrip(n: nat, k: nat)
    requires
        n < pow256(k),
    ensures
        de_le(le_bytes(n, k)) == n,
    decreases k,
{
    if k > 0 {
        let b = le_bytes(n, k);
        assert(b[0] == n % 256);
        assert(b.drop_first() =~= le_bytes(n / 256, (k - 1) as nat));
        assert(n / 256 < pow256((k - 1) as nat)) by {
            let p = pow256((k - 1) as nat);
            assert(pow256(k) == 256 * p);
            assert(n < 256 * p ==> n / 256 < p) by (nonlinear_arith);
        }
        lemma_le_roundtrip(n / 256, (k - 1) as nat);
    }
}

pub proof fn lemma_pow256_8()
    ensures
        pow256(8) == 0x10000000000000000,
        (usize::MAX as nat) < pow256(8),
{
    assert(pow256(0) == 1);
    assert(pow256(1) == 256);
    assert(pow256(2) == 0x10000);
    assert(pow256(3) == 0x1000000);
    assert(pow256(4) == 0x100000000);
    assert(pow256(5) == 0x10000000000);
    assert(pow256(6) == 0x1000000000000);
    assert(pow256(7) == 0x100000000000000);
    assert(pow256(8) == 0x10000000000000000);
}

pub proof fn lemma_dec_len_enc(n: nat, r: Seq<u8>)
    requires
        n <= usize::MAX as nat,
    ensures
        dec_len_s(enc_len(n) + r) == Some((n, r)),
{
    lemma_le_bytes_len(n, 8);
    let s = enc_len(n) + r;
    assert(s.take(8) =~= enc_len(n));
    assert(s.skip(8) =~= r);
    lemma_pow256_8();
    lemma_le_roundtrip(n, 8);
}

pub proof fn lemma_dec_bytes_enc(b: Seq<u8>, r: Seq<u8>)
    requires
        b.len() <= usize::MAX as nat,
    ensures
        dec_bytes_s(enc_bytes(b) + r) == Some((b, r)),
{
    let s = enc_bytes(b) + r;
    assert(s =~= enc_len(b.len()) + (b + r));
    lemma_dec_len_enc(b.len(), b + r);
    assert((b + r).take(b.len() as int) =~= b);
    assert((b + r).skip(b.len() as int) =~= r);
}

pub proof fn lemma_dec_words_enc(ss: Seq<Seq<u8>>, r: Seq<u8>)
    requires
        forall|i: int| 0 <= i < ss.len() ==> (#[trigger] ss[i]).len() <= usize::MAX as nat,
    ensures
        dec_words_s(enc_words(ss) + r, ss.len()) == Some((ss, r)),
    decreases ss.len(),
{
    if ss.len() == 0 {
        assert(enc_words(ss) + r =~= r);
    } else {
        let s = enc_words(ss) + r;
        let rest = ss.drop_first();
        assert(s =~= enc_bytes(ss.first()) + (enc_words(rest) + r));
        lemma_dec_bytes_enc(ss.first(), enc_words(rest) + r);
        lemma_dec_words_enc(rest, r);
        assert(seq![ss.first()] + rest =~= ss);
    }
}

pub proof fn lemma_dec_link_enc(l: LinkV, r: Seq<u8>)
    requires
        link_size_ok(l),
    ensures
        dec_link_s(enc_link(l) + r) == Some((l, r)),
{
    let s = enc_link(l) + r;
    match l.token {
        TokenV::Word(w) => {
            assert(s[0] == 1);
            assert(s.drop_first() =~= enc_bytes(w) + (enc_len(l.count) + r));
            lemma_dec_bytes_enc(w, enc_len(l.count) + r);
            lemma_dec_len_enc(l.count, r);
        },
        TokenV::End => {
            assert(s[0] == 0);
            assert(s.drop_first() =~= enc_len(l.count) + r);
            lemma_dec_len_enc(l.count, r);
        },
    }
}

pub proof fn lemma_dec_links_enc(ls: Seq<LinkV>, r: Seq<u8>)
    requires
        forall|i: int| 0 <= i < ls.len() ==> link_size_ok(#[trigger] ls[i]),
    ensures
        dec_links_s(enc_links(ls) + r, ls.len()) == Some((ls, r)),
    decreases ls.len(),
{
    if ls.len() == 0 {
        assert(enc_links(ls) + r =~= r);
    } else {
        let s = enc_links(ls) + r;
        let rest = ls.drop_first();
        assert(s =~= enc_link(ls.first()) + (enc_links(rest) + r));
        lemma_dec_link_enc(ls.first(), enc_links(rest) + r);
        lemma_dec_links_enc(rest, r);
        assert(seq![ls.first()] + rest =~= ls);
    }
}

pub proof fn lemma_dec_entry_enc(e: EntryV, r: Seq<u8>)
    requires
        entry_size_ok(e),
    ensures
        dec_entry_s(enc_entry(e) + r) == Some((e, r)),
{
    let s = enc_entry(e) + r;
    let tail1 = enc_words(e.context) + (enc_len(e.links.len()) + (enc_links(e.links) + r));
    assert(s =~= enc_len(e.context.len()) + tail1);
    lemma_dec_len_enc(e.context.len(), tail1);
    lemma_dec_words_enc(e.context, enc_len(e.links.len()) + (enc_links(e.links) + r));
    lemma_dec_len_enc(e.links.len(), enc_links(e.links) + r);
    lemma_dec_links_enc(e.links, r);
}

pub proof fn lemma_dec_entries_enc(es: Seq<EntryV>, r: Seq<u8>)
    requires
        forall|i: int| 0 <= i < es.len() ==> entry_size_ok(#[trigger] es[i]),
    ensures
        dec_entries_s(enc_entries(es) + r, es.len()) == Some((es, r)),
    decreases es.len(),
{
    if es.len() == 0 {
        assert(enc_entries(es) + r =~= r);
    } else {
        let s = enc_entries(es) + r;
        let rest = es.drop_first();
        assert(s =~= enc_entry(es.first()) + (enc_entries(rest) + r));
        lemma_dec_entry_enc(es.first(), enc_entries(rest) + r);
        lemma_dec_entries_enc(rest, r);
        assert(seq![es.first()] + rest =~= es);
    }
}

/// The codec's round-trip law: decoding an encoded chain yields it back.
pub proof fn lemma_dec_markov_enc(m: MarkovV)
    requires
        size_ok(m),
    ensures
        dec_markov_s(enc_markov(m)) == Some(m),
{
    let nb = encode_utf8(m.name);
    let s = enc_markov(m);
    let t1 = enc_bytes(nb) + (enc_len(m.starts.len()) + (enc_words(m.starts) + (enc_len(
        m.chain.len(),
    ) + enc_entries(m.chain))));
    assert(s =~= enc_len(m.depth) + t1);
    lemma_dec_len_enc(m.depth, t1);
    let t2 = enc_len(m.starts.len()) + (enc_words(m.starts) + (enc_len(m.chain.len())
        + enc_entries(m.chain)));
    lemma_dec_bytes_enc(nb, t2);
    vstd::utf8::encode_utf8_valid_utf8(m.name);
    vstd::utf8::encode_utf8_decode_utf8(m.name);
    let t3 = enc_words(m.starts) + (enc_len(m.chain.len()) + enc_entries(m.chain));
    lemma_dec_len_enc(m.starts.len(), t3);
    let t4 = enc_len(m.chain.len()) + enc_entries(m.chain);
    lemma_dec_words_enc(m.starts, t4);
    lemma_dec_len_enc(m.chain.len(), enc_entries(m.chain));
    let empty = Seq::<u8>::empty();
    assert(enc_entries(m.chain) =~= enc_entries(m.chain) + empty);
    lemma_dec_entries_enc(m.chain, empty);
}

} // verus!
