//! Executable persistence: the verified writer and reader for the binary
//! form in [`crate::codec`], a well-formedness validator, and Snappy
//! compression behind trusted wrappers.

use vstd::prelude::*;

use crate::codec::{
    dec_bytes_s, dec_entries_s, dec_entry_s, dec_len_s, dec_link_s, dec_links_s, dec_markov_s,
    dec_words_s, de_le, enc_bytes, enc_entries, enc_entry, enc_len, enc_link, enc_links,
    enc_markov, enc_words, entry_size_ok, le_bytes, lemma_de_le_bound, lemma_pow256_8,
    link_size_ok, pow256, size_ok,
};
use crate::chainmodel::{wf_markov, EntryV, MarkovV};
use crate::linkset::{Link, LinkSet, Token};
use crate::markov::{ChainEntry, Markov};
use crate::model::LinkV;
use crate::text::{copy_range, words_view};
use vstd::string::StringSliceAdditionalSpecFns;

verus! {

// ---------------------------------------------------------------------------
// Writer.

proof fn lemma_enc_words_snoc(ss: Seq<Seq<u8>>, x: Seq<u8>)
    ensures
        enc_words(ss.push(x)) == enc_words(ss) + enc_bytes(x),
    decreases ss.len(),
{
    let p = ss.push(x);
    if ss.len() == 0 {
        assert(p.drop_first() =~= Seq::<Seq<u8>>::empty());
        assert(p.first() == x);
        assert(enc_words(p) == enc_bytes(x) + enc_words(p.drop_first()));
        assert(enc_words(p.drop_first()) == Seq::<u8>::empty());
        assert(enc_bytes(x) + Seq::<u8>::empty() =~= enc_bytes(x));
        assert(enc_words(ss) + enc_bytes(x) =~= enc_bytes(x));
    } else {
        assert(p.drop_first() =~= ss.drop_first().push(x));
        lemma_enc_words_snoc(ss.drop_first(), x);
        assert(enc_words(p) =~= enc_words(ss) + enc_bytes(x));
    }
}

proof fn lemma_enc_links_snoc(ls: Seq<LinkV>, x: LinkV)
    ensures
        enc_links(ls.push(x)) == enc_links(ls) + enc_link(x),
    decreases ls.len(),
{
    let p = ls.push(x);
    if ls.len() == 0 {
        assert(p.drop_first() =~= Seq::<LinkV>::empty());
        assert(p.first() == x);
        assert(enc_links(p) == enc_link(x) + enc_links(p.drop_first()));
        assert(enc_links(p.drop_first()) == Seq::<u8>::empty());
        assert(enc_link(x) + Seq::<u8>::empty() =~= enc_link(x));
        assert(enc_links(ls) + enc_link(x) =~= enc_link(x));
    } else {
        assert(p.drop_first() =~= ls.drop_first().push(x));
        lemma_enc_links_snoc(ls.drop_first(), x);
        assert(enc_links(p) =~= enc_links(ls) + enc_link(x));
    }
}

proof fn lemma_enc_entries_snoc(es: Seq<EntryV>, x: EntryV)
    ensures
        enc_entries(es.push(x)) == enc_entries(es) + enc_entry(x),
    decreases es.len(),
{
    let p = es.push(x);
    if es.len() == 0 {
        assert(p.drop_first() =~= Seq::<EntryV>::empty());
        assert(p.first() == x);
        assert(enc_entries(p) == enc_entry(x) + enc_entries(p.drop_first()));
        assert(enc_entries(p.drop_first()) == Seq::<u8>::empty());
        assert(enc_entry(x) + Seq::<u8>::empty() =~= enc_entry(x));
        assert(enc_entries(es) + enc_entry(x) =~= enc_entry(x));
    } else {
        assert(p.drop_first() =~= es.drop_first().push(x));
        lemma_enc_entries_snoc(es.drop_first(), x);
        assert(enc_entries(p) =~= enc_entries(es) + enc_entry(x));
    }
}

/// Append a length as eight little-endian bytes.
#[verifier::loop_isolation(false)]
fn push_len(out: &mut Vec<u8>, n: usize)
    ensures
        final(out)@ == old(out)@ + enc_len(n as nat),
{
    let ghost out0 = out@;
    let mut x = n;
    let mut k: usize = 0;
    while k < 8
        invariant
            k <= 8,
            out@ + le_bytes(x as nat, (8 - k) as nat) == out0 + enc_len(n as nat),
        decreases 8 - k,
    {
        let ghost pre = out@;
        let b = (x % 256) as u8;
        out.push(b);
        proof {
            assert(le_bytes(x as nat, (8 - k) as nat) =~= seq![b] + le_bytes(
                (x / 256) as nat,
                (8 - (k + 1)) as nat,
            ));
            assert(out@ + le_bytes((x / 256) as nat, (8 - (k + 1)) as nat) =~= pre + le_bytes(
                x as nat,
                (8 - k) as nat,
            ));
        }
        x = x / 256;
        k += 1;
    }
    proof {
        assert(le_bytes(x as nat, 0) =~= Seq::<u8>::empty());
        assert(out@ =~= out@ + le_bytes(x as nat, 0));
    }
}

/// Append a length-prefixed byte string.
#[verifier::loop_isolation(false)]
fn push_bytes(out: &mut Vec<u8>, b: &[u8])
    ensures
        final(out)@ == old(out)@ + enc_bytes(b@),
{
    push_len(out, b.len());
    let ghost mid = out@;
    let n = b.len();
    let mut i: usize = 0;
    while i < n
        invariant
            i <= n,
            out@ == mid + b@.take(i as int),
        decreases n - i,
    {
        let ghost pre = out@;
        out.push(b[i]);
        proof {
            assert(out@ =~= mid + b@.take(i + 1));
        }
        i += 1;
    }
    proof {
        assert(b@.take(n as int) =~= b@);
        assert(out@ =~= old(out)@ + enc_bytes(b@));
    }
}

/// Append one link.
fn push_link(out: &mut Vec<u8>, l: &Link)
    ensures
        final(out)@ == old(out)@ + enc_link(l.deep_view()),
{
    match &l.token {
        Token::Word(w) => {
            out.push(1);
            proof {
                assert(out@ =~= old(out)@ + seq![1u8]);
            }
            push_bytes(out, w.as_slice());
        },
        Token::End => {
            out.push(0);
            proof {
                assert(out@ =~= old(out)@ + seq![0u8]);
            }
        },
    }
    push_len(out, l.count);
    proof {
        assert(out@ =~= old(out)@ + enc_link(l.deep_view()));
    }
}

/// Append a counted list of byte strings.
#[verifier::loop_isolation(false)]
fn push_words(out: &mut Vec<u8>, ws: &Vec<Vec<u8>>)
    ensures
        final(out)@ == old(out)@ + enc_len(ws@.len() as nat) + enc_words(words_view(ws@)),
{
    push_len(out, ws.len());
    let ghost mid = out@;
    let ghost wv = words_view(ws@);
    let n = ws.len();
    let mut i: usize = 0;
    while i < n
        invariant
            i <= n,
            n == ws@.len(),
            wv == words_view(ws@),
            out@ == mid + enc_words(wv.take(i as int)),
        decreases n - i,
    {
        proof {
            assert(enc_words(wv.take(0)) =~= Seq::<u8>::empty());
        }
        let ghost pre = out@;
        push_bytes(out, ws[i].as_slice());
        proof {
            assert(wv.take(i + 1) =~= wv.take(i as int).push(wv[i as int]));
            lemma_enc_words_snoc(wv.take(i as int), wv[i as int]);
            assert(ws@[i as int]@ == wv[i as int]);
            assert(out@ =~= mid + enc_words(wv.take(i + 1)));
        }
        i += 1;
    }
    proof {
        assert(wv.take(n as int) =~= wv);
        assert(out@ =~= old(out)@ + enc_len(ws@.len() as nat) + enc_words(wv));
    }
}

/// Serialize a chain to its binary form.
#[verifier::loop_isolation(false)]
pub fn encode(m: &Markov) -> (out: Vec<u8>)
    ensures
        out@ == enc_markov(m@),
{
    let mut out: Vec<u8> = Vec::new();
    push_len(&mut out, m.depth());
    proof {
        assert(out@ =~= Seq::<u8>::empty() + enc_len(m@.depth));
        assert(out@ =~= enc_len(m@.depth));
    }
    let name = m.name();
    push_bytes(&mut out, name.as_bytes());
    let mut starts: Vec<Vec<u8>> = Vec::new();
    let sn = m.start_count();
    let mut i: usize = 0;
    while i < sn
        invariant
            i <= sn,
            sn == m@.starts.len(),
            words_view(starts@) == m@.starts.take(i as int),
        decreases sn - i,
    {
        starts.push(crate::linkset::clone_bytes(m.start_at(i)));
        proof {
            assert(words_view(starts@) =~= m@.starts.take(i + 1));
        }
        i += 1;
    }
    proof {
        assert(m@.starts.take(sn as int) =~= m@.starts);
    }
    push_words(&mut out, &starts);
    let ghost before_entries = out@;
    push_len(&mut out, m.context_count());
    let ghost mid = out@;
    let en = m.context_count();
    let mut j: usize = 0;
    while j < en
        invariant
            j <= en,
            en == m@.chain.len(),
            out@ == mid + enc_entries(m@.chain.take(j as int)),
        decreases en - j,
    {
        proof {
            assert(enc_entries(m@.chain.take(0)) =~= Seq::<u8>::empty());
        }
        let e = m.entry_at(j);
        push_len(&mut out, e.context.len());
        push_words_inner(&mut out, &e.context);
        push_len(&mut out, e.links.len());
        push_links(&mut out, &e.links);
        proof {
            assert(m@.chain.take(j + 1) =~= m@.chain.take(j as int).push(m@.chain[j as int]));
            lemma_enc_entries_snoc(m@.chain.take(j as int), m@.chain[j as int]);
            assert(e.deep_view() == m@.chain[j as int]);
            assert(out@ =~= mid + enc_entries(m@.chain.take(j + 1)));
        }
        j += 1;
    }
    proof {
        assert(m@.chain.take(en as int) =~= m@.chain);
        assert(out@ =~= enc_markov(m@));
    }
    out
}

/// Append a word list without its count (the caller wrote it).
#[verifier::loop_isolation(false)]
fn push_words_inner(out: &mut Vec<u8>, ws: &Vec<Vec<u8>>)
    ensures
        final(out)@ == old(out)@ + enc_words(words_view(ws@)),
{
    let ghost mid = out@;
    let ghost wv = words_view(ws@);
    let n = ws.len();
    let mut i: usize = 0;
    while i < n
        invariant
            i <= n,
            n == ws@.len(),
            wv == words_view(ws@),
            out@ == mid + enc_words(wv.take(i as int)),
        decreases n - i,
    {
        proof {
            assert(enc_words(wv.take(0)) =~= Seq::<u8>::empty());
        }
        push_bytes(out, ws[i].as_slice());
        proof {
            assert(wv.take(i + 1) =~= wv.take(i as int).push(wv[i as int]));
            lemma_enc_words_snoc(wv.take(i as int), wv[i as int]);
            assert(ws@[i as int]@ == wv[i as int]);
            assert(out@ =~= mid + enc_words(wv.take(i + 1)));
        }
        i += 1;
    }
    proof {
        assert(wv.take(n as int) =~= wv);
    }
}

/// Append a link list without its count.
#[verifier::loop_isolation(false)]
fn push_links(out: &mut Vec<u8>, ls: &LinkSet)
    ensures
        final(out)@ == old(out)@ + enc_links(ls@),
{
    let ghost mid = out@;
    let n = ls.len();
    let mut i: usize = 0;
    while i < n
        invariant
            i <= n,
            n == ls@.len(),
            out@ == mid + enc_links(ls@.take(i as int)),
        decreases n - i,
    {
        proof {
            assert(enc_links(ls@.take(0)) =~= Seq::<u8>::empty());
        }
        push_link(out, ls.get(i));
        proof {
            assert(ls@.take(i + 1) =~= ls@.take(i as int).push(ls@[i as int]));
            lemma_enc_links_snoc(ls@.take(i as int), ls@[i as int]);
            assert(out@ =~= mid + enc_links(ls@.take(i + 1)));
        }
        i += 1;
    }
    proof {
        assert(ls@.take(n as int) =~= ls@);
    }
}

// ---------------------------------------------------------------------------
// Reader.

/// Read an eight-byte length. Fails if it does not fit the machine.
#[verifier::loop_isolation(false)]
fn read_len(data: &[u8], pos: usize) -> (r: Option<(usize, usize)>)
    requires
        pos <= data@.len(),
    ensures
        match r {
            Some((n, p2)) => {
                &&& p2 <= data@.len()
                &&& dec_len_s(data@.skip(pos as int)) == Some((n as nat, data@.skip(p2 as int)))
            },
            None => match dec_len_s(data@.skip(pos as int)) {
                Some((n, _)) => n > usize::MAX as nat,
                None => true,
            },
        },
        match dec_len_s(data@.skip(pos as int)) {
            Some((n, _)) => n <= usize::MAX as nat ==> r is Some,
            None => r is None,
        },
{
    let ghost s = data@.skip(pos as int);
    if data.len() - pos < 8 {
        return None;
    }
    let mut val: u64 = 0;
    let mut k: usize = 0;
    while k < 8
        invariant
            k <= 8,
            val as nat == de_le(s.subrange((8 - k) as int, 8)),
        decreases 8 - k,
    {
        proof {
            lemma_de_le_bound(s.subrange((8 - k) as int, 8));
            lemma_pow256_8();
            crate::codec::lemma_pow256_mono((k + 1) as nat);
            crate::codec::lemma_pow256_pos(k as nat);
            assert(pow256((k + 1) as nat) == 256 * pow256(k as nat));
            assert(val as nat <= pow256(k as nat) - 1);
            assert((val as nat) * 256 <= (pow256(k as nat) - 1) * 256) by (nonlinear_arith)
                requires
                    val as nat <= pow256(k as nat) - 1,
                    pow256(k as nat) >= 1,
            ;
            assert((val as nat) * 256 + 255 < 0x10000000000000000);
        }
        let b = data[pos + 8 - 1 - k];
        let ghost oldval = val;
        val = val * 256 + (b as u64);
        proof {
            let i = (8 - (k + 1)) as int;
            assert(s.subrange(i, 8).drop_first() =~= s.subrange(i + 1, 8));
            assert(s.subrange(i, 8)[0] == data@[pos + i]);
            assert(de_le(s.subrange(i, 8)) == s.subrange(i, 8)[0] + 256 * de_le(
                s.subrange(i + 1, 8),
            ));
        }
        k += 1;
    }
    proof {
        assert(s.subrange(0, 8) =~= s.take(8));
        assert(data@.skip(pos + 8) =~= s.skip(8));
    }
    if val <= usize::MAX as u64 {
        Some((val as usize, pos + 8))
    } else {
        None
    }
}

/// Read a length-prefixed byte string.
fn read_bytes(data: &[u8], pos: usize) -> (r: Option<(Vec<u8>, usize)>)
    requires
        pos <= data@.len(),
    ensures
        match r {
            Some((v, p2)) => {
                &&& p2 <= data@.len()
                &&& dec_bytes_s(data@.skip(pos as int)) == Some((v@, data@.skip(p2 as int)))
            },
            None => true,
        },
        match dec_bytes_s(data@.skip(pos as int)) {
            Some((b, _)) => b.len() <= usize::MAX as nat ==> r is Some,
            None => r is None,
        },
{
    let ghost s = data@.skip(pos as int);
    match read_len(data, pos) {
        Some((n, p2)) => {
            if data.len() - p2 < n {
                proof {
                    assert(data@.skip(p2 as int).len() < n);
                }
                return None;
            }
            let v = copy_range(data, p2, p2 + n);
            proof {
                assert(data@.skip(p2 as int).take(n as int) =~= data@.subrange(
                    p2 as int,
                    p2 + n,
                ));
                assert(data@.skip(p2 as int).skip(n as int) =~= data@.skip(p2 + n));
            }
            Some((v, p2 + n))
        },
        None => {
            proof {
                if dec_len_s(s) is Some {
                    let (ln, rest) = dec_len_s(s).unwrap();
                    assert(ln > usize::MAX as nat);
                    if dec_bytes_s(s) is Some {
                        assert(dec_bytes_s(s).unwrap().0.len() == ln);
                    }
                }
            }
            None
        },
    }
}

/// Read `n` length-prefixed byte strings.
#[verifier::loop_isolation(false)]
fn read_words(data: &[u8], pos: usize, n: usize) -> (r: Option<(Vec<Vec<u8>>, usize)>)
    requires
        pos <= data@.len(),
    ensures
        match r {
            Some((v, p2)) => {
                &&& p2 <= data@.len()
                &&& dec_words_s(data@.skip(pos as int), n as nat) == Some(
                    (words_view(v@), data@.skip(p2 as int)),
                )
            },
            None => true,
        },
        dec_words_s(data@.skip(pos as int), n as nat) is None ==> r is None,
        match dec_words_s(data@.skip(pos as int), n as nat) {
            Some((ss, _)) => (forall|i: int|
                0 <= i < ss.len() ==> (#[trigger] ss[i]).len() <= usize::MAX as nat) ==> r
                is Some,
            None => r is None,
        },
{
    let mut out: Vec<Vec<u8>> = Vec::new();
    let mut p = pos;
    let mut k: usize = 0;
    while k < n
        invariant
            k <= n,
            p <= data@.len(),
            match dec_words_s(data@.skip(p as int), (n - k) as nat) {
                Some((ss2, rest)) => dec_words_s(data@.skip(pos as int), n as nat) == Some(
                    (words_view(out@) + ss2, rest),
                ),
                None => dec_words_s(data@.skip(pos as int), n as nat) is None,
            },
        decreases n - k,
    {
        let ghost sp = data@.skip(p as int);
        match read_bytes(data, p) {
            Some((b, p2)) => {
                let ghost bv = b@;
                out.push(b);
                proof {
                    assert(dec_bytes_s(sp) == Some((bv, data@.skip(p2 as int))));
                    match dec_words_s(data@.skip(p2 as int), (n - (k + 1)) as nat) {
                        Some((ss2, rest)) => {
                            assert(dec_words_s(sp, (n - k) as nat) == Some(
                                (seq![bv] + ss2, rest),
                            ));
                            assert(words_view(out@) + ss2 =~= words_view(out@.drop_last())
                                + (seq![bv] + ss2));
                        },
                        None => {
                            assert(dec_words_s(sp, (n - k) as nat) is None);
                        },
                    }
                }
                p = p2;
            },
            None => {
                proof {
                    match dec_words_s(data@.skip(pos as int), n as nat) {
                        Some((ss, rest)) => {
                            assert(dec_words_s(sp, (n - k) as nat) is Some);
                            let (ss2, rest2) = dec_words_s(sp, (n - k) as nat).unwrap();
                            assert(dec_bytes_s(sp) is Some);
                            let (b0, rb) = dec_bytes_s(sp).unwrap();
                            assert(b0.len() > usize::MAX as nat);
                            assert(ss2[0] == b0);
                            assert(ss == words_view(out@) + ss2);
                            assert(ss[words_view(out@).len() as int] == b0);
                        },
                        None => {
                        },
                    }
                }
                return None;
            },
        }
        k += 1;
    }
    proof {
        assert(dec_words_s(data@.skip(p as int), 0) == Some(
            (Seq::<Seq<u8>>::empty(), data@.skip(p as int)),
        ));
        assert(words_view(out@) + Seq::<Seq<u8>>::empty() =~= words_view(out@));
    }
    Some((out, p))
}

/// Read one link.
fn read_link(data: &[u8], pos: usize) -> (r: Option<(Link, usize)>)
    requires
        pos <= data@.len(),
    ensures
        match r {
            Some((l, p2)) => {
                &&& p2 <= data@.len()
                &&& dec_link_s(data@.skip(pos as int)) == Some(
                    (l.deep_view(), data@.skip(p2 as int)),
                )
            },
            None => true,
        },
        match dec_link_s(data@.skip(pos as int)) {
            Some((l, _)) => link_size_ok(l) ==> r is Some,
            None => r is None,
        },
{
    let ghost s = data@.skip(pos as int);
    if data.len() - pos < 1 {
        return None;
    }
    let tag = data[pos];
    proof {
        assert(s[0] == data@[pos as int]);
        assert(s.drop_first() =~= data@.skip(pos + 1));
    }
    if tag == 1 {
        match read_bytes(data, pos + 1) {
            Some((w, p2)) => {
                match read_len(data, p2) {
                    Some((c, p3)) => Some((Link { token: Token::Word(w), count: c }, p3)),
                    None => None,
                }
            },
            None => None,
        }
    } else if tag == 0 {
        match read_len(data, pos + 1) {
            Some((c, p2)) => Some((Link { token: Token::End, count: c }, p2)),
            None => None,
        }
    } else {
        None
    }
}

/// Read `n` links.
#[verifier::loop_isolation(false)]
fn read_links(data: &[u8], pos: usize, n: usize) -> (r: Option<(Vec<Link>, usize)>)
    requires
        pos <= data@.len(),
    ensures
        match r {
            Some((v, p2)) => {
                &&& p2 <= data@.len()
                &&& dec_links_s(data@.skip(pos as int), n as nat) == Some(
                    (v.deep_view(), data@.skip(p2 as int)),
                )
            },
            None => true,
        },
        match dec_links_s(data@.skip(pos as int), n as nat) {
            Some((ls, _)) => (forall|i: int| 0 <= i < ls.len() ==> link_size_ok(#[trigger] ls[i]))
                ==> r is Some,
            None => r is None,
        },
{
    let mut out: Vec<Link> = Vec::new();
    let mut p = pos;
    let mut k: usize = 0;
    while k < n
        invariant
            k <= n,
            p <= data@.len(),
            match dec_links_s(data@.skip(p as int), (n - k) as nat) {
                Some((ls2, rest)) => dec_links_s(data@.skip(pos as int), n as nat) == Some(
                    (out.deep_view() + ls2, rest),
                ),
                None => dec_links_s(data@.skip(pos as int), n as nat) is None,
            },
        decreases n - k,
    {
        let ghost sp = data@.skip(p as int);
        match read_link(data, p) {
            Some((l, p2)) => {
                let ghost lv = l.deep_view();
                out.push(l);
                proof {
                    match dec_links_s(data@.skip(p2 as int), (n - (k + 1)) as nat) {
                        Some((ls2, rest)) => {
                            assert(dec_links_s(sp, (n - k) as nat) == Some(
                                (seq![lv] + ls2, rest),
                            ));
                            assert(out.deep_view() + ls2 =~= out.deep_view().drop_last() + (
                            seq![lv] + ls2));
                        },
                        None => {
                            assert(dec_links_s(sp, (n - k) as nat) is None);
                        },
                    }
                }
                p = p2;
            },
            None => {
                proof {
                    match dec_links_s(data@.skip(pos as int), n as nat) {
                        Some((ls, rest)) => {
                            assert(dec_links_s(sp, (n - k) as nat) is Some);
                            let (ls2, rest2) = dec_links_s(sp, (n - k) as nat).unwrap();
                            assert(dec_link_s(sp) is Some);
                            let (l0, rl) = dec_link_s(sp).unwrap();
                            assert(!link_size_ok(l0));
                            assert(ls2[0] == l0);
                            assert(ls == out.deep_view() + ls2);
                            assert(ls[out.deep_view().len() as int] == l0);
                        },
                        None => {
                        },
                    }
                }
                return None;
            },
        }
        k += 1;
    }
    proof {
        assert(dec_links_s(data@.skip(p as int), 0) == Some(
            (Seq::<LinkV>::empty(), data@.skip(p as int)),
        ));
        assert(out.deep_view() + Seq::<LinkV>::empty() =~= out.deep_view());
    }
    Some((out, p))
}

/// Read one chain entry.
fn read_entry(data: &[u8], pos: usize) -> (r: Option<(ChainEntry, usize)>)
    requires
        pos <= data@.len(),
    ensures
        match r {
            Some((e, p2)) => {
                &&& p2 <= data@.len()
                &&& dec_entry_s(data@.skip(pos as int)) == Some(
                    (e.deep_view(), data@.skip(p2 as int)),
                )
            },
            None => true,
        },
        match dec_entry_s(data@.skip(pos as int)) {
            Some((e, _)) => entry_size_ok(e) ==> r is Some,
            None => r is None,
        },
{
    let ghost s = data@.skip(pos as int);
    match read_len(data, pos) {
        Some((cn, p1)) => {
            match read_words(data, p1, cn) {
                Some((ctx, p2)) => {
                    match read_len(data, p2) {
                        Some((ln, p3)) => {
                            match read_links(data, p3, ln) {
                                Some((links, p4)) => {
                                    let e = ChainEntry {
                                        context: ctx,
                                        links: LinkSet::from_links(links),
                                    };
                                    Some((e, p4))
                                },
                                None => None,
                            }
                        },
                        None => {
                            proof {
                                if dec_len_s(data@.skip(p2 as int)) is Some {
                                    let (ln0, r0) = dec_len_s(data@.skip(p2 as int)).unwrap();
                                    crate::codec::lemma_dec_links_len(r0, ln0);
                                }
                            }
                            None
                        },
                    }
                },
                None => None,
            }
        },
        None => {
            proof {
                if dec_len_s(s) is Some {
                    let (cn0, r0) = dec_len_s(s).unwrap();
                    crate::codec::lemma_dec_words_len(r0, cn0);
                }
            }
            None
        },
    }
}

/// Read `n` chain entries.
#[verifier::loop_isolation(false)]
fn read_entries(data: &[u8], pos: usize, n: usize) -> (r: Option<(Vec<ChainEntry>, usize)>)
    requires
        pos <= data@.len(),
    ensures
        match r {
            Some((v, p2)) => {
                &&& p2 <= data@.len()
                &&& dec_entries_s(data@.skip(pos as int), n as nat) == Some(
                    (v.deep_view(), data@.skip(p2 as int)),
                )
            },
            None => true,
        },
        match dec_entries_s(data@.skip(pos as int), n as nat) {
            Some((es, _)) => (forall|i: int|
                0 <= i < es.len() ==> entry_size_ok(#[trigger] es[i])) ==> r is Some,
            None => r is None,
        },
{
    let mut out: Vec<ChainEntry> = Vec::new();
    let mut p = pos;
    let mut k: usize = 0;
    while k < n
        invariant
            k <= n,
            p <= data@.len(),
            match dec_entries_s(data@.skip(p as int), (n - k) as nat) {
                Some((es2, rest)) => dec_entries_s(data@.skip(pos as int), n as nat) == Some(
                    (out.deep_view() + es2, rest),
                ),
                None => dec_entries_s(data@.skip(pos as int), n as nat) is None,
            },
        decreases n - k,
    {
        let ghost sp = data@.skip(p as int);
        match read_entry(data, p) {
            Some((e, p2)) => {
                let ghost ev = e.deep_view();
                out.push(e);
                proof {
                    match dec_entries_s(data@.skip(p2 as int), (n - (k + 1)) as nat) {
                        Some((es2, rest)) => {
                            assert(dec_entries_s(sp, (n - k) as nat) == Some(
                                (seq![ev] + es2, rest),
                            ));
                            assert(out.deep_view() + es2 =~= out.deep_view().drop_last() + (
                            seq![ev] + es2));
                        },
                        None => {
                            assert(dec_entries_s(sp, (n - k) as nat) is None);
                        },
                    }
                }
                p = p2;
            },
            None => {
                proof {
                    match dec_entries_s(data@.skip(pos as int), n as nat) {
                        Some((es, rest)) => {
                            assert(dec_entries_s(sp, (n - k) as nat) is Some);
                            let (es2, rest2) = dec_entries_s(sp, (n - k) as nat).unwrap();
                            assert(dec_entry_s(sp) is Some);
                            let (e0, re) = dec_entry_s(sp).unwrap();
                            assert(!entry_size_ok(e0));
                            assert(es2[0] == e0);
                            assert(es == out.deep_view() + es2);
                            assert(es[out.deep_view().len() as int] == e0);
                        },
                        None => {
                        },
                    }
                }
                return None;
            },
        }
        k += 1;
    }
    proof {
        assert(dec_entries_s(data@.skip(p as int), 0) == Some(
            (Seq::<EntryV>::empty(), data@.skip(p as int)),
        ));
        assert(out.deep_view() + Seq::<EntryV>::empty() =~= out.deep_view());
    }
    Some((out, p))
}

/// Relies on `core::str::from_utf8`: it succeeds exactly on valid UTF-8 and
/// preserves the bytes.
#[verifier::external_body]
pub(crate) fn bytes_as_str(v: &[u8]) -> (r: Option<&str>)
    ensures
        r is Some <==> vstd::utf8::valid_utf8(v@),
        r matches Some(s) ==> s.spec_bytes() == v@,
{
    core::str::from_utf8(v).ok()
}

/// Parse a chain from its binary form; `None` on anything but a complete,
/// well-formed image.
pub fn decode(data: &[u8]) -> (r: Option<Markov>)
    ensures
        r matches Some(m) ==> dec_markov_s(data@) == Some(m@) && m.wf(),
        match dec_markov_s(data@) {
            Some(mv) => size_ok(mv) && wf_markov(mv) ==> (r matches Some(m) && m@ == mv),
            None => r is None,
        },
{
    proof {
        assert(data@.skip(0) =~= data@);
    }
    let (depth, p1) = match read_len(data, 0) {
        Some(x) => x,
        None => {
            return None;
        },
    };
    let (nb, p2) = match read_bytes(data, p1) {
        Some(x) => x,
        None => {
            proof {
                if dec_bytes_s(data@.skip(p1 as int)) is Some {
                    let (nb0, r0) = dec_bytes_s(data@.skip(p1 as int)).unwrap();
                    if vstd::utf8::valid_utf8(nb0) {
                        vstd::utf8::decode_utf8_encode_utf8(nb0);
                    }
                }
            }
            return None;
        },
    };
    let name = match bytes_as_str(nb.as_slice()) {
        Some(s) => {
            proof {
                vstd::utf8::encode_utf8_decode_utf8(s@);
            }
            <String as vstd::string::StringExecFns>::from_str(s)
        },
        None => {
            return None;
        },
    };
    let (sn, p3) = match read_len(data, p2) {
        Some(x) => x,
        None => {
            proof {
                if dec_len_s(data@.skip(p2 as int)) is Some {
                    let (sn0, r0) = dec_len_s(data@.skip(p2 as int)).unwrap();
                    crate::codec::lemma_dec_words_len(r0, sn0);
                }
            }
            return None;
        },
    };
    let (starts, p4) = match read_words(data, p3, sn) {
        Some(x) => x,
        None => {
            return None;
        },
    };
    let (en, p5) = match read_len(data, p4) {
        Some(x) => x,
        None => {
            proof {
                if dec_len_s(data@.skip(p4 as int)) is Some {
                    let (en0, r0) = dec_len_s(data@.skip(p4 as int)).unwrap();
                    crate::codec::lemma_dec_entries_len(r0, en0);
                }
            }
            return None;
        },
    };
    let (chain, p6) = match read_entries(data, p5, en) {
        Some(x) => x,
        None => {
            return None;
        },
    };
    if p6 != data.len() {
        proof {
            assert(data@.skip(p6 as int).len() != 0);
        }
        return None;
    }
    proof {
        assert(data@.skip(p6 as int).len() == 0);
    }
    let m = Markov::from_parts(chain, starts, depth, name);
    proof {
        assert(dec_markov_s(data@) == Some(m@));
    }
    if check_wf(&m) {
        Some(m)
    } else {
        None
    }
}

/// Does the parsed chain satisfy every invariant of a trained chain?
#[verifier::loop_isolation(false)]
fn check_wf(m: &Markov) -> (r: bool)
    ensures
        r == wf_markov(m@),
{
    if m.depth() < 1 {
        return false;
    }
    let en = m.context_count();
    let mut i: usize = 0;
    while i < en
        invariant
            i <= en,
            en == m@.chain.len(),
            forall|a: int|
                0 <= a < i ==> crate::model::wf_links((#[trigger] m@.chain[a]).links)
                    && m@.chain[a].links.len() >= 1 && 1 <= m@.chain[a].context.len()
                    <= m@.depth,
            forall|a: int, b: int|
                0 <= a < b < i ==> (#[trigger] m@.chain[a]).context != (
                #[trigger] m@.chain[b]).context,
        decreases en - i,
    {
        let e = m.entry_at(i);
        if e.context.len() < 1 || e.context.len() > m.depth() {
            return false;
        }
        if !check_links(&e.links) {
            return false;
        }
        let mut j: usize = 0;
        while j < i
            invariant
                j <= i < en,
                en == m@.chain.len(),
                e.deep_view() == m@.chain[i as int],
                forall|b: int| 0 <= b < j ==> (#[trigger] m@.chain[b]).context != m@.chain[
                    i as int].context,
            decreases i - j,
        {
            let other = m.entry_at(j);
            if crate::markov::words_eq(&other.context, &e.context) {
                return false;
            }
            j += 1;
        }
        i += 1;
    }
    let sn = m.start_count();
    let mut i2: usize = 0;
    while i2 < sn
        invariant
            i2 <= sn,
            sn == m@.starts.len(),
            forall|a: int, b: int|
                0 <= a < b < i2 ==> #[trigger] m@.starts[a] != #[trigger] m@.starts[b],
        decreases sn - i2,
    {
        let mut j: usize = 0;
        while j < i2
            invariant
                j <= i2 < sn,
                sn == m@.starts.len(),
                forall|b: int| 0 <= b < j ==> #[trigger] m@.starts[b] != m@.starts[i2 as int],
            decreases i2 - j,
        {
            if crate::linkset::bytes_eq(m.start_at(j), m.start_at(i2)) {
                return false;
            }
            j += 1;
        }
        i2 += 1;
    }
    true
}

/// Is this link sequence a well-formed set: unique tokens, positive counts,
/// descending order, non-empty?
#[verifier::loop_isolation(false)]
fn check_links(ls: &LinkSet) -> (r: bool)
    ensures
        r == (crate::model::wf_links(ls@) && ls@.len() >= 1),
{
    let n = ls.len();
    if n == 0 {
        return false;
    }
    let mut i: usize = 0;
    while i < n
        invariant
            i <= n,
            n == ls@.len(),
            forall|a: int| 0 <= a < i ==> 1 <= (#[trigger] ls@[a]).count,
            forall|a: int, b: int|
                0 <= a < b < i ==> (#[trigger] ls@[a]).token != (#[trigger] ls@[b]).token,
            forall|a: int, b: int|
                0 <= a < b < i ==> (#[trigger] ls@[a]).count >= (#[trigger] ls@[b]).count,
        decreases n - i,
    {
        let li = ls.get(i);
        if li.count < 1 {
            return false;
        }
        let mut j: usize = 0;
        while j < i
            invariant
                j <= i < n,
                n == ls@.len(),
                li.deep_view() == ls@[i as int],
                forall|b: int| 0 <= b < j ==> (#[trigger] ls@[b]).token != ls@[i as int].token,
                forall|b: int| 0 <= b < j ==> (#[trigger] ls@[b]).count >= ls@[i as int].count,
            decreases i - j,
        {
            let lj = ls.get(j);
            if lj.token == li.token {
                return false;
            }
            if lj.count < li.count {
                return false;
            }
            j += 1;
        }
        i += 1;
    }
    proof {
        ls.lemma_counts_bounded();
    }
    true
}

// ---------------------------------------------------------------------------
// Snappy compression, and the byte-level save and load operations.

/// What Snappy block compression produces from the given bytes; a
/// deterministic function of the input alone.
pub uninterp spec fn snappy_of(data: Seq<u8>) -> Seq<u8>;

/// The inputs the Snappy block format accepts: the worst-case compressed
/// size, `32 + len + len / 6`, must fit the format's 32-bit limit.
pub open spec fn snappy_accepts(len: nat) -> bool {
    32 + len + len / 6 <= 0xFFFFFFFF
}

/// Relies on `snap::raw::Encoder::compress_vec`: deterministic block
/// compression, which fails exactly when the worst-case compressed size
/// passes the format's 32-bit limit.
#[verifier::external_body]
fn snappy_compress(data: &Vec<u8>) -> (r: Option<Vec<u8>>)
    ensures
        r matches Some(v) ==> v@ == snappy_of(data@),
        r is Some <==> snappy_accepts(data@.len()),
{
    snap::raw::Encoder::new().compress_vec(data.as_slice()).ok()
}

/// Relies on `snap::raw::Decoder::decompress_vec`: decompression inverts
/// compression, so on the image of any input that compression accepts it
/// returns exactly that input.
#[verifier::external_body]
fn snappy_decompress(data: &Vec<u8>) -> (r: Option<Vec<u8>>)
    ensures
        r is None ==> forall|b: Seq<u8>|
            !(snappy_accepts(b.len()) && data@ == snappy_of(b)),
        r matches Some(v) ==> forall|b: Seq<u8>|
            snappy_accepts(b.len()) && data@ == snappy_of(b) ==> v@ == b,
{
    snap::raw::Decoder::new().decompress_vec(data.as_slice()).ok()
}

/// What the codec can report.
#[derive(Debug)]
pub enum CodecError {
    /// The chain's binary form is too large to compress.
    Serialize,
    /// The bytes are not a complete, well-formed chain image.
    Deserialize,
}

/// Serialize a chain: its binary form, Snappy-compressed.
pub fn save(markov: &Markov) -> (r: Result<Vec<u8>, CodecError>)
    ensures
        r matches Ok(v) ==> v@ == snappy_of(enc_markov(markov@)),
        r is Ok <==> snappy_accepts(enc_markov(markov@).len()),
        r is Err ==> r == Result::<Vec<u8>, CodecError>::Err(CodecError::Serialize),
{
    let bytes = encode(markov);
    match snappy_compress(&bytes) {
        Some(v) => Ok(v),
        None => Err(CodecError::Serialize),
    }
}

/// Deserialize a chain saved by [`save`]: decompress, parse, and validate.
/// On the exact image of a saved well-formed chain it returns a
/// content-equal chain; it never returns a malformed one.
pub fn load(data: &Vec<u8>) -> (r: Result<Markov, CodecError>)
    ensures
        forall|m0: MarkovV|
            wf_markov(m0) && size_ok(m0) && snappy_accepts(enc_markov(m0).len()) && data@
                == snappy_of(enc_markov(m0)) ==> (r matches Ok(m) && m@ == m0),
        r matches Ok(m) ==> m.wf(),
        r is Err ==> r == Result::<Markov, CodecError>::Err(CodecError::Deserialize),
{
    let raw = match snappy_decompress(data) {
        Some(v) => v,
        None => {
            proof {
                assert forall|m0: MarkovV|
                    wf_markov(m0) && size_ok(m0) && snappy_accepts(enc_markov(m0).len()) && data@
                        == snappy_of(enc_markov(m0)) implies false by {
                }
            }
            return Err(CodecError::Deserialize);
        },
    };
    match decode(raw.as_slice()) {
        Some(m) => {
            proof {
                assert forall|m0: MarkovV|
                    wf_markov(m0) && size_ok(m0) && snappy_accepts(enc_markov(m0).len()) && data@
                        == snappy_of(enc_markov(m0)) implies m@ == m0 by {
                    assert(raw@ == enc_markov(m0));
                    crate::codec::lemma_dec_markov_enc(m0);
                }
            }
            Ok(m)
        },
        None => {
            proof {
                assert forall|m0: MarkovV|
                    wf_markov(m0) && size_ok(m0) && snappy_accepts(enc_markov(m0).len()) && data@
                        == snappy_of(enc_markov(m0)) implies false by {
                    assert(raw@ == enc_markov(m0));
                    crate::codec::lemma_dec_markov_enc(m0);
                }
            }
            Err(CodecError::Deserialize)
        },
    }
}

} // verus!
