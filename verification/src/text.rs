//! Executable text splitting: sentences on delimiters, words on whitespace,
//! proved equal to the spec-level pipeline in [`crate::chainmodel`].

use vstd::prelude::*;
use vstd::slice::{slice_subrange, slice_to_vec};

use crate::chainmodel::{
    byte_splits, idx_of_first, keep_nonempty, lemma_idx_of_first_is, sentences_of, split_on,
    tokenize, ws_normalize, ws_prefix,
};

verus! {

/// The sequence of byte strings a vector of byte vectors stands for.
pub open spec fn words_view(v: Seq<Vec<u8>>) -> Seq<Seq<u8>> {
    Seq::new(v.len(), |i: int| v[i]@)
}

/// Content equality of two strings.
#[verifier::loop_isolation(false)]
pub fn str_eq(a: &str, b: &str) -> (r: bool)
    ensures
        r == (a@ == b@),
{
    let ab = a.as_bytes();
    let bb = b.as_bytes();
    proof {
        vstd::utf8::encode_utf8_decode_utf8(a@);
        vstd::utf8::encode_utf8_decode_utf8(b@);
    }
    if ab.len() != bb.len() {
        return false;
    }
    let n = ab.len();
    let mut i: usize = 0;
    while i < n
        invariant
            i <= n,
            n == ab@.len() == bb@.len(),
            forall|k: int| 0 <= k < i ==> ab@[k] == bb@[k],
        decreases n - i,
    {
        if ab[i] != bb[i] {
            return false;
        }
        i += 1;
    }
    proof {
        assert(ab@ =~= bb@);
    }
    true
}

pub fn byte_splits_exec(b: u8, ws: bool) -> (r: bool)
    ensures
        r == byte_splits(b, ws),
{
    if ws {
        b == 32 || b == 9 || b == 13 || b == 11 || b == 12
    } else {
        b == 46 || b == 63 || b == 33 || b == 10
    }
}

/// Replace every non-ASCII Unicode whitespace character by a space byte
/// (see [`ws_prefix`]), so the byte-level splitters treat it as whitespace.
#[verifier::loop_isolation(false)]
pub fn normalize_ws(data: &[u8]) -> (out: Vec<u8>)
    ensures
        out@ == ws_normalize(data@),
{
    let n = data.len();
    let mut out: Vec<u8> = Vec::new();
    let mut i: usize = 0;
    proof {
        assert(data@.skip(0) =~= data@);
        assert(out@ + ws_normalize(data@) =~= ws_normalize(data@));
    }
    while i < n
        invariant
            i <= n,
            out@ + ws_normalize(data@.skip(i as int)) == ws_normalize(data@),
        decreases n - i,
    {
        let ghost rest = data@.skip(i as int);
        let b0 = data[i];
        let left = n - i;
        let l: usize = if left >= 2 && b0 == 0xc2 && (data[i + 1] == 0x85 || data[i + 1] == 0xa0) {
            2
        } else if left >= 3 && b0 == 0xe1 && data[i + 1] == 0x9a && data[i + 2] == 0x80 {
            3
        } else if left >= 3 && b0 == 0xe2 && data[i + 1] == 0x80 && (0x80 <= data[i + 2]
            && data[i + 2] <= 0x8a || data[i + 2] == 0xa8 || data[i + 2] == 0xa9 || data[i + 2]
            == 0xaf) {
            3
        } else if left >= 3 && b0 == 0xe2 && data[i + 1] == 0x81 && data[i + 2] == 0x9f {
            3
        } else if left >= 3 && b0 == 0xe3 && data[i + 1] == 0x80 && data[i + 2] == 0x80 {
            3
        } else {
            0
        };
        proof {
            assert(rest[0] == data@[i as int]);
            if rest.len() >= 2 {
                assert(rest[1] == data@[i + 1]);
            }
            if rest.len() >= 3 {
                assert(rest[2] == data@[i + 2]);
            }
            assert(ws_prefix(rest) == l);
        }
        if l > 0 {
            out.push(32);
            proof {
                assert(rest.skip(l as int) =~= data@.skip(i + l));
                assert(out@ + ws_normalize(data@.skip(i + l)) =~= out@.drop_last()
                    + ws_normalize(rest));
            }
            i += l;
        } else {
            out.push(b0);
            proof {
                assert(rest.skip(1) =~= data@.skip(i + 1));
                assert(out@ + ws_normalize(data@.skip(i + 1)) =~= out@.drop_last()
                    + ws_normalize(rest));
            }
            i += 1;
        }
    }
    proof {
        assert(data@.skip(n as int).len() == 0);
        assert(ws_normalize(data@.skip(n as int)) =~= Seq::<u8>::empty());
        assert(out@ =~= out@ + ws_normalize(data@.skip(n as int)));
    }
    out
}

/// Copy `data[from..to]` into a fresh vector.
pub fn copy_range(data: &[u8], from: usize, to: usize) -> (r: Vec<u8>)
    requires
        from <= to <= data@.len(),
    ensures
        r@ == data@.subrange(from as int, to as int),
{
    slice_to_vec(slice_subrange(data, from, to))
}

/// Split on the chosen byte class, keeping every segment, empty ones
/// included.
#[verifier::loop_isolation(false)]
pub fn split_segments(data: &[u8], ws: bool) -> (out: Vec<Vec<u8>>)
    ensures
        words_view(out@) == split_on(data@, ws),
{
    let n = data.len();
    let mut out: Vec<Vec<u8>> = Vec::new();
    let mut cur: usize = 0;
    proof {
        assert(data@.skip(0) =~= data@);
        assert(words_view(out@) =~= Seq::<Seq<u8>>::empty());
        assert(words_view(out@) + split_on(data@, ws) =~= split_on(data@, ws));
    }
    loop
        invariant
            cur <= n,
            words_view(out@) + split_on(data@.skip(cur as int), ws) == split_on(data@, ws),
        decreases n - cur,
    {
        let ghost rest = data@.skip(cur as int);
        let mut j = cur;
        while j < n && !byte_splits_exec(data[j], ws)
            invariant
                cur <= j <= n,
                forall|k: int| cur <= k < j ==> !byte_splits(#[trigger] data@[k], ws),
            decreases n - j,
        {
            j += 1;
        }
        proof {
            assert forall|k: int| 0 <= k < j - cur implies !byte_splits(#[trigger] rest[k], ws) by {
                assert(rest[k] == data@[cur + k]);
            }
            if j < n {
                assert(rest[j - cur] == data@[j as int]);
            }
            lemma_idx_of_first_is(rest, ws, j - cur);
            assert(rest.take(j - cur) =~= data@.subrange(cur as int, j as int));
        }
        let seg = copy_range(data, cur, j);
        out.push(seg);
        if j == n {
            proof {
                assert(split_on(rest, ws) =~= seq![rest]);
                assert(rest =~= data@.subrange(cur as int, j as int));
                assert(words_view(out@) =~= words_view(out@.drop_last()) + seq![seg@]);
            }
            break;
        }
        proof {
            assert(rest.skip(j + 1 - cur) =~= data@.skip(j + 1));
            assert(split_on(rest, ws) == seq![rest.take(j - cur)] + split_on(
                data@.skip(j + 1),
                ws,
            ));
            assert(words_view(out@) =~= words_view(out@.drop_last()) + seq![seg@]);
            assert(words_view(out@) + split_on(data@.skip(j + 1), ws) =~= words_view(
                out@.drop_last(),
            ) + split_on(rest, ws));
        }
        cur = j + 1;
    }
    out
}

/// A sentence's words: split on whitespace, empties dropped.
#[verifier::loop_isolation(false)]
pub fn tokenize_words(s: &[u8]) -> (out: Vec<Vec<u8>>)
    ensures
        words_view(out@) == tokenize(s@),
{
    let segs = split_segments(s, true);
    let ghost all = words_view(segs@);
    let n = segs.len();
    let mut out: Vec<Vec<u8>> = Vec::new();
    let mut i: usize = 0;
    while i < n
        invariant
            i <= n,
            n == segs@.len(),
            words_view(out@) == keep_nonempty(all.take(i as int)),
        decreases n - i,
    {
        proof {
            assert(all.take(i + 1).drop_last() =~= all.take(i as int));
            assert(all.take(i + 1).last() == segs@[i as int]@);
        }
        if segs[i].len() > 0 {
            let seg = slice_to_vec(segs[i].as_slice());
            out.push(seg);
            proof {
                assert(words_view(out@) =~= keep_nonempty(all.take(i + 1)));
            }
        } else {
            proof {
                assert(words_view(out@) =~= keep_nonempty(all.take(i + 1)));
            }
        }
        i += 1;
    }
    proof {
        assert(all.take(n as int) =~= all);
    }
    out
}

/// A text's sentences, each as its non-empty word list.
#[verifier::loop_isolation(false)]
pub fn split_sentences(data: &[u8]) -> (out: Vec<Vec<Vec<u8>>>)
    ensures
        Seq::new(out@.len(), |i: int| words_view(out@[i]@)) == sentences_of(data@),
{
    let raw = split_segments(data, false);
    let ghost rawv = words_view(raw@);
    let ghost mapped = Seq::new(rawv.len(), |i: int| tokenize(rawv[i]));
    let n = raw.len();
    let mut out: Vec<Vec<Vec<u8>>> = Vec::new();
    let mut i: usize = 0;
    while i < n
        invariant
            i <= n,
            n == raw@.len(),
            Seq::new(out@.len(), |k: int| words_view(out@[k]@)) == keep_nonempty(
                mapped.take(i as int),
            ),
        decreases n - i,
    {
        proof {
            assert(mapped.take(i + 1).drop_last() =~= mapped.take(i as int));
            assert(mapped.take(i + 1).last() == tokenize(rawv[i as int]));
            assert(rawv[i as int] == raw@[i as int]@);
        }
        let words = tokenize_words(raw[i].as_slice());
        if words.len() > 0 {
            proof {
                assert(words_view(words@).len() > 0);
            }
            out.push(words);
            proof {
                assert(Seq::new(out@.len(), |k: int| words_view(out@[k]@)) =~= keep_nonempty(
                    mapped.take(i + 1),
                ));
            }
        } else {
            proof {
                assert(words_view(words@).len() == 0);
                assert(Seq::new(out@.len(), |k: int| words_view(out@[k]@)) =~= keep_nonempty(
                    mapped.take(i + 1),
                ));
            }
        }
        i += 1;
    }
    proof {
        assert(mapped.take(n as int) =~= mapped);
        assert(sentences_of(data@) == keep_nonempty(mapped));
    }
    out
}

} // verus!
