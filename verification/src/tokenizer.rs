//! The token-stream capability the segment writer consumes: plain token
//! lists over byte texts, plus the facet tokenizer that expands a facet
//! path into all its ancestor prefixes.

use vstd::prelude::*;
use crate::schema::TokenizerKind;

verus! {

/// The simple tokens of `text` from position `i` on, with `cur` the
/// non-space run read so far: tokens are the maximal runs of non-space
/// bytes.
pub open spec fn simple_toks(text: Seq<u8>, i: int, cur: Seq<u8>) -> Seq<Seq<u8>>
    decreases text.len() - i,
{
    if i < 0 || i >= text.len() {
        if cur.len() > 0 {
            seq![cur]
        } else {
            Seq::empty()
        }
    } else if text[i] == 32u8 {
        (if cur.len() > 0 {
            seq![cur]
        } else {
            Seq::<Seq<u8>>::empty()
        }) + simple_toks(text, i + 1, Seq::empty())
    } else {
        simple_toks(text, i + 1, cur.push(text[i]))
    }
}

/// The simple tokens of one text: its maximal runs of non-space bytes, in
/// order.
pub open spec fn simple_tokens_spec(text: Seq<u8>) -> Seq<Seq<u8>> {
    simple_toks(text, 0, Seq::empty())
}

/// The views of a list of owned texts.
pub open spec fn texts_views(texts: Seq<Vec<u8>>) -> Seq<Seq<u8>> {
    Seq::new(texts.len(), |i: int| texts[i]@)
}

/// The token byte strings a tokenizer yields over a list of texts, in
/// stream order: one token per text for `Raw`, the maximal non-space runs
/// of each text in turn for `Simple`.
pub open spec fn tokens_of(kind: TokenizerKind, texts: Seq<Seq<u8>>) -> Seq<Seq<u8>>
    decreases texts.len(),
{
    match kind {
        TokenizerKind::Raw => texts,
        TokenizerKind::Simple => {
            if texts.len() == 0 {
                Seq::empty()
            } else {
                tokens_of(kind, texts.drop_last()) + simple_tokens_spec(texts.last())
            }
        },
    }
}

/// The token byte strings of a produced token list.
pub open spec fn tok_views(toks: Seq<(Vec<u8>, u32)>) -> Seq<Seq<u8>> {
    Seq::new(toks.len(), |i: int| toks[i].0@)
}

/// Tokenizes a slice of texts jointly, so that positions carry across the
/// values of a multi-valued field: the returned token byte strings are
/// exactly `tokens_of(kind, texts)`, and positions are assigned in stream
/// order.
#[verifier::loop_isolation(false)]
pub fn tokenize(kind: TokenizerKind, texts: &Vec<Vec<u8>>) -> (r: Vec<(Vec<u8>, u32)>)
    ensures
        tok_views(r@) == tokens_of(kind, texts_views(texts@)),
        r@.len() == tokens_of(kind, texts_views(texts@)).len(),
        forall|j: int|
            0 <= j < r@.len() ==> (#[trigger] r@[j]).0@ == tokens_of(
                kind,
                texts_views(texts@),
            )[j],
{
    let ghost tviews = texts_views(texts@);
    let mut out: Vec<(Vec<u8>, u32)> = Vec::new();
    let mut pos: u32 = 0;
    match kind {
        TokenizerKind::Raw => {
            let mut i: usize = 0;
            while i < texts.len()
                invariant
                    i <= texts@.len(),
                    out@.len() == i,
                    forall|j: int| 0 <= j < i ==> (#[trigger] out@[j]).0@ == tviews[j],
                decreases texts@.len() - i,
            {
                out.push((crate::directory::bytes_to_vec(texts[i].as_slice()), pos));
                if pos < u32::MAX {
                    pos = pos + 1;
                }
                i = i + 1;
            }
            proof {
                assert(tok_views(out@) =~= tokens_of(kind, tviews));
            }
        },
        TokenizerKind::Simple => {
            let mut i: usize = 0;
            while i < texts.len()
                invariant
                    i <= texts@.len(),
                    tok_views(out@) == tokens_of(TokenizerKind::Simple, tviews.subrange(0, i as int)),
                decreases texts@.len() - i,
            {
                let text = &texts[i];
                let ghost tv = tviews[i as int];
                let ghost outbase = tok_views(out@);
                let mut cur: Vec<u8> = Vec::new();
                let mut b: usize = 0;
                while b < text.len()
                    invariant
                        b <= text@.len(),
                        i < texts@.len(),
                        tv == text@,
                        outbase == tokens_of(TokenizerKind::Simple, tviews.subrange(0, i as int)),
                        tok_views(out@) + simple_toks(tv, b as int, cur@) == outbase
                            + simple_tokens_spec(tv),
                    decreases text@.len() - b,
                {
                    let ghost outpre = tok_views(out@);
                    let ghost curpre = cur@;
                    let c = text[b];
                    if c == 32u8 {
                        if cur.len() > 0 {
                            out.push((cur, pos));
                            if pos < u32::MAX {
                                pos = pos + 1;
                            }
                            cur = Vec::new();
                            proof {
                                assert(tok_views(out@) =~= outpre.push(curpre));
                                assert(simple_toks(tv, b as int, curpre) == seq![curpre]
                                    + simple_toks(tv, b as int + 1, Seq::empty()));
                                assert(tok_views(out@) + simple_toks(tv, b as int + 1, cur@)
                                    =~= outpre + simple_toks(tv, b as int, curpre));
                            }
                        } else {
                            proof {
                                assert(curpre =~= Seq::<u8>::empty());
                                assert(simple_toks(tv, b as int, curpre) =~= Seq::<
                                    Seq<u8>,
                                >::empty() + simple_toks(tv, b as int + 1, Seq::empty()));
                                assert(simple_toks(tv, b as int, curpre) =~= simple_toks(
                                    tv,
                                    b as int + 1,
                                    Seq::empty(),
                                ));
                                assert(cur@ =~= Seq::<u8>::empty());
                            }
                        }
                    } else {
                        cur.push(c);
                        proof {
                            assert(cur@ =~= curpre.push(tv[b as int]));
                            assert(simple_toks(tv, b as int, curpre) == simple_toks(
                                tv,
                                b as int + 1,
                                curpre.push(tv[b as int]),
                            ));
                        }
                    }
                    b = b + 1;
                }
                if cur.len() > 0 {
                    let ghost outpre = tok_views(out@);
                    let ghost curpre = cur@;
                    out.push((cur, pos));
                    if pos < u32::MAX {
                        pos = pos + 1;
                    }
                    proof {
                        assert(tok_views(out@) =~= outpre.push(curpre));
                        assert(simple_toks(tv, tv.len() as int, curpre) == seq![curpre]);
                        assert(tok_views(out@) =~= outbase + simple_tokens_spec(tv));
                    }
                } else {
                    proof {
                        assert(simple_toks(tv, tv.len() as int, cur@) =~= Seq::<Seq<u8>>::empty());
                        assert(tok_views(out@) =~= outbase + simple_tokens_spec(tv));
                    }
                }
                // an implementation-defined gap of one position between the
                // texts of a multi-valued field
                if pos < u32::MAX {
                    pos = pos + 1;
                }
                i = i + 1;
                proof {
                    let sub = tviews.subrange(0, i as int);
                    assert(sub.drop_last() =~= tviews.subrange(0, i - 1));
                    assert(sub.last() == tv);
                    assert(tok_views(out@) =~= tokens_of(TokenizerKind::Simple, sub));
                }
            }
            proof {
                assert(tviews.subrange(0, texts@.len() as int) =~= tviews);
            }
        },
    }
    proof {
        assert(tok_views(out@) =~= tokens_of(kind, tviews));
        assert forall|j: int|
            0 <= j < out@.len() implies (#[trigger] out@[j]).0@ == tokens_of(kind, tviews)[j] by {
            assert(tok_views(out@)[j] == out@[j].0@);
        }
    }
    out
}

/// The facet tokens of `enc` from position `i` on: a prefix ending at
/// each zero separator at or after `i`, shallowest first, then the full
/// path.
pub open spec fn facet_cuts(enc: Seq<u8>, i: int) -> Seq<Seq<u8>>
    decreases enc.len() - i,
{
    if i < 0 || i >= enc.len() {
        seq![enc]
    } else if enc[i] == 0u8 {
        seq![enc.subrange(0, i)] + facet_cuts(enc, i + 1)
    } else {
        facet_cuts(enc, i + 1)
    }
}

/// The ancestor expansion of a facet's encoded path bytes (segments
/// separated by a zero byte): every ancestor prefix, shallowest first,
/// ending with the full path itself.
pub open spec fn facet_tokens_spec(enc: Seq<u8>) -> Seq<Seq<u8>> {
    facet_cuts(enc, 0)
}

/// Expands a facet's encoded path bytes into exactly its ancestor
/// expansion.
#[verifier::loop_isolation(false)]
pub fn facet_tokens(encoded: &[u8]) -> (r: Vec<Vec<u8>>)
    ensures
        r@.len() == facet_tokens_spec(encoded@).len(),
        forall|j: int| 0 <= j < r@.len() ==> (#[trigger] r@[j])@ == facet_tokens_spec(encoded@)[j],
        r@.len() >= 1,
        r@.last()@ == encoded@,
{
    proof {
        lemma_facet_cuts_shape(encoded@, 0);
    }
    let mut out: Vec<Vec<u8>> = Vec::new();
    let mut i: usize = 0;
    while i < encoded.len()
        invariant
            i <= encoded@.len(),
            out@.len() + facet_cuts(encoded@, i as int).len() == facet_tokens_spec(
                encoded@,
            ).len(),
            forall|j: int|
                0 <= j < out@.len() ==> (#[trigger] out@[j])@ == facet_tokens_spec(encoded@)[j],
            forall|j: int|
                0 <= j < facet_cuts(encoded@, i as int).len() ==> facet_cuts(encoded@, i as int)[j]
                    == facet_tokens_spec(encoded@)[out@.len() + j],
        decreases encoded@.len() - i,
    {
        let ghost iold = i as int;
        let ghost outpre = out@;
        if encoded[i] == 0u8 {
            let mut prefix: Vec<u8> = Vec::new();
            let mut k: usize = 0;
            while k < i
                invariant
                    k <= i,
                    i < encoded@.len(),
                    prefix@ == encoded@.subrange(0, k as int),
                decreases i - k,
            {
                prefix.push(encoded[k]);
                k = k + 1;
                proof {
                    assert(prefix@ =~= encoded@.subrange(0, k as int));
                }
            }
            out.push(prefix);
            proof {
                let cuts_old = facet_cuts(encoded@, iold);
                let cuts_new = facet_cuts(encoded@, iold + 1);
                assert(cuts_old == seq![encoded@.subrange(0, iold)] + cuts_new);
                assert(cuts_old[0] == encoded@.subrange(0, iold));
                assert(out@.last()@ == facet_tokens_spec(encoded@)[outpre.len() as int]);
                assert forall|j: int|
                    0 <= j < cuts_new.len() implies cuts_new[j] == facet_tokens_spec(encoded@)[
                    out@.len() + j
                ] by {
                    assert(cuts_old[j + 1] == cuts_new[j]);
                }
            }
        } else {
            proof {
                assert(facet_cuts(encoded@, iold) == facet_cuts(encoded@, iold + 1));
            }
        }
        i = i + 1;
    }
    out.push(crate::directory::bytes_to_vec(encoded));
    proof {
        assert(facet_cuts(encoded@, encoded@.len() as int) =~= seq![encoded@]);
        assert(out@.last()@ == encoded@);
        lemma_facet_cuts_shape(encoded@, 0);
    }
    out
}

/// Every cut list ends with the full path, so it is never empty.
pub proof fn lemma_facet_cuts_shape(enc: Seq<u8>, i: int)
    ensures
        facet_cuts(enc, i).len() >= 1,
        facet_cuts(enc, i).last() == enc,
    decreases enc.len() - i,
{
    if 0 <= i && i < enc.len() {
        lemma_facet_cuts_shape(enc, i + 1);
    }
}

} // verus!
