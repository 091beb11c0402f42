//! Postings: table sizing, per-term recorders, the multi-field postings
//! writer, and the byte formats of the term dictionary, posting and
//! position streams.
//!
//! The term hash table is allocated once, at segment-writer construction,
//! with `2^b` buckets of 16 bytes each; `b` is chosen from the per-thread
//! memory budget so that the table takes less than a third of it. At
//! serialize time the live term set is sorted lexicographically and an
//! unordered-to-ordered term-id remap is produced for every consumer that
//! recorded unordered ids.

use vstd::prelude::*;
use crate::error::TantivyError;
use crate::stacker::TermHashMap;
use crate::term::Term;

verus! {

/// Bytes taken by a table of `2^num_bits` buckets: each bucket record is 16
/// bytes (hash, arena offset, arena length, unordered id, recorder slot).
pub open spec fn table_size_spec(num_bits: nat) -> nat
    decreases num_bits,
{
    if num_bits == 0 {
        16
    } else {
        2 * table_size_spec((num_bits - 1) as nat)
    }
}

pub proof fn lemma_table_size_monotone(a: nat, b: nat)
    requires
        a <= b,
    ensures
        table_size_spec(a) <= table_size_spec(b),
    decreases b,
{
    if a < b {
        lemma_table_size_monotone(a, (b - 1) as nat);
    }
}

/// Computes the number of bytes taken by a hash table of `2^num_bits`
/// buckets.
#[verifier::loop_isolation(false)]
pub fn compute_table_size(num_bits: usize) -> (size: usize)
    requires
        num_bits <= 24,
    ensures
        size == table_size_spec(num_bits as nat),
{
    proof {
        lemma_table_size_monotone(num_bits as nat, 24);
        reveal_with_fuel(table_size_spec, 25);
        assert(table_size_spec(24) == 16 * 0x1000000);
    }
    let mut size: usize = 16;
    let mut i: usize = 0;
    while i < num_bits
        invariant
            i <= num_bits <= 24,
            size == table_size_spec(i as nat),
            table_size_spec(num_bits as nat) <= table_size_spec(24),
            table_size_spec(24) == 16 * 0x1000000,
        decreases num_bits - i,
    {
        proof {
            lemma_table_size_monotone((i + 1) as nat, num_bits as nat);
        }
        size = size * 2;
        i = i + 1;
    }
    size
}

/// The variable-byte encoding of an unsigned value: seven value bits per
/// byte, high bit set on every byte but the last, least-significant group
/// first.
pub open spec fn vint_spec(v: nat) -> Seq<u8>
    decreases v,
{
    if v < 128 {
        seq![v as u8]
    } else {
        seq![((v % 128) + 128) as u8] + vint_spec(v / 128)
    }
}

/// Appends the variable-byte encoding of `v`.
pub fn write_vint(out: &mut Vec<u8>, v: u64)
    ensures
        final(out)@ == old(out)@ + vint_spec(v as nat),
    decreases v,
{
    if v < 128 {
        out.push(v as u8);
        proof {
            assert(final(out)@ =~= old(out)@ + vint_spec(v as nat));
        }
    } else {
        out.push(((v % 128) + 128) as u8);
        let ghost mid = out@;
        write_vint(out, v / 128);
        proof {
            assert(out@ =~= old(out)@ + vint_spec(v as nat));
        }
    }
}

/// How a text field is recorded: doc ids alone, doc ids with term
/// frequencies, or doc ids with frequencies and token positions.
#[derive(Clone, Copy, Debug, PartialEq, Eq, Structural)]
pub enum RecordMode {
    Basic,
    WithFreqs,
    WithFreqsAndPositions,
}

struct PostingRec {
    doc: u32,
    tf: u32,
    positions: Vec<u32>,
}

/// The per-term accumulator: one entry per document containing the term,
/// in strictly ascending doc-id order, with the term frequency and, in
/// position mode, the token positions.
pub struct Recorder {
    mode: RecordMode,
    postings: Vec<PostingRec>,
}

impl Recorder {
    /// The recording mode this recorder was created with.
    pub closed spec fn mode_spec(&self) -> RecordMode {
        self.mode
    }

    /// One triple `(doc id, term frequency, positions)` per document.
    pub closed spec fn model(&self) -> Seq<(u32, u32, Seq<u32>)> {
        Seq::new(
            self.postings@.len(),
            |i: int|
                (self.postings@[i].doc, self.postings@[i].tf, self.postings@[i].positions@),
        )
    }

    /// Doc ids are strictly ascending.
    pub open spec fn wf(&self) -> bool {
        forall|i: int, j: int|
            0 <= i < j < self.model().len() ==> (self.model()[i].0 as int) < (
            self.model()[j].0 as int)
    }

    /// Every recorded doc id is below `d`.
    pub open spec fn docs_lt(&self, d: int) -> bool {
        forall|i: int| 0 <= i < self.model().len() ==> (self.model()[i].0 as int) < d
    }

    /// An empty recorder.
    pub fn new(mode: RecordMode) -> (r: Recorder)
        ensures
            r.wf(),
            r.mode_spec() == mode,
            r.model() == Seq::<(u32, u32, Seq<u32>)>::empty(),
    {
        let r = Recorder { mode, postings: Vec::new() };
        proof {
            assert(r.model() =~= Seq::<(u32, u32, Seq<u32>)>::empty());
        }
        r
    }

    /// Records one occurrence of the term in `doc` at `pos`. A new doc
    /// opens a new posting; a repeated doc bumps the frequency (saturating)
    /// and, in position mode, appends the position.
    #[verifier::loop_isolation(false)]
    pub fn record(&mut self, doc: u32, pos: u32)
        requires
            old(self).wf(),
            old(self).docs_lt(doc as int + 1),
        ensures
            final(self).wf(),
            final(self).docs_lt(doc as int + 1),
            final(self).model().len() >= 1,
            final(self).mode_spec() == old(self).mode_spec(),
            final(self).model().last().0 == doc,
            forall|d: int|
                d > doc ==> (old(self).docs_lt(d) ==> final(self).docs_lt(d)),
            if old(self).model().len() == 0 || (old(self).model().last().0 as int) < doc {
                final(self).model() == old(self).model().push(
                    (
                        doc,
                        1u32,
                        if old(self).mode_spec() == RecordMode::WithFreqsAndPositions {
                            seq![pos]
                        } else {
                            Seq::<u32>::empty()
                        },
                    ),
                )
            } else {
                final(self).model() == old(self).model().update(
                    old(self).model().len() - 1,
                    (
                        doc,
                        if old(self).model().last().1 < u32::MAX {
                            (old(self).model().last().1 + 1) as u32
                        } else {
                            u32::MAX
                        },
                        if old(self).mode_spec() == RecordMode::WithFreqsAndPositions {
                            old(self).model().last().2.push(pos)
                        } else {
                            old(self).model().last().2
                        },
                    ),
                )
            },
            forall|i: int|
                0 <= i < old(self).model().len() ==> final(self).model()[i].0 == old(
                    self,
                ).model()[i].0,
    {
        let n = self.postings.len();
        let with_pos = self.mode == RecordMode::WithFreqsAndPositions;
        if n == 0 {
            let mut positions: Vec<u32> = Vec::new();
            if with_pos {
                positions.push(pos);
            }
            let ghost pview = positions@;
            self.postings.push(PostingRec { doc, tf: 1, positions });
            proof {
                assert(self.model() =~= old(self).model().push((doc, 1u32, pview)));
            }
        } else {
            let last_doc = self.postings[n - 1].doc;
            proof {
                assert(self.model()[n - 1].0 == last_doc);
            }
            if last_doc < doc {
                let mut positions: Vec<u32> = Vec::new();
                if with_pos {
                    positions.push(pos);
                }
                let ghost pview = positions@;
                self.postings.push(PostingRec { doc, tf: 1, positions });
                proof {
                    assert(self.model() =~= old(self).model().push((doc, 1u32, pview)));
                    assert forall|i: int, j: int|
                        0 <= i < j < self.model().len() implies (self.model()[i].0 as int) < (
                        self.model()[j].0 as int) by {
                        if j < self.model().len() - 1 {
                            assert((old(self).model()[i].0 as int) < (old(self).model()[j].0 as int));
                        } else if i < n - 1 {
                            assert((old(self).model()[i].0 as int) < (old(self).model()[
                                n - 1
                            ].0 as int));
                        }
                    }
                }
            } else {
                let mut rec = self.postings.pop().unwrap();
                if rec.tf < u32::MAX {
                    rec.tf = rec.tf + 1;
                }
                if with_pos {
                    rec.positions.push(pos);
                }
                let ghost tfv = rec.tf;
                let ghost pview = rec.positions@;
                self.postings.push(rec);
                proof {
                    assert(self.model() =~= old(self).model().update(
                        n - 1,
                        (doc, tfv, pview),
                    ));
                }
            }
        }
    }
}

/// The doc-id delta a posting contributes: against the previous posting's
/// doc id, or against zero for the first posting.
pub open spec fn doc_delta(m: Seq<(u32, u32, Seq<u32>)>) -> int {
    if m.len() >= 2 {
        m.last().0 - m[m.len() - 2].0
    } else {
        m.last().0 as int
    }
}

/// The raw variable-byte stream of one posting list's positions.
pub open spec fn pos_bytes(ps: Seq<u32>) -> Seq<u8>
    decreases ps.len(),
{
    if ps.len() == 0 {
        Seq::empty()
    } else {
        pos_bytes(ps.drop_last()) + vint_spec(ps.last() as nat)
    }
}

/// The posting-stream bytes of one term: per posting, the doc-id delta,
/// the term frequency and the position count, each variable-byte coded.
pub open spec fn plist_bytes(m: Seq<(u32, u32, Seq<u32>)>) -> Seq<u8>
    decreases m.len(),
{
    if m.len() == 0 {
        Seq::empty()
    } else {
        plist_bytes(m.drop_last()) + vint_spec(
            if doc_delta(m) >= 0 {
                doc_delta(m) as nat
            } else {
                0
            },
        ) + vint_spec(m.last().1 as nat) + vint_spec(m.last().2.len() as nat)
    }
}

/// The position-file bytes of one term: the raw positions of its postings,
/// in posting order.
pub open spec fn term_pos_bytes(m: Seq<(u32, u32, Seq<u32>)>) -> Seq<u8>
    decreases m.len(),
{
    if m.len() == 0 {
        Seq::empty()
    } else {
        term_pos_bytes(m.drop_last()) + pos_bytes(m.last().2)
    }
}

/// The term-dictionary bytes: per term in sorted order, its length, its
/// bytes and its document frequency.
pub open spec fn dict_bytes(s: Seq<(Seq<u8>, u32)>) -> Seq<u8>
    decreases s.len(),
{
    if s.len() == 0 {
        Seq::empty()
    } else {
        dict_bytes(s.drop_last()) + vint_spec(s.last().0.len() as nat) + s.last().0 + vint_spec(
            s.last().1 as nat,
        )
    }
}

/// Appends all of `bytes`.
#[verifier::loop_isolation(false)]
pub fn append_bytes(out: &mut Vec<u8>, bytes: &[u8])
    ensures
        final(out)@ == old(out)@ + bytes@,
{
    let mut i: usize = 0;
    while i < bytes.len()
        invariant
            i <= bytes@.len(),
            out@ == old(out)@ + bytes@.subrange(0, i as int),
        decreases bytes@.len() - i,
    {
        out.push(bytes[i]);
        i = i + 1;
        proof {
            assert(out@ =~= old(out)@ + bytes@.subrange(0, i as int));
        }
    }
    proof {
        assert(out@ =~= old(out)@ + bytes@);
    }
}

/// Compares two byte strings lexicographically.
#[verifier::loop_isolation(false)]
pub fn lex_less(a: &[u8], b: &[u8]) -> (r: bool)
    ensures
        r == crate::term::lex_lt(a@, b@),
{
    let mut i: usize = 0;
    proof {
        assert(a@.skip(0) =~= a@);
        assert(b@.skip(0) =~= b@);
    }
    while i < a.len() && i < b.len()
        invariant
            i <= a@.len(),
            i <= b@.len(),
            crate::term::lex_lt(a@, b@) == crate::term::lex_lt(
                a@.skip(i as int),
                b@.skip(i as int),
            ),
        decreases a@.len() - i,
    {
        if a[i] < b[i] {
            proof {
                assert(a@.skip(i as int)[0] == a@[i as int]);
                assert(b@.skip(i as int)[0] == b@[i as int]);
            }
            return true;
        }
        if a[i] > b[i] {
            proof {
                assert(a@.skip(i as int)[0] == a@[i as int]);
                assert(b@.skip(i as int)[0] == b@[i as int]);
            }
            return false;
        }
        i = i + 1;
        proof {
            assert(a@.skip(i - 1).skip(1) =~= a@.skip(i as int));
            assert(b@.skip(i - 1).skip(1) =~= b@.skip(i as int));
            assert(a@.skip(i - 1)[0] == a@[i - 1]);
            assert(b@.skip(i - 1)[0] == b@[i - 1]);
        }
    }
    proof {
        assert(a@.skip(i as int).len() == a@.len() - i);
        assert(b@.skip(i as int).len() == b@.len() - i);
    }
    a.len() < b.len()
}

/// A contained key stays contained when the key list only grows at the
/// end.
pub proof fn lemma_contains_persists(pre: Seq<Seq<u8>>, post: Seq<Seq<u8>>, x: Seq<u8>)
    requires
        pre.len() <= post.len(),
        forall|i: int| 0 <= i < pre.len() ==> post[i] == pre[i],
        pre.contains(x),
    ensures
        post.contains(x),
{
    let i = choose|i: int| 0 <= i < pre.len() && pre[i] == x;
    assert(post[i] == x);
}

/// Whether some element of `s` carries unordered id `u`.
pub open spec fn has_id(s: Seq<(Vec<u8>, u32)>, u: int) -> bool {
    exists|p: int| 0 <= p < s.len() && ((#[trigger] s[p]).1 as int) == u
}

/// Every element's id indexes `keys` and its bytes are that key.
pub open spec fn elems_tagged(s: Seq<(Vec<u8>, u32)>, keys: Seq<Seq<u8>>) -> bool {
    forall|p: int|
        0 <= p < s.len() ==> ((#[trigger] s[p]).1 as int) < keys.len() && s[p].0@ == keys[s[
            p
        ].1 as int]
}

/// The ids of `s` are pairwise distinct.
pub open spec fn ids_distinct(s: Seq<(Vec<u8>, u32)>) -> bool {
    forall|p: int, q: int| 0 <= p < q < s.len() ==> (#[trigger] s[p]).1 != (#[trigger] s[q]).1
}

/// Sorts the `(term bytes, unordered id)` list into strict lexicographic
/// order of the bytes, by repeatedly extracting the least remaining term.
#[verifier::loop_isolation(false)]
fn sort_terms(working: Vec<(Vec<u8>, u32)>, Ghost(keys): Ghost<Seq<Seq<u8>>>) -> (r: Vec<
    (Vec<u8>, u32),
>)
    requires
        working@.len() == keys.len(),
        elems_tagged(working@, keys),
        ids_distinct(working@),
        forall|u: int| 0 <= u < keys.len() ==> has_id(working@, u),
        forall|i: int, j: int| 0 <= i < j < keys.len() ==> keys[i] != keys[j],
    ensures
        r@.len() == keys.len(),
        elems_tagged(r@, keys),
        forall|u: int| 0 <= u < keys.len() ==> has_id(r@, u),
        forall|p: int, q: int|
            0 <= p < q < r@.len() ==> crate::term::lex_lt(r@[p].0@, r@[q].0@),
    {
    let ghost n = keys.len();
    let mut working = working;
    let mut out: Vec<(Vec<u8>, u32)> = Vec::new();
    while working.len() > 0
        invariant
            out@.len() + working@.len() == n,
            elems_tagged(out@, keys),
            elems_tagged(working@, keys),
            ids_distinct(working@),
            forall|u: int| 0 <= u < n ==> has_id(out@, u) || has_id(working@, u),
            forall|p: int, q: int|
                0 <= p < q < out@.len() ==> crate::term::lex_lt(out@[p].0@, out@[q].0@),
            forall|p: int, q: int|
                0 <= p < out@.len() && 0 <= q < working@.len() ==> crate::term::lex_lt(
                    out@[p].0@,
                    working@[q].0@,
                ),
        decreases working@.len(),
    {
        let mut best: usize = 0;
        let mut q: usize = 1;
        proof {
            crate::term::lemma_lex_irrefl(working@[0].0@);
        }
        while q < working.len()
            invariant
                best < q,
                q <= working@.len(),
                forall|t: int|
                    0 <= t < q ==> !crate::term::lex_lt(
                        (#[trigger] working@[t]).0@,
                        working@[best as int].0@,
                    ),
            decreases working@.len() - q,
        {
            if lex_less(working[q].0.as_slice(), working[best].0.as_slice()) {
                proof {
                    let ghost ob = best as int;
                    assert forall|t: int|
                        0 <= t < q implies !crate::term::lex_lt(
                        (#[trigger] working@[t]).0@,
                        working@[q as int].0@,
                    ) by {
                        if crate::term::lex_lt(working@[t].0@, working@[q as int].0@) {
                            crate::term::lemma_lex_trans(
                                working@[t].0@,
                                working@[q as int].0@,
                                working@[ob].0@,
                            );
                        }
                    }
                    crate::term::lemma_lex_irrefl(working@[q as int].0@);
                }
                best = q;
            }
            q = q + 1;
        }
        let ghost wpre = working@;
        let ghost opre = out@;
        let ghost bi = best as int;
        let e = working.remove(best);
        let ghost eb = e.0@;
        let ghost eid = e.1 as int;
        out.push(e);
        proof {
            assert(working@ =~= wpre.subrange(0, bi) + wpre.subrange(bi + 1, wpre.len() as int));
            assert(out@ =~= opre.push(wpre[bi]));
            // the extracted element is minimal, and distinct ids with
            // distinct keys make it strictly minimal
            assert forall|q2: int|
                0 <= q2 < working@.len() implies crate::term::lex_lt(
                eb,
                (#[trigger] working@[q2]).0@,
            ) by {
                let q0 = if q2 < bi {
                    q2
                } else {
                    q2 + 1
                };
                assert(working@[q2] == wpre[q0]);
                assert(!crate::term::lex_lt(wpre[q0].0@, eb));
                if !crate::term::lex_lt(eb, wpre[q0].0@) {
                    crate::term::lemma_lex_connected(eb, wpre[q0].0@);
                    assert(keys[eid] == keys[wpre[q0].1 as int]);
                    assert(eid != wpre[q0].1 as int);
                    assert(false);
                }
            }
            assert forall|p: int, q2: int|
                0 <= p < q2 < out@.len() implies crate::term::lex_lt(
                (#[trigger] out@[p]).0@,
                (#[trigger] out@[q2]).0@,
            ) by {
                if q2 < out@.len() - 1 {
                    assert(crate::term::lex_lt(opre[p].0@, opre[q2].0@));
                } else {
                    assert(crate::term::lex_lt(opre[p].0@, wpre[bi].0@));
                }
            }
            assert forall|p: int, q2: int|
                0 <= p < out@.len() && 0 <= q2 < working@.len() implies crate::term::lex_lt(
                (#[trigger] out@[p]).0@,
                (#[trigger] working@[q2]).0@,
            ) by {
                let q0 = if q2 < bi {
                    q2
                } else {
                    q2 + 1
                };
                assert(working@[q2] == wpre[q0]);
                if p < out@.len() - 1 {
                    assert(crate::term::lex_lt(opre[p].0@, wpre[q0].0@));
                } else {
                    assert(crate::term::lex_lt(eb, working@[q2].0@));
                }
            }
            assert forall|u: int| 0 <= u < n implies has_id(out@, u) || has_id(working@, u) by {
                if has_id(opre, u) {
                    let p0 = choose|p0: int| 0 <= p0 < opre.len() && (opre[p0].1 as int) == u;
                    assert((out@[p0].1 as int) == u);
                } else if has_id(wpre, u) {
                    let p0 = choose|p0: int| 0 <= p0 < wpre.len() && (wpre[p0].1 as int) == u;
                    if p0 == bi {
                        assert((out@[out@.len() - 1].1 as int) == u);
                    } else if p0 < bi {
                        assert((working@[p0].1 as int) == u);
                    } else {
                        assert((working@[p0 - 1].1 as int) == u);
                    }
                }
            }
            assert forall|p: int, q2: int|
                0 <= p < q2 < working@.len() implies (#[trigger] working@[p]).1 != (
            #[trigger] working@[q2]).1 by {
                let p0 = if p < bi {
                    p
                } else {
                    p + 1
                };
                let q0 = if q2 < bi {
                    q2
                } else {
                    q2 + 1
                };
                assert(working@[p] == wpre[p0]);
                assert(working@[q2] == wpre[q0]);
            }
        }
    }
    out
}

/// The postings-file bytes: per term in dictionary order, the document
/// frequency then the posting stream.
pub open spec fn pfile_bytes(ms: Seq<Seq<(u32, u32, Seq<u32>)>>) -> Seq<u8>
    decreases ms.len(),
{
    if ms.len() == 0 {
        Seq::empty()
    } else {
        pfile_bytes(ms.drop_last()) + vint_spec(ms.last().len() as nat) + plist_bytes(ms.last())
    }
}

/// The positions-file bytes: per term in dictionary order, its raw
/// position stream.
pub open spec fn posfile_bytes(ms: Seq<Seq<(u32, u32, Seq<u32>)>>) -> Seq<u8>
    decreases ms.len(),
{
    if ms.len() == 0 {
        Seq::empty()
    } else {
        posfile_bytes(ms.drop_last()) + term_pos_bytes(ms.last())
    }
}

/// In a strictly ascending posting list, the doc id at index `i` is at
/// least `i`; so a list of docs below `2^31` has fewer than `2^31` entries.
pub proof fn lemma_ascending_ge_index(m: Seq<(u32, u32, Seq<u32>)>)
    requires
        forall|i: int, j: int| 0 <= i < j < m.len() ==> ((#[trigger] m[i]).0 as int) < ((#[trigger] m[j]).0 as int),
    ensures
        forall|i: int| 0 <= i < m.len() ==> ((#[trigger] m[i]).0 as int) >= i,
    decreases m.len(),
{
    if m.len() > 0 {
        let pre = m.drop_last();
        lemma_ascending_ge_index(pre);
        assert forall|i: int| 0 <= i < m.len() implies ((#[trigger] m[i]).0 as int) >= i by {
            if i < m.len() - 1 {
                assert(pre[i] == m[i]);
            } else if i > 0 {
                assert(pre[i - 1] == m[i - 1]);
                assert((m[i - 1].0 as int) >= i - 1);
            }
        }
    }
}

/// Accumulates the term dictionary, posting streams and position streams
/// of one segment, in the byte formats the specs above give.
pub struct PostingsSerializer {
    terms: Vec<u8>,
    postings: Vec<u8>,
    positions: Vec<u8>,
    dict: Vec<(Vec<u8>, u32)>,
    models: Ghost<Seq<Seq<(u32, u32, Seq<u32>)>>>,
}

impl PostingsSerializer {
    /// The dictionary so far: term bytes and document frequency, in the
    /// order pushed.
    pub closed spec fn dict_spec(&self) -> Seq<(Seq<u8>, u32)> {
        Seq::new(self.dict@.len(), |i: int| (self.dict@[i].0@, self.dict@[i].1))
    }

    /// Per pushed term, its posting model.
    pub closed spec fn models_spec(&self) -> Seq<Seq<(u32, u32, Seq<u32>)>> {
        self.models@
    }

    /// The term-dictionary bytes.
    pub closed spec fn terms_spec(&self) -> Seq<u8> {
        self.terms@
    }

    /// The postings bytes.
    pub closed spec fn postings_spec(&self) -> Seq<u8> {
        self.postings@
    }

    /// The positions bytes.
    pub closed spec fn positions_spec(&self) -> Seq<u8> {
        self.positions@
    }

    /// The buffers hold exactly the encodings of what was pushed, and each
    /// document frequency counts its term's postings.
    pub open spec fn wf(&self) -> bool {
        &&& self.terms_spec() == dict_bytes(self.dict_spec())
        &&& self.models_spec().len() == self.dict_spec().len()
        &&& self.postings_spec() == pfile_bytes(self.models_spec())
        &&& self.positions_spec() == posfile_bytes(self.models_spec())
        &&& forall|p: int|
            0 <= p < self.dict_spec().len() ==> ((#[trigger] self.dict_spec()[p]).1 as int)
                == self.models_spec()[p].len()
    }

    /// An empty serializer.
    pub fn new() -> (r: PostingsSerializer)
        ensures
            r.wf(),
            r.dict_spec() == Seq::<(Seq<u8>, u32)>::empty(),
            r.models_spec() == Seq::<Seq<(u32, u32, Seq<u32>)>>::empty(),
    {
        let r = PostingsSerializer {
            terms: Vec::new(),
            postings: Vec::new(),
            positions: Vec::new(),
            dict: Vec::new(),
            models: Ghost(Seq::empty()),
        };
        proof {
            assert(r.dict_spec() =~= Seq::<(Seq<u8>, u32)>::empty());
        }
        r
    }

    /// Writes one term's dictionary entry, posting stream and positions.
    #[verifier::loop_isolation(false)]
    fn push_term(&mut self, term_bytes: &[u8], rec: &Recorder)
        requires
            old(self).wf(),
            rec.wf(),
            rec.docs_lt(0x80000000),
        ensures
            final(self).wf(),
            final(self).dict_spec() == old(self).dict_spec().push(
                (term_bytes@, rec.model().len() as u32),
            ),
            final(self).models_spec() == old(self).models_spec().push(rec.model()),
    {
        let ghost m = rec.model();
        proof {
            lemma_ascending_ge_index(m);
            if m.len() > 0 {
                assert((m[m.len() - 1].0 as int) >= m.len() - 1);
            }
        }
        let df: u32 = rec.postings.len() as u32;
        write_vint(&mut self.terms, term_bytes.len() as u64);
        append_bytes(&mut self.terms, term_bytes);
        write_vint(&mut self.terms, df as u64);
        let ghost post0 = self.postings@;
        let ghost pos0 = self.positions@;
        let ghost terms1 = self.terms@;
        write_vint(&mut self.postings, df as u64);
        let mut p: usize = 0;
        let mut prev: u32 = 0;
        while p < rec.postings.len()
            invariant
                p <= m.len(),
                m == rec.model(),
                prev == if p == 0 {
                    0u32
                } else {
                    m[p - 1].0
                },
                self.postings@ == post0 + vint_spec(df as nat) + plist_bytes(
                    m.subrange(0, p as int),
                ),
                self.positions@ == pos0 + term_pos_bytes(m.subrange(0, p as int)),
                self.terms@ == terms1,
                self.dict@ == old(self).dict@,
                self.models@ == old(self).models@,
            decreases m.len() - p,
        {
            let doc = rec.postings[p].doc;
            let tf = rec.postings[p].tf;
            proof {
                assert(m[p as int].0 == doc);
                assert(m[p as int].1 == tf);
                if p > 0 {
                    assert((m[p - 1].0 as int) < (m[p as int].0 as int));
                }
            }
            let delta: u32 = doc - prev;
            write_vint(&mut self.postings, delta as u64);
            write_vint(&mut self.postings, tf as u64);
            let npos = rec.postings[p].positions.len();
            write_vint(&mut self.postings, npos as u64);
            let ghost prow = m[p as int].2;
            let ghost posrow0 = self.positions@;
            let ghost postsnap = self.postings@;
            let mut k: usize = 0;
            while k < rec.postings[p].positions.len()
                invariant
                    k <= prow.len(),
                    prow == rec.postings@[p as int].positions@,
                    p < rec.postings@.len(),
                    self.positions@ == posrow0 + pos_bytes(prow.subrange(0, k as int)),
                    self.postings@ == postsnap,
                    self.terms@ == terms1,
                    self.dict@ == old(self).dict@,
                    self.models@ == old(self).models@,
                decreases prow.len() - k,
            {
                let v = rec.postings[p].positions[k];
                write_vint(&mut self.positions, v as u64);
                k = k + 1;
                proof {
                    let sub = prow.subrange(0, k as int);
                    assert(sub.drop_last() =~= prow.subrange(0, k - 1));
                    assert(sub.last() == prow[k - 1]);
                    assert(self.positions@ =~= posrow0 + pos_bytes(sub));
                }
            }
            proof {
                assert(prow.subrange(0, prow.len() as int) =~= prow);
            }
            p = p + 1;
            prev = doc;
            proof {
                let sub = m.subrange(0, p as int);
                assert(sub.drop_last() =~= m.subrange(0, p - 1));
                assert(sub.last() == m[p - 1]);
                assert(doc_delta(sub) == delta);
                assert(self.postings@ =~= post0 + vint_spec(df as nat) + plist_bytes(sub));
                assert(self.positions@ =~= pos0 + term_pos_bytes(sub));
            }
        }
        proof {
            assert(m.subrange(0, m.len() as int) =~= m);
        }
        let owned = crate::directory::bytes_to_vec(term_bytes);
        self.dict.push((owned, df));
        proof {
            self.models@ = self.models@.push(m);
        }
        proof {
            assert(self.dict_spec() =~= old(self).dict_spec().push((term_bytes@, df)));
            assert(self.dict_spec().drop_last() =~= old(self).dict_spec());
            assert(self.models_spec().drop_last() =~= old(self).models_spec());
            assert(self.terms_spec() =~= dict_bytes(self.dict_spec()));
            assert(self.postings_spec() =~= pfile_bytes(self.models_spec()));
            assert(self.positions_spec() =~= posfile_bytes(self.models_spec()));
        }
    }

    /// Hands out the three byte streams: term dictionary, postings,
    /// positions.
    pub fn into_buffers(self) -> (r: (Vec<u8>, Vec<u8>, Vec<u8>))
        ensures
            r.0@ == self.terms_spec(),
            r.1@ == self.postings_spec(),
            r.2@ == self.positions_spec(),
    {
        (self.terms, self.postings, self.positions)
    }
}

/// Finds the dictionary rank of the element tagged with id `u`.
#[verifier::loop_isolation(false)]
fn find_rank(sorted: &Vec<(Vec<u8>, u32)>, u: u32) -> (p: usize)
    requires
        has_id(sorted@, u as int),
    ensures
        p < sorted@.len(),
        (sorted@[p as int].1 as int) == u as int,
{
    let mut p: usize = 0;
    while p < sorted.len()
        invariant
            p <= sorted@.len(),
            forall|t: int| 0 <= t < p ==> ((#[trigger] sorted@[t]).1 as int) != u as int,
        decreases sorted@.len() - p,
    {
        if sorted[p].1 == u {
            return p;
        }
        p = p + 1;
    }
    proof {
        let w = choose|w: int|
            0 <= w < sorted@.len() && ((#[trigger] sorted@[w]).1 as int) == u as int;
        assert(false);
    }
    0
}

/// Owns the term hash table and every per-term recorder, across all
/// fields of one segment build.
pub struct MultiFieldPostingsWriter {
    table: TermHashMap,
    recorders: Vec<Recorder>,
}

impl MultiFieldPostingsWriter {
    /// The distinct terms, indexed by unordered term id.
    pub closed spec fn keys(&self) -> Seq<Seq<u8>> {
        self.table.keys()
    }

    /// The posting model of unordered id `u`.
    pub closed spec fn rec_model(&self, u: int) -> Seq<(u32, u32, Seq<u32>)> {
        self.recorders@[u].model()
    }

    /// The table's bucket-count exponent.
    pub closed spec fn num_bits_spec(&self) -> usize {
        self.table.num_bits_spec()
    }

    /// Table well-formed, one well-formed recorder per term.
    pub closed spec fn wf(&self) -> bool {
        &&& self.table.wf()
        &&& self.recorders@.len() == self.table.keys().len()
        &&& forall|u: int| 0 <= u < self.recorders@.len() ==> (#[trigger] self.recorders@[u]).wf()
    }

    /// Every recorded doc id, of every term, is below `d`.
    pub closed spec fn docs_lt(&self, d: int) -> bool {
        forall|u: int|
            0 <= u < self.recorders@.len() ==> (#[trigger] self.recorders@[u]).docs_lt(d)
    }

    /// Every doc id below `a` is also below any `b >= a`.
    pub proof fn lemma_docs_lt_monotone(&self, a: int, b: int)
        requires
            self.docs_lt(a),
            a <= b,
        ensures
            self.docs_lt(b),
    {
        assert forall|u: int|
            0 <= u < self.recorders@.len() implies (#[trigger] self.recorders@[u]).docs_lt(b) by {
            assert(self.recorders@[u].docs_lt(a));
        }
    }

    /// An empty writer over a table of `2^num_bits` buckets.
    pub fn new(num_bits: usize) -> (r: MultiFieldPostingsWriter)
        requires
            10 <= num_bits <= 19,
        ensures
            r.wf(),
            r.keys() == Seq::<Seq<u8>>::empty(),
            r.num_bits_spec() == num_bits,
            forall|d: int| r.docs_lt(d),
    {
        MultiFieldPostingsWriter { table: TermHashMap::with_num_bits(num_bits), recorders: Vec::new() }
    }

    /// The bytes the term table and its arenas take.
    pub closed spec fn mem_usage_spec(&self) -> int {
        self.table.mem_usage_spec()
    }

    /// Bytes held by the table and arenas, saturating at the address
    /// space; repeated calls without an intervening insertion agree.
    pub fn mem_usage(&self) -> (r: usize)
        requires
            self.wf(),
        ensures
            r == if self.mem_usage_spec() > usize::MAX as int {
                usize::MAX as int
            } else {
                self.mem_usage_spec()
            },
            r >= table_size_spec(self.num_bits_spec() as nat),
    {
        self.table.mem_usage()
    }

    /// The table's bucket-count exponent.
    pub fn num_bits(&self) -> (r: usize)
        ensures
            r == self.num_bits_spec(),
    {
        self.table.num_bits()
    }

    /// The number of distinct terms seen so far.
    pub fn term_count(&self) -> (r: usize)
        ensures
            r == self.keys().len(),
    {
        self.table.len()
    }

    /// The number of documents a term was recorded in, or `None` for a
    /// term never subscribed.
    pub fn doc_freq(&self, term: &Term) -> (r: Option<u32>)
        requires
            self.wf(),
            self.docs_lt(0x80000000),
        ensures
            match r {
                Some(df) => exists|u: int|
                    0 <= u < self.keys().len() && (#[trigger] self.keys()[u]) == term.view() && df
                        == self.rec_model(u).len(),
                None => !self.keys().contains(term.view()),
            },
    {
        let bytes = term.full_bytes();
        match self.table.lookup(bytes.as_slice()) {
            Some(id) => {
                let idu = id as usize;
                proof {
                    assert(self.recorders@[idu as int].docs_lt(0x80000000));
                    lemma_ascending_ge_index(self.recorders@[idu as int].model());
                    let m = self.recorders@[idu as int].model();
                    if m.len() > 0 {
                        assert((m[m.len() - 1].0 as int) >= m.len() - 1);
                    }
                }
                let df = self.recorders[idu].postings.len() as u32;
                proof {
                    assert((id as int) < self.keys().len());
                    assert(self.keys()[id as int] == term.view());
                    assert(df == self.rec_model(id as int).len());
                }
                Some(df)
            },
            None => None,
        }
    }

    /// Records one occurrence of `term` in `doc`: finds or inserts the
    /// term, appends to its recorder, and returns the unordered term id.
    pub fn subscribe(&mut self, doc: u32, term: &Term, mode: RecordMode, pos: u32) -> (r: Result<
        u32,
        TantivyError,
    >)
        requires
            old(self).wf(),
            old(self).docs_lt(doc as int + 1),
        ensures
            final(self).wf(),
            final(self).docs_lt(doc as int + 1),
            final(self).num_bits_spec() == old(self).num_bits_spec(),
            old(self).keys().len() <= final(self).keys().len(),
            forall|i: int|
                0 <= i < old(self).keys().len() ==> final(self).keys()[i] == old(self).keys()[i],
            forall|d: int|
                d > doc as int + 1 ==> old(self).docs_lt(d) ==> final(self).docs_lt(d),
            match r {
                Ok(u) => {
                    &&& (u as int) < final(self).keys().len()
                    &&& final(self).keys()[u as int] == term.view()
                    &&& (old(self).keys().contains(term.view()) ==> final(self).keys() == old(
                        self,
                    ).keys())
                    &&& (!old(self).keys().contains(term.view()) ==> final(self).keys() == old(
                        self,
                    ).keys().push(term.view()) && u as int == old(self).keys().len())
                    &&& forall|v: int|
                        0 <= v < old(self).keys().len() && v != u as int ==> final(self).rec_model(v) == old(self).rec_model(v)
                    &&& final(self).rec_model(u as int).len() >= 1
                    &&& final(self).rec_model(u as int).last().0 == doc
                    &&& ((u as int) == old(self).keys().len() ==> final(self).rec_model(u as int)
                        == Seq::<(u32, u32, Seq<u32>)>::empty().push(
                        (
                            doc,
                            1u32,
                            if mode == RecordMode::WithFreqsAndPositions {
                                seq![pos]
                            } else {
                                Seq::<u32>::empty()
                            },
                        ),
                    ))
                    &&& ((u as int) < old(self).keys().len() ==> (if old(self).rec_model(
                        u as int,
                    ).len() == 0 || (old(self).rec_model(u as int).last().0 as int) < doc {
                        final(self).rec_model(u as int).len() == old(self).rec_model(
                            u as int,
                        ).len() + 1
                    } else {
                        final(self).rec_model(u as int).len() == old(self).rec_model(
                            u as int,
                        ).len()
                    }))
                },
                Err(e) => {
                    &&& e == TantivyError::TableFull
                    &&& *final(self) == *old(self)
                    &&& old(self).keys().len() == crate::stacker::pow2_spec(
                        old(self).num_bits_spec() as nat,
                    )
                    &&& !old(self).keys().contains(term.view())
                },
            },
    {
        let bytes = term.full_bytes();
        proof {
            self.table.lemma_wf_facts();
        }
        match self.table.lookup_or_insert(bytes.as_slice()) {
            Err(e) => Err(e),
            Ok(id) => {
                let idu = id as usize;
                if idu == self.recorders.len() {
                    self.recorders.push(Recorder::new(mode));
                }
                let ghost rpre = self.recorders@;
                let mut rec = self.recorders.remove(idu);
                rec.record(doc, pos);
                self.recorders.insert(idu, rec);
                proof {
                    assert(self.recorders@ =~= rpre.update(
                        idu as int,
                        self.recorders@[idu as int],
                    ));
                    assert forall|v: int|
                        0 <= v < old(self).keys().len() && v != idu as int implies self.rec_model(
                        v,
                    ) == old(self).rec_model(v) by {
                        assert(self.recorders@[v] == rpre[v]);
                        assert(rpre[v] == old(self).recorders@[v]);
                    }
                    assert(self.recorders@[idu as int].model() == self.rec_model(idu as int));
                    if idu == old(self).keys().len() {
                        assert(rpre[idu as int].model() =~= Seq::<(u32, u32, Seq<u32>)>::empty());
                        assert(self.rec_model(idu as int) == Seq::<(u32, u32, Seq<u32>)>::empty()
                            .push(
                            (
                                doc,
                                1u32,
                                if mode == RecordMode::WithFreqsAndPositions {
                                    seq![pos]
                                } else {
                                    Seq::<u32>::empty()
                                },
                            ),
                        ));
                    } else {
                        assert(rpre[idu as int].model() == old(self).rec_model(idu as int));
                    }
                    assert(self.rec_model(idu as int).len() >= 1);
                    assert(self.rec_model(idu as int).last().0 == doc);
                    assert forall|u: int|
                        0 <= u < self.recorders@.len() implies (
                    #[trigger] self.recorders@[u]).wf() by {
                        if u != idu as int {
                            assert(self.recorders@[u] == rpre[u]);
                        }
                    }
                    assert forall|u: int|
                        0 <= u < self.recorders@.len() implies (
                    #[trigger] self.recorders@[u]).docs_lt(doc as int + 1) by {
                        if u != idu as int {
                            assert(self.recorders@[u] == rpre[u]);
                        }
                    }
                    assert forall|d: int|
                        d > doc as int + 1 && old(self).docs_lt(d) implies final(self).docs_lt(
                        d,
                    ) by {
                        assert forall|u: int|
                            0 <= u < self.recorders@.len() implies (
                        #[trigger] self.recorders@[u]).docs_lt(d) by {
                            if u != idu as int {
                                assert(self.recorders@[u] == rpre[u]);
                            }
                        }
                    }
                }
                Ok(id)
            },
        }
    }

    /// Indexes one document's tokens for a text field: one subscription per
    /// token, and the returned count feeds the field norms.
    #[verifier::loop_isolation(false)]
    pub fn index_text(
        &mut self,
        doc: u32,
        field: u32,
        tokens: &Vec<(Vec<u8>, u32)>,
        mode: RecordMode,
    ) -> (r: Result<u32, TantivyError>)
        requires
            old(self).wf(),
            old(self).docs_lt(doc as int + 1),
        ensures
            final(self).wf(),
            final(self).docs_lt(doc as int + 1),
            final(self).num_bits_spec() == old(self).num_bits_spec(),
            old(self).keys().len() <= final(self).keys().len(),
            forall|i: int|
                0 <= i < old(self).keys().len() ==> final(self).keys()[i] == old(self).keys()[i],
            forall|d: int|
                d > doc as int + 1 ==> old(self).docs_lt(d) ==> final(self).docs_lt(d),
            match r {
                Ok(n) => {
                    &&& n == if tokens@.len() > u32::MAX {
                        u32::MAX as int
                    } else {
                        tokens@.len() as int
                    }
                    &&& forall|t: int|
                        0 <= t < tokens@.len() ==> final(self).keys().contains(
                            crate::term::field_prefix_spec(field) + (#[trigger] tokens@[t]).0@,
                        )
                },
                Err(e) => e == TantivyError::TableFull && final(self).keys().len()
                    == crate::stacker::pow2_spec(final(self).num_bits_spec() as nat),
            },
    {
        let mut term = Term::for_field(field);
        let mut i: usize = 0;
        while i < tokens.len()
            invariant
                i <= tokens@.len(),
                term.field_spec() == field,
                self.wf(),
                self.docs_lt(doc as int + 1),
                self.num_bits_spec() == old(self).num_bits_spec(),
                old(self).keys().len() <= self.keys().len(),
                forall|i2: int|
                    0 <= i2 < old(self).keys().len() ==> self.keys()[i2] == old(self).keys()[i2],
                forall|d: int|
                    d > doc as int + 1 ==> old(self).docs_lt(d) ==> self.docs_lt(d),
                forall|t: int|
                    0 <= t < i ==> self.keys().contains(
                        crate::term::field_prefix_spec(field) + (#[trigger] tokens@[t]).0@,
                    ),
            decreases tokens@.len() - i,
        {
            term.set_text(tokens[i].0.as_slice());
            let ghost keyspre = self.keys();
            match self.subscribe(doc, &term, mode, tokens[i].1) {
                Ok(u) => {
                    proof {
                        assert(self.keys()[u as int] == crate::term::field_prefix_spec(field)
                            + tokens@[i as int].0@);
                        assert forall|t: int|
                            0 <= t < i + 1 implies self.keys().contains(
                            crate::term::field_prefix_spec(field) + (#[trigger] tokens@[t]).0@,
                        ) by {
                            if t < i {
                                let w = choose|w: int|
                                    0 <= w < keyspre.len() && keyspre[w]
                                        == crate::term::field_prefix_spec(field) + tokens@[t].0@;
                                assert(self.keys()[w] == keyspre[w]);
                            }
                        }
                    }
                },
                Err(e) => {
                    return Err(e);
                },
            }
            i = i + 1;
        }
        if tokens.len() > u32::MAX as usize {
            Ok(u32::MAX)
        } else {
            Ok(tokens.len() as u32)
        }
    }

    /// Sorts the live term set lexicographically, writes the dictionary,
    /// posting and position streams in that order, and returns the
    /// unordered-to-ordered remap: one slot per unordered id ever issued,
    /// each holding the term's rank in the sorted dictionary.
    #[verifier::loop_isolation(false)]
    #[verifier::rlimit(60)]
    pub fn serialize(&self, ser: &mut PostingsSerializer) -> (remap: Vec<u32>)
        requires
            self.wf(),
            self.docs_lt(0x80000000),
            old(ser).wf(),
            old(ser).dict_spec().len() == 0,
            old(ser).models_spec().len() == 0,
        ensures
            final(ser).wf(),
            final(ser).dict_spec().len() == self.keys().len(),
            forall|p: int, q: int|
                0 <= p < q < final(ser).dict_spec().len() ==> crate::term::lex_lt(
                    (#[trigger] final(ser).dict_spec()[p]).0,
                    (#[trigger] final(ser).dict_spec()[q]).0,
                ),
            remap@.len() == self.keys().len(),
            forall|u: int|
                0 <= u < remap@.len() ==> ((#[trigger] remap@[u]) as int) < final(ser).dict_spec().len(),
            forall|u: int|
                0 <= u < remap@.len() ==> final(ser).dict_spec()[(#[trigger] remap@[u]) as int].0
                    == self.keys()[u] && final(ser).models_spec()[remap@[u] as int]
                    == self.rec_model(u),
            forall|p: int, i: int, j: int|
                0 <= p < final(ser).models_spec().len() && 0 <= i < j < final(ser).models_spec()[p].len() ==> ((#[trigger] final(ser).models_spec()[p][i]).0 as int) < ((#[trigger] final(ser).models_spec()[p][j]).0 as int),
            forall|d: int|
                #[trigger] self.docs_lt(d) ==> forall|p: int, i: int|
                    0 <= p < final(ser).models_spec().len() && 0 <= i < final(ser).models_spec()[p].len() ==> ((#[trigger] final(ser).models_spec()[p][i]).0 as int) < d,
    {
        proof {
            self.table.lemma_wf_facts();
        }
        let list = self.table.entries_list();
        proof {
            assert forall|u: int| 0 <= u < self.keys().len() implies has_id(list@, u) by {
                assert((list@[u].1 as int) == u);
            }
        }
        let sorted = sort_terms(list, Ghost(self.keys()));
        let n = sorted.len();
        let mut p: usize = 0;
        while p < n
            invariant
                p <= n,
                n == self.keys().len(),
                n == sorted@.len(),
                ser.wf(),
                ser.dict_spec().len() == p,
                ser.models_spec().len() == p,
                elems_tagged(sorted@, self.keys()),
                forall|u: int| 0 <= u < n ==> has_id(sorted@, u),
                forall|p1: int, q1: int|
                    0 <= p1 < q1 < n ==> crate::term::lex_lt(
                        (#[trigger] sorted@[p1]).0@,
                        (#[trigger] sorted@[q1]).0@,
                    ),
                forall|p1: int|
                    0 <= p1 < p ==> (#[trigger] ser.dict_spec()[p1]).0 == sorted@[p1].0@,
                forall|p1: int|
                    0 <= p1 < p ==> #[trigger] ser.models_spec()[p1] == self.rec_model(
                        sorted@[p1].1 as int,
                    ),
            decreases n - p,
        {
            let id = sorted[p].1 as usize;
            proof {
                assert(self.recorders@[id as int].docs_lt(0x80000000));
            }
            let ghost dpre = ser.dict_spec();
            let ghost mpre = ser.models_spec();
            ser.push_term(sorted[p].0.as_slice(), &self.recorders[id]);
            p = p + 1;
            proof {
                assert((ser.dict_spec()[p - 1]).0 == sorted@[p - 1].0@);
                assert(ser.models_spec()[p - 1] == self.rec_model(sorted@[p - 1].1 as int));
                assert forall|p1: int|
                    0 <= p1 < p implies (#[trigger] ser.dict_spec()[p1]).0 == sorted@[p1].0@ by {
                    if p1 < p - 1 {
                        assert(ser.dict_spec()[p1] == dpre[p1]);
                        assert(dpre[p1].0 == sorted@[p1].0@);
                    }
                }
                assert forall|p1: int|
                    0 <= p1 < p implies #[trigger] ser.models_spec()[p1] == self.rec_model(
                    sorted@[p1].1 as int,
                ) by {
                    if p1 < p - 1 {
                        assert(ser.models_spec()[p1] == mpre[p1]);
                        assert(mpre[p1] == self.rec_model(sorted@[p1].1 as int));
                        assert(dpre[p1].0 == sorted@[p1].0@);
                    }
                }
            }
        }
        let mut remap: Vec<u32> = Vec::new();
        let mut u: usize = 0;
        let ghost sersnap = *ser;
        proof {
            assert forall|p1: int|
                0 <= p1 < n implies #[trigger] sersnap.models_spec()[p1] == self.rec_model(
                sorted@[p1].1 as int,
            ) by {
                assert(sersnap.models_spec()[p1] == self.rec_model(sorted@[p1].1 as int));
            }
        }
        while u < n
            invariant
                *ser == sersnap,
                u <= n,
                n == self.keys().len(),
                n == sorted@.len(),
                n <= 0x80000,
                sersnap.dict_spec().len() == n,
                sersnap.models_spec().len() == n,
                elems_tagged(sorted@, self.keys()),
                forall|u1: int| 0 <= u1 < n ==> has_id(sorted@, u1),
                forall|p1: int|
                    0 <= p1 < n ==> (#[trigger] sersnap.dict_spec()[p1]).0 == sorted@[p1].0@,
                forall|p1: int|
                    0 <= p1 < n ==> #[trigger] sersnap.models_spec()[p1] == self.rec_model(
                        sorted@[p1].1 as int,
                    ),
                remap@.len() == u,
                forall|u1: int|
                    0 <= u1 < u ==> ((#[trigger] remap@[u1]) as int) < n && sersnap.dict_spec()[
                        remap@[u1] as int
                    ].0 == self.keys()[u1] && sersnap.models_spec()[remap@[u1] as int]
                        == self.rec_model(u1),
            decreases n - u,
        {
            proof {
                assert(has_id(sorted@, u as int));
            }
            let p2 = find_rank(&sorted, u as u32);
            proof {
                assert(sersnap.dict_spec()[p2 as int].0 == sorted@[p2 as int].0@);
                assert(sorted@[p2 as int].0@ == self.keys()[u as int]);
                assert(sersnap.models_spec()[p2 as int] == self.rec_model(u as int));
            }
            remap.push(p2 as u32);
            u = u + 1;
        }
        proof {
            assert forall|p: int, i: int, j: int|
                0 <= p < ser.models_spec().len() && 0 <= i < j < ser.models_spec()[p].len() implies ((#[trigger] ser.models_spec()[p][i]).0 as int) < ((#[trigger] ser.models_spec()[p][j]).0 as int) by {
                assert(ser.dict_spec()[p].0 == sorted@[p].0@);
                let u2 = sorted@[p].1 as int;
                assert(ser.models_spec()[p] == self.rec_model(u2));
                assert(self.recorders@[u2].wf());
            }
            assert forall|d: int| #[trigger] self.docs_lt(d) implies forall|p: int, i: int|
                0 <= p < ser.models_spec().len() && 0 <= i < ser.models_spec()[p].len() ==> ((
            #[trigger] ser.models_spec()[p][i]).0 as int) < d by {
                assert forall|p: int, i: int|
                    0 <= p < ser.models_spec().len() && 0 <= i
                        < ser.models_spec()[p].len() implies ((
                #[trigger] ser.models_spec()[p][i]).0 as int) < d by {
                    assert(ser.dict_spec()[p].0 == sorted@[p].0@);
                    let u2 = sorted@[p].1 as int;
                    assert(ser.models_spec()[p] == self.rec_model(u2));
                    assert(self.recorders@[u2].docs_lt(d));
                }
            }
        }
        remap
    }
}

} // verus!
