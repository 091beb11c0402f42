//! Field norms: one byte per (doc, text field), a lossy 8-bit quantization
//! of the token count, identical to the one scoring uses at query time so
//! that stored norms round-trip through the quantizer.

use vstd::prelude::*;

verus! {

/// The 8-bit quantization of a token count: saturating at 255.
pub open spec fn quantize_spec(v: u32) -> u8 {
    if v > 255 {
        255u8
    } else {
        v as u8
    }
}

/// Quantizes a token count to its stored byte.
pub fn fieldnorm_to_id(v: u32) -> (r: u8)
    ensures
        r == quantize_spec(v),
{
    if v > 255 {
        255
    } else {
        v as u8
    }
}

/// Recovers the token count a stored byte stands for.
pub fn id_to_fieldnorm(id: u8) -> (r: u32)
    ensures
        r == id as u32,
{
    id as u32
}

/// Norms round-trip through the quantizer: quantizing a recovered count
/// gives back the stored byte.
pub proof fn lemma_fieldnorm_round_trip(id: u8)
    ensures
        quantize_spec(id as u32) == id,
{
}

/// The concatenation of the per-field norm streams, in field-id order.
pub open spec fn norms_file_bytes(streams: Seq<Seq<u8>>) -> Seq<u8>
    decreases streams.len(),
{
    if streams.len() == 0 {
        Seq::empty()
    } else {
        norms_file_bytes(streams.drop_last()) + streams.last()
    }
}

/// If every stream holds exactly `d` bytes, the file holds `count * d`.
pub proof fn lemma_norms_total_len(streams: Seq<Seq<u8>>, d: int)
    requires
        forall|i: int| 0 <= i < streams.len() ==> (#[trigger] streams[i]).len() == d,
    ensures
        norms_file_bytes(streams).len() == streams.len() * d,
    decreases streams.len(),
{
    if streams.len() > 0 {
        lemma_norms_total_len(streams.drop_last(), d);
        assert(streams.drop_last().len() * d + d == streams.len() * d) by (nonlinear_arith)
            requires
                streams.len() >= 1 && streams.drop_last().len() == streams.len() - 1,
        ;
    }
}

/// One norm stream per text field, filled in doc order and padded with
/// zero for docs that leave a field empty.
pub struct FieldNormsWriter {
    fields: Vec<u32>,
    norms: Vec<Vec<u8>>,
}

impl FieldNormsWriter {
    /// The text field ids, in field order.
    pub closed spec fn fields_spec(&self) -> Seq<u32> {
        self.fields@
    }

    /// The norm streams, aligned with `fields_spec`.
    pub closed spec fn norms_spec(&self) -> Seq<Seq<u8>> {
        Seq::new(self.norms@.len(), |i: int| self.norms@[i]@)
    }

    /// One stream per field.
    pub open spec fn wf(&self) -> bool {
        self.fields_spec().len() == self.norms_spec().len()
    }

    /// Every stream holds at most `d` bytes.
    pub open spec fn lens_le(&self, d: int) -> bool {
        forall|i: int| 0 <= i < self.norms_spec().len() ==> (#[trigger] self.norms_spec()[i]).len() <= d
    }

    /// A writer with one empty stream per listed text field.
    #[verifier::loop_isolation(false)]
    pub fn for_fields(text_fields: Vec<u32>) -> (r: FieldNormsWriter)
        ensures
            r.wf(),
            r.fields_spec() == text_fields@,
            forall|i: int|
                0 <= i < r.norms_spec().len() ==> (#[trigger] r.norms_spec()[i]).len() == 0,
            r.norms_spec().len() == text_fields@.len(),
    {
        let n = text_fields.len();
        let mut norms: Vec<Vec<u8>> = Vec::new();
        while norms.len() < n
            invariant
                norms@.len() <= n,
                forall|i: int| 0 <= i < norms@.len() ==> (#[trigger] norms@[i])@.len() == 0,
            decreases n - norms@.len(),
        {
            norms.push(Vec::new());
        }
        let r = FieldNormsWriter { fields: text_fields, norms };
        proof {
            assert(forall|i: int|
                0 <= i < r.norms_spec().len() ==> (#[trigger] r.norms_spec()[i]).len() == 0);
        }
        r
    }

    /// Records the token count of `field` for `doc`: the stream is padded
    /// with zero norms for the docs before `doc` that left the field empty,
    /// then the quantized count is appended. A field that is not a text
    /// field of this writer is left untouched.
    #[verifier::loop_isolation(false)]
    pub fn record(&mut self, doc: u32, field: u32, num_tokens: u32)
        requires
            old(self).wf(),
            forall|i: int|
                0 <= i < old(self).norms_spec().len() && old(self).fields_spec()[i] == field
                    ==> (#[trigger] old(self).norms_spec()[i]).len() <= doc as int,
        ensures
            final(self).wf(),
            final(self).fields_spec() == old(self).fields_spec(),
            forall|i: int|
                0 <= i < final(self).norms_spec().len() && old(self).fields_spec()[i] != field
                    ==> (#[trigger] final(self).norms_spec()[i]) == old(self).norms_spec()[i],
            forall|i: int|
                0 <= i < final(self).norms_spec().len() && old(self).fields_spec()[i] == field
                    ==> (#[trigger] final(self).norms_spec()[i]).len() == doc as int + 1
                    && final(self).norms_spec()[i][doc as int] == quantize_spec(num_tokens)
                    && (forall|j: int|
                    0 <= j < old(self).norms_spec()[i].len() ==> final(self).norms_spec()[i][j]
                        == old(self).norms_spec()[i][j]) && (forall|j: int|
                    old(self).norms_spec()[i].len() <= j < doc as int ==> final(self).norms_spec()[i][j] == 0u8),
    {
        let n = self.fields.len();
        proof {
            assert forall|j: int|
                0 <= j < self.norms@.len() && self.fields@[j] == field implies (
            #[trigger] self.norms@[j])@.len() <= doc as int by {
                assert(self.norms_spec()[j] == self.norms@[j]@);
            }
        }
        let mut i: usize = 0;
        while i < n
            invariant
                i <= n,
                n == self.fields@.len(),
                self.norms@.len() == n,
                self.fields@ == old(self).fields_spec(),
                forall|j: int|
                    i <= j < n ==> (#[trigger] self.norms@[j])@ == old(self).norms_spec()[j],
                forall|j: int|
                    0 <= j < i && old(self).fields_spec()[j] != field ==> (
                    #[trigger] self.norms@[j])@ == old(self).norms_spec()[j],
                forall|j: int|
                    0 <= j < i && old(self).fields_spec()[j] == field ==> (
                    #[trigger] self.norms@[j])@.len() == doc as int + 1 && self.norms@[j]@[
                        doc as int
                    ] == quantize_spec(num_tokens) && (forall|t: int|
                        0 <= t < old(self).norms_spec()[j].len() ==> self.norms@[j]@[t] == old(
                            self,
                        ).norms_spec()[j][t]) && (forall|t: int|
                        old(self).norms_spec()[j].len() <= t < doc as int ==> self.norms@[j]@[t]
                            == 0u8),
            decreases n - i,
        {
            if self.fields[i] == field {
                let ghost pre = self.norms@;
                let mut stream = self.norms.remove(i);
                let ghost spre = stream@;
                proof {
                    assert(stream@ == pre[i as int]@);
                    assert(old(self).norms_spec()[i as int].len() <= doc as int);
                    assert(stream@.len() <= doc as int);
                }
                while stream.len() < doc as usize
                    invariant
                        stream@.len() <= doc,
                        spre.len() <= stream@.len(),
                        forall|j: int| 0 <= j < spre.len() ==> stream@[j] == spre[j],
                        forall|j: int| spre.len() <= j < stream@.len() ==> stream@[j] == 0u8,
                    decreases doc - stream@.len(),
                {
                    stream.push(0);
                }
                stream.push(fieldnorm_to_id(num_tokens));
                self.norms.insert(i, stream);
                proof {
                    assert(self.norms@ =~= pre.update(i as int, self.norms@[i as int]));
                    assert forall|j: int|
                        0 <= j < n && j != i implies (#[trigger] self.norms@[j]) == pre[j] by {}
                }
            }
            i = i + 1;
        }
    }

    /// Pads every stream with zero norms up to `max_doc` bytes; afterwards
    /// every text field has exactly one norm byte per doc.
    #[verifier::loop_isolation(false)]
    pub fn fill_up_to_max_doc(&mut self, max_doc: u32)
        requires
            old(self).wf(),
            old(self).lens_le(max_doc as int),
        ensures
            final(self).wf(),
            final(self).fields_spec() == old(self).fields_spec(),
            forall|i: int|
                0 <= i < final(self).norms_spec().len() ==> (
                #[trigger] final(self).norms_spec()[i]).len() == max_doc as int && (forall|j: int|
                    0 <= j < old(self).norms_spec()[i].len() ==> final(self).norms_spec()[i][j]
                        == old(self).norms_spec()[i][j]) && (forall|j: int|
                    old(self).norms_spec()[i].len() <= j < max_doc as int ==> final(self).norms_spec()[i][j] == 0u8),
    {
        let n = self.norms.len();
        proof {
            assert forall|j: int|
                0 <= j < self.norms@.len() implies (#[trigger] self.norms@[j])@.len()
                <= max_doc as int by {
                assert(self.norms_spec()[j] == self.norms@[j]@);
            }
        }
        let mut i: usize = 0;
        while i < n
            invariant
                i <= n,
                n == self.norms@.len(),
                self.fields@.len() == n,
                self.fields@ == old(self).fields_spec(),
                forall|j: int|
                    0 <= j < n ==> (#[trigger] self.norms@[j])@.len() <= max_doc as int,
                forall|j: int|
                    i <= j < n ==> (#[trigger] self.norms@[j])@ == old(self).norms_spec()[j],
                forall|j: int|
                    0 <= j < i ==> (#[trigger] self.norms@[j])@.len() == max_doc as int && (
                    forall|t: int|
                        0 <= t < old(self).norms_spec()[j].len() ==> self.norms@[j]@[t] == old(self).norms_spec()[j][t]) && (forall|t: int|
                        old(self).norms_spec()[j].len() <= t < max_doc as int ==> self.norms@[j]@[
                            t
                        ] == 0u8),
            decreases n - i,
        {
            let ghost pre = self.norms@;
            let mut stream = self.norms.remove(i);
            let ghost spre = stream@;
            proof {
                assert(stream@ == pre[i as int]@);
            }
            while stream.len() < max_doc as usize
                invariant
                    stream@.len() <= max_doc,
                    spre.len() <= stream@.len(),
                    forall|j: int| 0 <= j < spre.len() ==> stream@[j] == spre[j],
                    forall|j: int| spre.len() <= j < stream@.len() ==> stream@[j] == 0u8,
                decreases max_doc - stream@.len(),
            {
                stream.push(0);
            }
            self.norms.insert(i, stream);
            proof {
                assert(self.norms@ =~= pre.update(i as int, self.norms@[i as int]));
                assert forall|j: int|
                    0 <= j < n && j != i implies (#[trigger] self.norms@[j]) == pre[j] by {}
            }
            i = i + 1;
        }
    }

    /// Serializes the norm streams as their concatenation in field order.
    #[verifier::loop_isolation(false)]
    pub fn serialize(&self) -> (r: Vec<u8>)
        ensures
            r@ == norms_file_bytes(self.norms_spec()),
    {
        let mut r: Vec<u8> = Vec::new();
        let n = self.norms.len();
        let mut i: usize = 0;
        while i < n
            invariant
                i <= n,
                n == self.norms@.len(),
                r@ == norms_file_bytes(self.norms_spec().subrange(0, i as int)),
            decreases n - i,
        {
            crate::postings::append_bytes(&mut r, self.norms[i].as_slice());
            i = i + 1;
            proof {
                let sub = self.norms_spec().subrange(0, i as int);
                assert(sub.drop_last() =~= self.norms_spec().subrange(0, i - 1));
                assert(sub.last() == self.norms_spec()[i - 1]);
                assert(r@ =~= norms_file_bytes(sub));
            }
        }
        proof {
            assert(self.norms_spec().subrange(0, n as int) =~= self.norms_spec());
        }
        r
    }
}

/// The view of one stream of an underlying norm vector list.
pub open spec fn norms_at(pre: Seq<Vec<u8>>, j: int) -> Seq<u8> {
    pre[j]@
}

} // verus!
