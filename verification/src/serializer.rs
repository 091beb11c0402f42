//! The segment serializer: groups the write handles of one segment's file
//! set (term dictionary, postings, positions, fast fields, field norms,
//! document store) and seals them in a fixed order at close.

use vstd::prelude::*;
use crate::directory::RamDirectory;
use crate::directory::WriteHandle;
use crate::error::TantivyError;
use crate::postings::PostingsSerializer;
use crate::postings::vint_spec;
use crate::postings::write_vint;
use crate::postings::append_bytes;
use crate::schema::FieldValue;
use crate::schema::Value;
use crate::term::be_bytes8_spec;

verus! {

/// The file-kind suffix bytes of a segment's files.
pub const TAG_TERM: u8 = 1;

pub const TAG_IDX: u8 = 2;

pub const TAG_POS: u8 = 3;

pub const TAG_FAST: u8 = 4;

pub const TAG_NORM: u8 = 5;

pub const TAG_STORE: u8 = 6;

/// The path of one of a segment's files: the segment id as an eight-byte
/// big-endian stem, then the file-kind tag.
pub open spec fn file_path_spec(id: u64, tag: u8) -> Seq<u8> {
    be_bytes8_spec(id).push(tag)
}

/// Builds a segment file path.
pub fn file_path(id: u64, tag: u8) -> (r: Vec<u8>)
    ensures
        r@ == file_path_spec(id, tag),
{
    let mut r: Vec<u8> = Vec::new();
    r.push((id >> 56) as u8);
    r.push((id >> 48) as u8);
    r.push((id >> 40) as u8);
    r.push((id >> 32) as u8);
    r.push((id >> 24) as u8);
    r.push((id >> 16) as u8);
    r.push((id >> 8) as u8);
    r.push(id as u8);
    r.push(tag);
    proof {
        assert(r@ =~= file_path_spec(id, tag));
    }
    r
}

/// An immutable segment under construction, named by its id: its files
/// share the id as their filename stem.
pub struct Segment {
    /// The segment's identity within its directory.
    pub id: u64,
}

/// The encoding of one field value: a tag byte, then the payload.
pub open spec fn value_bytes(v: Value) -> Seq<u8> {
    match v {
        Value::Str(b) => seq![0u8] + vint_spec(b@.len() as nat) + b@,
        Value::U64(x) => seq![1u8] + vint_spec(x as nat),
        Value::I64(x) => seq![2u8] + vint_spec(crate::term::i64_to_u64_spec(x) as nat),
        Value::F64(m) => seq![3u8] + vint_spec(m as nat),
        Value::Date(t) => seq![4u8] + vint_spec(crate::term::i64_to_u64_spec(t) as nat),
        Value::Facet(b) => seq![5u8] + vint_spec(b@.len() as nat) + b@,
        Value::Bytes(b) => seq![6u8] + vint_spec(b@.len() as nat) + b@,
    }
}

/// The encoding of a field value with its field id.
pub open spec fn fv_bytes(fv: FieldValue) -> Seq<u8> {
    vint_spec(fv.field as nat) + value_bytes(fv.value)
}

/// Whether a value is kept by the store filter.
pub open spec fn is_kept(fv: FieldValue, stored: Seq<bool>) -> bool {
    (fv.field as int) < stored.len() && stored[fv.field as int]
}

/// How many of the values the store filter keeps.
pub open spec fn stored_count(vals: Seq<FieldValue>, stored: Seq<bool>) -> int
    decreases vals.len(),
{
    if vals.len() == 0 {
        0
    } else {
        stored_count(vals.drop_last(), stored) + if is_kept(vals.last(), stored) {
            1int
        } else {
            0int
        }
    }
}

/// The encodings of the kept values, in document order.
pub open spec fn stored_doc_bytes(vals: Seq<FieldValue>, stored: Seq<bool>) -> Seq<u8>
    decreases vals.len(),
{
    if vals.len() == 0 {
        Seq::empty()
    } else {
        stored_doc_bytes(vals.drop_last(), stored) + if is_kept(vals.last(), stored) {
            fv_bytes(vals.last())
        } else {
            Seq::empty()
        }
    }
}

/// The store writer: appends each document's kept field values,
/// block-framed by the kept count.
pub struct StoreWriter {
    buf: Vec<u8>,
}

impl StoreWriter {
    /// The store bytes so far.
    pub closed spec fn buf_spec(&self) -> Seq<u8> {
        self.buf@
    }

    /// An empty store.
    pub fn new() -> (r: StoreWriter)
        ensures
            r.buf_spec() == Seq::<u8>::empty(),
    {
        StoreWriter { buf: Vec::new() }
    }

    /// Appends one document: the kept-value count, then the kept values in
    /// order, each as its field id and tagged payload.
    #[verifier::loop_isolation(false)]
    pub fn store_doc(&mut self, vals: &Vec<FieldValue>, stored: &Vec<bool>)
        requires
            stored_count(vals@, stored@) <= u64::MAX,
        ensures
            final(self).buf_spec() == old(self).buf_spec() + vint_spec(
                stored_count(vals@, stored@) as nat,
            ) + stored_doc_bytes(vals@, stored@),
    {
        proof {
            lemma_stored_count_nonneg(vals@, stored@);
        }
        let mut count: u64 = 0;
        let mut i: usize = 0;
        while i < vals.len()
            invariant
                i <= vals@.len(),
                count == stored_count(vals@.subrange(0, i as int), stored@),
                stored_count(vals@.subrange(0, i as int), stored@) <= stored_count(vals@, stored@),
                stored_count(vals@, stored@) <= u64::MAX,
            decreases vals@.len() - i,
        {
            proof {
                let sub = vals@.subrange(0, i as int + 1);
                assert(sub.drop_last() =~= vals@.subrange(0, i as int));
                assert(sub.last() == vals@[i as int]);
                lemma_stored_count_prefix(vals@, stored@, i as int + 1);
            }
            let f = vals[i].field;
            if (f as usize) < stored.len() && stored[f as usize] {
                count = count + 1;
            }
            i = i + 1;
        }
        proof {
            assert(vals@.subrange(0, vals@.len() as int) =~= vals@);
        }
        write_vint(&mut self.buf, count);
        let ghost mid = self.buf@;
        let mut k: usize = 0;
        while k < vals.len()
            invariant
                k <= vals@.len(),
                self.buf@ == mid + stored_doc_bytes(vals@.subrange(0, k as int), stored@),
            decreases vals@.len() - k,
        {
            let ghost pre = self.buf@;
            let f = vals[k].field;
            if (f as usize) < stored.len() && stored[f as usize] {
                write_vint(&mut self.buf, f as u64);
                match &vals[k].value {
                    Value::Str(b) => {
                        self.buf.push(0u8);
                        write_vint(&mut self.buf, b.len() as u64);
                        append_bytes(&mut self.buf, b.as_slice());
                    },
                    Value::U64(x) => {
                        self.buf.push(1u8);
                        write_vint(&mut self.buf, *x);
                    },
                    Value::I64(x) => {
                        self.buf.push(2u8);
                        write_vint(&mut self.buf, (*x as u64) ^ 0x8000000000000000u64);
                    },
                    Value::F64(m) => {
                        self.buf.push(3u8);
                        write_vint(&mut self.buf, *m);
                    },
                    Value::Date(t) => {
                        self.buf.push(4u8);
                        write_vint(&mut self.buf, (*t as u64) ^ 0x8000000000000000u64);
                    },
                    Value::Facet(b) => {
                        self.buf.push(5u8);
                        write_vint(&mut self.buf, b.len() as u64);
                        append_bytes(&mut self.buf, b.as_slice());
                    },
                    Value::Bytes(b) => {
                        self.buf.push(6u8);
                        write_vint(&mut self.buf, b.len() as u64);
                        append_bytes(&mut self.buf, b.as_slice());
                    },
                }
                proof {
                    assert(self.buf@ =~= pre + fv_bytes(vals@[k as int]));
                }
            }
            k = k + 1;
            proof {
                let sub = vals@.subrange(0, k as int);
                assert(sub.drop_last() =~= vals@.subrange(0, k - 1));
                assert(sub.last() == vals@[k - 1]);
                assert(self.buf@ =~= mid + stored_doc_bytes(sub, stored@));
            }
        }
        proof {
            assert(vals@.subrange(0, vals@.len() as int) =~= vals@);
        }
    }

    /// Hands out the store bytes.
    pub fn into_buf(self) -> (r: Vec<u8>)
        ensures
            r@ == self.buf_spec(),
    {
        self.buf
    }
}

/// The kept count never exceeds the value count.
pub proof fn lemma_stored_count_le_len(vals: Seq<FieldValue>, stored: Seq<bool>)
    ensures
        0 <= stored_count(vals, stored) <= vals.len(),
    decreases vals.len(),
{
    if vals.len() > 0 {
        lemma_stored_count_le_len(vals.drop_last(), stored);
    }
}

proof fn lemma_stored_count_nonneg(vals: Seq<FieldValue>, stored: Seq<bool>)
    ensures
        stored_count(vals, stored) >= 0,
    decreases vals.len(),
{
    if vals.len() > 0 {
        lemma_stored_count_nonneg(vals.drop_last(), stored);
    }
}

proof fn lemma_stored_count_prefix(vals: Seq<FieldValue>, stored: Seq<bool>, i: int)
    requires
        0 <= i <= vals.len(),
    ensures
        stored_count(vals.subrange(0, i), stored) <= stored_count(vals, stored),
    decreases vals.len() - i,
{
    if i == vals.len() {
        assert(vals.subrange(0, i) =~= vals);
    } else {
        lemma_stored_count_prefix(vals, stored, i + 1);
        let sub = vals.subrange(0, i + 1);
        assert(sub.drop_last() =~= vals.subrange(0, i));
        lemma_stored_count_nonneg(vals.subrange(0, i), stored);
    }
}

/// None of the segment's six files is present in `files`.
pub open spec fn segment_files_absent(files: Map<Seq<u8>, Seq<u8>>, id: u64) -> bool {
    &&& !files.contains_key(file_path_spec(id, TAG_TERM))
    &&& !files.contains_key(file_path_spec(id, TAG_IDX))
    &&& !files.contains_key(file_path_spec(id, TAG_POS))
    &&& !files.contains_key(file_path_spec(id, TAG_FAST))
    &&& !files.contains_key(file_path_spec(id, TAG_NORM))
    &&& !files.contains_key(file_path_spec(id, TAG_STORE))
}

/// `post` is `pre` with the segment's six files created empty.
pub open spec fn segment_files_created(
    pre: Map<Seq<u8>, Seq<u8>>,
    post: Map<Seq<u8>, Seq<u8>>,
    id: u64,
) -> bool {
    post == pre.insert(file_path_spec(id, TAG_TERM), Seq::<u8>::empty()).insert(
        file_path_spec(id, TAG_IDX),
        Seq::<u8>::empty(),
    ).insert(file_path_spec(id, TAG_POS), Seq::<u8>::empty()).insert(
        file_path_spec(id, TAG_FAST),
        Seq::<u8>::empty(),
    ).insert(file_path_spec(id, TAG_NORM), Seq::<u8>::empty()).insert(
        file_path_spec(id, TAG_STORE),
        Seq::<u8>::empty(),
    )
}

/// Groups the write handles of one segment. Creation is exclusive: if any
/// of the segment's files already exists, construction fails and whatever
/// was created stays unreferenced.
pub struct SegmentSerializer {
    /// The segment's id, the stem of every file path below.
    pub segment_id: u64,
    /// The term-dictionary file handle.
    pub h_term: WriteHandle,
    /// The postings file handle.
    pub h_idx: WriteHandle,
    /// The positions file handle.
    pub h_pos: WriteHandle,
    /// The fast-fields file handle.
    pub h_fast: WriteHandle,
    /// The field-norms file handle.
    pub h_norm: WriteHandle,
    /// The document-store file handle.
    pub h_store: WriteHandle,
    /// The term dictionary, posting and position accumulator.
    pub postings: PostingsSerializer,
    /// The document store accumulator.
    pub store: StoreWriter,
}

impl SegmentSerializer {
    /// The segment this serializer writes.
    pub open spec fn segment_id_spec(&self) -> u64 {
        self.segment_id
    }

    /// Each handle was opened on the segment's own file path.
    pub open spec fn wf(&self) -> bool {
        &&& self.h_term.path_spec() == file_path_spec(self.segment_id, TAG_TERM)
        &&& self.h_idx.path_spec() == file_path_spec(self.segment_id, TAG_IDX)
        &&& self.h_pos.path_spec() == file_path_spec(self.segment_id, TAG_POS)
        &&& self.h_fast.path_spec() == file_path_spec(self.segment_id, TAG_FAST)
        &&& self.h_norm.path_spec() == file_path_spec(self.segment_id, TAG_NORM)
        &&& self.h_store.path_spec() == file_path_spec(self.segment_id, TAG_STORE)
        &&& self.h_term.data_spec() == Seq::<u8>::empty()
        &&& self.h_idx.data_spec() == Seq::<u8>::empty()
        &&& self.h_pos.data_spec() == Seq::<u8>::empty()
        &&& self.h_fast.data_spec() == Seq::<u8>::empty()
        &&& self.h_norm.data_spec() == Seq::<u8>::empty()
        &&& self.h_store.data_spec() == Seq::<u8>::empty()
    }

    /// Creates the segment's six files and returns their grouped writer.
    pub fn for_segment(dir: &mut RamDirectory, segment: &Segment) -> (r: Result<
        SegmentSerializer,
        TantivyError,
    >)
        requires
            old(dir).wf(),
        ensures
            final(dir).wf(),
            forall|p: Seq<u8>| final(dir).lock_held(p) == old(dir).lock_held(p),
            final(dir).watches_spec() == old(dir).watches_spec(),
            r.is_ok() <==> segment_files_absent(old(dir).files_spec(), segment.id),
            match r {
                Ok(s) => {
                    &&& s.wf()
                    &&& s.segment_id_spec() == segment.id
                    &&& s.postings.wf()
                    &&& s.postings.dict_spec().len() == 0
                    &&& s.postings.models_spec().len() == 0
                    &&& s.store.buf_spec() == Seq::<u8>::empty()
                    &&& segment_files_created(
                        old(dir).files_spec(),
                        final(dir).files_spec(),
                        segment.id,
                    )
                },
                Err(e) => e == TantivyError::FileAlreadyExists && *final(dir) == *old(dir),
            },
    {
        proof {
            lemma_tag_paths_distinct_all(segment.id);
        }
        if dir.file_exists(file_path(segment.id, TAG_TERM).as_slice()) || dir.file_exists(
            file_path(segment.id, TAG_IDX).as_slice(),
        ) || dir.file_exists(file_path(segment.id, TAG_POS).as_slice()) || dir.file_exists(
            file_path(segment.id, TAG_FAST).as_slice(),
        ) || dir.file_exists(file_path(segment.id, TAG_NORM).as_slice()) || dir.file_exists(
            file_path(segment.id, TAG_STORE).as_slice(),
        ) {
            return Err(TantivyError::FileAlreadyExists);
        }
        let h_term = match dir.open_write(file_path(segment.id, TAG_TERM).as_slice()) {
            Ok(h) => h,
            Err(e) => {
                proof {
                    assert(false);
                }
                return Err(TantivyError::FileAlreadyExists);
            },
        };
        let h_idx = match dir.open_write(file_path(segment.id, TAG_IDX).as_slice()) {
            Ok(h) => h,
            Err(e) => {
                proof {
                    assert(false);
                }
                return Err(TantivyError::FileAlreadyExists);
            },
        };
        let h_pos = match dir.open_write(file_path(segment.id, TAG_POS).as_slice()) {
            Ok(h) => h,
            Err(e) => {
                proof {
                    assert(false);
                }
                return Err(TantivyError::FileAlreadyExists);
            },
        };
        let h_fast = match dir.open_write(file_path(segment.id, TAG_FAST).as_slice()) {
            Ok(h) => h,
            Err(e) => {
                proof {
                    assert(false);
                }
                return Err(TantivyError::FileAlreadyExists);
            },
        };
        let h_norm = match dir.open_write(file_path(segment.id, TAG_NORM).as_slice()) {
            Ok(h) => h,
            Err(e) => {
                proof {
                    assert(false);
                }
                return Err(TantivyError::FileAlreadyExists);
            },
        };
        let h_store = match dir.open_write(file_path(segment.id, TAG_STORE).as_slice()) {
            Ok(h) => h,
            Err(e) => {
                proof {
                    assert(false);
                }
                return Err(TantivyError::FileAlreadyExists);
            },
        };
        Ok(
            SegmentSerializer {
                segment_id: segment.id,
                h_term,
                h_idx,
                h_pos,
                h_fast,
                h_norm,
                h_store,
                postings: PostingsSerializer::new(),
                store: StoreWriter::new(),
            },
        )
    }

    /// Flushes and seals the segment's files in the fixed order: postings
    /// and terms, then fast fields, then field norms, then the store.
    pub fn close(self, dir: &mut RamDirectory, fast_bytes: &[u8], norm_bytes: &[u8]) -> (r: Result<
        (),
        TantivyError,
    >)
        requires
            old(dir).wf(),
            self.wf(),
        ensures
            final(dir).wf(),
            r.is_ok(),
            forall|p: Seq<u8>| final(dir).lock_held(p) == old(dir).lock_held(p),
            final(dir).watches_spec() == old(dir).watches_spec(),
            final(dir).files_spec() == old(dir).files_spec().insert(
                file_path_spec(self.segment_id_spec(), TAG_TERM),
                self.postings.terms_spec(),
            ).insert(
                file_path_spec(self.segment_id_spec(), TAG_IDX),
                self.postings.postings_spec(),
            ).insert(
                file_path_spec(self.segment_id_spec(), TAG_POS),
                self.postings.positions_spec(),
            ).insert(file_path_spec(self.segment_id_spec(), TAG_FAST), fast_bytes@).insert(
                file_path_spec(self.segment_id_spec(), TAG_NORM),
                norm_bytes@,
            ).insert(file_path_spec(self.segment_id_spec(), TAG_STORE), self.store.buf_spec()),
    {
        let ghost gid = self.segment_id_spec();
        let ghost gterms = self.postings.terms_spec();
        let ghost gpostings = self.postings.postings_spec();
        let ghost gpositions = self.postings.positions_spec();
        let ghost gstore = self.store.buf_spec();
        let SegmentSerializer {
            segment_id,
            mut h_term,
            mut h_idx,
            mut h_pos,
            mut h_fast,
            mut h_norm,
            mut h_store,
            postings,
            store,
        } = self;
        let (terms, idx, pos) = postings.into_buffers();
        h_term.write_all(terms.as_slice());
        h_idx.write_all(idx.as_slice());
        h_pos.write_all(pos.as_slice());
        h_fast.write_all(fast_bytes);
        h_norm.write_all(norm_bytes);
        let store_buf = store.into_buf();
        h_store.write_all(store_buf.as_slice());
        let r1 = dir.flush(h_idx);
        let r2 = dir.flush(h_term);
        let r3 = dir.flush(h_fast);
        let r4 = dir.flush(h_norm);
        let r5 = dir.flush(h_store);
        let r6 = dir.flush(h_pos);
        proof {
            lemma_tag_paths_distinct_all(gid);
            assert(h_term.data_spec() =~= gterms);
            assert(h_idx.data_spec() =~= gpostings);
            assert(h_pos.data_spec() =~= gpositions);
            assert(h_fast.data_spec() =~= fast_bytes@);
            assert(h_norm.data_spec() =~= norm_bytes@);
            assert(h_store.data_spec() =~= gstore);
            assert(dir.files_spec() =~= old(dir).files_spec().insert(
                file_path_spec(gid, TAG_TERM),
                gterms,
            ).insert(file_path_spec(gid, TAG_IDX), gpostings).insert(
                file_path_spec(gid, TAG_POS),
                gpositions,
            ).insert(file_path_spec(gid, TAG_FAST), fast_bytes@).insert(
                file_path_spec(gid, TAG_NORM),
                norm_bytes@,
            ).insert(file_path_spec(gid, TAG_STORE), gstore));
        }
        Ok(())
    }
}

pub proof fn lemma_tag_paths_distinct(id: u64, t1: u8, t2: u8)
    requires
        t1 != t2,
    ensures
        file_path_spec(id, t1) != file_path_spec(id, t2),
{
    assert(file_path_spec(id, t1)[8] == t1);
    assert(file_path_spec(id, t2)[8] == t2);
}

pub proof fn lemma_tag_paths_distinct_all(id: u64)
    ensures
        forall|t1: u8, t2: u8|
            t1 != t2 ==> #[trigger] file_path_spec(id, t1) != #[trigger] file_path_spec(id, t2),
{
    assert forall|t1: u8, t2: u8|
        t1 != t2 implies #[trigger] file_path_spec(id, t1) != #[trigger] file_path_spec(
        id,
        t2,
    ) by {
        lemma_tag_paths_distinct(id, t1, t2);
    }
}

} // verus!
