//! The segment writer: ingests documents against a schema, routing text
//! tokens and numeric terms to the postings writer, per-doc values to the
//! fast-field writers, token counts to the field norms, and stored values
//! to the document store; `finalize` lays the segment out as directory
//! files.

use vstd::prelude::*;
use crate::directory::RamDirectory;
use crate::error::TantivyError;
use crate::fastfield::FastFieldsWriter;
use crate::fieldnorm::FieldNormsWriter;
use crate::fieldnorm::norms_file_bytes;
use crate::postings::MultiFieldPostingsWriter;
use crate::postings::RecordMode;
use crate::postings::table_size_spec;
use crate::postings::compute_table_size;
use crate::postings::dict_bytes;
use crate::postings::pfile_bytes;
use crate::schema::AddOperation;
use crate::schema::FieldType;
use crate::schema::Schema;
use crate::schema::FieldValue;
use crate::schema::Value;
use crate::serializer::Segment;
use crate::serializer::SegmentSerializer;
use crate::serializer::file_path_spec;
use crate::serializer::TAG_TERM;
use crate::serializer::TAG_IDX;
use crate::serializer::TAG_POS;
use crate::serializer::TAG_FAST;
use crate::serializer::TAG_NORM;
use crate::serializer::TAG_STORE;
use crate::term::Term;
use crate::term::lex_lt;
use crate::tokenizer::tokenize;
use crate::tokenizer::facet_tokens;

verus! {

/// Computes the initial size of the hash table as a number of bits `b`:
/// the largest `b >= 10` whose table takes less than a third of the
/// per-thread memory budget, capped at `19`; a budget too small for `b =
/// 10` is refused.
#[verifier::loop_isolation(false)]
pub fn initial_table_size(per_thread_memory_budget: usize) -> (r: Result<usize, TantivyError>)
    ensures
        match r {
            Ok(b) => {
                &&& 10 <= b <= 19
                &&& table_size_spec(b as nat) < per_thread_memory_budget as int / 3
                &&& (b < 19 ==> table_size_spec((b + 1) as nat) >= per_thread_memory_budget as int
                    / 3)
            },
            Err(e) => {
                &&& e == TantivyError::InvalidArgument
                &&& table_size_spec(10) >= per_thread_memory_budget as int / 3
            },
        },
{
    let table_memory_upper_bound = per_thread_memory_budget / 3;
    if compute_table_size(10) >= table_memory_upper_bound {
        return Err(TantivyError::InvalidArgument);
    }
    let mut num_bits: usize = 10;
    while num_bits < 19 && compute_table_size(num_bits + 1) < table_memory_upper_bound
        invariant
            10 <= num_bits <= 19,
            table_size_spec(num_bits as nat) < table_memory_upper_bound,
        decreases 19 - num_bits,
    {
        num_bits = num_bits + 1;
    }
    Ok(num_bits)
}

/// Whether a value's variant agrees with its field's declared type.
pub open spec fn value_matches(t: FieldType, v: Value) -> bool {
    match (t, v) {
        (FieldType::Str(o), Value::Str(b)) => true,
        (FieldType::U64(o), Value::U64(x)) => true,
        (FieldType::I64(o), Value::I64(x)) => true,
        (FieldType::F64(o), Value::F64(m)) => true,
        (FieldType::Date(o), Value::Date(t0)) => true,
        (FieldType::HierarchicalFacet, Value::Facet(b)) => true,
        (FieldType::Bytes, Value::Bytes(b)) => true,
        _ => false,
    }
}

/// A text field that carries indexing options (and so a norm stream).
pub open spec fn indexed_str(t: FieldType) -> bool {
    match t {
        FieldType::Str(o) => o.indexing.is_some(),
        _ => false,
    }
}

/// The term bytes an indexed numeric value subscribes: the field prefix,
/// then the value's order-preserving big-endian encoding.
pub open spec fn numeric_term_bytes(field: u32, v: Value) -> Seq<u8> {
    match v {
        Value::U64(x) => crate::term::field_prefix_spec(field) + crate::term::be_bytes8_spec(x),
        Value::I64(x) => crate::term::field_prefix_spec(field) + crate::term::be_bytes8_spec(
            crate::term::i64_to_u64_spec(x),
        ),
        Value::F64(m) => crate::term::field_prefix_spec(field) + crate::term::be_bytes8_spec(m),
        Value::Date(t0) => crate::term::field_prefix_spec(field) + crate::term::be_bytes8_spec(
            crate::term::i64_to_u64_spec(t0),
        ),
        _ => Seq::empty(),
    }
}

/// A numeric or date value carried by a value variant.
pub open spec fn is_numeric_value(v: Value) -> bool {
    match v {
        Value::U64(x) => true,
        Value::I64(x) => true,
        Value::F64(m) => true,
        Value::Date(t0) => true,
        _ => false,
    }
}

/// A value that an indexed numeric field turns into a term.
pub open spec fn value_is_indexed_numeric(t: FieldType, v: Value) -> bool {
    match (t, v) {
        (FieldType::U64(o), Value::U64(x)) => o.indexed,
        (FieldType::I64(o), Value::I64(x)) => o.indexed,
        (FieldType::F64(o), Value::F64(m)) => o.indexed,
        (FieldType::Date(o), Value::Date(t0)) => o.indexed,
        _ => false,
    }
}

/// The encoded path bytes of a facet value, empty for any other variant.
pub open spec fn facet_bytes_of(v: Value) -> Seq<u8> {
    match v {
        Value::Facet(b) => b@,
        _ => Seq::empty(),
    }
}

/// Whether a value is a facet path.
pub open spec fn is_facet_value(v: Value) -> bool {
    match v {
        Value::Facet(b) => true,
        _ => false,
    }
}

/// The text bytes a Str value carries, empty for any other variant.
pub open spec fn str_bytes_of(v: Value) -> Seq<u8> {
    match v {
        Value::Str(b) => b@,
        _ => Seq::empty(),
    }
}

/// Whether a value is text.
pub open spec fn is_str_value(v: Value) -> bool {
    match v {
        Value::Str(b) => true,
        _ => false,
    }
}

/// The text values of `field` in the document, in document order.
pub open spec fn str_values_of(vals: Seq<FieldValue>, field: u32) -> Seq<Seq<u8>>
    decreases vals.len(),
{
    if vals.len() == 0 {
        Seq::empty()
    } else {
        str_values_of(vals.drop_last(), field) + if vals.last().field == field && is_str_value(
            vals.last().value,
        ) {
            seq![str_bytes_of(vals.last().value)]
        } else {
            Seq::<Seq<u8>>::empty()
        }
    }
}

/// The indexing options of a text field, `None` for any other type.
pub open spec fn text_indexing_of(t: FieldType) -> Option<crate::schema::TextIndexing> {
    match t {
        FieldType::Str(o) => o.indexing,
        _ => None,
    }
}

/// The token count an indexed text field records for one document: the
/// tokens its tokenizer yields over the field's text values, saturating at
/// the counter's width.
pub open spec fn norm_count_spec(types: Seq<FieldType>, vals: Seq<FieldValue>, field: u32) -> u32 {
    match text_indexing_of(types[field as int]) {
        Some(ix) => {
            if crate::tokenizer::tokens_of(ix.tokenizer, str_values_of(vals, field)).len()
                > u32::MAX {
                u32::MAX
            } else {
                crate::tokenizer::tokens_of(
                    ix.tokenizer,
                    str_values_of(vals, field),
                ).len() as u32
            }
        },
        None => 0u32,
    }
}

/// The order-preserving `u64` image of a numeric value, zero for any
/// other variant.
pub open spec fn numeric_mapping_of(v: Value) -> u64 {
    match v {
        Value::U64(x) => x,
        Value::I64(x) => crate::term::i64_to_u64_spec(x),
        Value::F64(m) => m,
        Value::Date(t0) => crate::term::i64_to_u64_spec(t0),
        _ => 0u64,
    }
}

/// The value a single fast column records for one document: the mapping of
/// the field's first numeric value, or zero when the field is absent.
pub open spec fn first_numeric_mapping(vals: Seq<FieldValue>, field: u32) -> u64
    decreases vals.len(),
{
    if vals.len() == 0 {
        0u64
    } else if vals[0].field == field && is_numeric_value(vals[0].value) {
        numeric_mapping_of(vals[0].value)
    } else {
        first_numeric_mapping(vals.skip(1), field)
    }
}

/// A numeric or date field marked fast: it owns a single-valued column.
pub open spec fn fast_numeric(t: FieldType) -> bool {
    match t {
        FieldType::U64(o) => o.fast,
        FieldType::I64(o) => o.fast,
        FieldType::F64(o) => o.fast,
        FieldType::Date(o) => o.fast,
        _ => false,
    }
}

/// The indexed text fields of a schema, in field-id order: the fields
/// that own a norm stream.
pub open spec fn text_fields_of(types: Seq<FieldType>) -> Seq<u32>
    decreases types.len(),
{
    if types.len() == 0 {
        Seq::empty()
    } else {
        text_fields_of(types.drop_last()) + if indexed_str(types.last()) {
            seq![(types.len() - 1) as u32]
        } else {
            Seq::empty()
        }
    }
}

/// The fast numeric fields of a schema, in field-id order: the fields
/// that own a single-valued column.
pub open spec fn fast_single_fields_of(types: Seq<FieldType>) -> Seq<u32>
    decreases types.len(),
{
    if types.len() == 0 {
        Seq::empty()
    } else {
        fast_single_fields_of(types.drop_last()) + if fast_numeric(types.last()) {
            seq![(types.len() - 1) as u32]
        } else {
            Seq::empty()
        }
    }
}

/// The facet fields of a schema, in field-id order: the fields that own a
/// multi-valued column.
pub open spec fn facet_fields_of(types: Seq<FieldType>) -> Seq<u32>
    decreases types.len(),
{
    if types.len() == 0 {
        Seq::empty()
    } else {
        facet_fields_of(types.drop_last()) + if types.last() == FieldType::HierarchicalFacet {
            seq![(types.len() - 1) as u32]
        } else {
            Seq::empty()
        }
    }
}

/// Every value of the document names a schema field and agrees with its
/// type.
pub open spec fn doc_matches_schema(vals: Seq<FieldValue>, types: Seq<FieldType>) -> bool {
    forall|w: int|
        0 <= w < vals.len() ==> (((#[trigger] vals[w]).field as int) < types.len()
            && value_matches(types[vals[w].field as int], vals[w].value))
}

/// A `SegmentWriter` builds one immutable segment from a stream of
/// documents: it owns the postings, fast-field, field-norm and store
/// builders until `finalize` consumes it. Consuming `finalize` is the one
/// entry to the serializer fan-out: a non-consuming snapshot write is
/// deliberately not offered, since a writer written out twice would race
/// the exclusive creation of its own files.
pub struct SegmentWriter {
    max_doc: u32,
    multifield_postings: MultiFieldPostingsWriter,
    segment_serializer: SegmentSerializer,
    fast_field_writers: FastFieldsWriter,
    fieldnorms_writer: FieldNormsWriter,
    doc_opstamps: Vec<u64>,
    schema_types: Vec<FieldType>,
    stored_flags: Vec<bool>,
    single_fast_fields: Vec<u32>,
    abandoned: bool,
}

impl SegmentWriter {
    /// The number of documents added so far.
    pub closed spec fn max_doc_spec(&self) -> u32 {
        self.max_doc
    }

    /// The opstamps of the added documents, in document order.
    pub closed spec fn opstamps_spec(&self) -> Seq<u64> {
        self.doc_opstamps@
    }

    /// Whether an ingest error has abandoned this segment: an abandoned
    /// writer refuses to finalize.
    pub closed spec fn abandoned_spec(&self) -> bool {
        self.abandoned
    }

    /// The number of schema fields the writer was built for.
    pub closed spec fn num_fields_spec(&self) -> int {
        self.schema_types@.len() as int
    }

    /// The field types the writer was built for.
    pub closed spec fn schema_types_spec(&self) -> Seq<FieldType> {
        self.schema_types@
    }

    /// The distinct terms seen so far, by unordered term id.
    pub closed spec fn terms_spec(&self) -> Seq<Seq<u8>> {
        self.multifield_postings.keys()
    }

    /// The number of text fields carrying norms.
    pub closed spec fn norm_field_count_spec(&self) -> int {
        self.fieldnorms_writer.fields_spec().len() as int
    }

    /// The chosen table-size exponent.
    pub closed spec fn table_num_bits_spec(&self) -> usize {
        self.multifield_postings.num_bits_spec()
    }

    /// The segment being written.
    pub closed spec fn segment_id_spec(&self) -> u64 {
        self.segment_serializer.segment_id
    }

    /// The document-store bytes accumulated so far.
    pub closed spec fn store_spec(&self) -> Seq<u8> {
        self.segment_serializer.store.buf_spec()
    }

    /// Which fields the store keeps, by field id.
    pub closed spec fn stored_flags_spec(&self) -> Seq<bool> {
        self.stored_flags@
    }

    /// The fast-field columns.
    pub closed spec fn fast_spec(&self) -> FastFieldsWriter {
        self.fast_field_writers
    }

    /// The text fields that own norm streams, in field-id order.
    pub closed spec fn norm_fields_spec(&self) -> Seq<u32> {
        self.fieldnorms_writer.fields_spec()
    }

    /// The field-norm streams, aligned with the writer's text fields.
    pub closed spec fn norm_stream_spec(&self, i: int) -> Seq<u8> {
        self.fieldnorms_writer.norms_spec()[i]
    }

    /// The posting model recorded for unordered term id `u`.
    pub closed spec fn rec_model_spec(&self, u: int) -> Seq<(u32, u32, Seq<u32>)> {
        self.multifield_postings.rec_model(u)
    }

    /// Internal consistency of all builders.
    pub closed spec fn wf(&self) -> bool {
        &&& self.multifield_postings.wf()
        &&& self.doc_opstamps@.len() == self.max_doc as int
        &&& self.max_doc <= 0x7fffffff
        &&& self.multifield_postings.docs_lt(self.max_doc as int + 1)
        &&& (!self.abandoned ==> self.multifield_postings.docs_lt(self.max_doc as int))
        &&& self.fieldnorms_writer.wf()
        &&& self.fieldnorms_writer.lens_le(self.max_doc as int + 1)
        &&& (!self.abandoned ==> self.fieldnorms_writer.lens_le(self.max_doc as int))
        &&& self.fast_field_writers.ids_lt(self.multifield_postings.keys().len() as int)
        &&& self.fast_field_writers.single_fields() == self.single_fast_fields@
        &&& self.segment_serializer.wf()
        &&& self.segment_serializer.postings.wf()
        &&& self.segment_serializer.postings.dict_spec().len() == 0
        &&& self.segment_serializer.postings.models_spec().len() == 0
        &&& self.stored_flags@.len() == self.schema_types@.len()
        &&& self.schema_types@.len() <= u32::MAX
        &&& (!self.abandoned ==> self.fast_field_writers.doc_count_is(self.max_doc as int))
        &&& forall|i: int|
            0 <= i < self.fieldnorms_writer.fields_spec().len() ==> ((
            #[trigger] self.fieldnorms_writer.fields_spec()[i] as int) < self.schema_types@.len()
                && indexed_str(self.schema_types@[self.fieldnorms_writer.fields_spec()[i] as int]))
    }

    /// The chosen table-size exponent, observable for sizing checks.
    pub fn table_num_bits(&self) -> (r: usize)
        ensures
            r == self.table_num_bits_spec(),
    {
        self.multifield_postings.num_bits()
    }

    /// Max doc: the number of documents in the segment, and the largest
    /// doc id plus one. Deletes are not handled at this layer, so it
    /// equals `num_docs`.
    pub fn max_doc(&self) -> (r: u32)
        requires
            self.wf(),
        ensures
            r == self.max_doc_spec(),
            r <= 0x7fffffff,
    {
        self.max_doc
    }

    /// Number of documents in the segment; deletes are not handled at this
    /// layer, so `num_docs == max_doc`.
    pub fn num_docs(&self) -> (r: u32)
        requires
            self.wf(),
        ensures
            r == self.max_doc_spec(),
            r <= 0x7fffffff,
    {
        self.max_doc
    }

    /// The bytes the postings builders take; the figure the outer writer
    /// compares to the budget to decide flushing.
    pub closed spec fn mem_usage_spec(&self) -> int {
        self.multifield_postings.mem_usage_spec()
    }

    /// Bytes held by the term hash table and its arenas, saturating at the
    /// address space; repeated calls without an intervening `add_document`
    /// agree, and the figure never falls below the table's own size.
    pub fn mem_usage(&self) -> (r: usize)
        requires
            self.wf(),
        ensures
            r == if self.mem_usage_spec() > usize::MAX as int {
                usize::MAX as int
            } else {
                self.mem_usage_spec()
            },
            r >= table_size_spec(self.table_num_bits_spec() as nat),
    {
        self.multifield_postings.mem_usage()
    }

    /// Creates a writer for `segment`: picks the table size from the
    /// memory budget, creates the segment's files, and derives the
    /// per-field builders from the schema.
    #[verifier::loop_isolation(false)]
    pub fn for_segment(
        memory_budget: usize,
        segment: Segment,
        schema: &Schema,
        dir: &mut RamDirectory,
    ) -> (r: Result<SegmentWriter, TantivyError>)
        requires
            old(dir).wf(),
        ensures
            final(dir).wf(),
            forall|p: Seq<u8>| final(dir).lock_held(p) == old(dir).lock_held(p),
            final(dir).watches_spec() == old(dir).watches_spec(),
            r.is_ok() <==> table_size_spec(10) < memory_budget as int / 3 && schema.fields@.len()
                <= u32::MAX && crate::serializer::segment_files_absent(
                old(dir).files_spec(),
                segment.id,
            ),
            match r {
                Ok(w) => {
                    &&& crate::serializer::segment_files_created(
                        old(dir).files_spec(),
                        final(dir).files_spec(),
                        segment.id,
                    )
                    &&& w.wf()
                    &&& w.max_doc_spec() == 0
                    &&& w.opstamps_spec() == Seq::<u64>::empty()
                    &&& !w.abandoned_spec()
                    &&& w.terms_spec() == Seq::<Seq<u8>>::empty()
                    &&& w.schema_types_spec().len() == schema.fields@.len()
                    &&& (forall|i: int|
                        0 <= i < schema.fields@.len() ==> w.schema_types_spec()[i] == (
                        #[trigger] schema.fields@[i]).field_type)
                    &&& 10 <= w.table_num_bits_spec() <= 19
                    &&& table_size_spec(w.table_num_bits_spec() as nat) < memory_budget as int / 3
                    &&& (w.table_num_bits_spec() < 19 ==> table_size_spec(
                        (w.table_num_bits_spec() + 1) as nat,
                    ) >= memory_budget as int / 3)
                    &&& w.segment_id_spec() == segment.id
                    &&& w.norm_fields_spec() == text_fields_of(w.schema_types_spec())
                    &&& w.fast_spec().single_fields() == fast_single_fields_of(
                        w.schema_types_spec(),
                    )
                    &&& w.fast_spec().multi_fields() == facet_fields_of(w.schema_types_spec())
                },
                Err(e) => {
                    &&& *final(dir) == *old(dir)
                    &&& (e == TantivyError::InvalidArgument <==> (table_size_spec(10)
                        >= memory_budget as int / 3 || schema.fields@.len() > u32::MAX))
                    &&& (e == TantivyError::InvalidArgument || e
                        == TantivyError::FileAlreadyExists)
                },
            },
    {
        let table_num_bits = match initial_table_size(memory_budget) {
            Ok(b) => b,
            Err(e) => {
                return Err(e);
            },
        };
        let nf = schema.num_fields();
        if nf > u32::MAX as usize {
            return Err(TantivyError::InvalidArgument);
        }
        let segment_serializer = match SegmentSerializer::for_segment(dir, &segment) {
            Ok(s) => s,
            Err(e) => {
                proof {
                    crate::postings::lemma_table_size_monotone(10, table_num_bits as nat);
                    assert(!crate::serializer::segment_files_absent(
                        old(dir).files_spec(),
                        segment.id,
                    ));
                    assert(*dir == *old(dir));
                    assert(e == TantivyError::FileAlreadyExists);
                }
                return Err(e);
            },
        };
        let multifield_postings = MultiFieldPostingsWriter::new(table_num_bits);
        let mut schema_types: Vec<FieldType> = Vec::new();
        let mut stored_flags: Vec<bool> = Vec::new();
        let mut text_fields: Vec<u32> = Vec::new();
        let mut single_fast_fields: Vec<u32> = Vec::new();
        let mut facet_fields: Vec<u32> = Vec::new();
        let mut i: usize = 0;
        while i < nf
            invariant
                i <= nf,
                nf == schema.fields@.len(),
                nf <= u32::MAX,
                schema_types@.len() == i,
                stored_flags@.len() == i,
                forall|j: int|
                    0 <= j < i ==> schema_types@[j] == (#[trigger] schema.fields@[j]).field_type,
                forall|j: int|
                    0 <= j < text_fields@.len() ==> (((#[trigger] text_fields@[j]) as int) < i
                        && indexed_str(schema_types@[text_fields@[j] as int])),
                text_fields@ == text_fields_of(schema_types@),
                single_fast_fields@ == fast_single_fields_of(schema_types@),
                facet_fields@ == facet_fields_of(schema_types@),
            decreases nf - i,
        {
            let ft = schema.fields[i].field_type;
            let ghost tpre = schema_types@;
            let ghost txpre = text_fields@;
            let ghost sfpre = single_fast_fields@;
            let ghost fcpre = facet_fields@;
            schema_types.push(ft);
            match ft {
                FieldType::Str(opts) => {
                    stored_flags.push(opts.stored);
                    if opts.indexing.is_some() {
                        if i <= u32::MAX as usize {
                            text_fields.push(i as u32);
                        }
                    }
                },
                FieldType::U64(opts) => {
                    stored_flags.push(opts.stored);
                    if opts.fast && i <= u32::MAX as usize {
                        single_fast_fields.push(i as u32);
                    }
                },
                FieldType::I64(opts) => {
                    stored_flags.push(opts.stored);
                    if opts.fast && i <= u32::MAX as usize {
                        single_fast_fields.push(i as u32);
                    }
                },
                FieldType::F64(opts) => {
                    stored_flags.push(opts.stored);
                    if opts.fast && i <= u32::MAX as usize {
                        single_fast_fields.push(i as u32);
                    }
                },
                FieldType::Date(opts) => {
                    stored_flags.push(opts.stored);
                    if opts.fast && i <= u32::MAX as usize {
                        single_fast_fields.push(i as u32);
                    }
                },
                FieldType::HierarchicalFacet => {
                    stored_flags.push(false);
                    if i <= u32::MAX as usize {
                        facet_fields.push(i as u32);
                    }
                },
                FieldType::Bytes => {
                    stored_flags.push(false);
                },
            }
            proof {
                assert(schema_types@.drop_last() =~= tpre);
                assert(text_fields_of(schema_types@) =~= text_fields_of(tpre) + (
                if indexed_str(ft) {
                    seq![i as u32]
                } else {
                    Seq::<u32>::empty()
                }));
                assert(fast_single_fields_of(schema_types@) =~= fast_single_fields_of(tpre) + (
                if fast_numeric(ft) {
                    seq![i as u32]
                } else {
                    Seq::<u32>::empty()
                }));
                assert(facet_fields_of(schema_types@) =~= facet_fields_of(tpre) + (
                if ft == FieldType::HierarchicalFacet {
                    seq![i as u32]
                } else {
                    Seq::<u32>::empty()
                }));
                if indexed_str(ft) {
                    assert(text_fields@ =~= txpre.push(i as u32));
                    assert(text_fields@ =~= text_fields_of(schema_types@));
                } else {
                    assert(text_fields@ =~= text_fields_of(schema_types@));
                }
                if fast_numeric(ft) {
                    assert(single_fast_fields@ =~= sfpre.push(i as u32));
                    assert(single_fast_fields@ =~= fast_single_fields_of(schema_types@));
                } else {
                    assert(single_fast_fields@ =~= fast_single_fields_of(schema_types@));
                }
                if ft == FieldType::HierarchicalFacet {
                    assert(facet_fields@ =~= fcpre.push(i as u32));
                    assert(facet_fields@ =~= facet_fields_of(schema_types@));
                } else {
                    assert(facet_fields@ =~= facet_fields_of(schema_types@));
                }
            }
            i = i + 1;
        }
        let fieldnorms_writer = FieldNormsWriter::for_fields(text_fields);
        let single_copy = crate::segment_writer::copy_u32s(&single_fast_fields);
        let fast_field_writers = FastFieldsWriter::new(single_copy, facet_fields);
        proof {
            crate::postings::lemma_table_size_monotone(10, table_num_bits as nat);
        }
        Ok(
            SegmentWriter {
                max_doc: 0,
                multifield_postings,
                segment_serializer,
                fast_field_writers,
                fieldnorms_writer,
                doc_opstamps: Vec::new(),
                schema_types,
                stored_flags,
                single_fast_fields,
                abandoned: false,
            },
        )
    }

    /// Indexes one document: records the opstamp, advances every fast
    /// column, dispatches each field's values on its type, appends the
    /// stored values to the store, and bumps `max_doc`. A value whose
    /// variant disagrees with its field's type is refused with
    /// `SchemaMismatch` before anything changes; a full term table
    /// abandons the segment with `TableFull`; the doc-count ceiling is
    /// refused with `InvalidArgument`.
    #[verifier::loop_isolation(false)]
    #[verifier::rlimit(100)]
    pub fn add_document(&mut self, add_operation: AddOperation, schema: &Schema) -> (r: Result<
        (),
        TantivyError,
    >)
        requires
            old(self).wf(),
            !old(self).abandoned_spec(),
            schema.fields@.len() == old(self).schema_types_spec().len(),
            forall|i: int|
                0 <= i < schema.fields@.len() ==> (#[trigger] schema.fields@[i]).field_type == old(self).schema_types_spec()[i],
        ensures
            final(self).wf(),
            final(self).schema_types_spec() == old(self).schema_types_spec(),
            final(self).norm_field_count_spec() == old(self).norm_field_count_spec(),
            final(self).segment_id_spec() == old(self).segment_id_spec(),
            final(self).table_num_bits_spec() == old(self).table_num_bits_spec(),
            final(self).stored_flags_spec() == old(self).stored_flags_spec(),
            final(self).max_doc_spec() <= 0x7fffffff,
            r == Err::<(), TantivyError>(TantivyError::SchemaMismatch) <==> !doc_matches_schema(
                add_operation.document.field_values@,
                old(self).schema_types_spec(),
            ),
            r == Err::<(), TantivyError>(TantivyError::InvalidArgument) <==> doc_matches_schema(
                add_operation.document.field_values@,
                old(self).schema_types_spec(),
            ) && old(self).max_doc_spec() == 0x7fffffff,
            r == Err::<(), TantivyError>(TantivyError::TableFull) ==> final(self).terms_spec().len()
                == crate::stacker::pow2_spec(old(self).table_num_bits_spec() as nat) && final(self).abandoned_spec(),
            match r {
                Ok(u) => {
                    &&& final(self).max_doc_spec() == old(self).max_doc_spec() + 1
                    &&& final(self).opstamps_spec() == old(self).opstamps_spec().push(
                        add_operation.opstamp,
                    )
                    &&& final(self).abandoned_spec() == old(self).abandoned_spec()
                    &&& final(self).store_spec() == old(self).store_spec() + crate::postings::vint_spec(
                        crate::serializer::stored_count(
                            add_operation.document.field_values@,
                            old(self).stored_flags_spec(),
                        ) as nat,
                    ) + crate::serializer::stored_doc_bytes(
                        add_operation.document.field_values@,
                        old(self).stored_flags_spec(),
                    )
                    &&& forall|i: int|
                        0 <= i < final(self).fast_spec().single_fields().len() ==> (
                        #[trigger] final(self).fast_spec().single_vals(i)).len() == old(
                            self,
                        ).max_doc_spec() + 1
                    &&& forall|i: int|
                        0 <= i < final(self).fast_spec().single_fields().len() ==> (
                        #[trigger] final(self).fast_spec().single_vals(i)).last()
                        == first_numeric_mapping(
                        add_operation.document.field_values@,
                        final(self).fast_spec().single_fields()[i],
                    )
                    &&& forall|i: int|
                        0 <= i < final(self).fast_spec().multi_fields().len() ==> (
                        #[trigger] final(self).fast_spec().multi_rows(i)).len() == old(
                            self,
                        ).max_doc_spec() + 1
                    &&& forall|i: int|
                        0 <= i < final(self).norm_field_count_spec() ==> (
                        #[trigger] final(self).norm_stream_spec(i)).len() == old(
                            self,
                        ).max_doc_spec() + 1 && final(self).norm_stream_spec(i)[old(self).max_doc_spec() as int]
                        == crate::fieldnorm::quantize_spec(
                        norm_count_spec(
                            old(self).schema_types_spec(),
                            add_operation.document.field_values@,
                            old(self).norm_fields_spec()[i],
                        ),
                    )
                    &&& forall|w: int|
                        0 <= w < add_operation.document.field_values@.len()
                            && value_is_indexed_numeric(
                            old(self).schema_types_spec()[(
                            #[trigger] add_operation.document.field_values@[w]).field as int],
                            add_operation.document.field_values@[w].value,
                        ) ==> final(self).terms_spec().contains(
                            numeric_term_bytes(
                                add_operation.document.field_values@[w].field,
                                add_operation.document.field_values@[w].value,
                            ),
                        )
                    &&& forall|w: int, t: int|
                        0 <= w < add_operation.document.field_values@.len() && old(
                            self,
                        ).schema_types_spec()[add_operation.document.field_values@[w].field as int]
                            == FieldType::HierarchicalFacet && is_facet_value(
                            add_operation.document.field_values@[w].value,
                        ) && 0 <= t < crate::tokenizer::facet_tokens_spec(
                            facet_bytes_of(add_operation.document.field_values@[w].value),
                        ).len() ==> final(self).terms_spec().contains(
                            crate::term::field_prefix_spec(
                                add_operation.document.field_values@[w].field,
                            ) + (#[trigger] crate::tokenizer::facet_tokens_spec(
                                facet_bytes_of(
                                    (#[trigger] add_operation.document.field_values@[w]).value,
                                ),
                            )[t]),
                        )
                },
                Err(e) => {
                    &&& final(self).max_doc_spec() == old(self).max_doc_spec()
                    &&& final(self).opstamps_spec() == old(self).opstamps_spec()
                    &&& (e == TantivyError::SchemaMismatch || e == TantivyError::TableFull || e
                        == TantivyError::InvalidArgument)
                },
            },
    {
        let nf = self.schema_types.len();
        let nvals = add_operation.document.field_values.len();
        let ghost vals = add_operation.document.field_values@;
        let ghost types = self.schema_types@;
        // validation pass: every value's variant must agree with its
        // field's type, and every field must be in the schema
        let mut v: usize = 0;
        while v < nvals
            invariant
                v <= nvals,
                nvals == vals.len(),
                vals == add_operation.document.field_values@,
                nf == self.schema_types@.len(),
                types == self.schema_types@,
                *self == *old(self),
                forall|w: int|
                    0 <= w < v ==> (((#[trigger] vals[w]).field as int) < types.len()
                        && value_matches(types[vals[w].field as int], vals[w].value)),
            decreases nvals - v,
        {
            let fv = &add_operation.document.field_values[v];
            if (fv.field as usize) >= nf {
                proof {
                    assert(!doc_matches_schema(vals, types));
                }
                return Err(TantivyError::SchemaMismatch);
            }
            let ok = match (self.schema_types[fv.field as usize], &fv.value) {
                (FieldType::Str(o), Value::Str(b)) => true,
                (FieldType::U64(o), Value::U64(x)) => true,
                (FieldType::I64(o), Value::I64(x)) => true,
                (FieldType::F64(o), Value::F64(m)) => true,
                (FieldType::Date(o), Value::Date(t)) => true,
                (FieldType::HierarchicalFacet, Value::Facet(b)) => true,
                (FieldType::Bytes, Value::Bytes(b)) => true,
                _ => false,
            };
            if !ok {
                proof {
                    assert(!value_matches(types[vals[v as int].field as int], vals[v as int].value));
                    assert(!doc_matches_schema(vals, types));
                }
                return Err(TantivyError::SchemaMismatch);
            }
            v = v + 1;
        }
        proof {
            assert(doc_matches_schema(vals, types));
        }
        let doc_id = self.max_doc;
        if doc_id >= 0x7fffffff {
            return Err(TantivyError::InvalidArgument);
        }
        // single-valued fast columns: the first matching value, mapped to
        // its order-preserving u64, or zero when the field is absent
        let mut single_vals: Vec<u64> = Vec::new();
        let mut si: usize = 0;
        while si < self.single_fast_fields.len()
            invariant
                si <= self.single_fast_fields@.len(),
                single_vals@.len() == si,
                *self == *old(self),
                nvals == add_operation.document.field_values@.len(),
                vals == add_operation.document.field_values@,
                forall|j: int|
                    0 <= j < si ==> (#[trigger] single_vals@[j]) == first_numeric_mapping(
                        vals,
                        old(self).single_fast_fields@[j],
                    ),
            decreases self.single_fast_fields@.len() - si,
        {
            let sf = self.single_fast_fields[si];
            let mut found: u64 = 0;
            let mut done = false;
            let mut w: usize = 0;
            proof {
                assert(vals.skip(0) =~= vals);
            }
            while w < nvals
                invariant
                    w <= nvals,
                    nvals == vals.len(),
                    vals == add_operation.document.field_values@,
                    done ==> found == first_numeric_mapping(vals, sf),
                    !done ==> found == 0 && first_numeric_mapping(vals, sf)
                        == first_numeric_mapping(vals.skip(w as int), sf),
                decreases nvals - w,
            {
                if !done {
                    let fv = &add_operation.document.field_values[w];
                    proof {
                        assert(vals.skip(w as int)[0] == vals[w as int]);
                        assert(vals.skip(w as int).skip(1) =~= vals.skip(w as int + 1));
                    }
                    if fv.field == sf {
                        match &fv.value {
                            Value::U64(x) => {
                                found = *x;
                                done = true;
                            },
                            Value::I64(x) => {
                                found = (*x as u64) ^ 0x8000000000000000u64;
                                done = true;
                            },
                            Value::F64(m) => {
                                found = *m;
                                done = true;
                            },
                            Value::Date(t) => {
                                found = (*t as u64) ^ 0x8000000000000000u64;
                                done = true;
                            },
                            _ => {},
                        }
                    }
                }
                w = w + 1;
            }
            proof {
                if !done {
                    assert(vals.skip(nvals as int) =~= Seq::<FieldValue>::empty());
                }
                assert(found == first_numeric_mapping(vals, sf));
            }
            single_vals.push(found);
            si = si + 1;
        }
        self.fast_field_writers.advance_doc(&single_vals);
        let ghost fastadv = self.fast_field_writers;
        let ghost keys0 = self.multifield_postings.keys();
        proof {
            assert forall|i: int|
                0 <= i < self.fast_field_writers.multi_fields().len() implies (
            #[trigger] self.fast_field_writers.multi_rows(i)).len() > 0 by {}
        }
        // per-field dispatch
        let mut f: usize = 0;
        while f < nf
            invariant
                f <= nf,
                nf == self.schema_types@.len(),
                nvals == add_operation.document.field_values@.len(),
                doc_id == old(self).max_doc_spec(),
                doc_id < 0x7fffffff,
                self.max_doc == old(self).max_doc_spec(),
                self.doc_opstamps@ == old(self).opstamps_spec(),
                self.abandoned == old(self).abandoned_spec(),
                self.schema_types@ == old(self).schema_types_spec(),
                self.stored_flags@ == old(self).stored_flags@,
                self.single_fast_fields@ == old(self).single_fast_fields@,
                self.segment_serializer == old(self).segment_serializer,
                self.multifield_postings.wf(),
                self.multifield_postings.docs_lt(doc_id as int + 1),
                self.multifield_postings.num_bits_spec() == old(self).table_num_bits_spec(),
                self.fieldnorms_writer.wf(),
                self.fieldnorms_writer.fields_spec() == old(self).fieldnorms_writer.fields_spec(),
                forall|i: int|
                    0 <= i < self.fieldnorms_writer.norms_spec().len() && (
                    self.fieldnorms_writer.fields_spec()[i] as int) >= f ==> (
                    #[trigger] self.fieldnorms_writer.norms_spec()[i]).len() <= doc_id as int,
                forall|i: int|
                    0 <= i < self.fieldnorms_writer.norms_spec().len() ==> (
                    #[trigger] self.fieldnorms_writer.norms_spec()[i]).len() <= doc_id as int + 1,
                self.fast_field_writers.single_fields() == old(self).fast_field_writers.single_fields(),
                self.fast_field_writers.multi_fields() == old(self).fast_field_writers.multi_fields(),
                self.fast_field_writers.ids_lt(self.multifield_postings.keys().len() as int),
                forall|i: int|
                    0 <= i < self.fast_field_writers.multi_fields().len() ==> (
                    #[trigger] self.fast_field_writers.multi_rows(i)).len() > 0,
                forall|i: int|
                    0 <= i < self.fast_field_writers.single_fields().len() ==> (
                    #[trigger] self.fast_field_writers.single_vals(i)) == fastadv.single_vals(i),
                forall|i: int|
                    0 <= i < self.fast_field_writers.multi_fields().len() ==> (
                    #[trigger] self.fast_field_writers.multi_rows(i)).len() == fastadv.multi_rows(
                        i,
                    ).len(),
                forall|i: int|
                    0 <= i < self.fieldnorms_writer.norms_spec().len() && (
                    self.fieldnorms_writer.fields_spec()[i] as int) < f ==> (
                    #[trigger] self.fieldnorms_writer.norms_spec()[i]).len() == doc_id as int + 1
                        && self.fieldnorms_writer.norms_spec()[i][doc_id as int]
                        == crate::fieldnorm::quantize_spec(
                        norm_count_spec(types, vals, self.fieldnorms_writer.fields_spec()[i]),
                    ),
                forall|w: int|
                    0 <= w < nvals && ((#[trigger] vals[w]).field as int) < f
                        && value_is_indexed_numeric(types[vals[w].field as int], vals[w].value)
                        ==> self.multifield_postings.keys().contains(
                        numeric_term_bytes(vals[w].field, vals[w].value),
                    ),
                forall|w: int, t: int|
                    0 <= w < nvals && ((vals[w]).field as int) < f && types[vals[w].field as int]
                        == FieldType::HierarchicalFacet && is_facet_value(vals[w].value) && 0 <= t
                        < crate::tokenizer::facet_tokens_spec(facet_bytes_of(vals[w].value)).len()
                        ==> self.multifield_postings.keys().contains(
                        crate::term::field_prefix_spec(vals[w].field) + (
                        #[trigger] crate::tokenizer::facet_tokens_spec(
                            facet_bytes_of((#[trigger] vals[w]).value),
                        )[t]),
                    ),
            decreases nf - f,
        {
            let ghost fkeys = self.multifield_postings.keys();
            match self.schema_types[f] {
                FieldType::HierarchicalFacet => {
                    let mut w: usize = 0;
                    while w < nvals
                        invariant
                            w <= nvals,
                            nvals == add_operation.document.field_values@.len(),
                            f < nf,
                            doc_id < 0x7fffffff,
                            self.max_doc == old(self).max_doc_spec(),
                            self.doc_opstamps@ == old(self).opstamps_spec(),
                            self.abandoned == old(self).abandoned_spec(),
                            self.schema_types@ == old(self).schema_types_spec(),
                            self.stored_flags@ == old(self).stored_flags@,
                            self.single_fast_fields@ == old(self).single_fast_fields@,
                            self.segment_serializer == old(self).segment_serializer,
                            self.multifield_postings.wf(),
                            self.multifield_postings.docs_lt(doc_id as int + 1),
                            self.multifield_postings.num_bits_spec() == old(self).table_num_bits_spec(),
                            self.fieldnorms_writer.wf(),
                            self.fieldnorms_writer.fields_spec() == old(self).fieldnorms_writer.fields_spec(),
                            forall|i: int|
                                0 <= i < self.fieldnorms_writer.norms_spec().len() && (
                                self.fieldnorms_writer.fields_spec()[i] as int) >= f ==> (
                                #[trigger] self.fieldnorms_writer.norms_spec()[i]).len()
                                    <= doc_id as int,
                            forall|i: int|
                                0 <= i < self.fieldnorms_writer.norms_spec().len() ==> (
                                #[trigger] self.fieldnorms_writer.norms_spec()[i]).len()
                                    <= doc_id as int + 1,
                            self.fast_field_writers.single_fields() == old(self).fast_field_writers.single_fields(),
                            self.fast_field_writers.multi_fields() == old(self).fast_field_writers.multi_fields(),
                            self.fast_field_writers.ids_lt(
                                self.multifield_postings.keys().len() as int,
                            ),
                            forall|i: int|
                                0 <= i < self.fast_field_writers.multi_fields().len() ==> (
                                #[trigger] self.fast_field_writers.multi_rows(i)).len() > 0,
                            forall|i: int|
                                0 <= i < self.fast_field_writers.single_fields().len() ==> (
                                #[trigger] self.fast_field_writers.single_vals(i))
                                    == fastadv.single_vals(i),
                            forall|i: int|
                                0 <= i < self.fast_field_writers.multi_fields().len() ==> (
                                #[trigger] self.fast_field_writers.multi_rows(i)).len()
                                    == fastadv.multi_rows(i).len(),
                            forall|i: int|
                                0 <= i < self.fieldnorms_writer.norms_spec().len() && (
                                self.fieldnorms_writer.fields_spec()[i] as int) < f ==> (
                                #[trigger] self.fieldnorms_writer.norms_spec()[i]).len()
                                    == doc_id as int + 1
                                    && self.fieldnorms_writer.norms_spec()[i][doc_id as int]
                                    == crate::fieldnorm::quantize_spec(
                                    norm_count_spec(
                                        types,
                                        vals,
                                        self.fieldnorms_writer.fields_spec()[i],
                                    ),
                                ),
                            fkeys.len() <= self.multifield_postings.keys().len(),
                            forall|i2: int|
                                0 <= i2 < fkeys.len() ==> self.multifield_postings.keys()[i2]
                                    == fkeys[i2],
                            forall|w2: int, t: int|
                                0 <= w2 < w && ((vals[w2]).field as int) == f && is_facet_value(
                                    vals[w2].value,
                                ) && 0 <= t < crate::tokenizer::facet_tokens_spec(
                                    facet_bytes_of(vals[w2].value),
                                ).len() ==> self.multifield_postings.keys().contains(
                                    crate::term::field_prefix_spec(vals[w2].field) + (
                                    #[trigger] crate::tokenizer::facet_tokens_spec(
                                        facet_bytes_of((#[trigger] vals[w2]).value),
                                    )[t]),
                                ),
                        decreases nvals - w,
                    {
                        let fv = &add_operation.document.field_values[w];
                        let mut is_facet_here = false;
                        if fv.field as usize == f {
                            match &fv.value {
                                Value::Facet(b) => {
                                    let ghost fb = b@;
                                    proof {
                                        assert(facet_bytes_of(vals[w as int].value) == fb);
                                    }
                                    let toks = facet_tokens(b.as_slice());
                                    let mut term = Term::for_field(f as u32);
                                    let mut last_id: u32 = 0;
                                    let mut got_any = false;
                                    let mut t: usize = 0;
                                    while t < toks.len()
                                        invariant
                                            t <= toks@.len(),
                                            doc_id < 0x7fffffff,
                                            self.max_doc == old(self).max_doc_spec(),
                                            self.doc_opstamps@ == old(self).opstamps_spec(),
                                            self.abandoned == old(self).abandoned_spec(),
                                            self.schema_types@ == old(self).schema_types_spec(),
                                            self.stored_flags@ == old(self).stored_flags@,
                                            self.single_fast_fields@ == old(self).single_fast_fields@,
                                            self.segment_serializer == old(self).segment_serializer,
                                            self.multifield_postings.wf(),
                                            self.multifield_postings.docs_lt(doc_id as int + 1),
                                            self.multifield_postings.num_bits_spec() == old(self).table_num_bits_spec(),
                                            self.fieldnorms_writer.wf(),
                                            self.fieldnorms_writer.fields_spec() == old(self).fieldnorms_writer.fields_spec(),
                                            forall|i: int|
                                                0 <= i < self.fieldnorms_writer.norms_spec().len()
                                                    && (
                                                self.fieldnorms_writer.fields_spec()[i] as int)
                                                    >= f ==> (
                                                #[trigger] self.fieldnorms_writer.norms_spec()[
                                                    i
                                                ]).len() <= doc_id as int,
                                            forall|i: int|
                                                0 <= i < self.fieldnorms_writer.norms_spec().len()
                                                    ==> (
                                                #[trigger] self.fieldnorms_writer.norms_spec()[
                                                    i
                                                ]).len() <= doc_id as int + 1,
                                            self.fast_field_writers.single_fields() == old(self).fast_field_writers.single_fields(),
                                            self.fast_field_writers.multi_fields() == old(self).fast_field_writers.multi_fields(),
                                            self.fast_field_writers.ids_lt(
                                                self.multifield_postings.keys().len() as int,
                                            ),
                                            forall|i: int|
                                                0 <= i
                                                    < self.fast_field_writers.multi_fields().len()
                                                    ==> (
                                                #[trigger] self.fast_field_writers.multi_rows(
                                                    i,
                                                )).len() > 0,
                                            got_any ==> (last_id as int)
                                                < self.multifield_postings.keys().len(),
                                            forall|i: int|
                                                0 <= i
                                                    < self.fast_field_writers.single_fields().len()
                                                    ==> (
                                                #[trigger] self.fast_field_writers.single_vals(i))
                                                    == fastadv.single_vals(i),
                                            forall|i: int|
                                                0 <= i
                                                    < self.fast_field_writers.multi_fields().len()
                                                    ==> (
                                                #[trigger] self.fast_field_writers.multi_rows(
                                                    i,
                                                )).len() == fastadv.multi_rows(i).len(),
                                            forall|i: int|
                                                0 <= i < self.fieldnorms_writer.norms_spec().len()
                                                    && (
                                                self.fieldnorms_writer.fields_spec()[i] as int)
                                                    < f ==> (
                                                #[trigger] self.fieldnorms_writer.norms_spec()[
                                                    i
                                                ]).len() == doc_id as int + 1
                                                    && self.fieldnorms_writer.norms_spec()[i][
                                                    doc_id as int
                                                ] == crate::fieldnorm::quantize_spec(
                                                    norm_count_spec(
                                                        types,
                                                        vals,
                                                        self.fieldnorms_writer.fields_spec()[i],
                                                    ),
                                                ),
                                            fkeys.len()
                                                <= self.multifield_postings.keys().len(),
                                            forall|i2: int|
                                                0 <= i2 < fkeys.len()
                                                    ==> self.multifield_postings.keys()[i2]
                                                    == fkeys[i2],
                                            term.field_spec() == f as u32,
                                            toks@.len() == crate::tokenizer::facet_tokens_spec(
                                                fb,
                                            ).len(),
                                            forall|t2: int|
                                                0 <= t2 < toks@.len() ==> (#[trigger] toks@[t2])@
                                                    == crate::tokenizer::facet_tokens_spec(fb)[t2],
                                            forall|t2: int|
                                                0 <= t2 < t
                                                    ==> self.multifield_postings.keys().contains(
                                                    crate::term::field_prefix_spec(f as u32) + (
                                                    #[trigger] crate::tokenizer::facet_tokens_spec(
                                                        fb,
                                                    )[t2]),
                                                ),
                                            forall|w2: int, t2: int|
                                                0 <= w2 < w && ((vals[w2]).field as int) == f
                                                    && is_facet_value(vals[w2].value) && 0 <= t2
                                                    < crate::tokenizer::facet_tokens_spec(
                                                    facet_bytes_of(vals[w2].value),
                                                ).len()
                                                    ==> self.multifield_postings.keys().contains(
                                                    crate::term::field_prefix_spec(vals[w2].field)
                                                        + (
                                                    #[trigger] crate::tokenizer::facet_tokens_spec(
                                                        facet_bytes_of((#[trigger] vals[w2]).value),
                                                    )[t2]),
                                                ),
                                        decreases toks@.len() - t,
                                    {
                                        term.set_text(toks[t].as_slice());
                                        let ghost keyspre = self.multifield_postings.keys();
                                        match self.multifield_postings.subscribe(
                                            doc_id,
                                            &term,
                                            RecordMode::Basic,
                                            0,
                                        ) {
                                            Ok(id) => {
                                                last_id = id;
                                                got_any = true;
                                                proof {
                                                    assert(keyspre.len()
                                                        <= self.multifield_postings.keys().len());
                                                    assert(self.multifield_postings.keys()[
                                                        id as int
                                                    ] == crate::term::field_prefix_spec(f as u32)
                                                        + crate::tokenizer::facet_tokens_spec(fb)[
                                                        t as int
                                                    ]);
                                                    assert(self.multifield_postings.keys().contains(
                                                        crate::term::field_prefix_spec(f as u32)
                                                            + crate::tokenizer::facet_tokens_spec(
                                                            fb,
                                                        )[t as int],
                                                    ));
                                                    assert forall|t2: int|
                                                        0 <= t2 < t + 1 implies self.multifield_postings.keys().contains(
                                                        crate::term::field_prefix_spec(f as u32) + (
                                                        #[trigger] crate::tokenizer::facet_tokens_spec(
                                                            fb,
                                                        )[t2]),
                                                    ) by {
                                                        if t2 < t {
                                                            crate::postings::lemma_contains_persists(
                                                                keyspre,
                                                                self.multifield_postings.keys(),
                                                                crate::term::field_prefix_spec(
                                                                    f as u32,
                                                                )
                                                                    + crate::tokenizer::facet_tokens_spec(
                                                                    fb,
                                                                )[t2],
                                                            );
                                                        }
                                                    }
                                                    assert forall|w2: int, t2: int|
                                                        0 <= w2 < w && ((vals[w2]).field as int)
                                                            == f && is_facet_value(vals[w2].value)
                                                            && 0 <= t2
                                                            < crate::tokenizer::facet_tokens_spec(
                                                            facet_bytes_of(vals[w2].value),
                                                        ).len() implies self.multifield_postings.keys().contains(
                                                        crate::term::field_prefix_spec(
                                                            vals[w2].field,
                                                        ) + (
                                                        #[trigger] crate::tokenizer::facet_tokens_spec(
                                                            facet_bytes_of(
                                                                (#[trigger] vals[w2]).value,
                                                            ),
                                                        )[t2]),
                                                    ) by {
                                                        crate::postings::lemma_contains_persists(
                                                            keyspre,
                                                            self.multifield_postings.keys(),
                                                            crate::term::field_prefix_spec(
                                                                vals[w2].field,
                                                            )
                                                                + crate::tokenizer::facet_tokens_spec(
                                                                facet_bytes_of(vals[w2].value),
                                                            )[t2],
                                                        );
                                                    }
                                                }
                                            },
                                            Err(e) => {
                                                self.abandoned = true;
                                                return Err(TantivyError::TableFull);
                                            },
                                        }
                                        t = t + 1;
                                    }
                                    if got_any {
                                        self.fast_field_writers.add_facet_val(
                                            f as u32,
                                            last_id,
                                            Ghost(self.multifield_postings.keys().len() as int),
                                        );
                                    }
                                },
                                _ => {},
                            }
                        }
                        w = w + 1;
                        proof {
                            assert(self.fast_field_writers.ids_lt(
                                self.multifield_postings.keys().len() as int,
                            ));
                        }
                    }
                },
                FieldType::Str(opts) => {
                    match opts.indexing {
                        Some(ix) => {
                            let mut texts: Vec<Vec<u8>> = Vec::new();
                            let mut w: usize = 0;
                            while w < nvals
                                invariant
                                    w <= nvals,
                                    nvals == add_operation.document.field_values@.len(),
                                    f < nf,
                                    crate::tokenizer::texts_views(texts@) == str_values_of(
                                        vals.subrange(0, w as int),
                                        f as u32,
                                    ),
                                decreases nvals - w,
                            {
                                let ghost txpre = crate::tokenizer::texts_views(texts@);
                                let fv = &add_operation.document.field_values[w];
                                if fv.field as usize == f {
                                    match &fv.value {
                                        Value::Str(b) => {
                                            texts.push(
                                                crate::directory::bytes_to_vec(b.as_slice()),
                                            );
                                            proof {
                                                assert(crate::tokenizer::texts_views(texts@)
                                                    =~= txpre.push(str_bytes_of(
                                                    vals[w as int].value,
                                                )));
                                            }
                                        },
                                        _ => {},
                                    }
                                }
                                w = w + 1;
                                proof {
                                    let sub = vals.subrange(0, w as int);
                                    assert(sub.drop_last() =~= vals.subrange(0, w - 1));
                                    assert(sub.last() == vals[w - 1]);
                                    assert(crate::tokenizer::texts_views(texts@)
                                        =~= str_values_of(sub, f as u32));
                                }
                            }
                            proof {
                                assert(vals.subrange(0, nvals as int) =~= vals);
                                assert(crate::tokenizer::texts_views(texts@) == str_values_of(
                                    vals,
                                    f as u32,
                                ));
                            }
                            let mut num_tokens: u32 = 0;
                            if texts.len() > 0 {
                                let toks = tokenize(ix.tokenizer, &texts);
                                match self.multifield_postings.index_text(
                                    doc_id,
                                    f as u32,
                                    &toks,
                                    ix.record,
                                ) {
                                    Ok(n) => {
                                        num_tokens = n;
                                        proof {
                                            assert(toks@.len() == crate::tokenizer::tokens_of(
                                                ix.tokenizer,
                                                str_values_of(vals, f as u32),
                                            ).len());
                                            assert(num_tokens == norm_count_spec(
                                                types,
                                                vals,
                                                f as u32,
                                            ));
                                        }
                                    },
                                    Err(e) => {
                                        self.abandoned = true;
                                        return Err(TantivyError::TableFull);
                                    },
                                }
                            } else {
                                proof {
                                    assert(str_values_of(vals, f as u32) =~= Seq::<
                                        Seq<u8>,
                                    >::empty());
                                    assert(crate::tokenizer::tokens_of(
                                        ix.tokenizer,
                                        str_values_of(vals, f as u32),
                                    ).len() == 0);
                                    assert(num_tokens == norm_count_spec(types, vals, f as u32));
                                }
                            }
                            proof {
                                assert forall|i: int|
                                    0 <= i < self.fieldnorms_writer.norms_spec().len()
                                        && self.fieldnorms_writer.fields_spec()[i] == (
                                    f as u32) implies (
                                #[trigger] self.fieldnorms_writer.norms_spec()[i]).len()
                                    <= doc_id as int by {
                                    assert((self.fieldnorms_writer.fields_spec()[i] as int) >= f);
                                }
                            }
                            self.fieldnorms_writer.record(doc_id, f as u32, num_tokens);
                            proof {
                                self.fast_field_writers.lemma_ids_lt_monotone(
                                    fkeys.len() as int,
                                    self.multifield_postings.keys().len() as int,
                                );
                                assert forall|i: int|
                                    0 <= i < self.fieldnorms_writer.norms_spec().len() && (
                                    self.fieldnorms_writer.fields_spec()[i] as int) >= f
                                        + 1 implies (
                                #[trigger] self.fieldnorms_writer.norms_spec()[i]).len()
                                    <= doc_id as int by {
                                    assert(old(self).fieldnorms_writer.fields_spec()[i] != (
                                    f as u32));
                                }
                            }
                        },
                        None => {},
                    }
                },
                FieldType::U64(opts) => {
                    if opts.indexed {
                        match self.index_numeric_field(
                            f as u32,
                            &add_operation.document.field_values,
                            doc_id,
                        ) {
                            Ok(u) => {},
                            Err(e) => {
                                return Err(e);
                            },
                        }
                        proof {
                            self.fast_field_writers.lemma_ids_lt_monotone(
                                fkeys.len() as int,
                                self.multifield_postings.keys().len() as int,
                            );
                        }
                    }
                },
                FieldType::I64(opts) => {
                    if opts.indexed {
                        match self.index_numeric_field(
                            f as u32,
                            &add_operation.document.field_values,
                            doc_id,
                        ) {
                            Ok(u) => {},
                            Err(e) => {
                                return Err(e);
                            },
                        }
                        proof {
                            self.fast_field_writers.lemma_ids_lt_monotone(
                                fkeys.len() as int,
                                self.multifield_postings.keys().len() as int,
                            );
                        }
                    }
                },
                FieldType::F64(opts) => {
                    if opts.indexed {
                        match self.index_numeric_field(
                            f as u32,
                            &add_operation.document.field_values,
                            doc_id,
                        ) {
                            Ok(u) => {},
                            Err(e) => {
                                return Err(e);
                            },
                        }
                        proof {
                            self.fast_field_writers.lemma_ids_lt_monotone(
                                fkeys.len() as int,
                                self.multifield_postings.keys().len() as int,
                            );
                        }
                    }
                },
                FieldType::Date(opts) => {
                    if opts.indexed {
                        match self.index_numeric_field(
                            f as u32,
                            &add_operation.document.field_values,
                            doc_id,
                        ) {
                            Ok(u) => {},
                            Err(e) => {
                                return Err(e);
                            },
                        }
                        proof {
                            self.fast_field_writers.lemma_ids_lt_monotone(
                                fkeys.len() as int,
                                self.multifield_postings.keys().len() as int,
                            );
                        }
                    }
                },
                FieldType::Bytes => {},
            }
            f = f + 1;
        }
        // the stored values, then the bookkeeping
        proof {
            crate::serializer::lemma_stored_count_le_len(
                add_operation.document.field_values@,
                self.stored_flags@,
            );
        }
        self.segment_serializer.store.store_doc(
            &add_operation.document.field_values,
            &self.stored_flags,
        );
        self.doc_opstamps.push(add_operation.opstamp);
        self.max_doc = doc_id + 1;
        proof {
            assert forall|i: int|
                0 <= i < self.fieldnorms_writer.norms_spec().len() implies (
            #[trigger] self.fieldnorms_writer.norms_spec()[i]).len() <= self.max_doc as int by {}
            assert(self.multifield_postings.wf());
            assert(self.doc_opstamps@.len() == self.max_doc as int);
            assert(self.max_doc <= 0x7fffffff);
            self.multifield_postings.lemma_docs_lt_monotone(
                self.max_doc as int,
                self.max_doc as int + 1,
            );
            assert(self.multifield_postings.docs_lt(self.max_doc as int + 1));
            assert forall|i: int|
                0 <= i < self.fast_field_writers.single_fields().len() implies (
            #[trigger] self.fast_field_writers.single_vals(i)).last() == first_numeric_mapping(
                vals,
                self.fast_field_writers.single_fields()[i],
            ) by {
                assert(self.fast_field_writers.single_vals(i) == fastadv.single_vals(i));
                assert(fastadv.single_vals(i) == old(self).fast_field_writers.single_vals(i).push(
                    single_vals@[i],
                ));
                assert(single_vals@[i] == first_numeric_mapping(
                    vals,
                    old(self).single_fast_fields@[i],
                ));
                assert(self.fast_field_writers.single_fields()[i] == old(
                    self,
                ).single_fast_fields@[i]);
            }
            assert forall|i: int|
                0 <= i < self.fast_field_writers.single_fields().len() implies (
            #[trigger] self.fast_field_writers.single_vals(i)).len() == doc_id as int + 1 by {
                assert(self.fast_field_writers.single_vals(i) == fastadv.single_vals(i));
                assert(fastadv.single_vals(i) == old(self).fast_field_writers.single_vals(
                    i,
                ).push(single_vals@[i]));
                assert(old(self).fast_field_writers.single_vals(i).len() == doc_id as int);
            }
            assert forall|i: int|
                0 <= i < self.fast_field_writers.multi_fields().len() implies (
            #[trigger] self.fast_field_writers.multi_rows(i)).len() == doc_id as int + 1 by {
                assert(self.fast_field_writers.multi_rows(i).len() == fastadv.multi_rows(
                    i,
                ).len());
                assert(fastadv.multi_rows(i) == old(self).fast_field_writers.multi_rows(i).push(
                    Seq::<u32>::empty(),
                ));
                assert(old(self).fast_field_writers.multi_rows(i).len() == doc_id as int);
            }
            assert forall|i: int|
                0 <= i < self.fieldnorms_writer.norms_spec().len() implies (
            #[trigger] self.fieldnorms_writer.norms_spec()[i]).len() == doc_id as int + 1 by {
                assert((self.fieldnorms_writer.fields_spec()[i] as int) < nf);
            }
            assert(self.fast_field_writers.doc_count_is(self.max_doc as int));
            assert(self.multifield_postings.docs_lt(self.max_doc as int));
            assert(self.fieldnorms_writer.wf());
            assert(self.fieldnorms_writer.lens_le(self.max_doc as int + 1));
            assert(self.fieldnorms_writer.lens_le(self.max_doc as int));
            assert(self.fast_field_writers.ids_lt(self.multifield_postings.keys().len() as int));
            assert(self.fast_field_writers.single_fields() == self.single_fast_fields@);
            assert(self.segment_serializer.wf());
            assert(self.segment_serializer.postings.wf());
            assert(self.segment_serializer.postings.dict_spec().len() == 0);
            assert(self.stored_flags@.len() == self.schema_types@.len());
        }
        Ok(())
    }

    /// Subscribes one term per numeric value of `field`, encoded so that
    /// byte order equals value order.
    #[verifier::loop_isolation(false)]
    fn index_numeric_field(&mut self, field: u32, vals: &Vec<crate::schema::FieldValue>, doc_id: u32) -> (r:
        Result<(), TantivyError>)
        requires
            old(self).multifield_postings.wf(),
            old(self).multifield_postings.docs_lt(doc_id as int + 1),
        ensures
            final(self).multifield_postings.wf(),
            final(self).multifield_postings.docs_lt(doc_id as int + 1),
            final(self).multifield_postings.num_bits_spec() == old(self).multifield_postings.num_bits_spec(),
            old(self).multifield_postings.keys().len() <= final(self).multifield_postings.keys().len(),
            forall|i: int|
                0 <= i < old(self).multifield_postings.keys().len() ==> final(self).multifield_postings.keys()[i] == old(self).multifield_postings.keys()[i],
            final(self).max_doc == old(self).max_doc,
            final(self).doc_opstamps@ == old(self).doc_opstamps@,
            final(self).schema_types@ == old(self).schema_types@,
            final(self).stored_flags@ == old(self).stored_flags@,
            final(self).single_fast_fields@ == old(self).single_fast_fields@,
            final(self).segment_serializer == old(self).segment_serializer,
            final(self).fieldnorms_writer == old(self).fieldnorms_writer,
            final(self).fast_field_writers == old(self).fast_field_writers,
            match r {
                Ok(u) => final(self).abandoned == old(self).abandoned && forall|w: int|
                    0 <= w < vals@.len() && (#[trigger] vals@[w]).field == field
                        && is_numeric_value(vals@[w].value) ==> final(self).multifield_postings.keys().contains(numeric_term_bytes(field, vals@[w].value)),
                Err(e) => e == TantivyError::TableFull && final(self).abandoned && final(self).multifield_postings.keys().len() == crate::stacker::pow2_spec(final(self).multifield_postings.num_bits_spec() as nat),
            },
    {
        let nvals = vals.len();
        let mut w: usize = 0;
        while w < nvals
            invariant
                w <= nvals,
                nvals == vals@.len(),
                self.multifield_postings.wf(),
                self.multifield_postings.docs_lt(doc_id as int + 1),
                self.multifield_postings.num_bits_spec() == old(self).multifield_postings.num_bits_spec(),
                old(self).multifield_postings.keys().len()
                    <= self.multifield_postings.keys().len(),
                forall|i: int|
                    0 <= i < old(self).multifield_postings.keys().len()
                        ==> self.multifield_postings.keys()[i] == old(self).multifield_postings.keys()[i],
                forall|w2: int|
                    0 <= w2 < w && (#[trigger] vals@[w2]).field == field && is_numeric_value(
                        vals@[w2].value,
                    ) ==> self.multifield_postings.keys().contains(
                        numeric_term_bytes(field, vals@[w2].value),
                    ),
                self.max_doc == old(self).max_doc,
                self.doc_opstamps@ == old(self).doc_opstamps@,
                self.schema_types@ == old(self).schema_types@,
                self.stored_flags@ == old(self).stored_flags@,
                self.single_fast_fields@ == old(self).single_fast_fields@,
                self.segment_serializer == old(self).segment_serializer,
                self.fieldnorms_writer == old(self).fieldnorms_writer,
                self.fast_field_writers == old(self).fast_field_writers,
                self.abandoned == old(self).abandoned,
            decreases nvals - w,
        {
            let fv = &vals[w];
            if fv.field == field {
                match &fv.value {
                    Value::U64(x) => {
                        let term = Term::from_field_u64(field, *x);
                        match self.multifield_postings.subscribe(
                            doc_id,
                            &term,
                            RecordMode::Basic,
                            0,
                        ) {
                            Ok(id) => {},
                            Err(e) => {
                                self.abandoned = true;
                                return Err(TantivyError::TableFull);
                            },
                        }
                    },
                    Value::I64(x) => {
                        let term = Term::from_field_i64(field, *x);
                        match self.multifield_postings.subscribe(
                            doc_id,
                            &term,
                            RecordMode::Basic,
                            0,
                        ) {
                            Ok(id) => {},
                            Err(e) => {
                                self.abandoned = true;
                                return Err(TantivyError::TableFull);
                            },
                        }
                    },
                    Value::F64(m) => {
                        let term = Term::from_field_f64_mapped(field, *m);
                        match self.multifield_postings.subscribe(
                            doc_id,
                            &term,
                            RecordMode::Basic,
                            0,
                        ) {
                            Ok(id) => {},
                            Err(e) => {
                                self.abandoned = true;
                                return Err(TantivyError::TableFull);
                            },
                        }
                    },
                    Value::Date(t0) => {
                        let term = Term::from_field_date(field, *t0);
                        match self.multifield_postings.subscribe(
                            doc_id,
                            &term,
                            RecordMode::Basic,
                            0,
                        ) {
                            Ok(id) => {},
                            Err(e) => {
                                self.abandoned = true;
                                return Err(TantivyError::TableFull);
                            },
                        }
                    },
                    _ => {},
                }
            }
            w = w + 1;
        }
        Ok(())
    }

    /// Lays the segment on the directory: pads the field norms to
    /// `max_doc`, runs the serializer fan-out, and returns the vector of
    /// per-doc opstamps in document order. Finalize consumes the writer; a
    /// writer abandoned by an ingest error refuses and leaves the
    /// directory unchanged.
    pub fn finalize(self, dir: &mut RamDirectory) -> (r: Result<Vec<u64>, TantivyError>)
        requires
            self.wf(),
            old(dir).wf(),
        ensures
            final(dir).wf(),
            match r {
                Ok(opstamps) => {
                    &&& !self.abandoned_spec()
                    &&& opstamps@ == self.opstamps_spec()
                    &&& opstamps@.len() == self.max_doc_spec() as int
                    &&& final(dir).files_spec().contains_key(
                        file_path_spec(self.segment_id_spec(), TAG_NORM),
                    )
                    &&& final(dir).files_spec()[file_path_spec(self.segment_id_spec(), TAG_NORM)].len() == self.norm_field_count_spec() * self.max_doc_spec()
                    &&& final(dir).files_spec()[file_path_spec(self.segment_id_spec(), TAG_STORE)]
                        == self.store_spec()
                    &&& forall|p: Seq<u8>|
                        p != file_path_spec(self.segment_id_spec(), TAG_TERM) && p
                            != file_path_spec(self.segment_id_spec(), TAG_IDX) && p
                            != file_path_spec(self.segment_id_spec(), TAG_POS) && p
                            != file_path_spec(self.segment_id_spec(), TAG_FAST) && p
                            != file_path_spec(self.segment_id_spec(), TAG_NORM) && p
                            != file_path_spec(self.segment_id_spec(), TAG_STORE) ==> (
                        #[trigger] final(dir).files_spec().contains_key(p)) == old(
                            dir,
                        ).files_spec().contains_key(p) && (old(dir).files_spec().contains_key(p)
                            ==> final(dir).files_spec()[p] == old(dir).files_spec()[p])
                    &&& exists|streams: Seq<Seq<u8>>|
                        {
                            &&& streams.len() == self.norm_field_count_spec()
                            &&& (forall|i: int|
                                0 <= i < streams.len() ==> (#[trigger] streams[i]).len()
                                    == self.max_doc_spec() as int && (forall|j: int|
                                    0 <= j < self.norm_stream_spec(i).len() ==> streams[i][j]
                                        == self.norm_stream_spec(i)[j]) && (forall|j: int|
                                    self.norm_stream_spec(i).len() <= j
                                        < self.max_doc_spec() as int ==> streams[i][j] == 0u8))
                            &&& final(dir).files_spec()[file_path_spec(
                                self.segment_id_spec(),
                                TAG_NORM,
                            )] == norms_file_bytes(streams)
                        }
                    &&& exists|
                        dict: Seq<(Seq<u8>, u32)>,
                        models: Seq<Seq<(u32, u32, Seq<u32>)>>,
                        remap: Seq<u32>,
                    |
                        {
                            &&& dict.len() == self.terms_spec().len()
                            &&& models.len() == dict.len()
                            &&& remap.len() == self.terms_spec().len()
                            &&& (forall|u: int|
                                0 <= u < remap.len() ==> ((#[trigger] remap[u]) as int)
                                    < dict.len() && dict[remap[u] as int].0
                                    == self.terms_spec()[u] && models[remap[u] as int]
                                    == self.rec_model_spec(u))
                            &&& (forall|p: int, q: int|
                                0 <= p < q < dict.len() ==> lex_lt(
                                    (#[trigger] dict[p]).0,
                                    (#[trigger] dict[q]).0,
                                ))
                            &&& (forall|p: int|
                                0 <= p < dict.len() ==> ((#[trigger] dict[p]).1 as int)
                                    == models[p].len())
                            &&& (forall|p: int, i: int, j: int|
                                0 <= p < models.len() && 0 <= i < j < models[p].len() ==> ((
                                #[trigger] models[p][i]).0 as int) < ((
                                #[trigger] models[p][j]).0 as int))
                            &&& (forall|p: int, i: int|
                                0 <= p < models.len() && 0 <= i < models[p].len() ==> ((
                                #[trigger] models[p][i]).0 as int) < self.max_doc_spec() as int)
                            &&& final(dir).files_spec()[file_path_spec(
                                self.segment_id_spec(),
                                TAG_TERM,
                            )] == dict_bytes(dict)
                            &&& final(dir).files_spec()[file_path_spec(
                                self.segment_id_spec(),
                                TAG_IDX,
                            )] == pfile_bytes(models)
                            &&& final(dir).files_spec()[file_path_spec(
                                self.segment_id_spec(),
                                TAG_POS,
                            )] == crate::postings::posfile_bytes(models)
                            &&& final(dir).files_spec()[file_path_spec(
                                self.segment_id_spec(),
                                TAG_FAST,
                            )] == crate::fastfield::sv_cols_bytes(
                                self.fast_spec().single_cols(),
                            ) + crate::fastfield::mv_cols_bytes(
                                self.fast_spec().multi_cols(),
                                remap,
                            )
                        }
                },
                Err(e) => e == TantivyError::Io && self.abandoned_spec() && *final(dir) == *old(
                    dir,
                ),
            },
    {
        let SegmentWriter {
            max_doc,
            multifield_postings,
            segment_serializer,
            fast_field_writers,
            mut fieldnorms_writer,
            doc_opstamps,
            schema_types,
            stored_flags,
            single_fast_fields,
            abandoned,
        } = self;
        if abandoned {
            return Err(TantivyError::Io);
        }
        let ghost fnpre = fieldnorms_writer;
        fieldnorms_writer.fill_up_to_max_doc(max_doc);
        proof {
            assert(multifield_postings.docs_lt(max_doc as int));
            multifield_postings.lemma_docs_lt_monotone(max_doc as int, 0x80000000);
        }
        let ghost sid2 = segment_serializer.segment_id_spec();
        let ghost storepre = segment_serializer.store.buf_spec();
        match write(
            &multifield_postings,
            &fast_field_writers,
            &fieldnorms_writer,
            segment_serializer,
            dir,
        ) {
            Ok(u) => {},
            Err(e) => {
                return Err(e);
            },
        }
        proof {
            crate::fieldnorm::lemma_norms_total_len(
                fieldnorms_writer.norms_spec(),
                max_doc as int,
            );
            assert(multifield_postings.docs_lt(max_doc as int));
            let streams = fieldnorms_writer.norms_spec();
            assert(streams.len() == self.norm_field_count_spec());
            assert forall|i: int|
                0 <= i < streams.len() implies (#[trigger] streams[i]).len() == max_doc as int && (
                forall|j: int|
                    0 <= j < self.norm_stream_spec(i).len() ==> streams[i][j]
                        == self.norm_stream_spec(i)[j]) && (forall|j: int|
                    self.norm_stream_spec(i).len() <= j < max_doc as int ==> streams[i][j]
                        == 0u8) by {
                assert(fnpre.norms_spec()[i] == self.norm_stream_spec(i));
            }
            let (dictw, modelsw, remapw) = choose|
                dictw: Seq<(Seq<u8>, u32)>,
                modelsw: Seq<Seq<(u32, u32, Seq<u32>)>>,
                remapw: Seq<u32>,
            |
                {
                    &&& dictw.len() == multifield_postings.keys().len()
                    &&& modelsw.len() == dictw.len()
                    &&& remapw.len() == multifield_postings.keys().len()
                    &&& (forall|u: int|
                        0 <= u < remapw.len() ==> ((#[trigger] remapw[u]) as int) < dictw.len()
                            && dictw[remapw[u] as int].0 == multifield_postings.keys()[u]
                            && modelsw[remapw[u] as int] == multifield_postings.rec_model(u))
                    &&& (forall|p: int, q: int|
                        0 <= p < q < dictw.len() ==> lex_lt(
                            (#[trigger] dictw[p]).0,
                            (#[trigger] dictw[q]).0,
                        ))
                    &&& (forall|p: int|
                        0 <= p < dictw.len() ==> ((#[trigger] dictw[p]).1 as int)
                            == modelsw[p].len())
                    &&& (forall|p: int, i: int, j: int|
                        0 <= p < modelsw.len() && 0 <= i < j < modelsw[p].len() ==> ((
                        #[trigger] modelsw[p][i]).0 as int) < ((
                        #[trigger] modelsw[p][j]).0 as int))
                    &&& (forall|d: int|
                        #[trigger] multifield_postings.docs_lt(d) ==> forall|p: int, i: int|
                            0 <= p < modelsw.len() && 0 <= i < modelsw[p].len() ==> ((
                            #[trigger] modelsw[p][i]).0 as int) < d)
                    &&& dir.files_spec()[file_path_spec(sid2, TAG_TERM)] == dict_bytes(dictw)
                    &&& dir.files_spec()[file_path_spec(sid2, TAG_IDX)] == pfile_bytes(modelsw)
                    &&& dir.files_spec()[file_path_spec(sid2, TAG_POS)]
                        == crate::postings::posfile_bytes(modelsw)
                    &&& dir.files_spec()[file_path_spec(sid2, TAG_FAST)]
                        == crate::fastfield::sv_cols_bytes(fast_field_writers.single_cols())
                        + crate::fastfield::mv_cols_bytes(fast_field_writers.multi_cols(), remapw)
                    &&& dir.files_spec() == old(dir).files_spec().insert(
                        file_path_spec(sid2, TAG_TERM),
                        dict_bytes(dictw),
                    ).insert(file_path_spec(sid2, TAG_IDX), pfile_bytes(modelsw)).insert(
                        file_path_spec(sid2, TAG_POS),
                        crate::postings::posfile_bytes(modelsw),
                    ).insert(
                        file_path_spec(sid2, TAG_FAST),
                        crate::fastfield::sv_cols_bytes(fast_field_writers.single_cols())
                            + crate::fastfield::mv_cols_bytes(
                            fast_field_writers.multi_cols(),
                            remapw,
                        ),
                    ).insert(
                        file_path_spec(sid2, TAG_NORM),
                        norms_file_bytes(fieldnorms_writer.norms_spec()),
                    ).insert(file_path_spec(sid2, TAG_STORE), storepre)
                };
            assert forall|p: Seq<u8>|
                p != file_path_spec(self.segment_id_spec(), TAG_TERM) && p != file_path_spec(
                    self.segment_id_spec(),
                    TAG_IDX,
                ) && p != file_path_spec(self.segment_id_spec(), TAG_POS) && p != file_path_spec(
                    self.segment_id_spec(),
                    TAG_FAST,
                ) && p != file_path_spec(self.segment_id_spec(), TAG_NORM) && p != file_path_spec(
                    self.segment_id_spec(),
                    TAG_STORE,
                ) implies (#[trigger] dir.files_spec().contains_key(p)) == old(
                dir,
            ).files_spec().contains_key(p) && (old(dir).files_spec().contains_key(p)
                ==> dir.files_spec()[p] == old(dir).files_spec()[p]) by {}
            assert(dictw.len() == self.terms_spec().len());
            assert forall|u: int|
                0 <= u < remapw.len() implies ((#[trigger] remapw[u]) as int) < dictw.len()
                && dictw[remapw[u] as int].0 == self.terms_spec()[u] && modelsw[remapw[u] as int]
                == self.rec_model_spec(u) by {}
            assert forall|p: int, i: int|
                0 <= p < modelsw.len() && 0 <= i < modelsw[p].len() implies ((
            #[trigger] modelsw[p][i]).0 as int) < self.max_doc_spec() as int by {}
            assert(dir.files_spec()[file_path_spec(self.segment_id_spec(), TAG_FAST)]
                == crate::fastfield::sv_cols_bytes(self.fast_spec().single_cols())
                + crate::fastfield::mv_cols_bytes(self.fast_spec().multi_cols(), remapw));
        }
        Ok(doc_opstamps)
    }
}

/// The serializer fan-out: postings and terms first, producing the term
/// ordinal remap; fast fields consume it; then field norms and the store,
/// and the close that seals all files.
fn write(
    multifield_postings: &MultiFieldPostingsWriter,
    fast_field_writers: &FastFieldsWriter,
    fieldnorms_writer: &FieldNormsWriter,
    serializer: SegmentSerializer,
    dir: &mut RamDirectory,
) -> (r: Result<(), TantivyError>)
    requires
        multifield_postings.wf(),
        multifield_postings.docs_lt(0x80000000),
        fast_field_writers.ids_lt(multifield_postings.keys().len() as int),
        serializer.wf(),
        serializer.postings.wf(),
        serializer.postings.dict_spec().len() == 0,
        serializer.postings.models_spec().len() == 0,
        old(dir).wf(),
    ensures
        final(dir).wf(),
        r.is_ok(),
        final(dir).files_spec().contains_key(
            file_path_spec(serializer.segment_id_spec(), TAG_NORM),
        ),
        final(dir).files_spec()[file_path_spec(serializer.segment_id_spec(), TAG_NORM)]
            == norms_file_bytes(fieldnorms_writer.norms_spec()),
        final(dir).files_spec()[file_path_spec(serializer.segment_id_spec(), TAG_STORE)]
            == serializer.store.buf_spec(),
        exists|dict: Seq<(Seq<u8>, u32)>, models: Seq<Seq<(u32, u32, Seq<u32>)>>, remap: Seq<u32>|
            {
                &&& #[trigger] dict_bytes(dict) == dict_bytes(dict)
                &&& #[trigger] pfile_bytes(models) == pfile_bytes(models)
                &&& #[trigger] crate::fastfield::mv_cols_bytes(
                    fast_field_writers.multi_cols(),
                    remap,
                ) == crate::fastfield::mv_cols_bytes(fast_field_writers.multi_cols(), remap)
                &&& dict.len() == multifield_postings.keys().len()
                &&& models.len() == dict.len()
                &&& remap.len() == multifield_postings.keys().len()
                &&& (forall|u: int|
                    0 <= u < remap.len() ==> ((#[trigger] remap[u]) as int) < dict.len()
                        && dict[remap[u] as int].0 == multifield_postings.keys()[u]
                        && models[remap[u] as int] == multifield_postings.rec_model(u))
                &&& (forall|p: int, q: int|
                    0 <= p < q < dict.len() ==> lex_lt(
                        (#[trigger] dict[p]).0,
                        (#[trigger] dict[q]).0,
                    ))
                &&& (forall|p: int|
                    0 <= p < dict.len() ==> ((#[trigger] dict[p]).1 as int) == models[p].len())
                &&& (forall|p: int, i: int, j: int|
                    0 <= p < models.len() && 0 <= i < j < models[p].len() ==> ((
                    #[trigger] models[p][i]).0 as int) < ((#[trigger] models[p][j]).0 as int))
                &&& (forall|d: int|
                    #[trigger] multifield_postings.docs_lt(d) ==> forall|p: int, i: int|
                        0 <= p < models.len() && 0 <= i < models[p].len() ==> ((
                        #[trigger] models[p][i]).0 as int) < d)
                &&& final(dir).files_spec()[file_path_spec(serializer.segment_id_spec(), TAG_TERM)]
                    == dict_bytes(dict)
                &&& final(dir).files_spec()[file_path_spec(serializer.segment_id_spec(), TAG_IDX)]
                    == pfile_bytes(models)
                &&& final(dir).files_spec()[file_path_spec(serializer.segment_id_spec(), TAG_POS)]
                    == crate::postings::posfile_bytes(models)
                &&& final(dir).files_spec()[file_path_spec(serializer.segment_id_spec(), TAG_FAST)]
                    == crate::fastfield::sv_cols_bytes(fast_field_writers.single_cols())
                    + crate::fastfield::mv_cols_bytes(fast_field_writers.multi_cols(), remap)
                &&& final(dir).files_spec() == old(dir).files_spec().insert(
                    file_path_spec(serializer.segment_id_spec(), TAG_TERM),
                    dict_bytes(dict),
                ).insert(
                    file_path_spec(serializer.segment_id_spec(), TAG_IDX),
                    pfile_bytes(models),
                ).insert(
                    file_path_spec(serializer.segment_id_spec(), TAG_POS),
                    crate::postings::posfile_bytes(models),
                ).insert(
                    file_path_spec(serializer.segment_id_spec(), TAG_FAST),
                    crate::fastfield::sv_cols_bytes(fast_field_writers.single_cols())
                        + crate::fastfield::mv_cols_bytes(fast_field_writers.multi_cols(), remap),
                ).insert(
                    file_path_spec(serializer.segment_id_spec(), TAG_NORM),
                    norms_file_bytes(fieldnorms_writer.norms_spec()),
                ).insert(
                    file_path_spec(serializer.segment_id_spec(), TAG_STORE),
                    serializer.store.buf_spec(),
                )
            },
{
    let mut serializer = serializer;
    let term_ord_map = multifield_postings.serialize(&mut serializer.postings);
    let fast_bytes = fast_field_writers.serialize(&term_ord_map);
    let norm_bytes = fieldnorms_writer.serialize();
    let ghost dict = serializer.postings.dict_spec();
    let ghost models = serializer.postings.models_spec();
    let ghost remapg = term_ord_map@;
    let ghost sid = serializer.segment_id_spec();
    let ghost storepre2 = serializer.store.buf_spec();
    let r = serializer.close(dir, fast_bytes.as_slice(), norm_bytes.as_slice());
    proof {
        crate::serializer::lemma_tag_paths_distinct_all(sid);
        assert(storepre2 == serializer.store.buf_spec());
        assert(dir.files_spec() == old(dir).files_spec().insert(
            file_path_spec(sid, TAG_TERM),
            dict_bytes(dict),
        ).insert(file_path_spec(sid, TAG_IDX), pfile_bytes(models)).insert(
            file_path_spec(sid, TAG_POS),
            crate::postings::posfile_bytes(models),
        ).insert(
            file_path_spec(sid, TAG_FAST),
            crate::fastfield::sv_cols_bytes(fast_field_writers.single_cols())
                + crate::fastfield::mv_cols_bytes(fast_field_writers.multi_cols(), remapg),
        ).insert(
            file_path_spec(sid, TAG_NORM),
            norms_file_bytes(fieldnorms_writer.norms_spec()),
        ).insert(file_path_spec(sid, TAG_STORE), storepre2));
        assert(dir.files_spec()[file_path_spec(sid, TAG_TERM)] == dict_bytes(dict));
        assert(dir.files_spec()[file_path_spec(sid, TAG_IDX)] == pfile_bytes(models));
        assert(dir.files_spec()[file_path_spec(sid, TAG_NORM)] == norms_file_bytes(
            fieldnorms_writer.norms_spec(),
        ));
        assert(crate::fastfield::mv_cols_bytes(fast_field_writers.multi_cols(), remapg)
            == crate::fastfield::mv_cols_bytes(fast_field_writers.multi_cols(), remapg));
    }
    match r {
        Ok(u) => Ok(()),
        Err(e) => Err(e),
    }
}

/// Copies a list of field ids.
#[verifier::loop_isolation(false)]
pub fn copy_u32s(src: &Vec<u32>) -> (r: Vec<u32>)
    ensures
        r@ == src@,
{
    let mut r: Vec<u32> = Vec::new();
    let mut i: usize = 0;
    while i < src.len()
        invariant
            i <= src@.len(),
            r@ == src@.subrange(0, i as int),
        decreases src@.len() - i,
    {
        r.push(src[i]);
        i = i + 1;
        proof {
            assert(r@ =~= src@.subrange(0, i as int));
        }
    }
    proof {
        assert(src@.subrange(0, src@.len() as int) =~= src@);
    }
    r
}

} // verus!
