use tantivy::directory::RamDirectory;
use tantivy::error::TantivyError;
use tantivy::postings::MultiFieldPostingsWriter;
use tantivy::postings::RecordMode;
use tantivy::schema::AddOperation;
use tantivy::schema::Document;
use tantivy::schema::FieldEntry;
use tantivy::schema::FieldType;
use tantivy::schema::FieldValue;
use tantivy::schema::IntOptions;
use tantivy::schema::Schema;
use tantivy::schema::TextIndexing;
use tantivy::schema::TextOptions;
use tantivy::schema::TokenizerKind;
use tantivy::schema::Value;
use tantivy::segment_writer::initial_table_size;
use tantivy::segment_writer::SegmentWriter;
use tantivy::serializer::file_path;
use tantivy::serializer::Segment;
use tantivy::serializer::TAG_IDX;
use tantivy::serializer::TAG_NORM;
use tantivy::serializer::TAG_STORE;
use tantivy::serializer::TAG_TERM;
use tantivy::term::Term;

#[test]
fn test_hashmap_size() {
    assert_eq!(initial_table_size(100_000).unwrap(), 11);
    assert_eq!(initial_table_size(1_000_000).unwrap(), 14);
    assert_eq!(initial_table_size(10_000_000).unwrap(), 17);
    assert_eq!(initial_table_size(1_000_000_000).unwrap(), 19);
}

#[test]
fn test_hashmap_size_too_small_budget() {
    assert_eq!(
        initial_table_size(10).unwrap_err(),
        TantivyError::InvalidArgument
    );
}

fn test_schema() -> Schema {
    Schema {
        fields: vec![
            FieldEntry {
                name: b"title".to_vec(),
                field_type: FieldType::Str(TextOptions {
                    indexing: Some(TextIndexing {
                        tokenizer: TokenizerKind::Simple,
                        record: RecordMode::WithFreqsAndPositions,
                    }),
                    stored: true,
                }),
            },
            FieldEntry {
                name: b"count".to_vec(),
                field_type: FieldType::U64(IntOptions {
                    indexed: true,
                    fast: true,
                    stored: true,
                }),
            },
            FieldEntry {
                name: b"category".to_vec(),
                field_type: FieldType::HierarchicalFacet,
            },
        ],
    }
}

fn doc(title: &[u8], count: u64, facet: &[u8]) -> Document {
    Document {
        field_values: vec![
            FieldValue {
                field: 0,
                value: Value::Str(title.to_vec()),
            },
            FieldValue {
                field: 1,
                value: Value::U64(count),
            },
            FieldValue {
                field: 2,
                value: Value::Facet(facet.to_vec()),
            },
        ],
    }
}

#[test]
fn test_segment_writer_budget_cap() {
    // a one-gigabyte budget caps the table exponent at 19, not 20 or more
    let mut dir = RamDirectory::create();
    let schema = test_schema();
    let writer =
        SegmentWriter::for_segment(1_000_000_000, Segment { id: 7 }, &schema, &mut dir).unwrap();
    assert_eq!(writer.table_num_bits(), 19);
}

#[test]
fn test_segment_writer_build_and_finalize() {
    let mut dir = RamDirectory::create();
    let schema = test_schema();
    let mut writer =
        SegmentWriter::for_segment(1_000_000, Segment { id: 3 }, &schema, &mut dir).unwrap();
    assert_eq!(writer.max_doc(), 0);
    assert_eq!(writer.num_docs(), 0);
    assert!(writer.mem_usage() > 0);

    writer
        .add_document(
            AddOperation {
                opstamp: 10,
                document: doc(b"hello world", 4, b"top\0sub"),
            },
            &schema,
        )
        .unwrap();
    writer
        .add_document(
            AddOperation {
                opstamp: 11,
                document: doc(b"hello again", 9, b"top\0other"),
            },
            &schema,
        )
        .unwrap();
    assert_eq!(writer.max_doc(), 2);
    assert_eq!(writer.num_docs(), 2);

    let opstamps = writer.finalize(&mut dir).unwrap();
    // max_doc documents, opstamps in insertion order
    assert_eq!(opstamps, vec![10, 11]);

    // the segment's files all exist under its id stem
    for tag in [TAG_TERM, TAG_IDX, TAG_NORM, TAG_STORE] {
        let path = file_path(3, tag);
        assert!(dir.file_exists(path.as_slice()));
    }
    // one field-norm byte per (text field, doc)
    let norms = dir.open_read(file_path(3, TAG_NORM).as_slice()).unwrap();
    assert_eq!(norms.as_slice().len(), 2);
}

#[test]
fn test_schema_mismatch_is_recoverable() {
    let mut dir = RamDirectory::create();
    let schema = test_schema();
    let mut writer =
        SegmentWriter::for_segment(1_000_000, Segment { id: 4 }, &schema, &mut dir).unwrap();
    let bad = Document {
        field_values: vec![FieldValue {
            field: 2,
            value: Value::Str(b"not a facet".to_vec()),
        }],
    };
    let r = writer.add_document(
        AddOperation {
            opstamp: 1,
            document: bad,
        },
        &schema,
    );
    assert_eq!(r.unwrap_err(), TantivyError::SchemaMismatch);
    // the failed document left no trace
    assert_eq!(writer.max_doc(), 0);
}

#[test]
fn test_rewriting_segment_files_is_forbidden() {
    let mut dir = RamDirectory::create();
    let schema = test_schema();
    let w1 = SegmentWriter::for_segment(1_000_000, Segment { id: 5 }, &schema, &mut dir);
    assert!(w1.is_ok());
    match SegmentWriter::for_segment(1_000_000, Segment { id: 5 }, &schema, &mut dir) {
        Err(e) => assert_eq!(e, TantivyError::FileAlreadyExists),
        Ok(_) => panic!("expected an already-exists error"),
    }
}

#[test]
fn test_facet_aggregation() {
    // index v*v documents tagged with facet_v for v in 0..50, in shuffled
    // doc order; each facet's doc frequency must come back as v*v
    let mut facets: Vec<u32> = Vec::new();
    for v in 0..50u32 {
        for _ in 0..(v * v) {
            facets.push(v);
        }
    }
    // a deterministic in-place shuffle
    let mut state: u64 = 0x2545F4914F6CDD1D;
    for i in (1..facets.len()).rev() {
        state = state
            .wrapping_mul(6364136223846793005)
            .wrapping_add(1442695040888963407);
        let j = (state % ((i + 1) as u64)) as usize;
        facets.swap(i, j);
    }

    let mut postings = MultiFieldPostingsWriter::new(14);
    for (doc, v) in facets.iter().enumerate() {
        let mut term = Term::for_field(2);
        term.set_text(format!("facet_{}", v).as_bytes());
        postings
            .subscribe(doc as u32, &term, RecordMode::Basic, 0)
            .unwrap();
    }
    for v in 0..50u32 {
        let mut term = Term::for_field(2);
        term.set_text(format!("facet_{}", v).as_bytes());
        let df = postings.doc_freq(&term);
        if v == 0 {
            assert_eq!(df, None);
        } else {
            assert_eq!(df, Some(v * v));
        }
    }
}

#[test]
fn test_abandoned_writer_refuses_finalize() {
    let mut dir = RamDirectory::create();
    let schema = test_schema();
    let writer =
        SegmentWriter::for_segment(1_000_000, Segment { id: 6 }, &schema, &mut dir).unwrap();
    // a fresh writer finalizes fine; an abandoned one is exercised through
    // the io error kind below
    let opstamps = writer.finalize(&mut dir).unwrap();
    assert_eq!(opstamps.len(), 0);
}

#[test]
fn test_term_table_full_abandons_segment() {
    // the smallest accepted budget yields a 2^10-bucket table; more than
    // 1024 distinct terms cannot fit and the segment must be abandoned
    assert_eq!(initial_table_size(49_155).unwrap(), 10);

    let mut postings = MultiFieldPostingsWriter::new(10);
    for t in 0..1024u64 {
        let term = Term::from_field_u64(0, t);
        postings.subscribe(0, &term, RecordMode::Basic, 0).unwrap();
    }
    let overflow = Term::from_field_u64(0, 5000);
    assert_eq!(
        postings.subscribe(0, &overflow, RecordMode::Basic, 0),
        Err(TantivyError::TableFull)
    );
    // an already-present term is still found even though the table is full
    let present = Term::from_field_u64(0, 17);
    assert!(postings.subscribe(1, &present, RecordMode::Basic, 0).is_ok());

    // through the segment writer, the overflow abandons the segment and
    // finalize refuses it
    let mut dir = RamDirectory::create();
    let schema = test_schema();
    let mut writer =
        SegmentWriter::for_segment(49_155, Segment { id: 9 }, &schema, &mut dir).unwrap();
    assert_eq!(writer.table_num_bits(), 10);
    let mut title: Vec<u8> = Vec::new();
    for t in 0..1025u32 {
        title.extend_from_slice(format!("w{} ", t).as_bytes());
    }
    let r = writer.add_document(
        AddOperation {
            opstamp: 1,
            document: doc(&title, 1, b"top"),
        },
        &schema,
    );
    assert_eq!(r.unwrap_err(), TantivyError::TableFull);
    assert_eq!(writer.max_doc(), 0);
    match writer.finalize(&mut dir) {
        Err(e) => assert_eq!(e, TantivyError::Io),
        Ok(_) => panic!("an abandoned writer must refuse to finalize"),
    }
}
