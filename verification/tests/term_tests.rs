use tantivy::fieldnorm::fieldnorm_to_id;
use tantivy::postings::MultiFieldPostingsWriter;
use tantivy::postings::PostingsSerializer;
use tantivy::postings::RecordMode;
use tantivy::fieldnorm::id_to_fieldnorm;
use tantivy::postings::write_vint;
use tantivy::term::Term;

/// The order-preserving u64 image of an IEEE double: the sign bit is
/// flipped for non-negative values, all bits for negative ones.
fn f64_to_u64(val: f64) -> u64 {
    let bits = val.to_bits();
    if val.is_sign_positive() {
        bits ^ 0x8000_0000_0000_0000
    } else {
        !bits
    }
}

fn decode_vint(bytes: &[u8]) -> (u64, usize) {
    let mut result: u64 = 0;
    let mut shift = 0u32;
    for (i, b) in bytes.iter().enumerate() {
        result |= ((b & 0x7f) as u64) << shift;
        if b & 0x80 == 0 {
            return (result, i + 1);
        }
        shift += 7;
    }
    panic!("truncated vint");
}

#[test]
fn test_u64_term_order() {
    let cases: [(u64, u64); 4] = [(0, 1), (1, 255), (255, 256), (123, u64::MAX)];
    for (a, b) in cases {
        let ta = Term::from_field_u64(1, a).full_bytes();
        let tb = Term::from_field_u64(1, b).full_bytes();
        assert!(ta < tb);
    }
}

#[test]
fn test_i64_term_order() {
    let cases: [(i64, i64); 5] = [(-3, -2), (-1, 0), (0, 1), (i64::MIN, -1), (-1, i64::MAX)];
    for (a, b) in cases {
        let ta = Term::from_field_i64(1, a).full_bytes();
        let tb = Term::from_field_i64(1, b).full_bytes();
        assert!(ta < tb);
    }
}

#[test]
fn test_date_term_order() {
    let ta = Term::from_field_date(1, -86_400).full_bytes();
    let tb = Term::from_field_date(1, 0).full_bytes();
    let tc = Term::from_field_date(1, 86_400).full_bytes();
    assert!(ta < tb);
    assert!(tb < tc);
}

#[test]
fn test_f64_term_order() {
    let cases: [(f64, f64); 4] = [(-2.5, -1.25), (-0.5, 0.0), (0.0, 0.25), (1.5, 1000.75)];
    for (a, b) in cases {
        let ta = Term::from_field_f64_mapped(1, f64_to_u64(a)).full_bytes();
        let tb = Term::from_field_f64_mapped(1, f64_to_u64(b)).full_bytes();
        assert!(ta < tb);
    }
}

#[test]
fn test_terms_of_lower_fields_come_first() {
    let ta = Term::from_field_u64(1, u64::MAX).full_bytes();
    let tb = Term::from_field_u64(2, 0).full_bytes();
    assert!(ta < tb);
}

#[test]
fn test_term_layout() {
    // four big-endian field-id bytes, then the big-endian value
    let t = Term::from_field_u64(0x0102_0304, 0x05).full_bytes();
    assert_eq!(t, vec![1, 2, 3, 4, 0, 0, 0, 0, 0, 0, 0, 5]);
}

#[test]
fn test_vint_round_trip() {
    for v in [0u64, 1, 127, 128, 300, 16_383, 16_384, u64::MAX] {
        let mut buf: Vec<u8> = Vec::new();
        write_vint(&mut buf, v);
        let (decoded, used) = decode_vint(&buf);
        assert_eq!(decoded, v);
        assert_eq!(used, buf.len());
    }
}

#[test]
fn test_fieldnorm_round_trip() {
    for id in [0u8, 1, 41, 200, 255] {
        assert_eq!(fieldnorm_to_id(id_to_fieldnorm(id)), id);
    }
    // the quantization is lossy above its ceiling
    assert_eq!(fieldnorm_to_id(1_000_000), 255);
}

#[test]
fn test_serialize_sorts_terms_and_remaps_ids() {
    let mut postings = MultiFieldPostingsWriter::new(10);
    let mut ids: Vec<u32> = Vec::new();
    for text in [&b"banana"[..], &b"apple"[..], &b"cherry"[..]] {
        let mut term = Term::for_field(0);
        term.set_text(text);
        ids.push(postings.subscribe(0, &term, RecordMode::WithFreqs, 0).unwrap());
    }
    // unordered ids follow first-insertion order
    assert_eq!(ids, vec![0, 1, 2]);

    let mut ser = PostingsSerializer::new();
    let remap = postings.serialize(&mut ser);
    // the remap has one slot per unordered id, pointing at the term's rank
    // in the sorted dictionary: apple < banana < cherry
    assert_eq!(remap, vec![1, 0, 2]);

    let (terms_file, postings_file, _positions_file) = ser.into_buffers();
    // dictionary entries are (len, bytes, doc freq), strictly ascending
    let mut names: Vec<Vec<u8>> = Vec::new();
    let mut pos = 0usize;
    while pos < terms_file.len() {
        let len = terms_file[pos] as usize;
        pos += 1;
        let name = terms_file[pos..pos + len].to_vec();
        pos += len;
        let df = terms_file[pos];
        pos += 1;
        assert_eq!(df, 1);
        names.push(name);
    }
    assert_eq!(names.len(), 3);
    assert!(names[0] < names[1] && names[1] < names[2]);
    // each dictionary name is the four-byte field prefix plus the text
    assert_eq!(&names[0][4..], b"apple");
    assert_eq!(&names[1][4..], b"banana");
    assert_eq!(&names[2][4..], b"cherry");
    // one posting list per term: doc freq 1, delta doc 0, tf 1, no positions
    assert_eq!(postings_file, vec![1, 0, 1, 0, 1, 0, 1, 0, 1, 0, 1, 0]);
}
