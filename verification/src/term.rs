//! Terms: a field-id prefix followed by the value's bytes, encoded so that
//! lexicographic byte order agrees with the value's natural order.

use vstd::prelude::*;

verus! {

/// Strict lexicographic order on byte strings.
pub open spec fn lex_lt(a: Seq<u8>, b: Seq<u8>) -> bool
    decreases b.len(),
{
    if b.len() == 0 {
        false
    } else if a.len() == 0 {
        true
    } else if a[0] < b[0] {
        true
    } else if a[0] > b[0] {
        false
    } else {
        lex_lt(a.skip(1), b.skip(1))
    }
}

/// If the two strings agree below `k` and differ at `k` in favor of `b`,
/// then `a` precedes `b` lexicographically.
pub proof fn lemma_lex_from_witness(a: Seq<u8>, b: Seq<u8>, k: int)
    requires
        0 <= k < a.len(),
        k < b.len(),
        forall|j: int| 0 <= j < k ==> a[j] == b[j],
        a[k] < b[k],
    ensures
        lex_lt(a, b),
    decreases k,
{
    if k > 0 {
        lemma_lex_from_witness(a.skip(1), b.skip(1), k - 1);
    }
}

/// Prepending a common prefix does not change the order.
pub proof fn lemma_lex_prefix(p: Seq<u8>, a: Seq<u8>, b: Seq<u8>)
    ensures
        lex_lt(p + a, p + b) == lex_lt(a, b),
    decreases p.len(),
{
    if p.len() == 0 {
        assert(p + a =~= a);
        assert(p + b =~= b);
    } else {
        assert((p + a).skip(1) =~= p.skip(1) + a);
        assert((p + b).skip(1) =~= p.skip(1) + b);
        lemma_lex_prefix(p.skip(1), a, b);
    }
}

/// Lexicographic order is transitive.
pub proof fn lemma_lex_trans(a: Seq<u8>, b: Seq<u8>, c: Seq<u8>)
    requires
        lex_lt(a, b),
        lex_lt(b, c),
    ensures
        lex_lt(a, c),
    decreases c.len(),
{
    if a.len() > 0 && b.len() > 0 && c.len() > 0 && a[0] == b[0] && b[0] == c[0] {
        lemma_lex_trans(a.skip(1), b.skip(1), c.skip(1));
    }
}

/// Of two distinct strings, one precedes the other.
pub proof fn lemma_lex_connected(a: Seq<u8>, b: Seq<u8>)
    requires
        !lex_lt(a, b),
        !lex_lt(b, a),
    ensures
        a == b,
    decreases a.len(),
{
    if a.len() > 0 && b.len() > 0 {
        lemma_lex_connected(a.skip(1), b.skip(1));
        assert(a =~= seq![a[0]] + a.skip(1));
        assert(b =~= seq![b[0]] + b.skip(1));
    } else {
        assert(a =~= b);
    }
}

/// Lexicographic order is irreflexive.
pub proof fn lemma_lex_irrefl(a: Seq<u8>)
    ensures
        !lex_lt(a, a),
    decreases a.len(),
{
    if a.len() > 0 {
        lemma_lex_irrefl(a.skip(1));
    }
}

/// The four big-endian bytes of a field id.
pub open spec fn field_prefix_spec(field: u32) -> Seq<u8> {
    seq![(field >> 24) as u8, (field >> 16) as u8, (field >> 8) as u8, field as u8]
}

/// The eight big-endian bytes of a `u64` value.
pub open spec fn be_bytes8_spec(v: u64) -> Seq<u8> {
    seq![
        (v >> 56) as u8,
        (v >> 48) as u8,
        (v >> 40) as u8,
        (v >> 32) as u8,
        (v >> 24) as u8,
        (v >> 16) as u8,
        (v >> 8) as u8,
        v as u8,
    ]
}

/// The order-preserving map from signed to unsigned 64-bit values: flip the
/// sign bit, so that increasing `i64`s give increasing `u64`s.
pub open spec fn i64_to_u64_spec(v: i64) -> u64 {
    (v as u64) ^ 0x8000000000000000u64
}

/// Big-endian byte order agrees with numeric order on `u64`.
pub proof fn lemma_be_bytes8_order(a: u64, b: u64)
    requires
        a < b,
    ensures
        lex_lt(be_bytes8_spec(a), be_bytes8_spec(b)),
{
    let sa = be_bytes8_spec(a);
    let sb = be_bytes8_spec(b);
    if (a >> 56) as u8 != (b >> 56) as u8 {
        assert(((a >> 56) as u8) < ((b >> 56) as u8)) by (bit_vector)
            requires
                a < b && (a >> 56) as u8 != (b >> 56) as u8,
        ;
        lemma_lex_from_witness(sa, sb, 0);
    } else if (a >> 48) as u8 != (b >> 48) as u8 {
        assert(((a >> 48) as u8) < ((b >> 48) as u8)) by (bit_vector)
            requires
                a < b && (a >> 56) as u8 == (b >> 56) as u8 && (a >> 48) as u8 != (b >> 48) as u8,
        ;
        lemma_lex_from_witness(sa, sb, 1);
    } else if (a >> 40) as u8 != (b >> 40) as u8 {
        assert(((a >> 40) as u8) < ((b >> 40) as u8)) by (bit_vector)
            requires
                a < b && (a >> 56) as u8 == (b >> 56) as u8 && (a >> 48) as u8 == (b >> 48) as u8
                    && (a >> 40) as u8 != (b >> 40) as u8,
        ;
        lemma_lex_from_witness(sa, sb, 2);
    } else if (a >> 32) as u8 != (b >> 32) as u8 {
        assert(((a >> 32) as u8) < ((b >> 32) as u8)) by (bit_vector)
            requires
                a < b && (a >> 56) as u8 == (b >> 56) as u8 && (a >> 48) as u8 == (b >> 48) as u8
                    && (a >> 40) as u8 == (b >> 40) as u8 && (a >> 32) as u8 != (b >> 32) as u8,
        ;
        lemma_lex_from_witness(sa, sb, 3);
    } else if (a >> 24) as u8 != (b >> 24) as u8 {
        assert(((a >> 24) as u8) < ((b >> 24) as u8)) by (bit_vector)
            requires
                a < b && (a >> 56) as u8 == (b >> 56) as u8 && (a >> 48) as u8 == (b >> 48) as u8
                    && (a >> 40) as u8 == (b >> 40) as u8 && (a >> 32) as u8 == (b >> 32) as u8 && (
                a >> 24) as u8 != (b >> 24) as u8,
        ;
        lemma_lex_from_witness(sa, sb, 4);
    } else if (a >> 16) as u8 != (b >> 16) as u8 {
        assert(((a >> 16) as u8) < ((b >> 16) as u8)) by (bit_vector)
            requires
                a < b && (a >> 56) as u8 == (b >> 56) as u8 && (a >> 48) as u8 == (b >> 48) as u8
                    && (a >> 40) as u8 == (b >> 40) as u8 && (a >> 32) as u8 == (b >> 32) as u8 && (
                a >> 24) as u8 == (b >> 24) as u8 && (a >> 16) as u8 != (b >> 16) as u8,
        ;
        lemma_lex_from_witness(sa, sb, 5);
    } else if (a >> 8) as u8 != (b >> 8) as u8 {
        assert(((a >> 8) as u8) < ((b >> 8) as u8)) by (bit_vector)
            requires
                a < b && (a >> 56) as u8 == (b >> 56) as u8 && (a >> 48) as u8 == (b >> 48) as u8
                    && (a >> 40) as u8 == (b >> 40) as u8 && (a >> 32) as u8 == (b >> 32) as u8 && (
                a >> 24) as u8 == (b >> 24) as u8 && (a >> 16) as u8 == (b >> 16) as u8 && (a
                >> 8) as u8 != (b >> 8) as u8,
        ;
        lemma_lex_from_witness(sa, sb, 6);
    } else {
        assert((a as u8) < (b as u8)) by (bit_vector)
            requires
                a < b && (a >> 56) as u8 == (b >> 56) as u8 && (a >> 48) as u8 == (b >> 48) as u8
                    && (a >> 40) as u8 == (b >> 40) as u8 && (a >> 32) as u8 == (b >> 32) as u8 && (
                a >> 24) as u8 == (b >> 24) as u8 && (a >> 16) as u8 == (b >> 16) as u8 && (a
                >> 8) as u8 == (b >> 8) as u8,
        ;
        lemma_lex_from_witness(sa, sb, 7);
    }
}

/// The sign-bit flip preserves order from `i64` to `u64`.
pub proof fn lemma_i64_to_u64_order(a: i64, b: i64)
    requires
        a < b,
    ensures
        i64_to_u64_spec(a) < i64_to_u64_spec(b),
{
    assert(((a as u64) ^ 0x8000000000000000u64) < ((b as u64) ^ 0x8000000000000000u64))
        by (bit_vector)
        requires
            a < b,
    ;
}

/// A term: the owning field's id as a four-byte big-endian prefix, followed
/// by the value bytes.
pub struct Term {
    field: u32,
    value: Vec<u8>,
}

impl Term {
    /// The term's full byte string.
    pub closed spec fn view(&self) -> Seq<u8> {
        field_prefix_spec(self.field) + self.value@
    }

    /// The term's field.
    pub closed spec fn field_spec(&self) -> u32 {
        self.field
    }

    /// A term of `field` with empty value bytes.
    pub fn for_field(field: u32) -> (t: Term)
        ensures
            t.field_spec() == field,
            t.view() == field_prefix_spec(field),
    {
        let t = Term { field, value: Vec::new() };
        proof {
            assert(t.view() =~= field_prefix_spec(field));
        }
        t
    }

    /// Replaces the value bytes with `text`, keeping the field prefix.
    pub fn set_text(&mut self, text: &[u8])
        ensures
            final(self).field_spec() == old(self).field_spec(),
            final(self).view() == field_prefix_spec(old(self).field_spec()) + text@,
    {
        self.value = crate::directory::bytes_to_vec(text);
    }

    /// A term for a `u64` value, big-endian so that byte order is value
    /// order.
    pub fn from_field_u64(field: u32, v: u64) -> (t: Term)
        ensures
            t.field_spec() == field,
            t.view() == field_prefix_spec(field) + be_bytes8_spec(v),
    {
        let mut value: Vec<u8> = Vec::new();
        value.push((v >> 56) as u8);
        value.push((v >> 48) as u8);
        value.push((v >> 40) as u8);
        value.push((v >> 32) as u8);
        value.push((v >> 24) as u8);
        value.push((v >> 16) as u8);
        value.push((v >> 8) as u8);
        value.push(v as u8);
        let t = Term { field, value };
        proof {
            assert(t.value@ =~= be_bytes8_spec(v));
        }
        t
    }

    /// A term for an `i64` value: the sign bit is flipped before the
    /// big-endian encoding so that byte order is numeric order.
    pub fn from_field_i64(field: u32, v: i64) -> (t: Term)
        ensures
            t.field_spec() == field,
            t.view() == field_prefix_spec(field) + be_bytes8_spec(i64_to_u64_spec(v)),
    {
        let mapped: u64 = (v as u64) ^ 0x8000000000000000u64;
        Term::from_field_u64(field, mapped)
    }

    /// A term for a date value, indexed as its second-precision timestamp.
    pub fn from_field_date(field: u32, timestamp: i64) -> (t: Term)
        ensures
            t.field_spec() == field,
            t.view() == field_prefix_spec(field) + be_bytes8_spec(i64_to_u64_spec(timestamp)),
    {
        Term::from_field_i64(field, timestamp)
    }

    /// A term for an `f64` value that has already been mapped to the
    /// order-preserving `u64` encoding of IEEE doubles (sign bit flipped for
    /// non-negative values, all bits flipped for negative ones); the mapping
    /// itself lives with the callers that handle floating point.
    pub fn from_field_f64_mapped(field: u32, mapped: u64) -> (t: Term)
        ensures
            t.field_spec() == field,
            t.view() == field_prefix_spec(field) + be_bytes8_spec(mapped),
    {
        Term::from_field_u64(field, mapped)
    }

    /// The full term bytes: field prefix, then value.
    pub fn full_bytes(&self) -> (r: Vec<u8>)
        ensures
            r@ == self.view(),
    {
        let mut r: Vec<u8> = Vec::new();
        r.push((self.field >> 24) as u8);
        r.push((self.field >> 16) as u8);
        r.push((self.field >> 8) as u8);
        r.push(self.field as u8);
        let mut i: usize = 0;
        while i < self.value.len()
            invariant
                i <= self.value@.len(),
                r@ == field_prefix_spec(self.field) + self.value@.subrange(0, i as int),
            decreases self.value@.len() - i,
        {
            r.push(self.value[i]);
            i = i + 1;
            proof {
                assert(r@ =~= field_prefix_spec(self.field) + self.value@.subrange(0, i as int));
            }
        }
        proof {
            assert(r@ =~= self.view());
        }
        r
    }
}

/// Two `u64` values in order give terms of one field in strict
/// lexicographic order.
pub proof fn lemma_u64_term_order(field: u32, a: u64, b: u64)
    requires
        a < b,
    ensures
        lex_lt(
            field_prefix_spec(field) + be_bytes8_spec(a),
            field_prefix_spec(field) + be_bytes8_spec(b),
        ),
{
    lemma_be_bytes8_order(a, b);
    lemma_lex_prefix(field_prefix_spec(field), be_bytes8_spec(a), be_bytes8_spec(b));
}

/// Two `i64` values (and so two dates) in order give terms of one field in
/// strict lexicographic order.
pub proof fn lemma_i64_term_order(field: u32, a: i64, b: i64)
    requires
        a < b,
    ensures
        lex_lt(
            field_prefix_spec(field) + be_bytes8_spec(i64_to_u64_spec(a)),
            field_prefix_spec(field) + be_bytes8_spec(i64_to_u64_spec(b)),
        ),
{
    lemma_i64_to_u64_order(a, b);
    lemma_u64_term_order(field, i64_to_u64_spec(a), i64_to_u64_spec(b));
}

} // verus!
