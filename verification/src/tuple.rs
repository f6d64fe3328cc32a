//! Tuple codec: one encoded row is a header (a reserved marker byte and
//! the null bitmap, one byte per schema field) followed by the packed
//! bytes of the non-null fields, in field order, each at its type's fixed
//! width. The layout is schema-relative: the bytes mean nothing without
//! the originating schema.

use vstd::prelude::*;
use crate::schema::{Field, Schema, size_of_fields};
use vstd::slice::{slice_subrange, slice_to_vec};

verus! {

/// A per-tuple header: a reserved leading marker byte (always 0 here) and
/// one null-flag byte per schema field, 0 meaning present.
#[derive(Debug, PartialEq)]
pub struct TupleHeader {
    pub nulls: Vec<u8>,
}

/// The header's on-disk form: the marker byte, then the null bitmap.
pub open spec fn spec_header_bytes(nulls: Seq<u8>) -> Seq<u8> {
    seq![0u8] + nulls
}

impl TupleHeader {
    /// Built directly from the caller-supplied null flags; no validation
    /// against the schema's field count happens here.
    pub fn build(nulls: &[u8]) -> (h: TupleHeader)
        ensures
            h.nulls@ == nulls@,
    {
        TupleHeader { nulls: slice_to_vec(nulls) }
    }

    pub fn as_bytes(&self) -> (out: Vec<u8>)
        ensures
            out@ == spec_header_bytes(self.nulls@),
    {
        let mut out: Vec<u8> = Vec::new();
        out.push(0);
        let mut i: usize = 0;
        while i < self.nulls.len()
            invariant
                i <= self.nulls@.len(),
                out@ == seq![0u8] + self.nulls@.take(i as int),
            decreases self.nulls@.len() - i,
        {
            out.push(self.nulls[i]);
            proof {
                assert(out@ =~= seq![0u8] + self.nulls@.take(i as int + 1));
            }
            i += 1;
        }
        proof {
            assert(self.nulls@.take(self.nulls@.len() as int) =~= self.nulls@);
        }
        out
    }
}

#[derive(Debug)]
pub enum PageError {
    /// The data's length disagrees with the schema-computed tuple size;
    /// carries the offending schema, nulls and data for diagnosis.
    CorruptedTuple { schema: Schema, nulls: Vec<u8>, data: Vec<u8> },
    /// No schema was supplied where one is mandatory context.
    MissingSchema,
}

/// One encoded row: the null bitmap and the packed non-null column bytes.
#[derive(Debug, PartialEq)]
pub struct Tuple {
    pub header: TupleHeader,
    pub data: Vec<u8>,
}

/// The canonical on-disk tuple layout: marker byte, null bitmap, payload.
pub open spec fn spec_tuple_bytes(nulls: Seq<u8>, data: Seq<u8>) -> Seq<u8> {
    seq![0u8] + nulls + data
}

/// What decoding a byte stream against a schema recovers: the null bitmap
/// and payload sliced out of the stream, provided the payload length
/// agrees with the schema-computed size for that bitmap.
pub open spec fn spec_from_bytes(bytes: Seq<u8>, fields: Seq<Field>) -> Option<(Seq<u8>, Seq<u8>)> {
    let nulls = bytes.subrange(1, fields.len() as int + 1);
    let data = bytes.subrange(fields.len() as int + 1, bytes.len() as int);
    if size_of_fields(fields, nulls) == data.len() {
        Option::Some((nulls, data))
    } else {
        Option::None
    }
}

impl Tuple {
    /// Construct a tuple from already-serialized nulls and data; fails
    /// with a corruption error exactly when the data's length disagrees
    /// with the schema-computed size for these nulls.
    pub fn build(schema: &Schema, nulls: &[u8], data: &[u8]) -> (r: Result<Tuple, PageError>)
        requires
            size_of_fields(schema.fields@, nulls@) <= usize::MAX,
        ensures
            r is Ok <==> size_of_fields(schema.fields@, nulls@) == data@.len(),
            r matches Ok(t) ==> t.header.nulls@ == nulls@ && t.data@ == data@,
            r matches Err(e) ==> (e matches PageError::CorruptedTuple { schema: sc, nulls: ns, data: d }
                && sc.fields@ == schema.fields@ && ns@ == nulls@ && d@ == data@),
    {
        if schema.tuple_size(Some(nulls)) != data.len() {
            Err(
                PageError::CorruptedTuple {
                    schema: schema.clone(),
                    nulls: slice_to_vec(nulls),
                    data: slice_to_vec(data),
                },
            )
        } else {
            Ok(Tuple { header: TupleHeader::build(nulls), data: slice_to_vec(data) })
        }
    }

    /// The tuple's canonical byte form: header bytes, then the payload.
    pub fn as_bytes(&self) -> (out: Vec<u8>)
        ensures
            out@ == spec_tuple_bytes(self.header.nulls@, self.data@),
    {
        let mut out = self.header.as_bytes();
        let ghost head = out@;
        let mut i: usize = 0;
        while i < self.data.len()
            invariant
                i <= self.data@.len(),
                out@ == head + self.data@.take(i as int),
            decreases self.data@.len() - i,
        {
            out.push(self.data[i]);
            proof {
                assert(out@ =~= head + self.data@.take(i as int + 1));
            }
            i += 1;
        }
        proof {
            assert(self.data@.take(self.data@.len() as int) =~= self.data@);
            assert(head + self.data@ =~= spec_tuple_bytes(self.header.nulls@, self.data@));
        }
        out
    }

    /// Decode a tuple from its byte form. The schema is mandatory context:
    /// without it decoding fails. The marker byte is skipped, the next
    /// `fields.len()` bytes are the null bitmap, and the remainder is the
    /// payload, validated by [`Tuple::build`].
    pub fn from_bytes(bytes: &[u8], schema: Option<&Schema>) -> (r: Result<Tuple, PageError>)
        requires
            (schema matches Some(s) ==> bytes@.len() >= s.fields@.len() + 1),
            (schema matches Some(s) ==> size_of_fields(
                s.fields@,
                bytes@.subrange(1, s.fields@.len() as int + 1),
            ) <= usize::MAX),
        ensures
            schema is None ==> r matches Err(PageError::MissingSchema),
            (schema matches Some(s) ==> (r is Ok <==> spec_from_bytes(bytes@, s.fields@) is Some)),
            (schema matches Some(s) ==> (r matches Ok(t) ==> {
                let p = spec_from_bytes(bytes@, s.fields@).unwrap();
                t.header.nulls@ == p.0 && t.data@ == p.1
            })),
    {
        match schema {
            None => Err(PageError::MissingSchema),
            Some(s) => {
                let total_len = bytes.len();
                let columns_total = s.fields.len();
                let nulls = slice_subrange(bytes, 1, columns_total + 1);
                let data = slice_subrange(bytes, columns_total + 1, total_len);
                Tuple::build(s, nulls, data)
            },
        }
    }
}

/// Round trip of the tuple codec: a well-formed tuple's byte form decodes
/// back to exactly the nulls and data it was built from, for any schema
/// whose field count matches the bitmap and whose computed size matches
/// the data.
pub proof fn lemma_tuple_round_trip(fields: Seq<Field>, nulls: Seq<u8>, data: Seq<u8>)
    requires
        nulls.len() == fields.len(),
        size_of_fields(fields, nulls) == data.len(),
    ensures
        spec_from_bytes(spec_tuple_bytes(nulls, data), fields) == Option::Some((nulls, data)),
{
    let bytes = spec_tuple_bytes(nulls, data);
    assert(bytes.subrange(1, fields.len() as int + 1) =~= nulls);
    assert(bytes.subrange(fields.len() as int + 1, bytes.len() as int) =~= data);
}

} // verus!
