//! The three operations of a described type: size, encoding and decoding.
use crate::decode::{decode_schema, decoding_of_schema, read};
use crate::encode::{
    context_after_schema, encodable_schema, encode_schema, encoding_of_schema, written,
};
use crate::endian::{host_order, ByteOrder};
use crate::error::Error;
use crate::laws::{lemma_decoded_schema, lemma_size_of_schema};
use crate::schema::{Schema, SpecSchema};
use crate::size::{fitting, size_of_schema, size_schema};
use crate::typing::{valid_schema, well_typed_schema};
use crate::value::Value;
use vstd::prelude::*;

verus! {

/// What a value read under a valid schema is like: it has the shape of
/// the described type, and the bytes taken for it, which the input held, are
/// as many as its encoded size.
pub open spec fn taken_as_sized(s: SpecSchema, r: Result<(Value, usize), Error>, input: Seq<u8>) -> bool {
    r matches Ok((v, end)) ==> well_typed_schema(s, v@) && end == size_of_schema(s, v@) && end
        <= input.len()
}

impl Schema {
    /// The number of bytes that `v` occupies once encoded, where that is a machine size.
    pub fn encoded_size(&self, v: &Value) -> (n: Option<usize>)
        requires
            well_typed_schema(self@, v@),
        ensures
            n == fitting(size_of_schema(self@, v@)),
    {
        size_schema(self, v)
    }

    /// Appends the encoding of `v` to `out` on a machine whose byte order is
    /// `host`, which is also the order of a type that declares none.  `ctx`
    /// receives the context that encoding leaves.
    pub fn encode_with(&self, v: &Value, host: ByteOrder, out: &mut Vec<u8>, ctx: &mut Value) -> (r:
        Result<(), Error>)
        requires
            valid_schema(self@),
            well_typed_schema(self@, v@),
        ensures
            written(
                r,
                encodable_schema(self@, v@),
                old(out)@,
                final(out)@,
                encoding_of_schema(self@, v@, host, host),
                final(ctx)@,
                context_after_schema(self@, v@, old(ctx)@),
            ),
            r is Ok ==> final(out)@.len() == old(out)@.len() + size_of_schema(self@, v@),
    {
        proof {
            if encodable_schema(self@, v@) {
                lemma_size_of_schema(self@, v@, host, host);
            }
        }
        encode_schema(self, v, host, host, out, ctx)
    }

    /// Appends the encoding of `v` to `out` on this machine, whichever of the
    /// two byte orders it has.
    pub fn encode(&self, v: &Value, out: &mut Vec<u8>, ctx: &mut Value) -> (r: Result<(), Error>)
        requires
            valid_schema(self@),
            well_typed_schema(self@, v@),
        ensures
            exists|host: ByteOrder|
                written(
                    r,
                    encodable_schema(self@, v@),
                    old(out)@,
                    final(out)@,
                    #[trigger] encoding_of_schema(self@, v@, host, host),
                    final(ctx)@,
                    context_after_schema(self@, v@, old(ctx)@),
                ),
            r is Ok ==> final(out)@.len() == old(out)@.len() + size_of_schema(self@, v@),
    {
        let host = host_order();
        self.encode_with(v, host, out, ctx)
    }

    /// Reads a value from the start of `input` on a machine whose byte order
    /// is `host`, and says how many bytes it took.  `ctx` is the context that
    /// context markers receive.
    pub fn decode_with(&self, input: &[u8], host: ByteOrder, ctx: &Value) -> (r: Result<
        (Value, usize),
        Error,
    >)
        ensures
            read(r, decoding_of_schema(self@, input@, host, host, ctx@), 0),
            valid_schema(self@) ==> taken_as_sized(self@, r, input@),
    {
        proof {
            assert(input@.skip(0) =~= input@);
            if valid_schema(self@) && decoding_of_schema(self@, input@, host, host, ctx@) is Ok {
                lemma_decoded_schema(self@, input@, host, host, ctx@);
            }
        }
        decode_schema(self, input, 0, host, host, ctx)
    }

    /// Reads a value from the start of `input` on this machine, whichever of
    /// the two byte orders it has.
    pub fn decode(&self, input: &[u8], ctx: &Value) -> (r: Result<(Value, usize), Error>)
        ensures
            exists|host: ByteOrder|
                read(r, #[trigger] decoding_of_schema(self@, input@, host, host, ctx@), 0),
            valid_schema(self@) ==> taken_as_sized(self@, r, input@),
    {
        let host = host_order();
        self.decode_with(input, host, ctx)
    }
}

} // verus!
