//! Byte order of multi-byte primitives.
use vstd::prelude::*;

verus! {

/// A concrete order of the bytes of a multi-byte primitive.
#[derive(Clone, Copy, Debug, PartialEq, Eq, Structural)]
pub enum ByteOrder {
    /// Most significant byte first.
    Big,
    /// Least significant byte first.
    Little,
}

/// The byte order a schema asks for.
#[derive(Clone, Copy, Debug, PartialEq, Eq, Structural)]
pub enum Endianness {
    /// Most significant byte first.
    Big,
    /// Least significant byte first.
    Little,
    /// Whatever the machine that runs the codec uses.
    Native,
}

impl Endianness {
    /// The concrete order this choice stands for on a machine whose own order is `host`.
    pub open spec fn spec_resolve(self, host: ByteOrder) -> ByteOrder {
        match self {
            Endianness::Big => ByteOrder::Big,
            Endianness::Little => ByteOrder::Little,
            Endianness::Native => host,
        }
    }

    /// The concrete order this choice stands for on a machine whose own order is `host`.
    #[verifier::when_used_as_spec(spec_resolve)]
    pub fn resolve(self, host: ByteOrder) -> (order: ByteOrder)
        ensures
            order == self.spec_resolve(host),
    {
        match self {
            Endianness::Big => ByteOrder::Big,
            Endianness::Little => ByteOrder::Little,
            Endianness::Native => host,
        }
    }
}

/// The order that applies inside a type which may override the one it inherits.
pub open spec fn spec_effective_order(
    declared: Option<Endianness>,
    inherited: ByteOrder,
    host: ByteOrder,
) -> ByteOrder {
    match declared {
        Some(e) => e.spec_resolve(host),
        None => inherited,
    }
}

/// The order that applies inside a type which may override the one it inherits.
#[verifier::when_used_as_spec(spec_effective_order)]
pub fn effective_order(declared: Option<Endianness>, inherited: ByteOrder, host: ByteOrder) -> (order:
    ByteOrder)
    ensures
        order == spec_effective_order(declared, inherited, host),
{
    match declared {
        Some(e) => e.resolve(host),
        None => inherited,
    }
}

/// `u16::to_ne_bytes`: the two bytes of `x` in the order of the running machine,
/// which is one of the two orders there are.
#[verifier::external_body]
fn native_bytes(x: u16) -> (bytes: [u8; 2])
    ensures
        (bytes[0] == x % 256 && bytes[1] == x / 256) || (bytes[0] == x / 256 && bytes[1] == x % 256),
{
    x.to_ne_bytes()
}

/// The byte order of the machine that runs this call.
pub fn host_order() -> (order: ByteOrder) {
    let bytes = native_bytes(1);
    order_of(bytes)
}

/// The byte order of a machine that holds the number 1 as the two bytes
/// `bytes`: little endian where the first of them is the 1.
pub open spec fn spec_order_of(bytes: [u8; 2]) -> ByteOrder {
    if bytes[0] == 1 {
        ByteOrder::Little
    } else {
        ByteOrder::Big
    }
}

/// The byte order of a machine that holds the number 1 as the two bytes `bytes`.
#[verifier::when_used_as_spec(spec_order_of)]
pub fn order_of(bytes: [u8; 2]) -> (order: ByteOrder)
    ensures
        order == spec_order_of(bytes),
{
    if bytes[0] == 1 {
        ByteOrder::Little
    } else {
        ByteOrder::Big
    }
}

} // verus!
