//! Fixed-width scalars and their bytes.
//!
//! Every scalar is written as the digits of one natural number in base 256,
//! its raw pattern, in the byte order asked for.  Nothing else in the crate
//! touches raw bytes.
use crate::endian::ByteOrder;
use crate::error::Error;
use vstd::prelude::*;

verus! {

/// The scalar types a layout is made of.
#[derive(Clone, Copy, Debug, PartialEq, Eq, Structural)]
pub enum Primitive {
    Bool,
    U8,
    U16,
    U32,
    U64,
    U128,
    I8,
    I16,
    I32,
    I64,
    I128,
    F32,
    F64,
}

/// A value of a scalar type.  A floating-point number is held as the pattern
/// of its bits, which is what travels on the wire.
#[derive(Clone, Copy, Debug, PartialEq, Eq, Structural)]
pub enum Scalar {
    Bool(bool),
    U8(u8),
    U16(u16),
    U32(u32),
    U64(u64),
    U128(u128),
    I8(i8),
    I16(i16),
    I32(i32),
    I64(i64),
    I128(i128),
    F32(u32),
    F64(u64),
}

/// 256 to the power `n`: the number of patterns that `n` bytes can hold.
pub open spec fn pow256(n: nat) -> nat
    decreases n,
{
    if n == 0 {
        1
    } else {
        256 * pow256((n - 1) as nat)
    }
}

/// The powers of 256 that the widths of the primitives reach.
pub proof fn lemma_pow256_values()
    ensures
        pow256(0) == 1,
        pow256(1) == 0x100,
        pow256(2) == 0x1_0000,
        pow256(4) == 0x1_0000_0000,
        pow256(8) == 0x1_0000_0000_0000_0000,
        pow256(16) == 0x1_0000_0000_0000_0000_0000_0000_0000_0000,
{
    reveal_with_fuel(pow256, 17);
}

/// 256 to the power `n` grows with `n`.
pub proof fn lemma_pow256_monotonic(a: nat, b: nat)
    requires
        a <= b,
    ensures
        pow256(a) <= pow256(b),
        pow256(a) >= 1,
    decreases b,
{
    if a < b {
        lemma_pow256_monotonic(a, (b - 1) as nat);
    } else if a > 0 {
        lemma_pow256_monotonic((a - 1) as nat, (a - 1) as nat);
    }
}

impl Primitive {
    /// The number of bytes a scalar of this type occupies.
    pub open spec fn width(self) -> nat {
        match self {
            Primitive::Bool | Primitive::U8 | Primitive::I8 => 1,
            Primitive::U16 | Primitive::I16 => 2,
            Primitive::U32 | Primitive::I32 | Primitive::F32 => 4,
            Primitive::U64 | Primitive::I64 | Primitive::F64 => 8,
            Primitive::U128 | Primitive::I128 => 16,
        }
    }

    /// The number of bytes a scalar of this type occupies.
    pub fn size(self) -> (n: usize)
        ensures
            n == self.width(),
            1 <= n <= 16,
    {
        match self {
            Primitive::Bool | Primitive::U8 | Primitive::I8 => 1,
            Primitive::U16 | Primitive::I16 => 2,
            Primitive::U32 | Primitive::I32 | Primitive::F32 => 4,
            Primitive::U64 | Primitive::I64 | Primitive::F64 => 8,
            Primitive::U128 | Primitive::I128 => 16,
        }
    }

    /// Whether the type is one of the two's complement integers.
    pub open spec fn is_signed(self) -> bool {
        matches!(
            self,
            Primitive::I8 | Primitive::I16 | Primitive::I32 | Primitive::I64 | Primitive::I128
        )
    }

    /// Whether a scalar of this type counts as an integer: every type but the
    /// floating-point ones, with `false` as 0 and `true` as 1.
    pub open spec fn spec_is_integral(self) -> bool {
        !(self is F32 || self is F64)
    }

    /// Whether a scalar of this type counts as an integer.
    #[verifier::when_used_as_spec(spec_is_integral)]
    pub fn is_integral(self) -> (b: bool)
        ensures
            b == self.spec_is_integral(),
    {
        match self {
            Primitive::F32 | Primitive::F64 => false,
            _ => true,
        }
    }

    /// The least integer a scalar of this type can stand for.
    pub open spec fn min_int(self) -> int {
        if self.is_signed() {
            -(pow256(self.width()) / 2)
        } else {
            0
        }
    }

    /// The greatest integer a scalar of this type can stand for.
    pub open spec fn max_int(self) -> int {
        if self is Bool {
            1
        } else if self.is_signed() {
            pow256(self.width()) / 2 - 1
        } else {
            pow256(self.width()) - 1
        }
    }

    /// Whether the integer `x` is a value of this type.
    pub open spec fn holds(self, x: int) -> bool {
        self.spec_is_integral() && self.min_int() <= x <= self.max_int()
    }
}

impl Scalar {
    /// The type of the scalar.
    pub open spec fn spec_kind(self) -> Primitive {
        match self {
            Scalar::Bool(_) => Primitive::Bool,
            Scalar::U8(_) => Primitive::U8,
            Scalar::U16(_) => Primitive::U16,
            Scalar::U32(_) => Primitive::U32,
            Scalar::U64(_) => Primitive::U64,
            Scalar::U128(_) => Primitive::U128,
            Scalar::I8(_) => Primitive::I8,
            Scalar::I16(_) => Primitive::I16,
            Scalar::I32(_) => Primitive::I32,
            Scalar::I64(_) => Primitive::I64,
            Scalar::I128(_) => Primitive::I128,
            Scalar::F32(_) => Primitive::F32,
            Scalar::F64(_) => Primitive::F64,
        }
    }

    /// The type of the scalar.
    #[verifier::when_used_as_spec(spec_kind)]
    pub fn kind(self) -> (k: Primitive)
        ensures
            k == self.spec_kind(),
    {
        match self {
            Scalar::Bool(_) => Primitive::Bool,
            Scalar::U8(_) => Primitive::U8,
            Scalar::U16(_) => Primitive::U16,
            Scalar::U32(_) => Primitive::U32,
            Scalar::U64(_) => Primitive::U64,
            Scalar::U128(_) => Primitive::U128,
            Scalar::I8(_) => Primitive::I8,
            Scalar::I16(_) => Primitive::I16,
            Scalar::I32(_) => Primitive::I32,
            Scalar::I64(_) => Primitive::I64,
            Scalar::I128(_) => Primitive::I128,
            Scalar::F32(_) => Primitive::F32,
            Scalar::F64(_) => Primitive::F64,
        }
    }

    /// The integer the scalar stands for: `false` is 0 and `true` is 1, and a
    /// floating-point number counts as the pattern of its bits.
    pub open spec fn as_int(self) -> int {
        match self {
            Scalar::Bool(b) => if b {
                1
            } else {
                0
            },
            Scalar::U8(x) => x as int,
            Scalar::U16(x) => x as int,
            Scalar::U32(x) => x as int,
            Scalar::U64(x) => x as int,
            Scalar::U128(x) => x as int,
            Scalar::I8(x) => x as int,
            Scalar::I16(x) => x as int,
            Scalar::I32(x) => x as int,
            Scalar::I64(x) => x as int,
            Scalar::I128(x) => x as int,
            Scalar::F32(x) => x as int,
            Scalar::F64(x) => x as int,
        }
    }

    /// The pattern of the scalar's bits, read as a natural number: a negative
    /// integer in two's complement.
    pub open spec fn raw(self) -> nat {
        raw_of_int(self.spec_kind(), self.as_int())
    }

    /// The scalar of type `kind` whose bits are the pattern `raw`.  Any
    /// pattern but 0 is `true`.
    pub open spec fn spec_from_raw(kind: Primitive, raw: nat) -> Scalar {
        let x = int_of_raw(kind, raw);
        match kind {
            Primitive::Bool => Scalar::Bool(raw != 0),
            Primitive::U8 => Scalar::U8(x as u8),
            Primitive::U16 => Scalar::U16(x as u16),
            Primitive::U32 => Scalar::U32(x as u32),
            Primitive::U64 => Scalar::U64(x as u64),
            Primitive::U128 => Scalar::U128(x as u128),
            Primitive::I8 => Scalar::I8(x as i8),
            Primitive::I16 => Scalar::I16(x as i16),
            Primitive::I32 => Scalar::I32(x as i32),
            Primitive::I64 => Scalar::I64(x as i64),
            Primitive::I128 => Scalar::I128(x as i128),
            Primitive::F32 => Scalar::F32(x as u32),
            Primitive::F64 => Scalar::F64(x as u64),
        }
    }

    /// The scalar of type `kind` that stands for the integer `x`.
    pub open spec fn spec_from_int(kind: Primitive, x: int) -> Scalar {
        Scalar::spec_from_raw(kind, raw_of_int(kind, x))
    }

    /// The pattern of the scalar's bits.
    pub fn to_raw(self) -> (r: u128)
        ensures
            r == self.raw(),
            r < pow256(self.spec_kind().width()),
    {
        proof {
            lemma_pow256_values();
        }
        match self {
            Scalar::Bool(b) => if b {
                1
            } else {
                0
            },
            Scalar::U8(x) => x as u128,
            Scalar::U16(x) => x as u128,
            Scalar::U32(x) => x as u128,
            Scalar::U64(x) => x as u128,
            Scalar::U128(x) => x,
            Scalar::I8(x) => if x >= 0 {
                x as u128
            } else {
                (x as i128 + 0x100) as u128
            },
            Scalar::I16(x) => if x >= 0 {
                x as u128
            } else {
                (x as i128 + 0x1_0000) as u128
            },
            Scalar::I32(x) => if x >= 0 {
                x as u128
            } else {
                (x as i128 + 0x1_0000_0000) as u128
            },
            Scalar::I64(x) => if x >= 0 {
                x as u128
            } else {
                (x as i128 + 0x1_0000_0000_0000_0000) as u128
            },
            Scalar::I128(x) => if x >= 0 {
                x as u128
            } else {
                let above_min: i128 = x - i128::MIN;
                above_min as u128 + 0x8000_0000_0000_0000_0000_0000_0000_0000u128
            },
            Scalar::F32(x) => x as u128,
            Scalar::F64(x) => x as u128,
        }
    }

    /// The scalar of type `kind` whose bits are the pattern `raw`.
    pub fn from_raw(kind: Primitive, raw: u128) -> (s: Scalar)
        requires
            raw < pow256(kind.width()),
        ensures
            s == Scalar::spec_from_raw(kind, raw as nat),
    {
        proof {
            lemma_pow256_values();
        }
        match kind {
            Primitive::Bool => Scalar::Bool(raw != 0),
            Primitive::U8 => Scalar::U8(raw as u8),
            Primitive::U16 => Scalar::U16(raw as u16),
            Primitive::U32 => Scalar::U32(raw as u32),
            Primitive::U64 => Scalar::U64(raw as u64),
            Primitive::U128 => Scalar::U128(raw),
            Primitive::I8 => Scalar::I8(
                if raw < 0x80 {
                    raw as i8
                } else {
                    (raw as i128 - 0x100) as i8
                },
            ),
            Primitive::I16 => Scalar::I16(
                if raw < 0x8000 {
                    raw as i16
                } else {
                    (raw as i128 - 0x1_0000) as i16
                },
            ),
            Primitive::I32 => Scalar::I32(
                if raw < 0x8000_0000 {
                    raw as i32
                } else {
                    (raw as i128 - 0x1_0000_0000) as i32
                },
            ),
            Primitive::I64 => Scalar::I64(
                if raw < 0x8000_0000_0000_0000 {
                    raw as i64
                } else {
                    (raw as i128 - 0x1_0000_0000_0000_0000) as i64
                },
            ),
            Primitive::I128 => Scalar::I128(
                if raw < 0x8000_0000_0000_0000_0000_0000_0000_0000 {
                    raw as i128
                } else {
                    let above_half: u128 = raw - 0x8000_0000_0000_0000_0000_0000_0000_0000u128;
                    above_half as i128 + i128::MIN
                },
            ),
            Primitive::F32 => Scalar::F32(raw as u32),
            Primitive::F64 => Scalar::F64(raw as u64),
        }
    }

    /// The scalar of type `kind` that stands for the integer `x`.
    pub fn from_int(kind: Primitive, x: i128) -> (s: Scalar)
        requires
            kind.holds(x as int),
        ensures
            s == Scalar::spec_from_int(kind, x as int),
            s.spec_kind() == kind,
            s.as_int() == x,
    {
        proof {
            lemma_pow256_values();
        }
        match kind {
            Primitive::Bool => Scalar::Bool(x != 0),
            Primitive::U8 => Scalar::U8(x as u8),
            Primitive::U16 => Scalar::U16(x as u16),
            Primitive::U32 => Scalar::U32(x as u32),
            Primitive::U64 => Scalar::U64(x as u64),
            Primitive::U128 => Scalar::U128(x as u128),
            Primitive::I8 => Scalar::I8(x as i8),
            Primitive::I16 => Scalar::I16(x as i16),
            Primitive::I32 => Scalar::I32(x as i32),
            Primitive::I64 => Scalar::I64(x as i64),
            Primitive::I128 => Scalar::I128(x),
            // no integer is a value of a floating-point type
            Primitive::F32 => Scalar::F32(0),
            Primitive::F64 => Scalar::F64(0),
        }
    }

    /// Whether the integer the scalar stands for lies between `low` and `high`, both included.
    pub fn within(self, low: i128, high: i128) -> (b: bool)
        ensures
            b == (low <= self.as_int() <= high),
    {
        match self {
            Scalar::U128(x) => {
                if x > 0x7fff_ffff_ffff_ffff_ffff_ffff_ffff_ffffu128 {
                    false
                } else {
                    let y: i128 = x as i128;
                    low <= y && y <= high
                }
            },
            Scalar::Bool(b) => {
                let y: i128 = if b {
                    1
                } else {
                    0
                };
                low <= y && y <= high
            },
            Scalar::U8(x) => low <= x as i128 && x as i128 <= high,
            Scalar::U16(x) => low <= x as i128 && x as i128 <= high,
            Scalar::U32(x) => low <= x as i128 && x as i128 <= high,
            Scalar::U64(x) => low <= x as i128 && x as i128 <= high,
            Scalar::I8(x) => low <= x as i128 && x as i128 <= high,
            Scalar::I16(x) => low <= x as i128 && x as i128 <= high,
            Scalar::I32(x) => low <= x as i128 && x as i128 <= high,
            Scalar::I64(x) => low <= x as i128 && x as i128 <= high,
            Scalar::I128(x) => low <= x && x <= high,
            Scalar::F32(x) => low <= x as i128 && x as i128 <= high,
            Scalar::F64(x) => low <= x as i128 && x as i128 <= high,
        }
    }

    /// The integer the scalar stands for, where it is not negative.
    pub fn to_count(self) -> (n: Option<u128>)
        ensures
            self.as_int() >= 0 ==> n == Some(self.as_int() as u128),
            self.as_int() < 0 ==> n is None,
    {
        match self {
            Scalar::Bool(b) => Some(
                if b {
                    1
                } else {
                    0
                },
            ),
            Scalar::U8(x) => Some(x as u128),
            Scalar::U16(x) => Some(x as u128),
            Scalar::U32(x) => Some(x as u128),
            Scalar::U64(x) => Some(x as u128),
            Scalar::U128(x) => Some(x),
            Scalar::I8(x) => if x >= 0 {
                Some(x as u128)
            } else {
                None
            },
            Scalar::I16(x) => if x >= 0 {
                Some(x as u128)
            } else {
                None
            },
            Scalar::I32(x) => if x >= 0 {
                Some(x as u128)
            } else {
                None
            },
            Scalar::I64(x) => if x >= 0 {
                Some(x as u128)
            } else {
                None
            },
            Scalar::I128(x) => if x >= 0 {
                Some(x as u128)
            } else {
                None
            },
            Scalar::F32(x) => Some(x as u128),
            Scalar::F64(x) => Some(x as u128),
        }
    }
}

/// The pattern that stands for the integer `x` in the type `kind`: `x` itself,
/// or its two's complement where it is negative.
pub open spec fn raw_of_int(kind: Primitive, x: int) -> nat {
    if x >= 0 {
        x as nat
    } else {
        (x + pow256(kind.width())) as nat
    }
}

/// The integer that the pattern `raw` stands for in the type `kind`.
pub open spec fn int_of_raw(kind: Primitive, raw: nat) -> int {
    if kind.is_signed() && raw >= pow256(kind.width()) / 2 {
        raw - pow256(kind.width())
    } else {
        raw as int
    }
}

/// The `n` low digits of `x` in base 256, least significant first.
pub open spec fn le_bytes(x: nat, n: nat) -> Seq<u8>
    decreases n,
{
    if n == 0 {
        Seq::empty()
    } else {
        seq![(x % 256) as u8] + le_bytes(x / 256, (n - 1) as nat)
    }
}

/// The number whose digits in base 256 are `s`, least significant first.
pub open spec fn le_value(s: Seq<u8>) -> nat
    decreases s.len(),
{
    if s.len() == 0 {
        0
    } else {
        s[0] as nat + 256 * le_value(s.drop_first())
    }
}

/// The `n` bytes that hold the pattern `x` in the given order.
#[verifier::opaque]
pub open spec fn bytes_of(x: nat, n: nat, order: ByteOrder) -> Seq<u8> {
    match order {
        ByteOrder::Little => le_bytes(x, n),
        ByteOrder::Big => le_bytes(x, n).reverse(),
    }
}

/// The pattern that the bytes `s` hold in the given order.
pub open spec fn value_of(s: Seq<u8>, order: ByteOrder) -> nat {
    match order {
        ByteOrder::Little => le_value(s),
        ByteOrder::Big => le_value(s.reverse()),
    }
}

/// The bytes of a scalar on the wire.
#[verifier::opaque]
pub open spec fn encode_scalar(s: Scalar, order: ByteOrder) -> Seq<u8> {
    bytes_of(s.raw(), s.spec_kind().width(), order)
}

/// The scalar of type `kind` at the start of `bytes`, where there are enough of them.
#[verifier::opaque]
pub open spec fn decode_scalar(kind: Primitive, bytes: Seq<u8>, order: ByteOrder) -> Option<Scalar> {
    if bytes.len() < kind.width() {
        None
    } else {
        Some(Scalar::spec_from_raw(kind, value_of(bytes.take(kind.width() as int), order)))
    }
}

/// `n` digits are `n` bytes.
pub proof fn lemma_le_bytes_len(x: nat, n: nat)
    ensures
        le_bytes(x, n).len() == n,
    decreases n,
{
    if n > 0 {
        lemma_le_bytes_len(x / 256, (n - 1) as nat);
    }
}

/// `n` bytes hold a pattern below 256 to the `n`.
pub proof fn lemma_le_value_bound(s: Seq<u8>)
    ensures
        le_value(s) < pow256(s.len()),
    decreases s.len(),
{
    if s.len() > 0 {
        lemma_le_value_bound(s.drop_first());
    }
}

/// The digits of a pattern that fits in `n` bytes give the pattern back.
pub proof fn lemma_le_value_of_bytes(x: nat, n: nat)
    requires
        x < pow256(n),
    ensures
        le_value(le_bytes(x, n)) == x,
    decreases n,
{
    if n > 0 {
        let rest = le_bytes(x / 256, (n - 1) as nat);
        let s = le_bytes(x, n);
        lemma_le_value_of_bytes(x / 256, (n - 1) as nat);
        assert(s.drop_first() =~= rest);
    }
}

/// The bytes of a pattern are as many as asked for, in either order.
pub proof fn lemma_bytes_of_len(x: nat, n: nat, order: ByteOrder)
    ensures
        bytes_of(x, n, order).len() == n,
{
    reveal(bytes_of);
    lemma_le_bytes_len(x, n);
}

/// Reading the bytes of a pattern that fits gives the pattern back, in either order.
pub proof fn lemma_value_of_bytes(x: nat, n: nat, order: ByteOrder)
    requires
        x < pow256(n),
    ensures
        value_of(bytes_of(x, n, order), order) == x,
{
    reveal(bytes_of);
    lemma_le_value_of_bytes(x, n);
    assert(le_bytes(x, n).reverse().reverse() =~= le_bytes(x, n));
}

/// The bytes read never hold more than their number allows.
pub proof fn lemma_value_of_bound(s: Seq<u8>, order: ByteOrder)
    ensures
        value_of(s, order) < pow256(s.len()),
{
    lemma_le_value_bound(s);
    lemma_le_value_bound(s.reverse());
}

/// The pattern of a scalar fits its width and gives the scalar back.
pub proof fn lemma_raw_roundtrip(s: Scalar)
    ensures
        s.raw() < pow256(s.spec_kind().width()),
        Scalar::spec_from_raw(s.spec_kind(), s.raw()) == s,
{
    lemma_pow256_values();
}

/// An integer that a type holds gives a scalar of that type which stands for it.
pub proof fn lemma_from_int(kind: Primitive, x: int)
    requires
        kind.holds(x),
    ensures
        Scalar::spec_from_int(kind, x).spec_kind() == kind,
        Scalar::spec_from_int(kind, x).as_int() == x,
        Scalar::spec_from_int(kind, x).raw() == raw_of_int(kind, x),
        raw_of_int(kind, x) < pow256(kind.width()),
{
    lemma_pow256_values();
}

/// The bytes of a count that a type holds are the bytes of the scalar of that
/// type which stands for the count.
pub proof fn lemma_bytes_of_count(kind: Primitive, x: nat, order: ByteOrder)
    requires
        kind.holds(x as int),
    ensures
        bytes_of(x, kind.width(), order) == encode_scalar(Scalar::spec_from_int(kind, x as int), order),
{
    reveal(encode_scalar);
    lemma_from_int(kind, x as int);
}

/// A scalar of an integral type stands for an integer that the type holds,
/// and is the scalar of its type that stands for that integer.
pub proof fn lemma_as_int_held(s: Scalar)
    requires
        s.spec_kind().spec_is_integral(),
    ensures
        s.spec_kind().holds(s.as_int()),
        Scalar::spec_from_int(s.spec_kind(), s.as_int()) == s,
{
    lemma_pow256_values();
}

/// The bytes of a scalar are as many as its type is wide.
pub proof fn lemma_encode_scalar_len(s: Scalar, order: ByteOrder)
    ensures
        encode_scalar(s, order).len() == s.spec_kind().width(),
{
    reveal(encode_scalar);
    lemma_bytes_of_len(s.raw(), s.spec_kind().width(), order);
}

/// A scalar is read back from its own bytes, whatever follows them.
pub proof fn lemma_scalar_roundtrip(s: Scalar, order: ByteOrder, rest: Seq<u8>)
    ensures
        decode_scalar(s.spec_kind(), encode_scalar(s, order) + rest, order) == Some(s),
{
    reveal(encode_scalar);
    reveal(decode_scalar);
    let kind = s.spec_kind();
    let bytes = encode_scalar(s, order);
    lemma_raw_roundtrip(s);
    lemma_bytes_of_len(s.raw(), kind.width(), order);
    lemma_value_of_bytes(s.raw(), kind.width(), order);
    assert((bytes + rest).take(kind.width() as int) =~= bytes);
}

/// The digits of the number that digits stand for are those digits.
pub proof fn lemma_le_bytes_of_value(s: Seq<u8>)
    ensures
        le_bytes(le_value(s), s.len()) == s,
    decreases s.len(),
{
    if s.len() > 0 {
        let rest = s.drop_first();
        lemma_le_bytes_of_value(rest);
        assert(le_value(s) / 256 == le_value(rest));
        assert(le_value(s) % 256 == s[0]);
        assert(seq![s[0]] + rest =~= s);
    } else {
        assert(le_bytes(0, 0) =~= s);
    }
}

/// A pattern below the number of patterns of a type that is not `bool` is
/// the pattern of the scalar it gives.
pub proof fn lemma_from_raw_raw(kind: Primitive, raw: nat)
    requires
        raw < pow256(kind.width()),
        !(kind is Bool),
    ensures
        Scalar::spec_from_raw(kind, raw).raw() == raw,
{
    lemma_pow256_values();
}

/// The bytes a scalar was read from are the scalar's own bytes, for every
/// type but `bool`, of which any byte but 0 reads as `true`.
pub proof fn lemma_scalar_bytes_unique(kind: Primitive, bytes: Seq<u8>, order: ByteOrder, s: Scalar)
    requires
        decode_scalar(kind, bytes, order) == Some(s),
        !(kind is Bool),
    ensures
        bytes.len() >= kind.width(),
        bytes.take(kind.width() as int) == encode_scalar(s, order),
{
    reveal(decode_scalar);
    reveal(encode_scalar);
    reveal(bytes_of);
    let width = kind.width();
    let head = bytes.take(width as int);
    let raw = value_of(head, order);
    lemma_value_of_bound(head, order);
    lemma_from_raw_raw(kind, raw);
    match order {
        ByteOrder::Little => {
            lemma_le_bytes_of_value(head);
        },
        ByteOrder::Big => {
            lemma_le_bytes_of_value(head.reverse());
            assert(head.reverse().reverse() =~= head);
        },
    }
}

/// Byte order plays no part in a scalar of a single byte, written or read.
pub proof fn lemma_single_byte_order(s: Scalar, bytes: Seq<u8>, a: ByteOrder, b: ByteOrder)
    requires
        s.spec_kind().width() == 1,
    ensures
        encode_scalar(s, a) == encode_scalar(s, b),
        decode_scalar(s.spec_kind(), bytes, a) == decode_scalar(s.spec_kind(), bytes, b),
{
    reveal(encode_scalar);
    reveal(decode_scalar);
    reveal(bytes_of);
    let digits = le_bytes(s.raw(), 1);
    lemma_le_bytes_len(s.raw(), 1);
    assert(digits.reverse() =~= digits);
    if bytes.len() >= 1 {
        let head = bytes.take(1);
        assert(head.reverse() =~= head);
    }
}

/// Appends to `out` the `width` bytes that hold the pattern `raw` in the given order.
pub fn write_raw(out: &mut Vec<u8>, raw: u128, width: usize, order: ByteOrder)
    requires
        width <= 16,
    ensures
        final(out)@ == old(out)@ + bytes_of(raw as nat, width as nat, order),
{
    proof {
        reveal(bytes_of);
    }
    let mut digits: Vec<u8> = Vec::new();
    let mut rest: u128 = raw;
    let mut i: usize = 0;
    while i < width
        invariant
            i <= width,
            digits@.len() == i,
            le_bytes(raw as nat, width as nat) == digits@ + le_bytes(rest as nat, (width - i) as nat),
        decreases width - i,
    {
        let ghost before = digits@;
        digits.push((rest % 256) as u8);
        proof {
            let tail = le_bytes((rest / 256) as nat, (width - i - 1) as nat);
            assert(before + (seq![(rest % 256) as u8] + tail) =~= digits@ + tail);
        }
        rest = rest / 256;
        i = i + 1;
    }
    proof {
        assert(digits@ + Seq::<u8>::empty() =~= digits@);
    }
    let mut j: usize = 0;
    while j < width
        invariant
            j <= width,
            digits@.len() == width,
            digits@ == le_bytes(raw as nat, width as nat),
            out@ == old(out)@ + bytes_of(raw as nat, width as nat, order).take(j as int),
        decreases width - j,
    {
        proof {
            reveal(bytes_of);
        }
        let ghost before = out@;
        let ghost all = bytes_of(raw as nat, width as nat, order);
        let b = match order {
            ByteOrder::Little => digits[j],
            ByteOrder::Big => digits[width - 1 - j],
        };
        out.push(b);
        proof {
            assert(all.len() == width);
            assert(all[j as int] == b);
            assert(all.take(j + 1) =~= all.take(j as int).push(b));
            assert(out@ =~= old(out)@ + all.take(j + 1));
        }
        j = j + 1;
    }
    proof {
        let all = bytes_of(raw as nat, width as nat, order);
        assert(all.take(width as int) =~= all);
    }
}

/// The pattern that the `width` bytes of `input` from `pos` onwards hold in the given order.
pub fn read_raw(input: &[u8], pos: usize, width: usize, order: ByteOrder) -> (raw: u128)
    requires
        width <= 16,
        pos + width <= input@.len(),
    ensures
        raw == value_of(input@.subrange(pos as int, pos + width), order),
        raw < pow256(width as nat),
{
    let ghost s = input@.subrange(pos as int, pos + width);
    let ghost digits = match order {
        ByteOrder::Little => s,
        ByteOrder::Big => s.reverse(),
    };
    let mut acc: u128 = 0;
    let mut i: usize = width;
    let total: usize = input.len();
    proof {
        lemma_pow256_values();
        assert(digits.skip(width as int) =~= Seq::<u8>::empty());
    }
    while i > 0
        invariant
            i <= width <= 16,
            pos + width <= input@.len() == total,
            s == input@.subrange(pos as int, pos + width),
            digits == match order {
                ByteOrder::Little => s,
                ByteOrder::Big => s.reverse(),
            },
            digits.len() == width,
            acc == le_value(digits.skip(i as int)),
        decreases i,
    {
        i = i - 1;
        let b = match order {
            ByteOrder::Little => input[pos + i],
            ByteOrder::Big => input[pos + (width - 1 - i)],
        };
        proof {
            let here = digits.skip(i as int);
            assert(here[0] == b);
            assert(here.drop_first() =~= digits.skip(i + 1));
            lemma_le_value_bound(here.drop_first());
            lemma_pow256_monotonic((width - i - 1) as nat, 15);
            lemma_pow256_values();
            reveal_with_fuel(pow256, 16);
        }
        acc = b as u128 + 256 * acc;
    }
    proof {
        assert(digits.skip(0) =~= digits);
        lemma_le_value_bound(digits);
    }
    acc
}

/// Appends the bytes of a scalar to `out`.
pub fn write_scalar(out: &mut Vec<u8>, s: Scalar, order: ByteOrder)
    ensures
        final(out)@ == old(out)@ + encode_scalar(s, order),
{
    proof {
        reveal(encode_scalar);
    }
    let raw = s.to_raw();
    write_raw(out, raw, s.kind().size(), order);
}

/// Reads the scalar of type `kind` that starts at `pos` in `input`.  The only
/// failure is that the input ends too early.
pub fn read_scalar(input: &[u8], pos: usize, kind: Primitive, order: ByteOrder) -> (r: Result<
    Scalar,
    Error,
>)
    requires
        pos <= input@.len(),
    ensures
        r == match decode_scalar(kind, input@.skip(pos as int), order) {
            Some(s) => Ok::<Scalar, Error>(s),
            None => Err(Error::IoFailure),
        },
        r matches Ok(s) ==> s.spec_kind() == kind && pos + kind.width() <= input@.len()
            <= usize::MAX,
{
    proof {
        reveal(decode_scalar);
    }
    let width = kind.size();
    if input.len() - pos < width {
        return Err(Error::IoFailure);
    }
    let raw = read_raw(input, pos, width, order);
    proof {
        assert(input@.skip(pos as int).take(width as int) =~= input@.subrange(
            pos as int,
            pos + width,
        ));
    }
    Ok(Scalar::from_raw(kind, raw))
}

} // verus!
