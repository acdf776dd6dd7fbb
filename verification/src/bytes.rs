//! Byte strings: fixed-width integers, comparison and stable ordering.
use vstd::prelude::*;

verus! {

// ---------------------------------------------------------------------------
// fixed-width integers
// ---------------------------------------------------------------------------

/// The low eight bits of a number.
pub open spec fn low_byte(v: int) -> u8 {
    (v % 256) as u8
}

/// Little-endian bytes of a 16-bit number.
pub open spec fn le16(v: int) -> Seq<u8> {
    seq![low_byte(v), low_byte(v / 256)]
}

/// Big-endian bytes of a 16-bit number.
pub open spec fn be16(v: int) -> Seq<u8> {
    seq![low_byte(v / 256), low_byte(v)]
}

/// Little-endian bytes of a 32-bit number.
pub open spec fn le32(v: int) -> Seq<u8> {
    seq![low_byte(v), low_byte(v / 256), low_byte(v / 65536), low_byte(v / 16777216)]
}

/// Big-endian bytes of a 32-bit number.
pub open spec fn be32(v: int) -> Seq<u8> {
    seq![low_byte(v / 16777216), low_byte(v / 65536), low_byte(v / 256), low_byte(v)]
}

/// The 16-bit number stored little-endian at `off`.
pub open spec fn le16_at(b: Seq<u8>, off: int) -> int {
    b[off] + 256 * b[off + 1]
}

/// The 16-bit number stored big-endian at `off`.
pub open spec fn be16_at(b: Seq<u8>, off: int) -> int {
    b[off + 1] + 256 * b[off]
}

/// The 32-bit number stored little-endian at `off`.
pub open spec fn le32_at(b: Seq<u8>, off: int) -> int {
    b[off] + 256 * b[off + 1] + 65536 * b[off + 2] + 16777216 * b[off + 3]
}

/// The 32-bit number stored big-endian at `off`.
pub open spec fn be32_at(b: Seq<u8>, off: int) -> int {
    b[off + 3] + 256 * b[off + 2] + 65536 * b[off + 1] + 16777216 * b[off]
}

/// The two low bytes of a number are those of its remainder modulo 2^16.
pub proof fn low16(x: int)
    requires
        x >= 0,
    ensures
        le16(x % 65536) == le16(x),
        be16(x % 65536) == be16(x),
{
    let r = x % 65536;
    let q = x / 65536;
    assert(x == 256 * (256 * q) + r);
    assert(r % 256 == x % 256);
    assert(x / 256 == 256 * q + r / 256);
    assert(r / 256 % 256 == x / 256 % 256);
}

/// The four low bytes of a number are those of its remainder modulo 2^32.
pub proof fn low32(x: int)
    requires
        x >= 0,
    ensures
        le32(x % 0x1_0000_0000) == le32(x),
        be32(x % 0x1_0000_0000) == be32(x),
{
    let r = x % 0x1_0000_0000;
    let q = x / 0x1_0000_0000;
    assert(x == 0x1_0000_0000 * q + r);
    assert(r % 256 == x % 256);
    assert(x / 256 == 16777216 * q + r / 256);
    assert(r / 256 % 256 == x / 256 % 256);
    assert(x / 65536 == 65536 * q + r / 65536);
    assert(r / 65536 % 256 == x / 65536 % 256);
    assert(x / 16777216 == 256 * q + r / 16777216);
    assert(r / 16777216 % 256 == x / 16777216 % 256);
}

/// Reading a little-endian 32-bit field gives back the number written there.
pub proof fn le32_round_trip(v: u32)
    ensures
        le32_at(le32(v as int), 0) == v,
        be32_at(be32(v as int), 0) == v,
{
}

/// `b` with the bytes from `off` on replaced by `part`.
pub open spec fn splice(b: Seq<u8>, off: int, part: Seq<u8>) -> Seq<u8> {
    Seq::new(
        b.len(),
        |i: int|
            if off <= i < off + part.len() {
                part[i - off]
            } else {
                b[i]
            },
    )
}

/// `n` copies of the byte `x`.
pub open spec fn fill(n: nat, x: u8) -> Seq<u8> {
    Seq::new(n, |i: int| x)
}

/// `n` zero bytes.
pub open spec fn zeros(n: nat) -> Seq<u8> {
    fill(n, 0)
}

/// The bytes of a 16-bit number in both orders, little-endian first.
pub open spec fn both16_bytes(v: int) -> Seq<u8> {
    le16(v) + be16(v)
}

/// The bytes of a 32-bit number in both orders, little-endian first.
pub open spec fn both32_bytes(v: int) -> Seq<u8> {
    le32(v) + be32(v)
}

/// Writes `part` into `buf` at `off`.
pub fn put(buf: &mut Vec<u8>, off: usize, part: &[u8])
    requires
        off + part@.len() <= old(buf)@.len(),
    ensures
        final(buf)@ == splice(old(buf)@, off as int, part@),
{
    let ghost before = buf@;
    let size: usize = buf.len();
    let n: usize = part.len();
    let mut i: usize = 0;
    while i < n
        invariant
            i <= n,
            n == part@.len(),
            size == before.len(),
            off + n <= size,
            buf@ == splice(before, off as int, part@.take(i as int)),
        decreases n - i,
    {
        buf.set(off + i, part[i]);
        i += 1;
        assert(buf@ =~= splice(before, off as int, part@.take(i as int)));
    }
    assert(part@.take(n as int) =~= part@);
}

/// A buffer of `n` zero bytes.
pub fn zeroed(n: usize) -> (buf: Vec<u8>)
    ensures
        buf@ == zeros(n as nat),
{
    let buf: Vec<u8> = vec![0u8; n];
    assert(buf@ =~= zeros(n as nat));
    buf
}

/// Appends `part` to `buf`.
pub fn append(buf: &mut Vec<u8>, part: &[u8])
    ensures
        final(buf)@ == old(buf)@ + part@,
{
    let ghost before = buf@;
    let n: usize = part.len();
    let mut i: usize = 0;
    while i < n
        invariant
            i <= n,
            n == part@.len(),
            buf@ == before + part@.take(i as int),
        decreases n - i,
    {
        buf.push(part[i]);
        i += 1;
        assert(buf@ =~= before + part@.take(i as int));
    }
    assert(part@.take(n as int) =~= part@);
}

/// Appends `n` copies of `x` to `buf`.
pub fn append_fill(buf: &mut Vec<u8>, n: usize, x: u8)
    ensures
        final(buf)@ == old(buf)@ + fill(n as nat, x),
{
    let ghost before = buf@;
    let mut i: usize = 0;
    while i < n
        invariant
            i <= n,
            buf@ == before + fill(i as nat, x),
        decreases n - i,
    {
        buf.push(x);
        i += 1;
        assert(buf@ =~= before + fill(i as nat, x));
    }
}

/// The little-endian bytes of `v`.
pub fn le16_bytes(v: u16) -> (b: [u8; 2])
    ensures
        b@ == le16(v as int),
{
    let b: [u8; 2] = [(v % 256) as u8, (v / 256) as u8];
    assert(b@ =~= le16(v as int));
    b
}

/// The big-endian bytes of `v`.
pub fn be16_bytes(v: u16) -> (b: [u8; 2])
    ensures
        b@ == be16(v as int),
{
    let b: [u8; 2] = [(v / 256) as u8, (v % 256) as u8];
    assert(b@ =~= be16(v as int));
    b
}

/// The little-endian bytes of `v`.
pub fn le32_bytes(v: u32) -> (b: [u8; 4])
    ensures
        b@ == le32(v as int),
{
    let b: [u8; 4] = [
        (v % 256) as u8,
        (v / 256 % 256) as u8,
        (v / 65536 % 256) as u8,
        (v / 16777216) as u8,
    ];
    assert(b@ =~= le32(v as int));
    b
}

/// The big-endian bytes of `v`.
pub fn be32_bytes(v: u32) -> (b: [u8; 4])
    ensures
        b@ == be32(v as int),
{
    let b: [u8; 4] = [
        (v / 16777216) as u8,
        (v / 65536 % 256) as u8,
        (v / 256 % 256) as u8,
        (v % 256) as u8,
    ];
    assert(b@ =~= be32(v as int));
    b
}

/// Writes `v` at `off` in both byte orders, little-endian first.
pub fn both16(buf: &mut Vec<u8>, off: usize, v: u16)
    requires
        off + 4 <= old(buf)@.len(),
    ensures
        final(buf)@ == splice(old(buf)@, off as int, both16_bytes(v as int)),
{
    let ghost before = buf@;
    assert(off + 4 <= buf.len());
    put(buf, off, &le16_bytes(v));
    put(buf, off + 2, &be16_bytes(v));
    assert(buf@ =~= splice(before, off as int, both16_bytes(v as int)));
}

/// Writes `v` at `off` in both byte orders, little-endian first.
pub fn both32(buf: &mut Vec<u8>, off: usize, v: u32)
    requires
        off + 8 <= old(buf)@.len(),
    ensures
        final(buf)@ == splice(old(buf)@, off as int, both32_bytes(v as int)),
{
    let ghost before = buf@;
    assert(off + 4 <= buf.len());
    put(buf, off, &le32_bytes(v));
    put(buf, off + 4, &be32_bytes(v));
    assert(buf@ =~= splice(before, off as int, both32_bytes(v as int)));
}

/// The little-endian 32-bit number at `offset`.
pub fn read_u32_le(bytes: &[u8], offset: usize) -> (v: u32)
    requires
        offset + 4 <= bytes@.len(),
    ensures
        v == le32_at(bytes@, offset as int),
{
    bytes[offset] as u32 + 256 * (bytes[offset + 1] as u32) + 65536 * (bytes[offset + 2] as u32)
        + 16777216 * (bytes[offset + 3] as u32)
}

/// `a` divided by `b`, rounded up.
pub open spec fn ceil_div_spec(a: int, b: int) -> int {
    (a + b - 1) / b
}

/// `a` divided by `b`, rounded up.
pub fn ceil_div(a: u64, b: u64) -> (q: u64)
    requires
        b > 0,
    ensures
        q == ceil_div_spec(a as int, b as int),
        q <= a,
{
    proof {
        let x = a as int;
        let y = b as int;
        assert(x == y * (x / y) + x % y && 0 <= x % y < y) by (nonlinear_arith)
            requires
                y > 0,
        ;
        if x % y == 0 {
            assert((x + y - 1) / y == x / y) by (nonlinear_arith)
                requires
                    y > 0,
                    x == y * (x / y),
            ;
        } else {
            assert((x + y - 1) / y == x / y + 1) by (nonlinear_arith)
                requires
                    y > 0,
                    x == y * (x / y) + x % y,
                    1 <= x % y < y,
            ;
        }
        assert(x / y <= x) by (nonlinear_arith)
            requires
                y > 0,
                x >= 0,
        ;
        if x % y != 0 {
            assert(x / y + 1 <= x) by (nonlinear_arith)
                requires
                    y > 0,
                    x >= 0,
                    x == y * (x / y) + x % y,
                    1 <= x % y < y,
            ;
        }
    }
    if a % b == 0 {
        a / b
    } else {
        a / b + 1
    }
}

/// The bytes of a number, each with its weight, add up to it: the least one
/// first in little-endian order, and last in big-endian order.
pub proof fn numbers_are_spread(v: int)
    ensures
        0 <= v < 65536 ==> {
            let l = le16(v);
            let b = be16(v);
            &&& l.len() == 2 && b.len() == 2
            &&& l[0] + 256 * l[1] == v
            &&& b[0] * 256 + b[1] == v
        },
        0 <= v < 0x1_0000_0000 ==> {
            let l = le32(v);
            let b = be32(v);
            &&& l.len() == 4 && b.len() == 4
            &&& l[0] + 256 * l[1] + 65536 * l[2] + 16777216 * l[3] == v
            &&& b[0] * 16777216 + b[1] * 65536 + b[2] * 256 + b[3] == v
        },
{
    if 0 <= v < 0x1_0000_0000 {
        le32_round_trip(v as u32);
    }
}

/// A field of 16 or 32 bits is the sum of its bytes, each with its weight.
pub proof fn fields_are_summed(b: Seq<u8>, o: int)
    ensures
        le16_at(b, o) == b[o] + b[o + 1] * 256,
        be16_at(b, o) == b[o] * 256 + b[o + 1],
        le32_at(b, o) == b[o] + b[o + 1] * 256 + b[o + 2] * 65536 + b[o + 3] * 16777216,
        be32_at(b, o) == b[o] * 16777216 + b[o + 1] * 65536 + b[o + 2] * 256 + b[o + 3],
{
}

/// Writing a part into bytes replaces as many as it has, from the given place
/// on, and no other.
pub proof fn splices_replace(b: Seq<u8>, off: int, part: Seq<u8>)
    requires
        0 <= off,
        off + part.len() <= b.len(),
    ensures
        splice(b, off, part) == b.take(off) + part + b.skip(off + part.len()),
{
    assert(splice(b, off, part) =~= b.take(off) + part + b.skip(off + part.len()));
}

/// A quotient rounded up is the least number of parts of `b` that hold `a`.
pub proof fn quotients_are_rounded_up(a: int, b: int)
    requires
        0 <= a,
        0 < b,
    ensures
        a <= ceil_div_spec(a, b) * b,
        ceil_div_spec(a, b) * b < a + b,
{
    let x = a + b - 1;
    vstd::arithmetic::div_mod::lemma_fundamental_div_mod(x, b);
    vstd::arithmetic::div_mod::lemma_mod_bound(x, b);
    assert(b * (x / b) == (x / b) * b) by (nonlinear_arith);
}

} // verus!
