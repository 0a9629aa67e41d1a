//! Little-endian integers as byte sequences.
use vstd::prelude::*;

verus! {

/// The two little-endian bytes of `x`.
#[verifier::opaque]
pub open spec fn le16(x: u16) -> Seq<u8> {
    seq![(x % 256) as u8, (x / 256) as u8]
}

/// The four little-endian bytes of `x`.
#[verifier::opaque]
pub open spec fn le32(x: u32) -> Seq<u8> {
    le16((x % 0x1_0000) as u16) + le16((x / 0x1_0000) as u16)
}

/// The eight little-endian bytes of `x`.
#[verifier::opaque]
pub open spec fn le64(x: u64) -> Seq<u8> {
    le32((x % 0x1_0000_0000) as u32) + le32((x / 0x1_0000_0000) as u32)
}

/// The integer whose two little-endian bytes stand at `s[at..at + 2]`.
#[verifier::opaque]
pub open spec fn at16(s: Seq<u8>, at: int) -> u16 {
    (s[at] + 256 * s[at + 1]) as u16
}

/// The integer whose four little-endian bytes stand at `s[at..at + 4]`.
#[verifier::opaque]
pub open spec fn at32(s: Seq<u8>, at: int) -> u32 {
    (at16(s, at) + 0x1_0000 * at16(s, at + 2)) as u32
}

/// The integer whose eight little-endian bytes stand at `s[at..at + 8]`.
#[verifier::opaque]
pub open spec fn at64(s: Seq<u8>, at: int) -> u64 {
    (at32(s, at) + 0x1_0000_0000 * at32(s, at + 4)) as u64
}

/// A `u16` takes two bytes.
pub broadcast proof fn lemma_le16_len(x: u16)
    ensures
        (#[trigger] le16(x)).len() == 2,
{
    reveal(le16);
}

/// A `u32` takes four bytes.
pub broadcast proof fn lemma_le32_len(x: u32)
    ensures
        (#[trigger] le32(x)).len() == 4,
{
    broadcast use lemma_le16_len;

    reveal(le32);
}

/// A `u64` takes eight bytes.
pub broadcast proof fn lemma_le64_len(x: u64)
    ensures
        (#[trigger] le64(x)).len() == 8,
{
    broadcast use lemma_le32_len;

    reveal(le64);
}

pub broadcast group group_le_len {
    lemma_le16_len,
    lemma_le32_len,
    lemma_le64_len,
}

/// Reading two bytes undoes writing them, wherever they stand.
pub proof fn lemma_at16_of_le16(s: Seq<u8>, at: int, x: u16)
    requires
        0 <= at,
        at + 2 <= s.len(),
        s.subrange(at, at + 2) == le16(x),
    ensures
        at16(s, at) == x,
{
    broadcast use group_le_len;

    reveal(le16);
    reveal(at16);
    assert(s[at] == s.subrange(at, at + 2)[0]);
    assert(s[at + 1] == s.subrange(at, at + 2)[1]);
}

/// Writing two bytes undoes reading them.
pub proof fn lemma_le16_of_at16(s: Seq<u8>, at: int)
    requires
        0 <= at,
        at + 2 <= s.len(),
    ensures
        le16(at16(s, at)) == s.subrange(at, at + 2),
{
    broadcast use group_le_len;

    reveal(le16);
    reveal(at16);
    assert(le16(at16(s, at)) =~= s.subrange(at, at + 2));
}

/// Reading four bytes undoes writing them, wherever they stand.
pub proof fn lemma_at32_of_le32(s: Seq<u8>, at: int, x: u32)
    requires
        0 <= at,
        at + 4 <= s.len(),
        s.subrange(at, at + 4) == le32(x),
    ensures
        at32(s, at) == x,
{
    broadcast use group_le_len;

    reveal(le32);
    reveal(at32);
    let t = s.subrange(at, at + 4);
    assert(s.subrange(at, at + 2) =~= le16((x % 0x1_0000) as u16)) by {
        assert(s.subrange(at, at + 2) =~= t.subrange(0, 2));
    }
    assert(s.subrange(at + 2, at + 4) =~= le16((x / 0x1_0000) as u16)) by {
        assert(s.subrange(at + 2, at + 4) =~= t.subrange(2, 4));
    }
    lemma_at16_of_le16(s, at, (x % 0x1_0000) as u16);
    lemma_at16_of_le16(s, at + 2, (x / 0x1_0000) as u16);
}

/// Writing four bytes undoes reading them.
pub proof fn lemma_le32_of_at32(s: Seq<u8>, at: int)
    requires
        0 <= at,
        at + 4 <= s.len(),
    ensures
        le32(at32(s, at)) == s.subrange(at, at + 4),
{
    broadcast use group_le_len;

    reveal(le32);
    reveal(at32);
    lemma_le16_of_at16(s, at);
    lemma_le16_of_at16(s, at + 2);
    let x = at32(s, at);
    assert(x % 0x1_0000 == at16(s, at) && x / 0x1_0000 == at16(s, at + 2));
    assert(le32(x) =~= s.subrange(at, at + 4));
}

/// Reading eight bytes undoes writing them, wherever they stand.
pub proof fn lemma_at64_of_le64(s: Seq<u8>, at: int, x: u64)
    requires
        0 <= at,
        at + 8 <= s.len(),
        s.subrange(at, at + 8) == le64(x),
    ensures
        at64(s, at) == x,
{
    broadcast use group_le_len;

    reveal(le64);
    reveal(at64);
    let t = s.subrange(at, at + 8);
    assert(s.subrange(at, at + 4) =~= le32((x % 0x1_0000_0000) as u32)) by {
        assert(s.subrange(at, at + 4) =~= t.subrange(0, 4));
    }
    assert(s.subrange(at + 4, at + 8) =~= le32((x / 0x1_0000_0000) as u32)) by {
        assert(s.subrange(at + 4, at + 8) =~= t.subrange(4, 8));
    }
    lemma_at32_of_le32(s, at, (x % 0x1_0000_0000) as u32);
    lemma_at32_of_le32(s, at + 4, (x / 0x1_0000_0000) as u32);
}

/// The bytes of a `u64` are those of its low half, then those of its high half.
proof fn lemma_le64_split(lo: u32, hi: u32)
    ensures
        le64((lo + 0x1_0000_0000 * hi) as u64) == le32(lo) + le32(hi),
{
    broadcast use group_le_len;

    reveal(le64);
    let x = (lo + 0x1_0000_0000 * hi) as u64;
    assert(x % 0x1_0000_0000 == lo && x / 0x1_0000_0000 == hi);
}

/// Writing eight bytes undoes reading them.
pub proof fn lemma_le64_of_at64(s: Seq<u8>, at: int)
    requires
        0 <= at,
        at + 8 <= s.len(),
    ensures
        le64(at64(s, at)) == s.subrange(at, at + 8),
{
    broadcast use group_le_len;

    reveal(at64);
    let lo = at32(s, at);
    let hi = at32(s, at + 4);
    lemma_le32_of_at32(s, at);
    lemma_le32_of_at32(s, at + 4);
    lemma_le64_split(lo, hi);
    assert(s.subrange(at, at + 4) + s.subrange(at + 4, at + 8) =~= s.subrange(at, at + 8));
}

/// The bytes of a run of 16-bit integers.
pub open spec fn bytes16(codes: Seq<u16>) -> Seq<u8> {
    Seq::new(2 * codes.len(), |j: int| le16(codes[j / 2])[j % 2])
}

/// The bytes of a run of 32-bit integers.
pub open spec fn bytes32(codes: Seq<u32>) -> Seq<u8> {
    Seq::new(4 * codes.len(), |j: int| le32(codes[j / 4])[j % 4])
}

/// The 16-bit integers that a run of bytes holds; an odd byte at the end is left out.
pub open spec fn codes16(s: Seq<u8>) -> Seq<u16> {
    Seq::new(s.len() / 2, |i: int| at16(s, 2 * i))
}

/// The 32-bit integers that a run of bytes holds; up to three bytes at the end are left out.
pub open spec fn codes32(s: Seq<u8>) -> Seq<u32> {
    Seq::new(s.len() / 4, |i: int| at32(s, 4 * i))
}

/// Adding an integer adds its bytes.
pub proof fn lemma_bytes16_push(codes: Seq<u16>, x: u16)
    ensures
        bytes16(codes.push(x)) == bytes16(codes) + le16(x),
{
    broadcast use group_le_len;

    let more = codes.push(x);
    assert forall|j: int| 0 <= j < 2 * more.len() implies bytes16(more)[j] == (bytes16(codes)
        + le16(x))[j] by {
        if j < 2 * codes.len() {
            assert(more[j / 2] == codes[j / 2]);
        } else {
            assert(j / 2 == codes.len());
            assert(j % 2 == j - 2 * codes.len());
        }
    }
    assert(bytes16(more) =~= bytes16(codes) + le16(x));
}

/// Adding an integer adds its bytes.
pub proof fn lemma_bytes32_push(codes: Seq<u32>, x: u32)
    ensures
        bytes32(codes.push(x)) == bytes32(codes) + le32(x),
{
    broadcast use group_le_len;

    let more = codes.push(x);
    assert forall|j: int| 0 <= j < 4 * more.len() implies bytes32(more)[j] == (bytes32(codes)
        + le32(x))[j] by {
        if j < 4 * codes.len() {
            assert(more[j / 4] == codes[j / 4]);
        } else {
            assert(j / 4 == codes.len());
            assert(j % 4 == j - 4 * codes.len());
        }
    }
    assert(bytes32(more) =~= bytes32(codes) + le32(x));
}

/// Reading a run of integers gives back the run that was written.
pub proof fn lemma_codes16_of_bytes16(codes: Seq<u16>)
    ensures
        codes16(bytes16(codes)) == codes,
{
    broadcast use group_le_len;

    let s = bytes16(codes);
    assert forall|i: int| 0 <= i < codes.len() implies codes16(s)[i] == codes[i] by {
        assert((2 * i) / 2 == i && (2 * i) % 2 == 0);
        assert((2 * i + 1) / 2 == i && (2 * i + 1) % 2 == 1);
        assert(s.subrange(2 * i, 2 * i + 2) =~= le16(codes[i]));
        lemma_at16_of_le16(s, 2 * i, codes[i]);
    }
    assert(codes16(s) =~= codes);
}

/// Reading a run of integers gives back the run that was written.
pub proof fn lemma_codes32_of_bytes32(codes: Seq<u32>)
    ensures
        codes32(bytes32(codes)) == codes,
{
    broadcast use group_le_len;

    let s = bytes32(codes);
    assert forall|i: int| 0 <= i < codes.len() implies codes32(s)[i] == codes[i] by {
        assert(s.subrange(4 * i, 4 * i + 4) =~= le32(codes[i])) by {
            assert forall|k: int| 0 <= k < 4 implies s[4 * i + k] == le32(codes[i])[k] by {
                assert((4 * i + k) / 4 == i && (4 * i + k) % 4 == k);
            }
        }
        lemma_at32_of_le32(s, 4 * i, codes[i]);
    }
    assert(codes32(s) =~= codes);
}

/// Dropping the first two bytes drops the first integer.
pub proof fn lemma_codes16_rest(s: Seq<u8>)
    requires
        s.len() >= 2,
    ensures
        codes16(s.skip(2)) == codes16(s).skip(1),
{
    reveal(at16);
    assert(codes16(s.skip(2)) =~= codes16(s).skip(1));
}

/// Dropping the first four bytes drops the first integer.
pub proof fn lemma_codes32_rest(s: Seq<u8>)
    requires
        s.len() >= 4,
    ensures
        codes32(s.skip(4)) == codes32(s).skip(1),
{
    reveal(at16);
    reveal(at32);
    assert(codes32(s.skip(4)) =~= codes32(s).skip(1));
}

/// An integer read from part of the bytes is the one at its place in the whole.
pub proof fn lemma_at32_of_subrange(s: Seq<u8>, from: int, to: int, at: int)
    requires
        0 <= from <= to <= s.len(),
        0 <= at,
        at + 4 <= to - from,
    ensures
        at32(s.subrange(from, to), at) == at32(s, from + at),
{
    reveal(at16);
    reveal(at32);
}

/// The bytes of an integer are its digits to base 256, the lowest first.
pub proof fn law_little_endian_digits(x: u16, y: u32, z: u64)
    ensures
        le16(x).len() == 2,
        x == le16(x)[0] + 0x100 * le16(x)[1],
        le32(y).len() == 4,
        y == le32(y)[0] + 0x100 * le32(y)[1] + 0x1_0000 * le32(y)[2] + 0x100_0000 * le32(y)[3],
        le64(z).len() == 8,
        z == le64(z)[0] + 0x100 * le64(z)[1] + 0x1_0000 * le64(z)[2] + 0x100_0000 * le64(z)[3]
            + 0x1_0000_0000 * le64(z)[4] + 0x100_0000_0000 * le64(z)[5] + 0x1_0000_0000_0000
            * le64(z)[6] + 0x100_0000_0000_0000 * le64(z)[7],
{
    broadcast use group_le_len;

    reveal(le16);
    reveal(le32);
    reveal(le64);
    assert forall|w: u32|
        w == #[trigger] le32(w)[0] + 0x100 * le32(w)[1] + 0x1_0000 * le32(w)[2] + 0x100_0000
            * le32(w)[3] by {
        reveal(le16);
        reveal(le32);
    }
    let lo = (z % 0x1_0000_0000) as u32;
    let hi = (z / 0x1_0000_0000) as u32;
    assert(lo == le32(lo)[0] + 0x100 * le32(lo)[1] + 0x1_0000 * le32(lo)[2] + 0x100_0000
        * le32(lo)[3]);
    assert(hi == le32(hi)[0] + 0x100 * le32(hi)[1] + 0x1_0000 * le32(hi)[2] + 0x100_0000
        * le32(hi)[3]);
    assert(z == lo + 0x1_0000_0000 * hi);
}

/// The integer that stands somewhere has the bytes there as its digits to base 256, the lowest
/// first.
pub proof fn law_read_little_endian_digits(s: Seq<u8>, at: int)
    ensures
        at16(s, at) == s[at] + 0x100 * s[at + 1],
        at32(s, at) == s[at] + 0x100 * s[at + 1] + 0x1_0000 * s[at + 2] + 0x100_0000 * s[at + 3],
        at64(s, at) == s[at] + 0x100 * s[at + 1] + 0x1_0000 * s[at + 2] + 0x100_0000 * s[at + 3]
            + 0x1_0000_0000 * s[at + 4] + 0x100_0000_0000 * s[at + 5] + 0x1_0000_0000_0000 * s[at
            + 6] + 0x100_0000_0000_0000 * s[at + 7],
{
    reveal(at16);
    reveal(at32);
    reveal(at64);
}

/// In a run of integers, each takes its bytes in turn.
pub proof fn law_run_of_integers(codes: Seq<u16>, wide: Seq<u32>, s: Seq<u8>, i: int)
    ensures
        bytes16(codes).len() == 2 * codes.len(),
        0 <= i < codes.len() ==> codes[i] == bytes16(codes)[2 * i] + 0x100 * bytes16(codes)[2 * i
            + 1],
        bytes32(wide).len() == 4 * wide.len(),
        0 <= i < wide.len() ==> wide[i] == bytes32(wide)[4 * i] + 0x100 * bytes32(wide)[4 * i + 1]
            + 0x1_0000 * bytes32(wide)[4 * i + 2] + 0x100_0000 * bytes32(wide)[4 * i + 3],
        codes16(s).len() == s.len() / 2,
        0 <= i < s.len() / 2 ==> codes16(s)[i] == s[2 * i] + 0x100 * s[2 * i + 1],
        codes32(s).len() == s.len() / 4,
        0 <= i < s.len() / 4 ==> codes32(s)[i] == s[4 * i] + 0x100 * s[4 * i + 1] + 0x1_0000 * s[4
            * i + 2] + 0x100_0000 * s[4 * i + 3],
{
    lemma_codes16_of_bytes16(codes);
    lemma_codes32_of_bytes32(wide);
    law_read_little_endian_digits(bytes16(codes), 2 * i);
    law_read_little_endian_digits(bytes32(wide), 4 * i);
    law_read_little_endian_digits(s, 2 * i);
    law_read_little_endian_digits(s, 4 * i);
    if 0 <= i < codes.len() {
        assert(codes16(bytes16(codes))[i] == codes[i]);
    }
    if 0 <= i < wide.len() {
        assert(codes32(bytes32(wide))[i] == wide[i]);
    }
}

/// Appends the two little-endian bytes of `x`.
pub fn push_u16(out: &mut Vec<u8>, x: u16)
    ensures
        final(out)@ == old(out)@ + le16(x),
{
    proof {
        reveal(le16);
    }
    out.push((x % 256) as u8);
    out.push((x / 256) as u8);
    assert(out@ =~= old(out)@ + le16(x));
}

/// Appends the four little-endian bytes of `x`.
pub fn push_u32(out: &mut Vec<u8>, x: u32)
    ensures
        final(out)@ == old(out)@ + le32(x),
{
    proof {
        reveal(le32);
    }
    push_u16(out, (x % 0x1_0000) as u16);
    push_u16(out, (x / 0x1_0000) as u16);
    assert(out@ =~= old(out)@ + le32(x));
}

/// Appends the eight little-endian bytes of `x`.
pub fn push_u64(out: &mut Vec<u8>, x: u64)
    ensures
        final(out)@ == old(out)@ + le64(x),
{
    proof {
        reveal(le64);
    }
    push_u32(out, (x % 0x1_0000_0000) as u32);
    push_u32(out, (x / 0x1_0000_0000) as u32);
    assert(out@ =~= old(out)@ + le64(x));
}

/// Appends a run of bytes.
pub fn push_bytes(out: &mut Vec<u8>, bytes: &[u8])
    ensures
        final(out)@ == old(out)@ + bytes@,
{
    out.extend_from_slice(bytes);
    assert(out@ =~= old(out)@ + bytes@);
}

/// Reads the little-endian `u16` at `s[at..at + 2]`.
pub fn read_u16(s: &[u8], at: usize) -> (x: u16)
    requires
        at + 2 <= s.len(),
    ensures
        x == at16(s@, at as int),
{
    proof {
        reveal(at16);
    }
    s[at] as u16 + 256 * (s[at + 1] as u16)
}

/// Reads the little-endian `u32` at `s[at..at + 4]`.
pub fn read_u32(s: &[u8], at: usize) -> (x: u32)
    requires
        at + 4 <= s.len(),
    ensures
        x == at32(s@, at as int),
{
    proof {
        reveal(at32);
    }
    read_u16(s, at) as u32 + 0x1_0000 * (read_u16(s, at + 2) as u32)
}

/// Reads the little-endian `u64` at `s[at..at + 8]`.
pub fn read_u64(s: &[u8], at: usize) -> (x: u64)
    requires
        at + 8 <= s.len(),
    ensures
        x == at64(s@, at as int),
{
    proof {
        reveal(at64);
    }
    read_u32(s, at) as u64 + 0x1_0000_0000 * (read_u32(s, at + 4) as u64)
}

} // verus!
