//! The integer streams of a quantized mesh.
//!
//! Coordinates are stored as zigzag-encoded differences, triangle indices as distances from
//! the highest index used so far.
use crate::bytes::{
    bytes16, bytes32, lemma_bytes16_push, lemma_bytes32_push, push_u16, push_u32,
};
use vstd::prelude::*;

verus! {

/// The code of a signed integer: 0, -1, 1, -2, 2 and so on are 0, 1, 2, 3, 4.
pub open spec fn zigzag(v: int) -> int {
    if v >= 0 {
        2 * v
    } else {
        -2 * v - 1
    }
}

/// The signed integer with code `c`.
pub open spec fn unzigzag(c: int) -> int {
    if c % 2 == 0 {
        c / 2
    } else {
        -((c + 1) / 2)
    }
}

/// Zigzag codes name each integer exactly once.
pub proof fn law_zigzag_inverse(v: int, c: int)
    ensures
        unzigzag(zigzag(v)) == v,
        zigzag(v) >= 0,
        c >= 0 ==> zigzag(unzigzag(c)) == c,
{
}

/// The last bit of a code tells the sign, and half of the code, rounded up, is the magnitude.
pub proof fn law_zigzag_code(v: int, c: int)
    ensures
        zigzag(v) % 2 == 0 <==> v >= 0,
        (zigzag(v) + 1) / 2 == if v >= 0 {
            v
        } else {
            -v
        },
        c >= 0 ==> (unzigzag(c) >= 0 <==> c % 2 == 0),
        c >= 0 ==> (c + 1) / 2 == if unzigzag(c) >= 0 {
            unzigzag(c)
        } else {
            -unzigzag(c)
        },
{
}

/// Encodes a signed integer so that small magnitudes get small codes.
pub fn zigzag_encode(value: i32) -> (code: u32)
    ensures
        code == zigzag(value as int),
        code % 2 == 0 <==> value >= 0,
        (code + 1) / 2 == if value >= 0 {
            value as int
        } else {
            -value
        },
{
    assert(((value << 1) ^ (value >> 31)) as u32 == if value >= 0 {
        2 * value
    } else {
        -2 * value - 1
    }) by (bit_vector);
    ((value << 1) ^ (value >> 31)) as u32
}

/// Decodes a zigzag code.
pub fn zigzag_decode(value: u32) -> (delta: i32)
    ensures
        delta == unzigzag(value as int),
{
    assert(value & 1 == value % 2) by (bit_vector);
    assert(value >> 1 == value / 2) by (bit_vector);
    assert((value >> 1) as i32 ^ (-((value & 1) as i32)) as i32 == (if value % 2 == 0 {
        (value / 2) as int
    } else {
        -(value / 2) - 1
    })) by (bit_vector);
    ((value >> 1) as i32) ^ (-((value & 1) as i32))
}

/// The 16-bit code of the step from `prev` to `value`.
pub open spec fn delta_code(prev: u16, value: u16) -> u16 {
    (zigzag(value - prev) % 0x1_0000) as u16
}

/// The value before position `i`, 0 at the start.
pub open spec fn previous(values: Seq<u16>, i: int) -> u16 {
    if i <= 0 {
        0
    } else {
        values[i - 1]
    }
}

/// The codes of the steps through `values`, from 0.
pub open spec fn delta_codes(values: Seq<u16>) -> Seq<u16> {
    Seq::new(values.len(), |i: int| delta_code(previous(values, i), values[i]))
}

/// The value reached from `start` by the steps `codes[0..=i]`, counted modulo `2^16`.
pub open spec fn delta_value(start: u16, codes: Seq<u16>, i: int) -> u16
    decreases i,
{
    let before: u16 = if i <= 0 {
        start
    } else {
        delta_value(start, codes, i - 1)
    };
    ((before + unzigzag(codes[i] as int)) % 0x1_0000) as u16
}

/// The values reached from `start` by the steps `codes`.
pub open spec fn delta_values(start: u16, codes: Seq<u16>) -> Seq<u16> {
    Seq::new(codes.len(), |i: int| delta_value(start, codes, i))
}

/// After the first step, the rest starts from the value it reached.
pub proof fn lemma_delta_values_rest(start: u16, codes: Seq<u16>)
    requires
        codes.len() > 0,
    ensures
        delta_values(delta_value(start, codes, 0), codes.skip(1)) == delta_values(
            start,
            codes,
        ).skip(1),
{
    let next = delta_value(start, codes, 0);
    assert forall|i: int| 0 <= i < codes.len() - 1 implies delta_value(next, codes.skip(1), i)
        == delta_value(start, codes, i + 1) by {
        lemma_delta_value_rest(start, codes, i);
    }
    assert(delta_values(next, codes.skip(1)) =~= delta_values(start, codes).skip(1));
}

proof fn lemma_delta_value_rest(start: u16, codes: Seq<u16>, i: int)
    requires
        0 <= i < codes.len() - 1,
    ensures
        delta_value(delta_value(start, codes, 0), codes.skip(1), i) == delta_value(
            start,
            codes,
            i + 1,
        ),
    decreases i,
{
    if i > 0 {
        lemma_delta_value_rest(start, codes, i - 1);
    }
}

/// No step through `values` is too long for its code.
pub open spec fn small_steps(values: Seq<u16>) -> bool {
    forall|i: int|
        0 <= i < values.len() ==> -0x8000 <= values[i] - #[trigger] previous(values, i) <= 0x7fff
}

/// Decoding the steps gives back the values, as long as every step fits its code.
pub proof fn law_delta_roundtrip(values: Seq<u16>)
    requires
        small_steps(values),
    ensures
        delta_values(0, delta_codes(values)) == values,
{
    assert forall|i: int| 0 <= i < values.len() implies delta_value(0, delta_codes(values), i)
        == values[i] by {
        lemma_delta_value(values, i);
    }
    assert(delta_values(0, delta_codes(values)) =~= values);
}

proof fn lemma_delta_value(values: Seq<u16>, i: int)
    requires
        small_steps(values),
        0 <= i < values.len(),
    ensures
        delta_value(0, delta_codes(values), i) == values[i],
    decreases i,
{
    if i > 0 {
        lemma_delta_value(values, i - 1);
    }
    let step = values[i] - previous(values, i);
    assert(-0x8000 <= step <= 0x7fff);
    assert(zigzag(step) < 0x1_0000);
    law_zigzag_inverse(step, 0);
}

/// Each code is that of the step from the value before, from 0 at the start: a step that fits
/// is what the code stands for, and of a longer one the code keeps the low 16 bits.
pub proof fn law_delta_codes_are_steps(values: Seq<u16>, i: int)
    requires
        0 <= i < values.len(),
    ensures
        delta_codes(values).len() == values.len(),
        ({
            let step = values[i] - if i == 0 {
                0
            } else {
                values[i - 1] as int
            };
            &&& -0x8000 <= step <= 0x7fff ==> unzigzag(delta_codes(values)[i] as int) == step
            &&& (delta_codes(values)[i] - zigzag(step)) % 0x1_0000 == 0
        }),
{
    let step = values[i] - if i == 0 {
        0
    } else {
        values[i - 1] as int
    };
    assert(previous(values, i) == if i == 0 {
        0
    } else {
        values[i - 1] as int
    });
    law_zigzag_inverse(step, 0);
    assert(delta_codes(values)[i] == zigzag(step) % 0x1_0000);
}

/// Each value is one step away from the value before, modulo `2^16`.
pub proof fn law_delta_values_follow_steps(start: u16, codes: Seq<u16>, i: int)
    requires
        0 <= i < codes.len(),
    ensures
        delta_values(start, codes).len() == codes.len(),
        ({
            let before = if i == 0 {
                start
            } else {
                delta_values(start, codes)[i - 1]
            };
            (delta_values(start, codes)[i] - before - unzigzag(codes[i] as int)) % 0x1_0000 == 0
        }),
{
    let before = if i == 0 {
        start
    } else {
        delta_values(start, codes)[i - 1]
    };
    assert(delta_values(start, codes)[i] == (before + unzigzag(codes[i] as int)) % 0x1_0000);
}

/// Quantized coordinates never make a step that is too long.
pub proof fn lemma_quantized_steps(values: Seq<u16>)
    requires
        forall|i: int| 0 <= i < values.len() ==> #[trigger] values[i] <= 32767,
    ensures
        small_steps(values),
{
}

/// Appends the steps through `values`.
pub fn push_zigzag_delta(out: &mut Vec<u8>, values: &[u16])
    ensures
        final(out)@ == old(out)@ + bytes16(delta_codes(values@)),
{
    let mut prev: u16 = 0;
    let mut i: usize = 0;
    let ghost codes = delta_codes(values@);
    assert(bytes16(codes.take(0)) =~= Seq::<u8>::empty());
    while i < values.len()
        invariant
            i <= values.len(),
            codes == delta_codes(values@),
            prev == previous(values@, i as int),
            out@ == old(out)@ + bytes16(codes.take(i as int)),
        decreases values.len() - i,
    {
        let value: u16 = values[i];
        let delta: i32 = value as i32 - prev as i32;
        let code: u16 = (zigzag_encode(delta) % 0x1_0000) as u16;
        push_u16(out, code);
        proof {
            assert(code == codes[i as int]);
            assert(codes.take(i + 1) =~= codes.take(i as int).push(code));
            lemma_bytes16_push(codes.take(i as int), code);
            assert(out@ =~= old(out)@ + bytes16(codes.take(i + 1)));
        }
        prev = value;
        i = i + 1;
    }
    assert(codes.take(i as int) =~= codes);
}

/// The low halves of 32-bit integers.
pub open spec fn low_halves(list: Seq<u32>) -> Seq<u16> {
    list.map_values(|x: u32| (x % 0x1_0000) as u16)
}

/// The bytes of a list of indices: four an index if `wide`, else the low two.
pub open spec fn index_bytes(list: Seq<u32>, wide: bool) -> Seq<u8> {
    if wide {
        bytes32(list)
    } else {
        bytes16(low_halves(list))
    }
}

/// Every index fits its bytes.
pub open spec fn fits_index(list: Seq<u32>, wide: bool) -> bool {
    wide || forall|i: int| 0 <= i < list.len() ==> #[trigger] list[i] <= 0xffff
}

proof fn lemma_index_bytes_push(list: Seq<u32>, x: u32, wide: bool)
    ensures
        index_bytes(list.push(x), wide) == index_bytes(list, wide) + (if wide {
            crate::bytes::le32(x)
        } else {
            crate::bytes::le16((x % 0x1_0000) as u16)
        }),
{
    if wide {
        lemma_bytes32_push(list, x);
    } else {
        assert(low_halves(list.push(x)) =~= low_halves(list).push((x % 0x1_0000) as u16));
        lemma_bytes16_push(low_halves(list), (x % 0x1_0000) as u16);
    }
}

/// Appends one index.
fn push_index(out: &mut Vec<u8>, x: u32, wide: bool)
    ensures
        final(out)@ == old(out)@ + (if wide {
            crate::bytes::le32(x)
        } else {
            crate::bytes::le16((x % 0x1_0000) as u16)
        }),
{
    if wide {
        push_u32(out, x);
    } else {
        push_u16(out, (x % 0x1_0000) as u16);
    }
}

/// Appends a list of indices.
pub fn push_indices(out: &mut Vec<u8>, list: &[u32], wide: bool)
    ensures
        final(out)@ == old(out)@ + index_bytes(list@, wide),
{
    let mut i: usize = 0;
    assert(index_bytes(list@.take(0), wide) =~= Seq::<u8>::empty());
    while i < list.len()
        invariant
            i <= list.len(),
            out@ == old(out)@ + index_bytes(list@.take(i as int), wide),
        decreases list.len() - i,
    {
        push_index(out, list[i], wide);
        proof {
            assert(list@.take(i + 1) =~= list@.take(i as int).push(list@[i as int]));
            lemma_index_bytes_push(list@.take(i as int), list@[i as int], wide);
            assert(out@ =~= old(out)@ + index_bytes(list@.take(i + 1), wide));
        }
        i = i + 1;
    }
    assert(list@.take(i as int) =~= list@);
}

/// The lowest index that `s[0..j]` has not used, where each new index is the number of those
/// used before.
pub open spec fn mark(s: Seq<u32>, j: int) -> int
    decreases j,
{
    if j <= 0 {
        0
    } else {
        let before = mark(s, j - 1);
        if s[j - 1] == before {
            before + 1
        } else {
            before
        }
    }
}

/// Vertices are numbered in the order in which they first occur: no number skips ahead.
pub open spec fn in_first_use_order(s: Seq<u32>) -> bool {
    forall|j: int| 0 <= j < s.len() ==> s[j] <= #[trigger] mark(s, j)
}

/// The indices can be written as distances below the lowest unused one.
pub open spec fn is_encodable(s: Seq<u32>) -> bool {
    in_first_use_order(s) && mark(s, s.len() as int) <= u32::MAX
}

/// The distance of each index below the lowest unused one.
pub open spec fn high_water_codes(s: Seq<u32>) -> Seq<u32> {
    Seq::new(s.len(), |j: int| (mark(s, j) - s[j]) as u32)
}

/// The number of zeros in `codes[0..j]`.
pub open spec fn zeros(codes: Seq<u32>, j: int) -> int
    decreases j,
{
    if j <= 0 {
        0
    } else if codes[j - 1] == 0 {
        zeros(codes, j - 1) + 1
    } else {
        zeros(codes, j - 1)
    }
}

/// The indices that the distances stand for when indices below `start` are used already,
/// counted modulo `2^32`: each zero uses the next index.
pub open spec fn high_water_values(start: u32, codes: Seq<u32>) -> Seq<u32> {
    Seq::new(
        codes.len(),
        |j: int| ((start + zeros(codes, j) - codes[j]) % 0x1_0000_0000) as u32,
    )
}

/// After the first distance, the rest starts from the mark it left.
pub proof fn lemma_high_water_values_rest(start: u32, codes: Seq<u32>, next: u32)
    requires
        codes.len() > 0,
        next == (start + (if codes[0] == 0 {
            1int
        } else {
            0int
        })) % 0x1_0000_0000,
    ensures
        high_water_values(next, codes.skip(1)) == high_water_values(start, codes).skip(1),
{
    let rest = codes.skip(1);
    assert forall|j: int| 0 <= j < rest.len() implies high_water_values(next, rest)[j]
        == high_water_values(start, codes)[j + 1] by {
        lemma_zeros_rest(codes, j);
        assert(rest[j] == codes[j + 1]);
    }
    assert(high_water_values(next, rest) =~= high_water_values(start, codes).skip(1));
}

proof fn lemma_zeros_rest(codes: Seq<u32>, j: int)
    requires
        0 <= j < codes.len(),
    ensures
        zeros(codes, j + 1) == zeros(codes.skip(1), j) + (if codes[0] == 0 {
            1int
        } else {
            0int
        }),
    decreases j,
{
    if j > 0 {
        lemma_zeros_rest(codes, j - 1);
    } else {
        assert(zeros(codes, 0) == 0);
    }
}

/// The mark never falls.
pub proof fn lemma_mark_monotone(s: Seq<u32>, i: int, j: int)
    requires
        0 <= i <= j,
    ensures
        0 <= mark(s, i) <= mark(s, j),
    decreases j,
{
    if i < j {
        lemma_mark_monotone(s, i, j - 1);
    } else if i > 0 {
        lemma_mark_monotone(s, i - 1, j - 1);
    }
}

/// The mark depends on what comes before it alone.
pub proof fn lemma_mark_prefix(s: Seq<u32>, t: Seq<u32>, j: int)
    requires
        0 <= j <= s.len(),
        j <= t.len(),
        forall|i: int| 0 <= i < j ==> s[i] == t[i],
    ensures
        mark(s, j) == mark(t, j),
    decreases j,
{
    if j > 0 {
        lemma_mark_prefix(s, t, j - 1);
    }
}

/// Decoding the distances gives back the indices.
pub proof fn law_high_water_roundtrip(s: Seq<u32>)
    requires
        is_encodable(s),
    ensures
        high_water_values(0, high_water_codes(s)) == s,
{
    let codes = high_water_codes(s);
    assert forall|j: int| 0 <= j < s.len() implies high_water_values(0, codes)[j] == s[j] by {
        lemma_zeros(s, j);
        lemma_mark_monotone(s, j, s.len() as int);
    }
    assert(high_water_values(0, codes) =~= s);
}

proof fn lemma_zeros(s: Seq<u32>, j: int)
    requires
        is_encodable(s),
        0 <= j <= s.len(),
    ensures
        zeros(high_water_codes(s), j) == mark(s, j),
    decreases j,
{
    if j > 0 {
        lemma_zeros(s, j - 1);
        lemma_mark_monotone(s, j - 1, s.len() as int);
        assert(s[j - 1] <= mark(s, j - 1));
    }
}

/// An index and its distance add up to the lowest unused index. It starts at 0, and each
/// distance of 0 uses it up.
pub proof fn law_high_water_codes(s: Seq<u32>, j: int)
    requires
        is_encodable(s),
        0 <= j < s.len(),
    ensures
        high_water_codes(s).len() == s.len(),
        s[0] + high_water_codes(s)[0] == 0,
        j + 1 < s.len() ==> s[j + 1] + high_water_codes(s)[j + 1] == s[j] + high_water_codes(s)[j]
            + (if high_water_codes(s)[j] == 0 {
            1int
        } else {
            0
        }),
{
    assert(mark(s, 0) == 0);
    assert(s[0] <= mark(s, 0));
    assert(s[j] <= mark(s, j));
    lemma_mark_monotone(s, j, s.len() as int);
    if j + 1 < s.len() {
        assert(s[j + 1] <= mark(s, j + 1));
        lemma_mark_monotone(s, j + 1, s.len() as int);
    }
}

/// An index and its distance add up to the lowest unused index, modulo `2^32`. It starts at
/// `start`, and each distance of 0 uses it up.
pub proof fn law_high_water_values(start: u32, codes: Seq<u32>, j: int)
    requires
        0 <= j < codes.len(),
    ensures
        high_water_values(start, codes).len() == codes.len(),
        (high_water_values(start, codes)[0] + codes[0] - start) % 0x1_0000_0000 == 0,
        j + 1 < codes.len() ==> (high_water_values(start, codes)[j + 1] + codes[j + 1]
            - high_water_values(start, codes)[j] - codes[j] - (if codes[j] == 0 {
            1int
        } else {
            0
        })) % 0x1_0000_0000 == 0,
{
    assert(zeros(codes, 0) == 0);
    assert(high_water_values(start, codes)[0] == (start + zeros(codes, 0) - codes[0])
        % 0x1_0000_0000);
    assert(high_water_values(start, codes)[j] == (start + zeros(codes, j) - codes[j])
        % 0x1_0000_0000);
    if j + 1 < codes.len() {
        assert(high_water_values(start, codes)[j + 1] == (start + zeros(codes, j + 1) - codes[j
            + 1]) % 0x1_0000_0000);
    }
}

/// The indices can be written exactly if every one but 0 comes after the one below it, and the
/// highest of 32 bits does not occur.
pub proof fn law_encodable(s: Seq<u32>)
    ensures
        is_encodable(s) <==> !s.contains(u32::MAX) && forall|j: int|
            0 <= j < s.len() && #[trigger] s[j] > 0 ==> s.take(j).contains((s[j] - 1) as u32),
{
    if is_encodable(s) {
        lemma_used_indices(s, s.len() as int);
        assert forall|j: int| 0 <= j < s.len() && #[trigger] s[j] > 0 implies s.take(j).contains(
            (s[j] - 1) as u32,
        ) by {
            assert(s[j] <= mark(s, j));
            lemma_used_indices(s, j);
            lemma_use_below_mark(s, j, s[j] - 1);
        }
        if s.contains(u32::MAX) {
            let i = s.index_of(u32::MAX);
            assert(s[i] < mark(s, s.len() as int));
        }
    }
    if !s.contains(u32::MAX) && forall|j: int|
        0 <= j < s.len() && #[trigger] s[j] > 0 ==> s.take(j).contains((s[j] - 1) as u32) {
        lemma_in_first_use_order(s, s.len() as int);
        if mark(s, s.len() as int) > u32::MAX {
            lemma_use_below_mark(s, s.len() as int, u32::MAX as int);
            assert(s.take(s.len() as int) =~= s);
        }
    }
}

/// All indices before `j` are below the mark.
proof fn lemma_used_indices(s: Seq<u32>, j: int)
    requires
        in_first_use_order(s),
        0 <= j <= s.len(),
    ensures
        forall|i: int| 0 <= i < j ==> (#[trigger] s[i]) < mark(s, j),
    decreases j,
{
    if j > 0 {
        lemma_used_indices(s, j - 1);
        assert(s[j - 1] <= mark(s, j - 1));
    }
}

/// Every number below the mark has been used.
proof fn lemma_use_below_mark(s: Seq<u32>, j: int, v: int)
    requires
        0 <= j <= s.len(),
        0 <= v < mark(s, j),
        v <= u32::MAX,
    ensures
        s.take(j).contains(v as u32),
    decreases j,
{
    if v < mark(s, j - 1) {
        lemma_use_below_mark(s, j - 1, v);
        let i = s.take(j - 1).index_of(v as u32);
        assert(s.take(j)[i] == v);
    } else {
        assert(s.take(j)[j - 1] == v);
    }
}

proof fn lemma_in_first_use_order(s: Seq<u32>, j: int)
    requires
        0 <= j <= s.len(),
        forall|j: int|
            0 <= j < s.len() && #[trigger] s[j] > 0 ==> s.take(j).contains((s[j] - 1) as u32),
    ensures
        forall|i: int| 0 <= i < j ==> s[i] <= #[trigger] mark(s, i),
        forall|i: int| 0 <= i < j ==> (#[trigger] s[i]) < mark(s, j),
    decreases j,
{
    if j > 0 {
        let last = j - 1;
        lemma_in_first_use_order(s, last);
        lemma_mark_monotone(s, 0, last);
        if s[last] > 0 {
            let i = s.take(last).index_of((s[last] - 1) as u32);
            assert(s[i] == s[last] - 1);
        }
        assert(s[last] <= mark(s, last));
    }
}

/// An index stands in four bytes if the indices are wide, else in the low two.
pub proof fn law_index_bytes(list: Seq<u32>, i: int)
    ensures
        index_bytes(list, true).len() == 4 * list.len(),
        index_bytes(list, false).len() == 2 * list.len(),
        0 <= i < list.len() ==> crate::bytes::at32(index_bytes(list, true), 4 * i) == list[i],
        0 <= i < list.len() ==> crate::bytes::at16(index_bytes(list, false), 2 * i) == list[i]
            % 0x1_0000,
{
    crate::bytes::lemma_codes32_of_bytes32(list);
    crate::bytes::lemma_codes16_of_bytes16(low_halves(list));
    if 0 <= i < list.len() {
        assert(crate::bytes::codes32(bytes32(list))[i] == list[i]);
        assert(crate::bytes::codes16(bytes16(low_halves(list)))[i] == low_halves(list)[i]);
    }
}

/// Whether the indices can be written as distances below the lowest unused one: whether
/// vertices are numbered in the order of their first use.
pub fn is_high_water_encodable(indices: &[u32]) -> (encodable: bool)
    ensures
        encodable == is_encodable(indices@),
        encodable == (!indices@.contains(u32::MAX) && forall|j: int|
            0 <= j < indices@.len() && #[trigger] indices@[j] > 0 ==> indices@.take(j).contains(
                (indices@[j] - 1) as u32,
            )),
{
    proof {
        law_encodable(indices@);
    }
    let mut highest: u64 = 0;
    let mut i: usize = 0;
    while i < indices.len()
        invariant
            i <= indices.len(),
            highest == mark(indices@, i as int),
            highest <= u32::MAX,
            forall|j: int| 0 <= j < i ==> indices@[j] <= #[trigger] mark(indices@, j),
        decreases indices.len() - i,
    {
        let index: u64 = indices[i] as u64;
        proof {
            law_encodable(indices@);
            lemma_mark_monotone(indices@, i + 1, indices@.len() as int);
        }
        if index > highest {
            return false;
        }
        if index == highest {
            if highest == u32::MAX as u64 {
                return false;
            }
            highest = highest + 1;
        }
        i = i + 1;
    }
    true
}

/// Appends the distances of the indices below the lowest unused one.
pub fn push_high_water_mark(out: &mut Vec<u8>, indices: &[u32], wide: bool)
    requires
        is_encodable(indices@),
    ensures
        final(out)@ == old(out)@ + index_bytes(high_water_codes(indices@), wide),
{
    let mut highest: u32 = 0;
    let mut i: usize = 0;
    let ghost codes = high_water_codes(indices@);
    assert(index_bytes(codes.take(0), wide) =~= Seq::<u8>::empty());
    while i < indices.len()
        invariant
            i <= indices.len(),
            is_encodable(indices@),
            codes == high_water_codes(indices@),
            highest == mark(indices@, i as int),
            out@ == old(out)@ + index_bytes(codes.take(i as int), wide),
        decreases indices.len() - i,
    {
        let index: u32 = indices[i];
        proof {
            assert(indices@[i as int] <= mark(indices@, i as int));
            lemma_mark_monotone(indices@, i + 1, indices@.len() as int);
        }
        let code: u32 = highest - index;
        if code == 0 {
            highest = highest + 1;
        }
        push_index(out, code, wide);
        proof {
            assert(code == codes[i as int]);
            assert(codes.take(i + 1) =~= codes.take(i as int).push(code));
            lemma_index_bytes_push(codes.take(i as int), code, wide);
            assert(out@ =~= old(out)@ + index_bytes(codes.take(i + 1), wide));
        }
        i = i + 1;
    }
    assert(codes.take(i as int) =~= codes);
}

} // verus!
