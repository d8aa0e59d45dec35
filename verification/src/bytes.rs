//! Big-endian integer fields and small byte-sequence helpers shared by the
//! packet codec and the datagram framing.

use vstd::prelude::*;

verus! {

/// Big-endian image of a `u16`.
pub open spec fn spec_u16_be(x: u16) -> Seq<u8> {
    seq![(x / 0x100) as u8, (x % 0x100) as u8]
}

/// Big-endian image of a `u32`.
pub open spec fn spec_u32_be(x: u32) -> Seq<u8> {
    seq![
        (x / 0x1000000) as u8,
        ((x / 0x10000) % 0x100) as u8,
        ((x / 0x100) % 0x100) as u8,
        (x % 0x100) as u8,
    ]
}

/// Big-endian image of a `u64`.
pub open spec fn spec_u64_be(x: u64) -> Seq<u8> {
    seq![
        ((x / 0x100000000000000) % 0x100) as u8,
        ((x / 0x1000000000000) % 0x100) as u8,
        ((x / 0x10000000000) % 0x100) as u8,
        ((x / 0x100000000) % 0x100) as u8,
        ((x / 0x1000000) % 0x100) as u8,
        ((x / 0x10000) % 0x100) as u8,
        ((x / 0x100) % 0x100) as u8,
        (x % 0x100) as u8,
    ]
}

/// The `u16` read back from two big-endian bytes.
pub open spec fn spec_u16_from_be(b0: u8, b1: u8) -> u16 {
    (b0 * 0x100 + b1) as u16
}

/// The `u32` read back from four big-endian bytes.
pub open spec fn spec_u32_from_be(b0: u8, b1: u8, b2: u8, b3: u8) -> u32 {
    (b0 * 0x1000000 + b1 * 0x10000 + b2 * 0x100 + b3) as u32
}

/// Reading back the bytes of `spec_u16_be` yields the original value.
pub proof fn lemma_u16_be_round_trip(x: u16)
    ensures
        spec_u16_from_be(spec_u16_be(x)[0], spec_u16_be(x)[1]) == x,
{
    assert((x / 0x100) as u8 as u16 * 0x100 + (x % 0x100) as u8 as u16 == x) by (bit_vector);
}

/// Reading back the bytes of `spec_u32_be` yields the original value.
pub proof fn lemma_u32_be_round_trip(x: u32)
    ensures
        spec_u32_from_be(
            spec_u32_be(x)[0],
            spec_u32_be(x)[1],
            spec_u32_be(x)[2],
            spec_u32_be(x)[3],
        ) == x,
{
    let b0 = (x / 0x1000000) as u8;
    let b1 = ((x / 0x10000) % 0x100) as u8;
    let b2 = ((x / 0x100) % 0x100) as u8;
    let b3 = (x % 0x100) as u8;
    assert((x / 0x1000000) as u8 as u32 * 0x1000000 + ((x / 0x10000) % 0x100) as u8 as u32
        * 0x10000 + ((x / 0x100) % 0x100) as u8 as u32 * 0x100 + (x % 0x100) as u8 as u32
        == x) by (bit_vector);
    assert(b0 as u32 * 0x1000000 + b1 as u32 * 0x10000 + b2 as u32 * 0x100 + b3 as u32
        <= 0xffffffff);
}

/// Two distinct `u64` counters never share a big-endian image.
pub proof fn lemma_u64_be_injective(x: u64, y: u64)
    requires
        spec_u64_be(x) == spec_u64_be(y),
    ensures
        x == y,
{
    assert(spec_u64_be(x)[7] == spec_u64_be(y)[7]);
    assert(spec_u64_be(x)[6] == spec_u64_be(y)[6]);
    assert(spec_u64_be(x)[5] == spec_u64_be(y)[5]);
    assert(spec_u64_be(x)[4] == spec_u64_be(y)[4]);
    assert(spec_u64_be(x)[3] == spec_u64_be(y)[3]);
    assert(spec_u64_be(x)[2] == spec_u64_be(y)[2]);
    assert(spec_u64_be(x)[1] == spec_u64_be(y)[1]);
    assert(spec_u64_be(x)[0] == spec_u64_be(y)[0]);
    assert({
        &&& ((x / 0x100000000000000) % 0x100) as u8 == ((y / 0x100000000000000) % 0x100) as u8
        &&& ((x / 0x1000000000000) % 0x100) as u8 == ((y / 0x1000000000000) % 0x100) as u8
        &&& ((x / 0x10000000000) % 0x100) as u8 == ((y / 0x10000000000) % 0x100) as u8
        &&& ((x / 0x100000000) % 0x100) as u8 == ((y / 0x100000000) % 0x100) as u8
        &&& ((x / 0x1000000) % 0x100) as u8 == ((y / 0x1000000) % 0x100) as u8
        &&& ((x / 0x10000) % 0x100) as u8 == ((y / 0x10000) % 0x100) as u8
        &&& ((x / 0x100) % 0x100) as u8 == ((y / 0x100) % 0x100) as u8
        &&& (x % 0x100) as u8 == (y % 0x100) as u8
    } ==> x == y) by (bit_vector);
}

/// Appends the two big-endian bytes of `x` to `out`.
pub fn push_u16_be(out: &mut Vec<u8>, x: u16)
    ensures
        final(out)@ == old(out)@ + spec_u16_be(x),
{
    let b0: u8 = (x / 0x100) as u8;
    let b1: u8 = (x % 0x100) as u8;
    out.push(b0);
    out.push(b1);
    assert(out@ =~= old(out)@ + spec_u16_be(x));
}

/// Appends the four big-endian bytes of `x` to `out`.
pub fn push_u32_be(out: &mut Vec<u8>, x: u32)
    ensures
        final(out)@ == old(out)@ + spec_u32_be(x),
{
    let b0: u8 = (x / 0x1000000) as u8;
    let b1: u8 = ((x / 0x10000) % 0x100) as u8;
    let b2: u8 = ((x / 0x100) % 0x100) as u8;
    let b3: u8 = (x % 0x100) as u8;
    out.push(b0);
    out.push(b1);
    out.push(b2);
    out.push(b3);
    assert(out@ =~= old(out)@ + spec_u32_be(x));
}

/// Appends the eight big-endian bytes of `x` to `out`.
pub fn push_u64_be(out: &mut Vec<u8>, x: u64)
    ensures
        final(out)@ == old(out)@ + spec_u64_be(x),
{
    let b0: u8 = ((x / 0x100000000000000) % 0x100) as u8;
    let b1: u8 = ((x / 0x1000000000000) % 0x100) as u8;
    let b2: u8 = ((x / 0x10000000000) % 0x100) as u8;
    let b3: u8 = ((x / 0x100000000) % 0x100) as u8;
    let b4: u8 = ((x / 0x1000000) % 0x100) as u8;
    let b5: u8 = ((x / 0x10000) % 0x100) as u8;
    let b6: u8 = ((x / 0x100) % 0x100) as u8;
    let b7: u8 = (x % 0x100) as u8;
    out.push(b0);
    out.push(b1);
    out.push(b2);
    out.push(b3);
    out.push(b4);
    out.push(b5);
    out.push(b6);
    out.push(b7);
    assert(out@ =~= old(out)@ + spec_u64_be(x));
}

/// Reads the big-endian `u32` at offset `at` of `data`.
pub fn read_u32_be(data: &[u8], at: usize) -> (r: u32)
    requires
        at + 4 <= data@.len(),
    ensures
        r == spec_u32_from_be(data@[at as int], data@[at + 1], data@[at + 2], data@[at + 3]),
{
    let b0 = data[at];
    let b1 = data[at + 1];
    let b2 = data[at + 2];
    let b3 = data[at + 3];
    b0 as u32 * 0x1000000 + b1 as u32 * 0x10000 + b2 as u32 * 0x100 + b3 as u32
}

/// Reads the big-endian `u16` at offset `at` of `data`.
pub fn read_u16_be(data: &[u8], at: usize) -> (r: u16)
    requires
        at + 2 <= data@.len(),
    ensures
        r == spec_u16_from_be(data@[at as int], data@[at + 1]),
{
    let b0 = data[at];
    let b1 = data[at + 1];
    b0 as u16 * 0x100 + b1 as u16
}

/// Copies `data[from..to]` into a fresh vector.
pub fn copy_range(data: &[u8], from: usize, to: usize) -> (r: Vec<u8>)
    requires
        from <= to <= data@.len(),
    ensures
        r@ == data@.subrange(from as int, to as int),
{
    let mut out: Vec<u8> = Vec::new();
    let mut i = from;
    while i < to
        invariant
            from <= i <= to <= data@.len(),
            out@ == data@.subrange(from as int, i as int),
        decreases to - i,
    {
        out.push(data[i]);
        i = i + 1;
        assert(out@ =~= data@.subrange(from as int, i as int));
    }
    out
}

/// Index of the first `sep` in `data` at or after `from`.
pub open spec fn spec_find_byte(data: Seq<u8>, sep: u8, from: int) -> Option<int>
    decreases data.len() - from,
{
    if from < 0 || from >= data.len() {
        None
    } else if data[from] == sep {
        Some(from)
    } else {
        spec_find_byte(data, sep, from + 1)
    }
}

/// Whatever `spec_find_byte` returns lies in range, holds `sep`, and nothing
/// before it (at or after `from`) does.
pub proof fn lemma_find_byte(data: Seq<u8>, sep: u8, from: int)
    requires
        0 <= from <= data.len(),
    ensures
        match spec_find_byte(data, sep, from) {
            Some(i) => from <= i < data.len() && data[i] == sep && forall|j: int|
                from <= j < i ==> data[j] != sep,
            None => forall|j: int| from <= j < data.len() ==> data[j] != sep,
        },
    decreases data.len() - from,
{
    if from < data.len() {
        if data[from] != sep {
            lemma_find_byte(data, sep, from + 1);
        }
    }
}

/// First occurrence of `sep` in `data` at or after `from`.
pub fn find_byte(data: &[u8], sep: u8, from: usize) -> (r: Option<usize>)
    requires
        from <= data@.len(),
    ensures
        match r {
            Some(i) => from <= i < data@.len() && spec_find_byte(data@, sep, from as int)
                == Some(i as int),
            None => spec_find_byte(data@, sep, from as int) is None,
        },
{
    let mut i = from;
    while i < data.len()
        invariant
            from <= i <= data@.len(),
            spec_find_byte(data@, sep, from as int) == spec_find_byte(data@, sep, i as int),
        decreases data@.len() - i,
    {
        if data[i] == sep {
            return Some(i);
        }
        i = i + 1;
    }
    None
}

/// Byte-for-byte equality of two slices.
pub fn bytes_eq(a: &[u8], b: &[u8]) -> (r: bool)
    ensures
        r == (a@ == b@),
{
    if a.len() != b.len() {
        assert(a@.len() != b@.len());
        return false;
    }
    let n = a.len();
    let mut i: usize = 0;
    while i < n
        invariant
            n == a@.len(),
            n == b@.len(),
            i <= n,
            forall|j: int| 0 <= j < i ==> a@[j] == b@[j],
        decreases n - i,
    {
        if a[i] != b[i] {
            return false;
        }
        i = i + 1;
    }
    proof {
        assert(a@ =~= b@);
    }
    true
}

} // verus!
