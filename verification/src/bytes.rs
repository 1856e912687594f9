//! Little-endian fields inside byte buffers.
//!
//! Nothing a PC's firmware leaves in memory is aligned in a way a compiler may
//! rely on, so every multi-byte field is assembled from its bytes.
use vstd::prelude::*;

verus! {

/// The little-endian 16-bit value at `off`.
pub open spec fn le16(s: Seq<u8>, off: int) -> u16 {
    (s[off] + 0x100 * s[off + 1]) as u16
}

/// The little-endian 32-bit value at `off`.
pub open spec fn le32(s: Seq<u8>, off: int) -> u32 {
    (s[off] + 0x100 * s[off + 1] + 0x1_0000 * s[off + 2] + 0x100_0000 * s[off + 3]) as u32
}

/// The little-endian 64-bit value at `off`.
pub open spec fn le64(s: Seq<u8>, off: int) -> u64 {
    (le32(s, off) + 0x1_0000_0000 * le32(s, off + 4)) as u64
}

/// The sum of all bytes, not reduced.
pub open spec fn byte_sum(s: Seq<u8>) -> nat
    decreases s.len(),
{
    if s.len() == 0 {
        0
    } else {
        byte_sum(s.drop_last()) + s.last() as nat
    }
}

/// Read a little-endian `u16` at `off`, or `None` if it does not fit.
pub fn u16_at(buf: &[u8], off: usize) -> (value: Option<u16>)
    ensures
        value == (if off + 2 <= buf@.len() {
            Some(le16(buf@, off as int))
        } else {
            None::<u16>
        }),
{
    if buf.len() < 2 || off > buf.len() - 2 {
        return None;
    }
    Some(buf[off] as u16 + 0x100 * (buf[off + 1] as u16))
}

/// Read a little-endian `u32` at `off`, or `None` if it does not fit.
pub fn u32_at(buf: &[u8], off: usize) -> (value: Option<u32>)
    ensures
        value == (if off + 4 <= buf@.len() {
            Some(le32(buf@, off as int))
        } else {
            None::<u32>
        }),
{
    if buf.len() < 4 || off > buf.len() - 4 {
        return None;
    }
    Some(
        buf[off] as u32 + 0x100 * (buf[off + 1] as u32) + 0x1_0000 * (buf[off + 2] as u32)
            + 0x100_0000 * (buf[off + 3] as u32),
    )
}

/// Read a little-endian `u64` at `off`, or `None` if it does not fit.
pub fn u64_at(buf: &[u8], off: usize) -> (value: Option<u64>)
    ensures
        value == (if off + 8 <= buf@.len() {
            Some(le64(buf@, off as int))
        } else {
            None::<u64>
        }),
{
    if buf.len() < 8 || off > buf.len() - 8 {
        return None;
    }
    match (u32_at(buf, off), u32_at(buf, off + 4)) {
        (Some(low), Some(high)) => Some(low as u64 + 0x1_0000_0000 * (high as u64)),
        _ => None,
    }
}

/// Whether `buf` holds exactly the bytes of `want` at `off`.
pub fn holds_at(buf: &[u8], off: usize, want: &[u8]) -> (same: bool)
    ensures
        same == (off + want@.len() <= buf@.len() && buf@.subrange(
            off as int,
            off + want@.len(),
        ) == want@),
{
    if buf.len() < want.len() || off > buf.len() - want.len() {
        return false;
    }
    let mut i: usize = 0;
    while i < want.len()
        invariant
            i <= want@.len(),
            off + want@.len() <= buf.len(),
            forall|j: int| 0 <= j < i ==> buf@[off + j] == #[trigger] want@[j],
        decreases want@.len() - i,
    {
        if buf[off + i] != want[i] {
            assert(buf@.subrange(off as int, off + want@.len())[i as int] != want@[i as int]);
            return false;
        }
        i += 1;
    }
    assert(buf@.subrange(off as int, off + want@.len()) =~= want@);
    true
}

/// A field keeps its value when the buffer is narrowed around it.
pub proof fn lemma_fields_of_subrange(s: Seq<u8>, from: int, to: int)
    requires
        0 <= from <= to <= s.len(),
    ensures
        forall|off: int|
            0 <= off && off + 2 <= to - from ==> #[trigger] le16(s.subrange(from, to), off) == le16(
                s,
                from + off,
            ),
        forall|off: int|
            0 <= off && off + 4 <= to - from ==> #[trigger] le32(s.subrange(from, to), off) == le32(
                s,
                from + off,
            ),
        forall|off: int|
            0 <= off && off + 8 <= to - from ==> #[trigger] le64(s.subrange(from, to), off) == le64(
                s,
                from + off,
            ),
{
}

/// A field read from a buffer holds the bytes of the buffer, lowest first: the
/// byte at `off + k` is the digit of weight 256 to the `k` of the value.
pub proof fn law_the_lowest_byte_comes_first(s: Seq<u8>, off: int)
    ensures
        le16(s, off) % 0x100 == s[off],
        le16(s, off) / 0x100 == s[off + 1],
        le32(s, off) % 0x100 == s[off],
        (le32(s, off) / 0x100) % 0x100 == s[off + 1],
        (le32(s, off) / 0x1_0000) % 0x100 == s[off + 2],
        le32(s, off) / 0x100_0000 == s[off + 3],
        le64(s, off) % 0x100 == s[off],
        (le64(s, off) / 0x100) % 0x100 == s[off + 1],
        (le64(s, off) / 0x1_0000) % 0x100 == s[off + 2],
        (le64(s, off) / 0x100_0000) % 0x100 == s[off + 3],
        (le64(s, off) / 0x1_0000_0000) % 0x100 == s[off + 4],
        (le64(s, off) / 0x100_0000_0000) % 0x100 == s[off + 5],
        (le64(s, off) / 0x1_0000_0000_0000) % 0x100 == s[off + 6],
        le64(s, off) / 0x100_0000_0000_0000 == s[off + 7],
{
    lemma_digits32(s[off] as int, s[off + 1] as int, s[off + 2] as int, s[off + 3] as int);
    lemma_digits32(s[off + 4] as int, s[off + 5] as int, s[off + 6] as int, s[off + 7] as int);
    lemma_halves64(le32(s, off) as int, le32(s, off + 4) as int);
}

/// The digits of four bytes put together.
proof fn lemma_digits32(a: int, b: int, c: int, d: int)
    requires
        0 <= a < 0x100,
        0 <= b < 0x100,
        0 <= c < 0x100,
        0 <= d < 0x100,
    ensures
        ({
            let n = a + 0x100 * b + 0x1_0000 * c + 0x100_0000 * d;
            &&& 0 <= n < 0x1_0000_0000
            &&& n % 0x100 == a
            &&& (n / 0x100) % 0x100 == b
            &&& (n / 0x1_0000) % 0x100 == c
            &&& n / 0x100_0000 == d
            &&& (n / 0x100_0000) % 0x100 == d
        }),
{
    let n = a + 0x100 * b + 0x1_0000 * c + 0x100_0000 * d;
    assert(n / 0x100 == b + 0x100 * c + 0x1_0000 * d);
    assert(n / 0x1_0000 == c + 0x100 * d);
    assert(n / 0x100_0000 == d);
}

/// The digits of two halves put together.
proof fn lemma_halves64(low: int, high: int)
    requires
        0 <= low < 0x1_0000_0000,
        0 <= high < 0x1_0000_0000,
    ensures
        ({
            let n = low + 0x1_0000_0000 * high;
            &&& n < 0x1_0000_0000_0000_0000
            &&& n % 0x100 == low % 0x100
            &&& (n / 0x100) % 0x100 == (low / 0x100) % 0x100
            &&& (n / 0x1_0000) % 0x100 == (low / 0x1_0000) % 0x100
            &&& (n / 0x100_0000) % 0x100 == (low / 0x100_0000) % 0x100
            &&& (n / 0x1_0000_0000) % 0x100 == high % 0x100
            &&& (n / 0x100_0000_0000) % 0x100 == (high / 0x100) % 0x100
            &&& (n / 0x1_0000_0000_0000) % 0x100 == (high / 0x1_0000) % 0x100
            &&& n / 0x100_0000_0000_0000 == high / 0x100_0000
        }),
{
    let n = low + 0x1_0000_0000 * high;
    assert(n / 0x100 == low / 0x100 + 0x100_0000 * high);
    assert(n / 0x1_0000 == low / 0x1_0000 + 0x1_0000 * high);
    assert(n / 0x100_0000 == low / 0x100_0000 + 0x100 * high);
    assert(n / 0x1_0000_0000 == high);
    assert(n / 0x100_0000_0000 == high / 0x100);
    assert(n / 0x1_0000_0000_0000 == high / 0x1_0000);
}

/// The sum over a buffer is the sum over its two parts, wherever it is cut, and
/// the sum over one byte is that byte.
pub proof fn law_a_sum_adds_up_over_its_parts(s: Seq<u8>, t: Seq<u8>, b: u8)
    ensures
        byte_sum(s + t) == byte_sum(s) + byte_sum(t),
        byte_sum(seq![b]) == b,
        byte_sum(Seq::empty()) == 0,
    decreases t.len(),
{
    assert(seq![b].drop_last() =~= Seq::empty());
    assert(byte_sum(seq![b].drop_last()) == 0);
    if t.len() == 0 {
        assert(s + t =~= s);
    } else {
        law_a_sum_adds_up_over_its_parts(s, t.drop_last(), b);
        assert((s + t).drop_last() =~= s + t.drop_last());
    }
}

/// A field is read exactly when all its bytes are there, lowest first.
pub proof fn law_a_field_is_read_if_it_is_there(
    buf: &[u8],
    off: usize,
    two: Option<u16>,
    four: Option<u32>,
    eight: Option<u64>,
)
    requires
        call_ensures(u16_at, (buf, off), two),
        call_ensures(u32_at, (buf, off), four),
        call_ensures(u64_at, (buf, off), eight),
    ensures
        two is Some <==> off + 2 <= buf@.len(),
        four is Some <==> off + 4 <= buf@.len(),
        eight is Some <==> off + 8 <= buf@.len(),
        two matches Some(v) ==> v % 0x100 == buf@[off as int] && v / 0x100 == buf@[off + 1],
        four matches Some(v) ==> v == le16(buf@, off as int) + 0x1_0000 * le16(buf@, off + 2),
        eight matches Some(v) ==> v == le32(buf@, off as int) + 0x1_0000_0000 * le32(buf@, off + 4),
{
    law_the_lowest_byte_comes_first(buf@, off as int);
}

/// Bytes are held at a place exactly when every one of them stands there.
pub proof fn law_bytes_are_held_where_each_one_stands(
    buf: &[u8],
    off: usize,
    want: &[u8],
    same: bool,
)
    requires
        call_ensures(holds_at, (buf, off, want), same),
    ensures
        same <==> off + want@.len() <= buf@.len() && forall|i: int|
            0 <= i < want@.len() ==> buf@[off + i] == #[trigger] want@[i],
{
    if off + want@.len() <= buf@.len() {
        let part = buf@.subrange(off as int, off + want@.len());
        assert(forall|i: int| 0 <= i < want@.len() ==> buf@[off + i] == #[trigger] part[i]);
        if forall|i: int| 0 <= i < want@.len() ==> buf@[off + i] == #[trigger] want@[i] {
            assert(part =~= want@);
        }
        if same {
            assert forall|i: int| 0 <= i < want@.len() implies buf@[off + i]
                == #[trigger] want@[i] by {
                assert(part[i] == want@[i]);
            }
        }
    }
}

} // verus!
