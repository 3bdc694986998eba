//! Little-endian fields and byte runs, written to and read from buffers.

use vstd::bytes::*;
use vstd::prelude::*;
use vstd::slice::*;
use vstd::utf8::*;

verus! {
/// Appends `src` to `out`.
pub fn put_bytes(out: &mut Vec<u8>, src: &[u8])
    ensures
        final(out)@ == old(out)@ + src@,
{
    out.extend_from_slice(src);
}

/// Appends the four little-endian bytes of `x` to `out`.
pub fn put_u32(out: &mut Vec<u8>, x: u32)
    ensures
        final(out)@ == old(out)@ + spec_u32_to_le_bytes(x),
{
    let b = u32_to_le_bytes(x);
    put_bytes(out, b.as_slice());
}

/// Appends the eight little-endian bytes of `x` to `out`.
pub fn put_u64(out: &mut Vec<u8>, x: u64)
    ensures
        final(out)@ == old(out)@ + spec_u64_to_le_bytes(x),
{
    let b = u64_to_le_bytes(x);
    put_bytes(out, b.as_slice());
}

/// The 32-bit field that starts at `pos`, where four bytes are left.
pub open spec fn u32_at(data: Seq<u8>, pos: int) -> u32 {
    spec_u32_from_le_bytes(data.subrange(pos, pos + 4))
}

/// The 64-bit field that starts at `pos`, where eight bytes are left.
pub open spec fn u64_at(data: Seq<u8>, pos: int) -> u64 {
    spec_u64_from_le_bytes(data.subrange(pos, pos + 8))
}

/// Reads the 32-bit field at `pos`, or nothing where the buffer ends first.
pub fn get_u32(data: &[u8], pos: usize) -> (r: Option<u32>)
    ensures
        r == if pos + 4 <= data@.len() {
            Some(u32_at(data@, pos as int))
        } else {
            None
        },
{
    if data.len() < 4 || pos > data.len() - 4 {
        return None;
    }
    Some(u32_from_le_bytes(slice_subrange(data, pos, pos + 4)))
}

/// Reads the 64-bit field at `pos`, or nothing where the buffer ends first.
pub fn get_u64(data: &[u8], pos: usize) -> (r: Option<u64>)
    ensures
        r == if pos + 8 <= data@.len() {
            Some(u64_at(data@, pos as int))
        } else {
            None
        },
{
    if data.len() < 8 || pos > data.len() - 8 {
        return None;
    }
    Some(u64_from_le_bytes(slice_subrange(data, pos, pos + 8)))
}

/// Copies `len` bytes from `pos`, or nothing where the buffer ends first.
pub fn get_bytes(data: &[u8], pos: usize, len: usize) -> (r: Option<Vec<u8>>)
    ensures
        match r {
            Some(v) => pos + len <= data@.len() && v@ == data@.subrange(
                pos as int,
                pos + len,
            ),
            None => pos + len > data@.len(),
        },
{
    if data.len() < len || pos > data.len() - len {
        return None;
    }
    Some(slice_to_vec(slice_subrange(data, pos, pos + len)))
}

/// A field written after `head` is read back at the offset where it starts.
pub proof fn lemma_u64_at_written(head: Seq<u8>, x: u64, tail: Seq<u8>)
    ensures
        u64_at(head + spec_u64_to_le_bytes(x) + tail, head.len() as int) == x,
        spec_u64_to_le_bytes(x).len() == 8,
{
    lemma_auto_spec_u64_to_from_le_bytes();
    let all = head + spec_u64_to_le_bytes(x) + tail;
    assert(all.subrange(head.len() as int, head.len() as int + 8) == spec_u64_to_le_bytes(x));
}

/// A field written after `head` is read back at the offset where it starts.
pub proof fn lemma_u32_at_written(head: Seq<u8>, x: u32, tail: Seq<u8>)
    ensures
        u32_at(head + spec_u32_to_le_bytes(x) + tail, head.len() as int) == x,
        spec_u32_to_le_bytes(x).len() == 4,
{
    lemma_auto_spec_u32_to_from_le_bytes();
    let all = head + spec_u32_to_le_bytes(x) + tail;
    assert(all.subrange(head.len() as int, head.len() as int + 4) == spec_u32_to_le_bytes(x));
}

/// `String::from_utf8`: the text that `bytes` encode, where they are valid
/// UTF-8, and nothing where they are not.
#[verifier::external_body]
pub(crate) fn string_from_utf8(bytes: Vec<u8>) -> (r: Option<String>)
    ensures
        match r {
            Some(s) => valid_utf8(bytes@) && s@ == decode_utf8(bytes@),
            None => !valid_utf8(bytes@),
        },
{
    String::from_utf8(bytes).ok()
}

/// The buffers of `parts`, each as its bytes.
pub open spec fn byte_views(parts: Seq<Vec<u8>>) -> Seq<Seq<u8>> {
    Seq::new(parts.len(), |i: int| parts[i]@)
}

/// The byte runs of `parts`, one after the other.
pub open spec fn concat(parts: Seq<Seq<u8>>) -> Seq<u8>
    decreases parts.len(),
{
    if parts.len() == 0 {
        Seq::empty()
    } else {
        concat(parts.drop_last()) + parts.last()
    }
}

/// Where part `i` starts in `concat(parts)`.
pub open spec fn offset_in(parts: Seq<Seq<u8>>, i: int) -> int {
    concat(parts.take(i)).len() as int
}

/// Part `i` starts where part `i - 1` ends, and lies inside the whole.
pub proof fn lemma_offset_step(parts: Seq<Seq<u8>>, i: int)
    requires
        0 <= i < parts.len(),
    ensures
        offset_in(parts, 0) == 0,
        offset_in(parts, i + 1) == offset_in(parts, i) + parts[i].len(),
        offset_in(parts, i + 1) <= concat(parts).len(),
        offset_in(parts, parts.len() as int) == concat(parts).len(),
    decreases parts.len() - i,
{
    assert(parts.take(i + 1).drop_last() =~= parts.take(i));
    if i + 1 < parts.len() {
        lemma_offset_step(parts, i + 1);
    }
}

/// Part `i` of `concat(parts)` is found at its offset.
pub proof fn lemma_concat_part(parts: Seq<Seq<u8>>, i: int)
    requires
        0 <= i < parts.len(),
    ensures
        offset_in(parts, i) + parts[i].len() <= concat(parts).len(),
        concat(parts).subrange(
            offset_in(parts, i),
            offset_in(parts, i) + parts[i].len(),
        ) == parts[i],
    decreases parts.len(),
{
    let init = parts.drop_last();
    if i < parts.len() - 1 {
        lemma_concat_part(init, i);
        assert(init.take(i) =~= parts.take(i));
    }
}

/// Where every part is `width` bytes long, part `i` starts at `width * i`.
pub proof fn lemma_offset_fixed(parts: Seq<Seq<u8>>, width: nat, i: int)
    requires
        0 <= i <= parts.len(),
        forall|j: int| 0 <= j < parts.len() ==> (#[trigger] parts[j]).len() == width,
    ensures
        offset_in(parts, i) == width * i,
    decreases i,
{
    if i == 0 {
        assert(parts.take(0) =~= Seq::<Seq<u8>>::empty());
    } else {
        lemma_offset_fixed(parts, width, i - 1);
        lemma_offset_step(parts, i - 1);
        assert(width * i == width * (i - 1) + width) by (nonlinear_arith);
    }
}

/// `items` written one after the other, each by `ser`.
pub open spec fn ser_many<T>(ser: spec_fn(T) -> Seq<u8>, items: Seq<T>) -> Seq<u8>
    decreases items.len(),
{
    if items.len() == 0 {
        Seq::empty()
    } else {
        ser_many(ser, items.drop_last()) + ser(items.last())
    }
}

/// `n` items read one after the other from `pos`, each by `par`, which
/// gives an item and the position behind it; nothing where one of them
/// fails.
pub open spec fn parse_many<T>(
    par: spec_fn(Seq<u8>, int) -> Option<(T, int)>,
    data: Seq<u8>,
    pos: int,
    n: nat,
) -> Option<(Seq<T>, int)>
    decreases n,
{
    if n == 0 {
        Some((Seq::empty(), pos))
    } else {
        match parse_many(par, data, pos, (n - 1) as nat) {
            None => None,
            Some((items, mid)) => match par(data, mid) {
                None => None,
                Some((v, end)) => Some((items.push(v), end)),
            },
        }
    }
}

/// Once reading `k` items fails, reading more fails too.
pub proof fn lemma_parse_many_fails<T>(
    par: spec_fn(Seq<u8>, int) -> Option<(T, int)>,
    data: Seq<u8>,
    pos: int,
    k: nat,
    n: nat,
)
    requires
        k <= n,
        parse_many(par, data, pos, k) is None,
    ensures
        parse_many(par, data, pos, n) is None,
    decreases n,
{
    if k < n {
        lemma_parse_many_fails(par, data, pos, k, (n - 1) as nat);
    }
}

/// What `par` reads back from each item that `ser` wrote, it reads back
/// from a run of them.
pub proof fn lemma_parse_many_written<T>(
    ser: spec_fn(T) -> Seq<u8>,
    par: spec_fn(Seq<u8>, int) -> Option<(T, int)>,
    items: Seq<T>,
    head: Seq<u8>,
    tail: Seq<u8>,
)
    requires
        forall|i: int, h: Seq<u8>, t: Seq<u8>|
            0 <= i < items.len() ==> #[trigger] par(h + ser(items[i]) + t, h.len() as int) == Some(
                (items[i], (h.len() + ser(items[i]).len()) as int),
            ),
    ensures
        parse_many(par, head + ser_many(ser, items) + tail, head.len() as int, items.len()) == Some(
            (items, (head.len() + ser_many(ser, items).len()) as int),
        ),
    decreases items.len(),
{
    if items.len() > 0 {
        let init = items.drop_last();
        let last = items.last();
        let data = head + ser_many(ser, items) + tail;
        let h = head + ser_many(ser, init);
        lemma_parse_many_written(ser, par, init, head, ser(last) + tail);
        assert(head + ser_many(ser, init) + (ser(last) + tail) =~= data);
        assert(h + ser(items[items.len() - 1]) + tail =~= data);
    }
}
} // verus!
