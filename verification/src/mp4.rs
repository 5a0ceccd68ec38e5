//! The mp4 sample-offset atom (`stco`) and the atom header: their byte
//! encoding and decoding.

use crate::text::push_char;
use vstd::prelude::*;
use byteorder::{BigEndian, ByteOrder};

verus! {

broadcast use vstd::seq_lib::group_seq_properties;

/// Size in bytes of a 32-bit atom header: size and four-character code.
pub const HEADER_SIZE: u64 = 8;

/// Size in bytes of the version and flags that follow a full atom's header.
pub const HEADER_EXT_SIZE: u64 = 4;

/// The four-character code of the sample-offset atom, `stco`.
pub const STCO_FOUR_CC: u32 = 0x7374_636f;

/// Big-endian bytes of a 32-bit value.
pub open spec fn u32_be_bytes(n: u32) -> Seq<u8> {
    seq![(n >> 24u32) as u8, (n >> 16u32) as u8, (n >> 8u32) as u8, n as u8]
}

/// Big-endian bytes of a 24-bit value.
pub open spec fn u24_be_bytes(n: u32) -> Seq<u8> {
    seq![(n >> 16u32) as u8, (n >> 8u32) as u8, n as u8]
}

/// Big-endian bytes of a 64-bit value.
pub open spec fn u64_be_bytes(n: u64) -> Seq<u8> {
    seq![
        (n >> 56u64) as u8,
        (n >> 48u64) as u8,
        (n >> 40u64) as u8,
        (n >> 32u64) as u8,
        (n >> 24u64) as u8,
        (n >> 16u64) as u8,
        (n >> 8u64) as u8,
        n as u8,
    ]
}

pub open spec fn be_u32_of(b0: u8, b1: u8, b2: u8, b3: u8) -> u32 {
    ((b0 as u32) << 24u32) | ((b1 as u32) << 16u32) | ((b2 as u32) << 8u32) | (b3 as u32)
}

/// The 32-bit value stored big-endian at `p`.
pub open spec fn read_be_u32(b: Seq<u8>, p: int) -> u32 {
    be_u32_of(b[p], b[p + 1], b[p + 2], b[p + 3])
}

/// The 24-bit value stored big-endian at `p`.
pub open spec fn read_be_u24(b: Seq<u8>, p: int) -> u32 {
    be_u32_of(0, b[p], b[p + 1], b[p + 2])
}

/// The 64-bit value stored big-endian at `p`.
pub open spec fn read_be_u64(b: Seq<u8>, p: int) -> u64 {
    ((read_be_u32(b, p) as u64) << 32u64) | (read_be_u32(b, p + 4) as u64)
}

proof fn lemma_u32_roundtrip(n: u32)
    ensures
        be_u32_of((n >> 24u32) as u8, (n >> 16u32) as u8, (n >> 8u32) as u8, n as u8) == n,
{
    assert(((((n >> 24u32) as u8) as u32) << 24u32) | ((((n >> 16u32) as u8) as u32) << 16u32) | ((((n
        >> 8u32) as u8) as u32) << 8u32) | (((n as u8) as u32)) == n) by (bit_vector);
}

proof fn lemma_u24_roundtrip(n: u32)
    requires
        n < 0x100_0000,
    ensures
        be_u32_of(0, (n >> 16u32) as u8, (n >> 8u32) as u8, n as u8) == n,
{
    assert(n < 0x100_0000 ==> ((0u8 as u32) << 24u32) | ((((n >> 16u32) as u8) as u32) << 16u32) | ((((n
        >> 8u32) as u8) as u32) << 8u32) | (((n as u8) as u32)) == n) by (bit_vector);
}

proof fn lemma_u64_roundtrip(n: u64)
    ensures
        ((be_u32_of((n >> 56u64) as u8, (n >> 48u64) as u8, (n >> 40u64) as u8, (n >> 32u64) as u8) as u64)
            << 32u64) | (be_u32_of((n >> 24u64) as u8, (n >> 16u64) as u8, (n >> 8u64) as u8, n as u8) as u64)
            == n,
{
    assert(((((((((n >> 56u64) as u8) as u32) << 24u32) | ((((n >> 48u64) as u8) as u32) << 16u32) | ((((n
        >> 40u64) as u8) as u32) << 8u32) | ((((n >> 32u64) as u8) as u32))) as u64) << 32u64) | ((
    ((((n >> 24u64) as u8) as u32) << 24u32) | ((((n >> 16u64) as u8) as u32) << 16u32) | ((((n
        >> 8u64) as u8) as u32) << 8u32) | (((n as u8) as u32))) as u64)) == n) by (bit_vector);
}

/// Calls byteorder's `BigEndian::write_u32`, which writes the four bytes of
/// `n`, most significant first.
#[verifier::external_body]
fn be_u32_array(n: u32) -> (r: [u8; 4])
    ensures
        r@ == u32_be_bytes(n),
{
    let mut b = [0u8; 4];
    BigEndian::write_u32(&mut b, n);
    b
}

/// Calls byteorder's `BigEndian::write_u24`, which writes the three low
/// bytes of `n`, most significant first, and panics when `n` does not fit in
/// 24 bits.
#[verifier::external_body]
fn be_u24_array(n: u32) -> (r: [u8; 3])
    requires
        n < 0x100_0000,
    ensures
        r@ == u24_be_bytes(n),
{
    let mut b = [0u8; 3];
    BigEndian::write_u24(&mut b, n);
    b
}

/// Calls byteorder's `BigEndian::write_u64`, which writes the eight bytes of
/// `n`, most significant first.
#[verifier::external_body]
fn be_u64_array(n: u64) -> (r: [u8; 8])
    ensures
        r@ == u64_be_bytes(n),
{
    let mut b = [0u8; 8];
    BigEndian::write_u64(&mut b, n);
    b
}

fn append_bytes(out: &mut Vec<u8>, bytes: &[u8])
    ensures
        final(out)@ == old(out)@ + bytes@,
{
    let n = bytes.len();
    for i in 0..n
        invariant
            n == bytes@.len(),
            out@ == old(out)@ + bytes@.take(i as int),
    {
        out.push(bytes[i]);
        proof {
            assert(bytes@.take(i + 1) =~= bytes@.take(i as int).push(bytes@[i as int]));
        }
    }
    proof {
        assert(bytes@.take(n as int) =~= bytes@);
    }
}

/// Appends the big-endian bytes of `n`.
fn write_be_u32(out: &mut Vec<u8>, n: u32)
    ensures
        final(out)@ == old(out)@ + u32_be_bytes(n),
{
    let b = be_u32_array(n);
    append_bytes(out, &b);
}

/// Appends the big-endian bytes of a 24-bit `n`.
fn write_be_u24(out: &mut Vec<u8>, n: u32)
    requires
        n < 0x100_0000,
    ensures
        final(out)@ == old(out)@ + u24_be_bytes(n),
{
    let b = be_u24_array(n);
    append_bytes(out, &b);
}

/// Appends the big-endian bytes of `n`.
fn write_be_u64(out: &mut Vec<u8>, n: u64)
    ensures
        final(out)@ == old(out)@ + u64_be_bytes(n),
{
    let b = be_u64_array(n);
    append_bytes(out, &b);
}

/// Reads the big-endian 32-bit value at `p` (byteorder's
/// `BigEndian::read_u32`, which combines four bytes, most significant first).
#[verifier::external_body]
fn read_be_u32_at(data: &[u8], p: usize) -> (r: u32)
    requires
        p + 4 <= data@.len(),
    ensures
        r == read_be_u32(data@, p as int),
{
    BigEndian::read_u32(&data[p..p + 4])
}

/// Reads the big-endian 24-bit value at `p` (byteorder's
/// `BigEndian::read_u24`).
#[verifier::external_body]
fn read_be_u24_at(data: &[u8], p: usize) -> (r: u32)
    requires
        p + 3 <= data@.len(),
    ensures
        r == read_be_u24(data@, p as int),
{
    BigEndian::read_u24(&data[p..p + 3])
}

/// Reads the big-endian 64-bit value at `p` (byteorder's
/// `BigEndian::read_u64`).
#[verifier::external_body]
fn read_be_u64_at(data: &[u8], p: usize) -> (r: u64)
    requires
        p + 8 <= data@.len(),
    ensures
        r == read_be_u64(data@, p as int),
{
    BigEndian::read_u64(&data[p..p + 8])
}

/// A four-character code, as the big-endian value of its four bytes.
#[derive(Debug, Clone, Copy, PartialEq, Eq, Structural)]
pub struct FourCC {
    pub value: u32,
}

/// Errors of atom decoding.
#[derive(Debug, Clone, Copy, PartialEq, Eq, Structural)]
pub enum Mp4Error {
    /// The bytes end before the atom does.
    UnexpectedEof,
}

/// The header of an atom: its four-character code and its total size.
#[derive(Debug, Clone, Copy, PartialEq, Eq, Structural)]
pub struct AtomHeader {
    pub name: FourCC,
    pub size: u64,
}

/// Bytes of an atom header: a 32-bit size and the code, or, for sizes
/// that do not fit in 32 bits, the marker 1, the code and a 64-bit size.
pub open spec fn header_bytes(h: AtomHeader) -> Seq<u8> {
    if h.size > u32::MAX {
        u32_be_bytes(1) + u32_be_bytes(h.name.value) + u64_be_bytes(h.size)
    } else {
        u32_be_bytes(h.size as u32) + u32_be_bytes(h.name.value)
    }
}

/// The header stored at `p` and the position after it, if the bytes hold
/// one.
pub open spec fn spec_read_header(b: Seq<u8>, p: int) -> Option<(AtomHeader, int)> {
    if p + 8 > b.len() {
        None
    } else {
        let size = read_be_u32(b, p);
        let name = FourCC { value: read_be_u32(b, p + 4) };
        if size == 1 {
            if p + 16 > b.len() {
                None
            } else {
                Some((AtomHeader { name, size: read_be_u64(b, p + 8) }, p + 16))
            }
        } else {
            Some((AtomHeader { name, size: size as u64 }, p + 8))
        }
    }
}

impl AtomHeader {
    /// Appends the header's bytes; returns how many were written.
    pub fn write(&self, out: &mut Vec<u8>) -> (r: u64)
        ensures
            final(out)@ == old(out)@ + header_bytes(*self),
            r == header_bytes(*self).len(),
    {
        if self.size > 0xffff_ffffu64 {
            write_be_u32(out, 1);
            write_be_u32(out, self.name.value);
            write_be_u64(out, self.size);
            16
        } else {
            write_be_u32(out, self.size as u32);
            write_be_u32(out, self.name.value);
            8
        }
    }

    /// Reads the header at `pos`; returns it with the position after it.
    pub fn read(data: &[u8], pos: usize) -> (r: Result<(AtomHeader, usize), Mp4Error>)
        ensures
            r matches Ok((h, p)) ==> spec_read_header(data@, pos as int) == Some((h, p as int)),
            r is Err ==> spec_read_header(data@, pos as int) is None,
    {
        if data.len() < 8 || pos > data.len() - 8 {
            return Err(Mp4Error::UnexpectedEof);
        }
        let size = read_be_u32_at(data, pos);
        let name = FourCC { value: read_be_u32_at(data, pos + 4) };
        if size == 1 {
            if data.len() < 16 || pos > data.len() - 16 {
                return Err(Mp4Error::UnexpectedEof);
            }
            let large = read_be_u64_at(data, pos + 8);
            Ok((AtomHeader { name, size: large }, pos + 16))
        } else {
            Ok((AtomHeader { name, size: size as u64 }, pos + 8))
        }
    }
}

/// Sample-offset atom: the offset of each chunk of a track in the file.
#[derive(Debug, Clone, PartialEq, Default)]
pub struct StcoAtom {
    pub version: u8,
    pub flags: u32,
    pub entries: Vec<u32>,
}

/// Bytes of a sequence of chunk offsets, each big-endian.
pub open spec fn entries_bytes(e: Seq<u32>) -> Seq<u8>
    decreases e.len(),
{
    if e.len() == 0 {
        Seq::empty()
    } else {
        entries_bytes(e.drop_last()) + u32_be_bytes(e.last())
    }
}

/// Size in bytes of a sample-offset atom with `n` entries.
pub open spec fn stco_size(n: nat) -> int {
    HEADER_SIZE + HEADER_EXT_SIZE + 4 + 4 * n
}

/// Bytes of the body of a sample-offset atom: version, 24-bit flags, entry
/// count and entries.
pub open spec fn stco_body_bytes(version: u8, flags: u32, entries: Seq<u32>) -> Seq<u8> {
    seq![version] + u24_be_bytes(flags) + u32_be_bytes(entries.len() as u32) + entries_bytes(entries)
}

/// Bytes of a whole sample-offset atom.
pub open spec fn stco_bytes(version: u8, flags: u32, entries: Seq<u32>) -> Seq<u8> {
    header_bytes(AtomHeader { name: FourCC { value: STCO_FOUR_CC }, size: stco_size(entries.len()) as u64 })
        + stco_body_bytes(version, flags, entries)
}

/// The version, flags and entries of a sample-offset atom body stored at
/// `p`, if the bytes hold one.
pub open spec fn spec_read_stco(b: Seq<u8>, p: int) -> Option<(u8, u32, Seq<u32>)> {
    if p + 8 > b.len() {
        None
    } else {
        let count = read_be_u32(b, p + 4);
        if p + 8 + 4 * count > b.len() {
            None
        } else {
            Some((b[p], read_be_u24(b, p + 1), Seq::new(count as nat, |i: int| read_be_u32(b, p + 8 + 4 * i))))
        }
    }
}

proof fn lemma_entries_bytes(e: Seq<u32>)
    ensures
        entries_bytes(e).len() == 4 * e.len(),
        forall|i: int, k: int|
            0 <= i < e.len() && 0 <= k < 4 ==> #[trigger] entries_bytes(e)[4 * i + k] == u32_be_bytes(
                e[i],
            )[k],
    decreases e.len(),
{
    if e.len() > 0 {
        lemma_entries_bytes(e.drop_last());
        let pre = entries_bytes(e.drop_last());
        assert forall|i: int, k: int| 0 <= i < e.len() && 0 <= k < 4 implies #[trigger] entries_bytes(
            e,
        )[4 * i + k] == u32_be_bytes(e[i])[k] by {
            if i < e.len() - 1 {
                assert(e.drop_last()[i] == e[i]);
                assert(pre[4 * i + k] == u32_be_bytes(e.drop_last()[i])[k]);
            }
        }
    }
}

impl StcoAtom {
    /// The four-character code of this atom.
    pub fn four_cc() -> (r: FourCC)
        ensures
            r.value == STCO_FOUR_CC,
    {
        FourCC { value: STCO_FOUR_CC }
    }

    /// Size in bytes of the atom: header, version and flags, entry count and
    /// four bytes per entry.
    pub fn size(&self) -> (r: u64)
        requires
            self.entries.len() <= (u64::MAX - 16) / 4,
        ensures
            r == stco_size(self.entries@.len()),
    {
        HEADER_SIZE + HEADER_EXT_SIZE + 4 + 4 * (self.entries.len() as u64)
    }

    /// Writes the atom, header first; returns its size.
    pub fn write_atom(&self, out: &mut Vec<u8>) -> (r: u64)
        requires
            self.entries.len() <= u32::MAX,
            self.flags < 0x100_0000,
        ensures
            final(out)@ == old(out)@ + stco_bytes(self.version, self.flags, self.entries@),
            r == stco_size(self.entries@.len()),
    {
        let size = self.size();
        let header = AtomHeader { name: FourCC { value: STCO_FOUR_CC }, size };
        header.write(out);
        let ghost start = out@;
        out.push(self.version);
        write_be_u24(out, self.flags);
        write_be_u32(out, self.entries.len() as u32);
        let n = self.entries.len();
        for i in 0..n
            invariant
                n == self.entries.len(),
                out@ == start + seq![self.version] + u24_be_bytes(self.flags) + u32_be_bytes(n as u32)
                    + entries_bytes(self.entries@.take(i as int)),
        {
            write_be_u32(out, self.entries[i]);
            proof {
                assert(self.entries@.take(i + 1).drop_last() =~= self.entries@.take(i as int));
            }
        }
        proof {
            assert(self.entries@.take(n as int) =~= self.entries@);
        }
        size
    }

    /// Reads the body of the atom whose header ends at `pos` and whose total
    /// size is `size`; returns it with the position at its end.
    pub fn read_atom(data: &[u8], pos: usize, size: u64) -> (r: Result<(StcoAtom, u64), Mp4Error>)
        requires
            pos >= HEADER_SIZE,
            pos - HEADER_SIZE + size <= u64::MAX,
        ensures
            r matches Ok((atom, end)) ==> spec_read_stco(data@, pos as int) == Some(
                (atom.version, atom.flags, atom.entries@),
            ) && end == pos - HEADER_SIZE + size,
            r is Err ==> spec_read_stco(data@, pos as int) is None,
    {
        let start = pos as u64 - HEADER_SIZE;
        if data.len() < 8 || pos > data.len() - 8 {
            return Err(Mp4Error::UnexpectedEof);
        }
        let version = data[pos];
        let flags = read_be_u24_at(data, pos + 1);
        let entry_count = read_be_u32_at(data, pos + 4);
        let body = pos + 8;
        if (data.len() - body) / 4 < entry_count as usize {
            return Err(Mp4Error::UnexpectedEof);
        }
        let mut entries: Vec<u32> = Vec::new();
        let mut i: u32 = 0;
        while i < entry_count
            invariant
                body == pos + 8,
                data@.len() == data.len(),
                body + 4 * entry_count <= data@.len(),
                i <= entry_count,
                entries@ =~= Seq::new(i as nat, |k: int| read_be_u32(data@, body + 4 * k)),
            decreases entry_count - i,
        {
            let chunk_offset = read_be_u32_at(data, body + 4 * (i as usize));
            entries.push(chunk_offset);
            i = i + 1;
        }
        Ok((StcoAtom { version, flags, entries }, start + size))
    }
}

/// Writing a sample-offset atom and reading it back gives the atom again:
/// the header holds the `stco` code and the atom's size, and the body its
/// version, flags and entries.
pub proof fn lemma_stco_roundtrip(version: u8, flags: u32, entries: Seq<u32>)
    requires
        entries.len() <= u32::MAX,
        flags < 0x100_0000,
    ensures
        ({
            let b = stco_bytes(version, flags, entries);
            let h = AtomHeader { name: FourCC { value: STCO_FOUR_CC }, size: stco_size(entries.len()) as u64 };
            &&& spec_read_header(b, 0) == Some((h, header_bytes(h).len() as int))
            &&& spec_read_stco(b, header_bytes(h).len() as int) == Some((version, flags, entries))
        }),
{
    let b = stco_bytes(version, flags, entries);
    let size = stco_size(entries.len()) as u64;
    let h = AtomHeader { name: FourCC { value: STCO_FOUR_CC }, size };
    let hb = header_bytes(h);
    let body = stco_body_bytes(version, flags, entries);
    let count = entries.len() as u32;
    lemma_entries_bytes(entries);
    lemma_u32_roundtrip(STCO_FOUR_CC);
    lemma_u32_roundtrip(count);
    lemma_u24_roundtrip(flags);
    assert(b =~= hb + body);
    if size > u32::MAX {
        lemma_u32_roundtrip(1);
        lemma_u64_roundtrip(size);
        assert(read_be_u32(b, 0) == 1);
        assert(read_be_u32(b, 4) == STCO_FOUR_CC);
        assert(read_be_u64(b, 8) == size);
    } else {
        lemma_u32_roundtrip(size as u32);
        assert(read_be_u32(b, 0) == size as u32);
        assert(read_be_u32(b, 4) == STCO_FOUR_CC);
    }
    let p = hb.len() as int;
    assert(b[p] == version);
    assert(read_be_u24(b, p + 1) == flags);
    assert(read_be_u32(b, p + 4) == count);
    let eb = entries_bytes(entries);
    assert forall|i: int| 0 <= i < entries.len() implies #[trigger] read_be_u32(b, p + 8 + 4 * i) == entries[i] by {
        assert(b[p + 8 + 4 * i] == eb[4 * i + 0]);
        assert(b[p + 8 + 4 * i + 1] == eb[4 * i + 1]);
        assert(b[p + 8 + 4 * i + 2] == eb[4 * i + 2]);
        assert(b[p + 8 + 4 * i + 3] == eb[4 * i + 3]);
        lemma_u32_roundtrip(entries[i]);
    }
    assert(Seq::new(count as nat, |i: int| read_be_u32(b, p + 8 + 4 * i)) =~= entries);
}

/// The decimal digits of `n`, without leading zeros (`0` for zero).
pub open spec fn decimal(n: nat) -> Seq<char>
    decreases n,
{
    if n < 10 {
        seq![(0x30 + n) as char]
    } else {
        decimal(n / 10).push((0x30 + n % 10) as char)
    }
}

fn append_decimal(out: &mut String, n: u64)
    ensures
        final(out)@ == old(out)@ + decimal(n as nat),
    decreases n,
{
    if n >= 10 {
        append_decimal(out, n / 10);
    }
    push_char(out, digit_char(n % 10));
}

fn digit_char(d: u64) -> (r: char)
    requires
        d < 10,
    ensures
        r == (0x30 + d) as char,
{
    match d {
        0 => '0',
        1 => '1',
        2 => '2',
        3 => '3',
        4 => '4',
        5 => '5',
        6 => '6',
        7 => '7',
        8 => '8',
        _ => '9',
    }
}

impl StcoAtom {
    /// A one-line description of the atom: its number of entries.
    pub fn summary(&self) -> (r: String)
        ensures
            r@ == "entries="@ + decimal(self.entries@.len()),
    {
        let mut s = String::from_str("entries=");
        append_decimal(&mut s, self.entries.len() as u64);
        s
    }
}

} // verus!
