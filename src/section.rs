//! Sections of a binary vector.
//!
//! A binary vector is a run of sections, each with its own header, so that a reader can skip
//! a section without decoding it. `SectionWriter` writes variable-sized sections behind a
//! 5-byte header; the fixed family (`FixedSection`) holds exactly 256 elements per section.
use vstd::prelude::*;
use scroll::{Pread, Pwrite};
use crate::error::CodingError;
use crate::nibblepack::{decode_groups, packed_len, groups_values, lemma_groups_shift, lemma_low_of_wide, low_u32s, pack_u64, unpack8_u32, unpack_u64, SinkU32};

verus! {

/// The first byte of a fixed section, and the last byte of a section header.
#[derive(Clone, Copy, Debug, PartialEq, Eq, Structural)]
pub enum SectionType {
    /// A run of null (unavailable) elements.
    Null,
    /// Nibble-packed `u64` values, payload under 64 KiB.
    NibblePackedU64Medium,
    /// Nibble-packed `u32` values, payload under 64 KiB.
    NibblePackedU32Medium,
}

impl SectionType {
    /// The tag byte of a section type.
    pub open spec fn spec_byte(self) -> u8 {
        match self {
            SectionType::Null => 0,
            SectionType::NibblePackedU64Medium => 1,
            SectionType::NibblePackedU32Medium => 2,
        }
    }

    /// The section type that a tag byte stands for, if any.
    pub open spec fn spec_from_byte(b: u8) -> Option<SectionType> {
        if b == 0 {
            Some(SectionType::Null)
        } else if b == 1 {
            Some(SectionType::NibblePackedU64Medium)
        } else if b == 2 {
            Some(SectionType::NibblePackedU32Medium)
        } else {
            None
        }
    }

    pub fn as_num(&self) -> (r: u8)
        ensures
            r == self.spec_byte(),
    {
        match self {
            SectionType::Null => 0,
            SectionType::NibblePackedU64Medium => 1,
            SectionType::NibblePackedU32Medium => 2,
        }
    }

    /// Decodes a tag byte; any byte outside the enumeration is refused.
    pub fn try_from(n: u8) -> (r: Result<SectionType, CodingError>)
        ensures
            match SectionType::spec_from_byte(n) {
                Some(t) => r == Ok::<SectionType, CodingError>(t),
                None => r == Err::<SectionType, CodingError>(CodingError::InvalidSectionType(n)),
            },
    {
        if n == 0 {
            Ok(SectionType::Null)
        } else if n == 1 {
            Ok(SectionType::NibblePackedU64Medium)
        } else if n == 2 {
            Ok(SectionType::NibblePackedU32Medium)
        } else {
            Err(CodingError::InvalidSectionType(n))
        }
    }
}

/// The little-endian `u16` stored at `i` and `i + 1`.
pub open spec fn le_u16_at(b: Seq<u8>, i: int) -> int {
    b[i] as int + 256 * (b[i + 1] as int)
}

/// `buf` with the two little-endian bytes of `n` stored at `i`.
pub open spec fn put_u16(buf: Seq<u8>, i: int, n: u16) -> Seq<u8> {
    buf.update(i, (n % 256) as u8).update(i + 1, (n / 256) as u8)
}

/// Relies on scroll's `Pwrite::pwrite_with` for a `u8`: it fails, writing nothing, unless
/// `offset` lies inside the buffer, and otherwise stores the byte there.
#[verifier::external_body]
fn pwrite_u8(buf: &mut [u8], n: u8, offset: usize) -> (r: Result<usize, scroll::Error>)
    ensures
        r is Ok <==> offset < old(buf)@.len(),
        match r {
            Ok(k) => k == 1 && final(buf)@ == old(buf)@.update(offset as int, n),
            Err(_) => final(buf)@ == old(buf)@,
        },
{
    buf.pwrite_with(n, offset, scroll::LE)
}

/// Relies on scroll's `Pwrite::pwrite_with` for a little-endian `u16`: it fails, writing
/// nothing, unless two bytes fit at `offset`, and otherwise stores the low byte, then the
/// high byte, there.
#[verifier::external_body]
fn pwrite_u16_le(buf: &mut [u8], n: u16, offset: usize) -> (r: Result<usize, scroll::Error>)
    ensures
        r is Ok <==> offset + 2 <= old(buf)@.len(),
        match r {
            Ok(k) => k == 2 && final(buf)@ == put_u16(old(buf)@, offset as int, n),
            Err(_) => final(buf)@ == old(buf)@,
        },
{
    buf.pwrite_with(n, offset, scroll::LE)
}

/// Relies on scroll's `Pread::pread_with` for a little-endian `u16`: it fails unless two
/// bytes lie at `offset`, and otherwise returns them read low byte first.
#[verifier::external_body]
fn pread_u16_le(buf: &[u8], offset: usize) -> (r: Result<u16, scroll::Error>)
    ensures
        r is Ok <==> offset + 2 <= buf@.len(),
        r is Ok ==> r->Ok_0 as int == le_u16_at(buf@, offset as int),
{
    buf.pread_with::<u16>(offset, scroll::LE)
}

/// The 5-byte header of a variable section.
#[derive(Clone, Copy, Debug, PartialEq, Eq, Structural)]
pub struct SectionHeader {
    /// Number of payload bytes that follow the header.
    pub num_bytes: u16,
    /// Number of elements the payload represents.
    pub num_elements: u16,
    /// Encoding of the payload.
    pub typ: SectionType,
}

/// The bytes of a header on the wire: two little-endian `u16`s, then the type tag.
pub open spec fn header_bytes(h: SectionHeader) -> Seq<u8> {
    seq![
        (h.num_bytes % 256) as u8,
        (h.num_bytes / 256) as u8,
        (h.num_elements % 256) as u8,
        (h.num_elements / 256) as u8,
        h.typ.spec_byte(),
    ]
}

/// A sealed section: a header at `h` whose payload length leads to `next`, whose element
/// count is within `max`, and whose type tag is valid.
pub open spec fn sealed_section(buf: Seq<u8>, h: int, next: int, max: int) -> bool {
    &&& 0 <= h
    &&& h + 5 <= next
    &&& next == h + 5 + le_u16_at(buf, h)
    &&& le_u16_at(buf, h + 2) <= max
    &&& SectionType::spec_from_byte(buf[h + 4]) is Some
}

/// `buf` with the bytes of header `h` at `pos`.
pub open spec fn put_header(buf: Seq<u8>, pos: int, h: SectionHeader) -> Seq<u8> {
    buf.subrange(0, pos) + header_bytes(h) + buf.subrange(pos + 5, buf.len() as int)
}

/// Result of a section operation: (bytes written, elements written).
pub type CodingResult = Result<(u16, u16), CodingError>;

/// The state of a `SectionWriter` as plain values.
pub ghost struct WriterView {
    pub buf: Seq<u8>,
    pub cur_pos: int,
    pub cur_header_pos: int,
    pub max_elements_per_sect: int,
    pub header: SectionHeader,
    /// Where each section starts, the open one last.
    pub starts: Seq<int>,
}

impl WriterView {
    /// A section is open once anything was written.
    pub open spec fn is_open(self) -> bool {
        self.cur_pos > 0
    }

    /// Well-formedness: the bytes below `cur_pos` are a run of whole sections starting at 0.
    /// Each sealed section's header leads to the next one and keeps to the element cap. The
    /// open section's header sits at `cur_header_pos`, on the wire as in memory, and its
    /// payload ends at `cur_pos`.
    pub open spec fn wf(self) -> bool {
        &&& 0 <= self.cur_header_pos
        &&& 0 <= self.cur_pos <= self.buf.len()
        &&& self.header.num_elements <= self.max_elements_per_sect <= 65535
        &&& !self.is_open() ==> self.cur_header_pos == 0 && self.header == SectionHeader {
            num_bytes: 0,
            num_elements: 0,
            typ: SectionType::Null,
        } && self.starts.len() == 0
        &&& self.is_open() ==> {
            &&& self.starts.len() >= 1
            &&& self.starts[0] == 0
            &&& self.starts.last() == self.cur_header_pos
            &&& forall|i: int| 0 <= i < self.starts.len() ==> #[trigger] self.starts[i] <= self.cur_header_pos
            &&& forall|i: int|
                0 <= i < self.starts.len() - 1 ==> #[trigger] sealed_section(
                    self.buf,
                    self.starts[i],
                    self.starts[i + 1],
                    self.max_elements_per_sect,
                )
            &&& self.cur_header_pos + 5 + self.header.num_bytes == self.cur_pos
            &&& self.buf.subrange(self.cur_header_pos, self.cur_header_pos + 5) == header_bytes(
                self.header,
            )
        }
    }

    /// The section that was open stayed open and took `b` more bytes and `e` more elements.
    pub open spec fn continued(self, next: WriterView, b: int, e: int) -> bool {
        &&& self.is_open()
        &&& next.starts == self.starts
        &&& next.cur_header_pos == self.cur_header_pos
        &&& next.header.typ == self.header.typ
        &&& next.header.num_bytes == self.header.num_bytes + b
        &&& next.header.num_elements == self.header.num_elements + e
        &&& next.cur_pos == self.cur_pos + b
    }

    /// Payload bytes the open section can still take: what is left of its 64 KiB, and of
    /// the buffer.
    pub open spec fn room(self) -> int {
        let in_sect = 65535 - self.header.num_bytes;
        let in_buf = self.buf.len() - self.cur_pos;
        if in_sect < in_buf {
            in_sect
        } else {
            in_buf
        }
    }

    /// Elements the open section can still take.
    pub open spec fn budget(self) -> int {
        self.max_elements_per_sect - self.header.num_elements
    }

    /// The writable window that a filler is handed: `room()` bytes from `cur_pos`.
    pub open spec fn window(self) -> Seq<u8> {
        self.buf.subrange(self.cur_pos, self.cur_pos + self.room())
    }

    /// The state after an empty section of type `t` is opened at `cur_pos`.
    pub open spec fn rolled(self, t: SectionType) -> WriterView {
        let h = SectionHeader { num_bytes: 0, num_elements: 0, typ: t };
        WriterView {
            buf: put_header(self.buf, self.cur_pos, h),
            cur_pos: self.cur_pos + 5,
            cur_header_pos: self.cur_pos,
            max_elements_per_sect: self.max_elements_per_sect,
            header: h,
            starts: self.starts.push(self.cur_pos),
        }
    }

    /// The state in which the filler is first asked: a writer with no section yet opens
    /// one of type `t` at 0.
    pub open spec fn ready(self, t: SectionType) -> WriterView {
        if self.is_open() {
            self
        } else {
            self.rolled(t)
        }
    }

    /// Same positions, header and cap as `next`: the two differ at most in the bytes.
    pub open spec fn same_place(self, next: WriterView) -> bool {
        &&& next.cur_pos == self.cur_pos
        &&& next.cur_header_pos == self.cur_header_pos
        &&& next.header == self.header
        &&& next.starts == self.starts
        &&& next.max_elements_per_sect == self.max_elements_per_sect
        &&& next.buf.len() == self.buf.len()
    }

    /// The section that was open, if any, is left on the wire exactly as it was: its header
    /// and its payload.
    pub open spec fn sealed(self, next: WriterView) -> bool {
        self.is_open() && next.cur_header_pos != self.cur_header_pos ==> next.buf.subrange(self.cur_header_pos, self.cur_pos) == self.buf.subrange(
            self.cur_header_pos,
            self.cur_pos,
        )
    }

    /// Bytes of earlier sections, and the open section's payload, are left as they were.
    pub open spec fn keeps_written(self, next: WriterView) -> bool {
        &&& next.buf.len() == self.buf.len()
        &&& next.buf.subrange(0, self.cur_header_pos) == self.buf.subrange(0, self.cur_header_pos)
        &&& self.is_open() ==> next.buf.subrange(self.cur_header_pos + 5, self.cur_pos)
            == self.buf.subrange(self.cur_header_pos + 5, self.cur_pos)
    }
}

/// The sealed sections of a writer read only bytes below its open header.
proof fn lemma_chain_keep(a: WriterView, b: Seq<u8>)
    requires
        a.wf(),
        a.is_open(),
        b.len() == a.buf.len(),
        b.subrange(0, a.cur_header_pos) == a.buf.subrange(0, a.cur_header_pos),
    ensures
        forall|i: int|
            0 <= i < a.starts.len() - 1 ==> #[trigger] sealed_section(
                b,
                a.starts[i],
                a.starts[i + 1],
                a.max_elements_per_sect,
            ),
{
    assert forall|i: int| 0 <= i < a.starts.len() - 1 implies #[trigger] sealed_section(
        b,
        a.starts[i],
        a.starts[i + 1],
        a.max_elements_per_sect,
    ) by {
        assert(sealed_section(a.buf, a.starts[i], a.starts[i + 1], a.max_elements_per_sect));
        assert(a.starts[i + 1] <= a.cur_header_pos);
        let h = a.starts[i];
        assert(0 <= h && h + 5 <= a.cur_header_pos);
        assert forall|x: int| h <= x < h + 5 implies b[x] == a.buf[x] by {
            assert(0 <= x < a.cur_header_pos);
            assert(b.subrange(0, a.cur_header_pos)[x] == b[x]);
            assert(a.buf.subrange(0, a.cur_header_pos)[x] == a.buf[x]);
        }
    }
}

/// Two buffers that agree below `n` agree below any `m <= n`.
proof fn lemma_same_prefix(a: Seq<u8>, b: Seq<u8>, n: int, m: int)
    requires
        0 <= m <= n <= a.len(),
        n <= b.len(),
        b.subrange(0, n) == a.subrange(0, n),
    ensures
        b.subrange(0, m) == a.subrange(0, m),
{
    assert forall|i: int| 0 <= i < m implies b[i] == a[i] by {
        assert(b.subrange(0, n)[i] == b[i]);
        assert(a.subrange(0, n)[i] == a[i]);
    }
    assert(b.subrange(0, m) =~= a.subrange(0, m));
}

/// Two buffers that agree below `n` agree on any range `[lo, hi)` with `hi <= n`.
proof fn lemma_same_slice(a: Seq<u8>, b: Seq<u8>, n: int, lo: int, hi: int)
    requires
        0 <= lo <= hi <= n <= a.len(),
        n <= b.len(),
        b.subrange(0, n) == a.subrange(0, n),
    ensures
        b.subrange(lo, hi) == a.subrange(lo, hi),
{
    assert forall|i: int| lo <= i < hi implies b[i] == a[i] by {
        assert(b.subrange(0, n)[i] == b[i]);
        assert(a.subrange(0, n)[i] == a[i]);
    }
    assert(b.subrange(lo, hi) =~= a.subrange(lo, hi));
}

/// A writer state whose buffer agrees with `a`'s below `a.cur_pos` keeps and seals all
/// that `a` had written.
proof fn lemma_kept_below(a: WriterView, b: WriterView)
    requires
        a.wf(),
        b.buf.len() == a.buf.len(),
        b.buf.subrange(0, a.cur_pos) == a.buf.subrange(0, a.cur_pos),
    ensures
        a.keeps_written(b),
        a.is_open() ==> b.buf.subrange(a.cur_header_pos, a.cur_pos) == a.buf.subrange(
            a.cur_header_pos,
            a.cur_pos,
        ),
{
    lemma_same_prefix(a.buf, b.buf, a.cur_pos, a.cur_header_pos);
    if a.is_open() {
        lemma_same_slice(a.buf, b.buf, a.cur_pos, a.cur_header_pos + 5, a.cur_pos);
        lemma_same_slice(a.buf, b.buf, a.cur_pos, a.cur_header_pos, a.cur_pos);
    }
}

impl WriterView {
    /// The state with the filler's window replaced by the bytes `f`.
    pub open spec fn refilled(self, f: Seq<u8>) -> WriterView {
        WriterView {
            buf: self.buf.subrange(0, self.cur_pos) + f + self.buf.subrange(
                self.cur_pos + self.room(),
                self.buf.len() as int,
            ),
            cur_pos: self.cur_pos,
            cur_header_pos: self.cur_header_pos,
            max_elements_per_sect: self.max_elements_per_sect,
            header: self.header,
            starts: self.starts,
        }
    }
}

/// What a filler may answer when handed a window of `len` bytes and an element budget of
/// `elements_left`: it wrote no more than it was given.
pub open spec fn filler_answer_fits(len: int, elements_left: int, res: CodingResult) -> bool {
    res matches Ok((b, e)) ==> b <= len && e <= elements_left
}

/// Writes variable-sized sections into an output buffer, each behind a 5-byte header, and
/// rolls over to a new section when the current one has no room left.
pub struct SectionWriter<'a> {
    write_buf: &'a mut [u8],
    cur_pos: usize,
    cur_header_pos: usize,
    max_elements_per_sect: u16,
    cur_header: SectionHeader,
    /// Where each section written so far starts, the open one last.
    starts: Ghost<Seq<int>>,
}

impl<'a> View for SectionWriter<'a> {
    type V = WriterView;

    closed spec fn view(&self) -> WriterView {
        WriterView {
            buf: self.write_buf@,
            cur_pos: self.cur_pos as int,
            cur_header_pos: self.cur_header_pos as int,
            max_elements_per_sect: self.max_elements_per_sect as int,
            header: self.cur_header,
            starts: self.starts@,
        }
    }
}

impl<'a> SectionWriter<'a> {
    /// A writer over `buf` with no section opened yet.
    pub fn new(buf: &'a mut [u8], max_elements_per_sect: u16) -> (r: Self)
        ensures
            r@.wf(),
            r@.buf == old(buf)@,
            r@.cur_pos == 0,
            r@.max_elements_per_sect == max_elements_per_sect,
    {
        SectionWriter {
            write_buf: buf,
            cur_pos: 0,
            cur_header_pos: 0,
            max_elements_per_sect,
            cur_header: SectionHeader { num_bytes: 0, num_elements: 0, typ: SectionType::Null },
            starts: Ghost(Seq::empty()),
        }
    }

    pub fn cur_pos(&self) -> (r: usize)
        ensures
            r == self@.cur_pos,
    {
        self.cur_pos
    }

    /// Stores `h` on the wire at `pos`, which must leave room for all 5 bytes.
    fn write_header(buf: &mut [u8], pos: usize, h: SectionHeader)
        requires
            pos + 5 <= old(buf)@.len(),
            pos + 5 <= usize::MAX,
        ensures
            final(buf)@.len() == old(buf)@.len(),
            final(buf)@.subrange(pos as int, pos + 5) == header_bytes(h),
            final(buf)@.subrange(0, pos as int) == old(buf)@.subrange(0, pos as int),
            final(buf)@.subrange(pos + 5, old(buf)@.len() as int) == old(buf)@.subrange(
                pos + 5,
                old(buf)@.len() as int,
            ),
    {
        let ghost b0 = buf@;
        let _ = pwrite_u16_le(buf, h.num_bytes, pos);
        let _ = pwrite_u16_le(buf, h.num_elements, pos + 2);
        let _ = pwrite_u8(buf, h.typ.as_num(), pos + 4);
        assert(buf@.subrange(pos as int, pos + 5) =~= header_bytes(h));
        assert(buf@.subrange(0, pos as int) =~= b0.subrange(0, pos as int));
        assert(buf@.subrange(pos + 5, b0.len() as int) =~= b0.subrange(pos + 5, b0.len() as int));
    }

    /// Opens an empty section of `sect_type` at `cur_pos`, if a header fits there.
    fn init_new_section(&mut self, sect_type: SectionType) -> (r: CodingResult)
        requires
            old(self)@.wf(),
        ensures
            final(self)@.wf(),
            final(self)@.max_elements_per_sect == old(self)@.max_elements_per_sect,
            old(self)@.keeps_written(final(self)@),
            final(self)@.buf.subrange(0, old(self)@.cur_pos) == old(self)@.buf.subrange(
                0,
                old(self)@.cur_pos,
            ),
            r is Ok <==> old(self)@.cur_pos + 5 <= old(self)@.buf.len(),
            r is Ok ==> r == Ok::<(u16, u16), CodingError>((5, 0)) && final(self)@ == old(
                self,
            )@.rolled(sect_type),
            r is Err ==> r == Err::<(u16, u16), CodingError>(CodingError::NotEnoughSpace)
                && final(self)@ == old(self)@,
    {
        if self.write_buf.len() - self.cur_pos < 5 {
            return Err(CodingError::NotEnoughSpace);
        }
        let h = SectionHeader { num_bytes: 0, num_elements: 0, typ: sect_type };
        let pos = self.cur_pos;
        let ghost v0 = self@;
        Self::write_header(self.write_buf, pos, h);
        proof {
            lemma_same_prefix(v0.buf, self.write_buf@, pos as int, v0.cur_header_pos);
            if v0.is_open() {
                lemma_same_slice(v0.buf, self.write_buf@, pos as int, v0.cur_header_pos + 5, v0.cur_pos);
            }
        }
        proof {
            if v0.is_open() {
                lemma_chain_keep(v0, self.write_buf@);
                let hp = v0.cur_header_pos;
                assert(self.write_buf@.subrange(hp, hp + 5) == v0.buf.subrange(hp, hp + 5)) by {
                    lemma_same_slice(v0.buf, self.write_buf@, pos as int, hp, hp + 5);
                }
                assert(self.write_buf@[hp] == v0.buf.subrange(hp, hp + 5)[0]);
                assert(self.write_buf@[hp + 1] == v0.buf.subrange(hp, hp + 5)[1]);
                assert(self.write_buf@[hp + 2] == v0.buf.subrange(hp, hp + 5)[2]);
                assert(self.write_buf@[hp + 3] == v0.buf.subrange(hp, hp + 5)[3]);
                assert(self.write_buf@[hp + 4] == v0.buf.subrange(hp, hp + 5)[4]);
                assert(sealed_section(self.write_buf@, hp, pos as int, v0.max_elements_per_sect));
            }
        }
        self.cur_header = h;
        self.cur_header_pos = pos;
        self.cur_pos = pos + 5;
        self.starts = Ghost(self.starts@.push(pos as int));
        proof {
            let st = self@.starts;
            assert forall|i: int| 0 <= i < st.len() - 1 implies #[trigger] sealed_section(
                self@.buf,
                st[i],
                st[i + 1],
                self@.max_elements_per_sect,
            ) by {
                if i < st.len() - 2 {
                    assert(st[i] == v0.starts[i] && st[i + 1] == v0.starts[i + 1]);
                }
            }
            assert forall|i: int| 0 <= i < st.len() implies #[trigger] st[i] <= pos by {
                if i < st.len() - 1 {
                    assert(st[i] == v0.starts[i]);
                }
            }
        }
        assert(self@.buf =~= put_header(v0.buf, pos as int, h)) by {
            assert(self@.buf =~= self@.buf.subrange(0, pos as int) + self@.buf.subrange(pos as int, pos + 5)
                + self@.buf.subrange(pos + 5, v0.buf.len() as int));
        }
        Ok((5, 0))
    }

    /// Hands the filler the room left in the open section and records what it wrote.
    fn fill_once<F>(&mut self, filler: &F) -> (r: CodingResult) where
        F: Fn(&mut [u8], usize) -> CodingResult,
        requires
            old(self)@.wf(),
            old(self)@.is_open(),
            forall|w: &mut [u8], n: usize| #[trigger] filler.requires((w, n)),
            forall|w: &mut [u8], res: CodingResult| #[trigger]
                filler.ensures((w, old(self)@.budget() as usize), res) ==> final(w)@.len()
                    == w@.len() && filler_answer_fits(w@.len() as int, old(self)@.budget(), res),
        ensures
            exists|w: &mut [u8]| #[trigger]
                filler.ensures((w, old(self)@.budget() as usize), r) && w@ == old(self)@.window()
                    && final(w)@ == final(self)@.buf.subrange(
                    old(self)@.cur_pos,
                    old(self)@.cur_pos + old(self)@.room(),
                ),
            final(self)@.buf.subrange(old(self)@.cur_pos + old(self)@.room(), old(self)@.buf.len() as int)
                == old(self)@.buf.subrange(
                old(self)@.cur_pos + old(self)@.room(),
                old(self)@.buf.len() as int,
            ),
            final(self)@.wf(),
            final(self)@.max_elements_per_sect == old(self)@.max_elements_per_sect,
            old(self)@.keeps_written(final(self)@),
            match r {
                Ok((b, e)) => old(self)@.continued(final(self)@, b as int, e as int),
                Err(_) => old(self)@.continued(final(self)@, 0, 0) && final(self)@.header == old(
                    self,
                )@.header && final(self)@.buf.subrange(0, old(self)@.cur_pos) == old(
                    self,
                )@.buf.subrange(0, old(self)@.cur_pos),
            },
    {
        let elements_left: u16 = self.max_elements_per_sect - self.cur_header.num_elements;
        let room_in_sect: usize = 65535 - self.cur_header.num_bytes as usize;
        let room_in_buf: usize = self.write_buf.len() - self.cur_pos;
        let bytes_left: usize = if room_in_sect < room_in_buf {
            room_in_sect
        } else {
            room_in_buf
        };
        let pos = self.cur_pos;
        let ghost v0 = self@;
        let (res, filled) = {
            let (head, rest) = self.write_buf.split_at_mut(pos);
            let (window, tail) = rest.split_at_mut(bytes_left);
            let ghost pre = window@;
            assert(pre == v0.window());
            let n = elements_left as usize;
            assert(n == v0.budget() as usize);
            let answer = filler(window, n);
            assert(exists|w: &mut [u8]| #[trigger] filler.ensures((w, n), answer));
            assert(exists|w: &mut [u8]| #[trigger] filler.ensures((w, v0.budget() as usize), answer)
                && w@ == pre && final(w)@ == window@);
            assert(window@.len() == bytes_left);
            (answer, Ghost(window@))
        };
        assert(self.write_buf@.subrange(pos as int, pos + bytes_left) =~= filled@);
        assert(self.write_buf@.subrange(pos + bytes_left, v0.buf.len() as int) == v0.buf.subrange(pos + bytes_left, v0.buf.len() as int));
        assert(self.write_buf@.len() == v0.buf.len());
        assert(self.write_buf@.subrange(0, pos as int) == v0.buf.subrange(0, pos as int));
        proof {
            lemma_same_prefix(v0.buf, self.write_buf@, pos as int, v0.cur_header_pos);
            lemma_same_slice(v0.buf, self.write_buf@, pos as int, v0.cur_header_pos, pos as int);
            lemma_same_slice(v0.buf, self.write_buf@, pos as int, v0.cur_header_pos + 5, pos as int);
            lemma_same_slice(v0.buf, self.write_buf@, pos as int, v0.cur_header_pos, v0.cur_header_pos + 5);
        }
        match res {
            Ok((b, e)) => {
                self.cur_header.num_bytes = self.cur_header.num_bytes + b;
                self.cur_header.num_elements = self.cur_header.num_elements + e;
                self.cur_pos = pos + b as usize;
                let hp = self.cur_header_pos;
                let h = self.cur_header;
                let ghost b1 = self.write_buf@;
                Self::write_header(self.write_buf, hp, h);
                proof {
                    lemma_same_prefix(b1, self.write_buf@, hp as int, hp as int);
                    assert(self.write_buf@.subrange(0, hp as int) == v0.buf.subrange(0, hp as int));
                    lemma_chain_keep(v0, self.write_buf@);
                    assert(self.write_buf@.subrange(pos as int, b1.len() as int) =~= b1.subrange(pos as int, b1.len() as int)) by {
                        assert forall|i: int| pos <= i < b1.len() implies self.write_buf@[i] == b1[i] by {
                            assert(self.write_buf@.subrange(hp + 5, b1.len() as int)[i - hp - 5] == self.write_buf@[i]);
                            assert(b1.subrange(hp + 5, b1.len() as int)[i - hp - 5] == b1[i]);
                        }
                    }
                    assert(self.write_buf@.subrange(pos as int, pos + bytes_left) =~= b1.subrange(pos as int, b1.len() as int).subrange(0, bytes_left as int));
                    assert(b1.subrange(pos as int, pos + bytes_left) =~= b1.subrange(pos as int, b1.len() as int).subrange(0, bytes_left as int));
                    assert(self.write_buf@.subrange(pos + bytes_left, b1.len() as int) =~= b1.subrange(pos as int, b1.len() as int).subrange(bytes_left as int, b1.len() - pos));
                    assert(b1.subrange(pos + bytes_left, b1.len() as int) =~= b1.subrange(pos as int, b1.len() as int).subrange(bytes_left as int, b1.len() - pos));
                    assert(self.write_buf@.subrange(hp + 5, pos as int) =~= b1.subrange(hp + 5, pos as int)) by {
                        assert forall|i: int| hp + 5 <= i < pos implies self.write_buf@[i] == b1[i] by {
                            assert(self.write_buf@.subrange(hp + 5, b1.len() as int)[i - hp - 5] == self.write_buf@[i]);
                            assert(b1.subrange(hp + 5, b1.len() as int)[i - hp - 5] == b1[i]);
                        }
                    }
                }
                Ok((b, e))
            },
            Err(err) => {
                proof {
                    lemma_chain_keep(v0, self.write_buf@);
                }
                Err(err)
            },
        }
    }

    /// Adds one run of elements: `filler` is handed the writable room of the current section
    /// (at most 64 KiB of payload, and what is left of the buffer) with the number of elements
    /// the section can still take, and answers how many bytes and elements it wrote. The first
    /// call opens a section of `sect_type`. When the filler answers `NotEnoughSpace`, the open
    /// section is sealed, a new one of `sect_type` is opened, and the filler is asked once more;
    /// its second answer is final. A header that does not fit gives `NotEnoughSpace`.
    pub fn add_64kb<F>(&mut self, sect_type: SectionType, filler: F) -> (r: CodingResult) where
        F: Fn(&mut [u8], usize) -> CodingResult,
        requires
            old(self)@.wf(),
            forall|w: &mut [u8], n: usize| #[trigger] filler.requires((w, n)),
            forall|w: &mut [u8], res: CodingResult| #[trigger]
                filler.ensures((w, old(self)@.ready(sect_type).budget() as usize), res) ==> final(w)@.len() == w@.len() && filler_answer_fits(
                    w@.len() as int,
                    old(self)@.ready(sect_type).budget(),
                    res,
                ),
            forall|w: &mut [u8], res: CodingResult| #[trigger]
                filler.ensures((w, old(self)@.max_elements_per_sect as usize), res) ==> final(w)@.len() == w@.len() && filler_answer_fits(
                    w@.len() as int,
                    old(self)@.max_elements_per_sect,
                    res,
                ),
        ensures
            final(self)@.wf(),
            final(self)@.max_elements_per_sect == old(self)@.max_elements_per_sect,
            final(self)@.cur_pos >= old(self)@.cur_pos,
            old(self)@.keeps_written(final(self)@),
            old(self)@.sealed(final(self)@),
            !old(self)@.is_open() && old(self)@.buf.len() < 5 ==> r == Err::<(u16, u16), CodingError>(
                CodingError::NotEnoughSpace,
            ) && final(self)@ == old(self)@,
            ({
                // no room for the first header (stated above)
                ||| !old(self)@.is_open() && old(self)@.buf.len() < 5
                // the filler's first answer is not `NotEnoughSpace` and is handed on: on
                // success the open section grew by what the filler wrote into its window;
                // on an error the writer is back where it was
                ||| {
                    let v1 = old(self)@.ready(sect_type);
                    &&& r != Err::<(u16, u16), CodingError>(CodingError::NotEnoughSpace)
                    &&& exists|w: &mut [u8]| #[trigger]
                        filler.ensures((w, v1.budget() as usize), r) && w@ == v1.window()
                            && final(w)@ == final(self)@.buf.subrange(
                            v1.cur_pos,
                            v1.cur_pos + v1.room(),
                        )
                    &&& final(self)@.buf.subrange(v1.cur_pos + v1.room(), v1.buf.len() as int)
                        == v1.buf.subrange(v1.cur_pos + v1.room(), v1.buf.len() as int)
                    &&& match r {
                        Ok((b, e)) => v1.continued(final(self)@, b as int, e as int),
                        Err(_) => old(self)@.same_place(final(self)@),
                    }
                }
                // the first answer was `NotEnoughSpace`: a new section of type `sect_type`
                // opens where the first window began, if its header fits (else the answer
                // is `NotEnoughSpace`), and the filler is handed that section's whole window
                // and the full element cap; its answer is handed on
                ||| {
                    let v1 = old(self)@.ready(sect_type);
                    exists|w1: &mut [u8]| #[trigger]
                        filler.ensures((w1, v1.budget() as usize), Err(CodingError::NotEnoughSpace))
                            && w1@ == v1.window() && {
                            let v2 = v1.refilled(final(w1)@).rolled(sect_type);
                            if v1.cur_pos + 5 > v1.buf.len() {
                                &&& r == Err::<(u16, u16), CodingError>(CodingError::NotEnoughSpace)
                                &&& v1.same_place(final(self)@)
                                &&& final(self)@.buf == v1.refilled(final(w1)@).buf
                            } else {
                                &&& exists|w2: &mut [u8]| #[trigger]
                                    filler.ensures((w2, v1.max_elements_per_sect as usize), r)
                                        && w2@ == v2.window()
                                        && final(w2)@ == final(self)@.buf.subrange(
                                        v2.cur_pos,
                                        v2.cur_pos + v2.room(),
                                    )
                                &&& final(self)@.buf.subrange(v2.cur_pos + v2.room(), v2.buf.len() as int)
                                    == v2.buf.subrange(v2.cur_pos + v2.room(), v2.buf.len() as int)
                                &&& match r {
                                    Ok((b, e)) => v2.continued(final(self)@, b as int, e as int),
                                    Err(_) => v2.same_place(final(self)@),
                                }
                            }
                        }
                }
            }),
    {
        let fresh = self.cur_pos == 0;
        if fresh {
            match self.init_new_section(sect_type) {
                Ok(_) => {},
                Err(err) => {
                    return Err(err);
                },
            }
        }
        let ghost v1 = self@;
        assert(v1 == old(self)@.ready(sect_type));
        let first = self.fill_once(&filler);
        match first {
            Err(CodingError::NotEnoughSpace) => {
                let ghost v2 = self@;
                assert(v1.same_place(v2));
                let ghost f1 = v2.buf.subrange(v1.cur_pos, v1.cur_pos + v1.room());
                proof {
                    let rf = v1.refilled(f1);
                    assert(v2.buf =~= rf.buf) by {
                        assert(v2.buf =~= v2.buf.subrange(0, v1.cur_pos) + f1 + v2.buf.subrange(
                            v1.cur_pos + v1.room(),
                            v2.buf.len() as int,
                        ));
                    }
                    assert(v2 == rf);
                }
                match self.init_new_section(sect_type) {
                    Ok(_) => {},
                    Err(err) => {
                        proof {
                            lemma_kept_below(v1, self@);
                        }
                        return Err(err);
                    },
                }
                let ghost v3 = self@;
                assert(v3.budget() == v1.max_elements_per_sect);
                assert(v3.room() == v1.rolled(sect_type).room());
                let second = self.fill_once(&filler);
                proof {
                    lemma_same_prefix(v3.buf, self@.buf, v3.cur_header_pos, v2.cur_pos);
                    lemma_same_prefix(v2.buf, v3.buf, v2.cur_pos, v2.cur_pos);
                    lemma_kept_below(v1, self@);
                }
                second
            },
            Err(err) => {
                if fresh {
                    // the section opened for this call holds nothing: take it back
                    self.cur_pos = 0;
                    self.cur_header_pos = 0;
                    self.cur_header = SectionHeader {
                        num_bytes: 0,
                        num_elements: 0,
                        typ: SectionType::Null,
                    };
                    self.starts = Ghost(Seq::empty());
                }
                assert(self@.buf.len() == old(self)@.buf.len());
                assert(self@.max_elements_per_sect == old(self)@.max_elements_per_sect);
                assert(self@.cur_pos == old(self)@.cur_pos);
                assert(self@.header == old(self)@.header);
                assert(self@.starts == old(self)@.starts);
                assert(old(self)@.same_place(self@));
                Err(err)
            },
            Ok(x) => {
                Ok(x)
            },
        }
    }
}

/// Number of elements in every fixed section.
pub const FIXED_LEN: usize = 256;

/// A section of exactly 256 elements. Its first byte is its `SectionType`; what follows
/// depends on the type.
pub trait FixedSection {
    /// Length of the section in bytes, the type byte included.
    spec fn spec_num_bytes(&self) -> nat;

    fn num_bytes(&self) -> (r: usize)
        ensures
            r == self.spec_num_bytes(),
    ;

    fn num_elements(&self) -> (r: usize)
        ensures
            r == FIXED_LEN,
    ;
}

/// 256 null elements; on the wire, the `SectionType::Null` byte alone.
#[derive(Clone, Copy, Debug, PartialEq, Eq, Structural)]
pub struct NullFixedSect {}

/// 256 nibble-packed `u64` values with a payload under 64 KiB. On the wire: the type byte,
/// the little-endian `u16` payload length, then the payload.
#[derive(Clone, Copy, Debug, PartialEq, Eq, Structural)]
pub struct NibblePackU64MedFixedSect {
    /// Length of the nibble-packed payload.
    pub encoded_bytes: u16,
}

/// 256 nibble-packed `u32` values with a payload under 64 KiB, laid out as
/// `NibblePackU64MedFixedSect`.
#[derive(Clone, Copy, Debug, PartialEq, Eq, Structural)]
pub struct NibblePackU32MedFixedSect {
    /// Length of the nibble-packed payload.
    pub encoded_bytes: u16,
}

/// Any fixed section.
#[derive(Clone, Copy, Debug, PartialEq, Eq, Structural)]
pub enum FixedSectEnum {
    NullFixedSect(NullFixedSect),
    NibblePackU64MedFixedSect(NibblePackU64MedFixedSect),
    NibblePackU32MedFixedSect(NibblePackU32MedFixedSect),
}

impl FixedSection for NullFixedSect {
    open spec fn spec_num_bytes(&self) -> nat {
        1
    }

    fn num_bytes(&self) -> (r: usize) {
        1
    }

    fn num_elements(&self) -> (r: usize) {
        FIXED_LEN
    }
}

impl FixedSection for NibblePackU64MedFixedSect {
    open spec fn spec_num_bytes(&self) -> nat {
        self.encoded_bytes as nat + 3
    }

    fn num_bytes(&self) -> (r: usize) {
        self.encoded_bytes as usize + 3
    }

    fn num_elements(&self) -> (r: usize) {
        FIXED_LEN
    }
}

impl FixedSection for NibblePackU32MedFixedSect {
    open spec fn spec_num_bytes(&self) -> nat {
        self.encoded_bytes as nat + 3
    }

    fn num_bytes(&self) -> (r: usize) {
        self.encoded_bytes as usize + 3
    }

    fn num_elements(&self) -> (r: usize) {
        FIXED_LEN
    }
}

impl FixedSection for FixedSectEnum {
    open spec fn spec_num_bytes(&self) -> nat {
        match self {
            FixedSectEnum::NullFixedSect(x) => x.spec_num_bytes(),
            FixedSectEnum::NibblePackU64MedFixedSect(x) => x.spec_num_bytes(),
            FixedSectEnum::NibblePackU32MedFixedSect(x) => x.spec_num_bytes(),
        }
    }

    fn num_bytes(&self) -> (r: usize) {
        match self {
            FixedSectEnum::NullFixedSect(x) => x.num_bytes(),
            FixedSectEnum::NibblePackU64MedFixedSect(x) => x.num_bytes(),
            FixedSectEnum::NibblePackU32MedFixedSect(x) => x.num_bytes(),
        }
    }

    fn num_elements(&self) -> (r: usize) {
        FIXED_LEN
    }
}

/// The payload length of a medium section, read from the bytes of the section: the input
/// must hold the 3-byte header and the whole payload it declares.
pub open spec fn spec_medium_len(s: Seq<u8>) -> Result<u16, CodingError> {
    if s.len() < 3 {
        Err(CodingError::InputTooShort)
    } else if 3 + le_u16_at(s, 1) > s.len() {
        Err(CodingError::BadLengthField)
    } else {
        Ok(le_u16_at(s, 1) as u16)
    }
}

/// The fixed section that the bytes `s` start with.
pub open spec fn spec_fixed_sect(s: Seq<u8>) -> Result<FixedSectEnum, CodingError> {
    if s.len() == 0 {
        Err(CodingError::InputTooShort)
    } else {
        match SectionType::spec_from_byte(s[0]) {
            None => Err(CodingError::InvalidSectionType(s[0])),
            Some(SectionType::Null) => Ok(FixedSectEnum::NullFixedSect(NullFixedSect {})),
            Some(SectionType::NibblePackedU64Medium) => match spec_medium_len(s) {
                Ok(l) => Ok(
                    FixedSectEnum::NibblePackU64MedFixedSect(
                        NibblePackU64MedFixedSect { encoded_bytes: l },
                    ),
                ),
                Err(e) => Err(e),
            },
            Some(SectionType::NibblePackedU32Medium) => match spec_medium_len(s) {
                Ok(l) => Ok(
                    FixedSectEnum::NibblePackU32MedFixedSect(
                        NibblePackU32MedFixedSect { encoded_bytes: l },
                    ),
                ),
                Err(e) => Err(e),
            },
        }
    }
}

/// Reads the payload length of a medium section.
fn medium_len(sect_bytes: &[u8]) -> (r: Result<u16, CodingError>)
    ensures
        r == spec_medium_len(sect_bytes@),
{
    match pread_u16_le(sect_bytes, 1) {
        Ok(n) => {
            if 3 + n as usize <= sect_bytes.len() {
                Ok(n)
            } else {
                Err(CodingError::BadLengthField)
            }
        },
        Err(_) => Err(CodingError::InputTooShort),
    }
}

impl FixedSectEnum {
    /// Reads the fixed section that `s` starts with. `s` must hold all of it.
    pub fn try_from(s: &[u8]) -> (r: Result<FixedSectEnum, CodingError>)
        ensures
            r == spec_fixed_sect(s@),
    {
        if s.len() == 0 {
            return Err(CodingError::InputTooShort);
        }
        match SectionType::try_from(s[0]) {
            Err(e) => Err(e),
            Ok(SectionType::Null) => Ok(FixedSectEnum::NullFixedSect(NullFixedSect {})),
            Ok(SectionType::NibblePackedU64Medium) => match NibblePackU64MedFixedSect::try_from(s) {
                Ok(x) => Ok(FixedSectEnum::NibblePackU64MedFixedSect(x)),
                Err(e) => Err(e),
            },
            Ok(SectionType::NibblePackedU32Medium) => match NibblePackU32MedFixedSect::try_from(s) {
                Ok(x) => Ok(FixedSectEnum::NibblePackU32MedFixedSect(x)),
                Err(e) => Err(e),
            },
        }
    }

    pub fn is_null(&self) -> (r: bool)
        ensures
            r <==> self is NullFixedSect,
    {
        match self {
            FixedSectEnum::NullFixedSect(..) => true,
            _ => false,
        }
    }
}

impl NullFixedSect {
    /// Writes the one byte of a null section at `offset`, and returns `offset + 1`.
    pub fn write(out_buf: &mut [u8], offset: usize) -> (r: Result<usize, CodingError>)
        ensures
            r is Ok <==> offset < old(out_buf)@.len(),
            match r {
                Ok(end) => end == offset + 1 && final(out_buf)@ == old(out_buf)@.update(
                    offset as int,
                    SectionType::Null.spec_byte(),
                ),
                Err(e) => e == CodingError::NotEnoughSpace && final(out_buf)@ == old(out_buf)@,
            },
    {
        if offset >= out_buf.len() {
            return Err(CodingError::NotEnoughSpace);
        }
        match pwrite_u8(out_buf, SectionType::Null.as_num(), offset) {
            Ok(_) => Ok(offset + 1),
            Err(_) => Err(CodingError::NotEnoughSpace),
        }
    }
}

/// The bytes at `offset` hold a medium section of type `t` that ends at `end` and whose
/// payload decodes to `values`.
pub open spec fn holds_medium(b: Seq<u8>, offset: int, t: SectionType, values: Seq<u64>, end: int) -> bool {
    &&& 0 <= offset
    &&& offset + 3 <= end <= b.len()
    &&& b[offset] == t.spec_byte()
    &&& le_u16_at(b, offset + 1) == end - offset - 3
    &&& decode_groups(b, offset + 3, 32) == Some((values, end))
}

/// What a failed section write leaves: the bytes before `offset`, and the length field
/// (written last) where it fits; nothing at all is written when the 3-byte section header
/// does not fit.
pub open spec fn kept_on_failure(before: Seq<u8>, after: Seq<u8>, offset: int) -> bool {
    &&& after.len() == before.len()
    &&& offset + 3 > before.len() ==> after == before
    &&& offset <= before.len() ==> after.subrange(0, offset) == before.subrange(0, offset)
    &&& offset + 3 <= before.len() ==> after[offset + 1] == before[offset + 1] && after[offset + 2]
        == before[offset + 2]
}

/// Writes the values of a fixed section.
pub trait FixedSectionWriter<T> {
    /// The bytes at `offset` hold the section of `values`, which ends at `end`.
    spec fn holds_section(out: Seq<u8>, offset: int, values: Seq<T>, end: int) -> bool;

    /// Number of bytes the payload of `values` is packed into.
    spec fn payload_len(values: Seq<T>) -> int;

    /// Writes the section of the 256 `values` at `offset`, and returns the offset just past
    /// it. The payload length is written last. Fails with `NotEnoughSpace` when the section
    /// does not fit in `out_buf` or its payload exceeds 65535 bytes; 2115 bytes always
    /// suffice. Bytes before `offset` are left as they were.
    fn write(out_buf: &mut [u8], offset: usize, values: &[T]) -> (r: Result<usize, CodingError>)
        requires
            values@.len() == FIXED_LEN,
        ensures
            final(out_buf)@.len() == old(out_buf)@.len(),
            r is Ok <==> offset + 3 + Self::payload_len(values@) <= old(out_buf)@.len()
                && Self::payload_len(values@) <= 65535,
            match r {
                Ok(end) => end == offset + 3 + Self::payload_len(values@) && Self::holds_section(
                    final(out_buf)@,
                    offset as int,
                    values@,
                    end as int,
                ) && final(out_buf)@.subrange(0, offset as int) == old(out_buf)@.subrange(
                    0,
                    offset as int,
                ),
                Err(e) => e == CodingError::NotEnoughSpace && kept_on_failure(
                    old(out_buf)@,
                    final(out_buf)@,
                    offset as int,
                ),
            },
    ;
}

/// Writes a medium section of type `t` for `values`: type byte, packed payload, then length.
fn write_medium(out_buf: &mut [u8], offset: usize, t: SectionType, values: &[u64]) -> (r: Result<
    usize,
    CodingError,
>)
    requires
        values@.len() == FIXED_LEN,
    ensures
        final(out_buf)@.len() == old(out_buf)@.len(),
        r is Ok <==> offset + 3 + packed_len(values@, 32) <= old(out_buf)@.len() && packed_len(
            values@,
            32,
        ) <= 65535,
        match r {
            Ok(end) => end == offset + 3 + packed_len(values@, 32) && holds_medium(
                final(out_buf)@,
                offset as int,
                t,
                values@,
                end as int,
            ) && final(out_buf)@.subrange(0, offset as int) == old(out_buf)@.subrange(
                0,
                offset as int,
            ),
            Err(e) => e == CodingError::NotEnoughSpace && kept_on_failure(
                old(out_buf)@,
                final(out_buf)@,
                offset as int,
            ),
        },
{
    let ghost b0 = out_buf@;
    let len = out_buf.len();
    proof {
        crate::nibblepack::lemma_packed_len_mono(values@, 0, 32);
    }
    if offset >= len || len - offset < 3 {
        return Err(CodingError::NotEnoughSpace);
    }
    let _ = pwrite_u8(out_buf, t.as_num(), offset);
    let ghost b1 = out_buf@;
    let packed = pack_u64(values, out_buf, offset + 3);
    proof {
        assert forall|x: int| 0 <= x < offset + 3 && x != offset implies out_buf@[x] == b0[x] by {
            assert(out_buf@.subrange(0, offset + 3)[x] == b1.subrange(0, offset + 3)[x]);
        }
        assert(out_buf@.subrange(0, offset as int) =~= b0.subrange(0, offset as int));
    }
    match packed {
        Ok(end) => {
            proof {
                crate::nibblepack::lemma_groups_end_bound(out_buf@, (offset + 3) as int, 32);
            }
            let num_bytes: usize = end - offset - 3;
            if num_bytes > 65535 {
                return Err(CodingError::NotEnoughSpace);
            }
            let ghost b2 = out_buf@;
            proof {
                crate::nibblepack::lemma_groups_end_bound(b2, (offset + 3) as int, 32);
            }
            let _ = pwrite_u16_le(out_buf, num_bytes as u16, offset + 1);
            proof {
                crate::nibblepack::lemma_groups_suffix_frame(b2, out_buf@, (offset + 3) as int, 32);
                assert(b2.subrange(0, offset + 3)[offset as int] == b1.subrange(0, offset + 3)[offset as int]);
                assert(out_buf@[offset as int] == t.spec_byte());
                assert(le_u16_at(out_buf@, offset + 1) == num_bytes);
                assert(out_buf@.subrange(0, offset as int) =~= b0.subrange(0, offset as int)) by {
                    assert forall|x: int| 0 <= x < offset implies out_buf@[x] == b0[x] by {
                        assert(b2.subrange(0, offset + 3)[x] == b1.subrange(0, offset + 3)[x]);
                    }
                }
            }
            Ok(end)
        },
        Err(e) => Err(e),
    }
}

impl FixedSectionWriter<u64> for NibblePackU64MedFixedSect {
    open spec fn holds_section(out: Seq<u8>, offset: int, values: Seq<u64>, end: int) -> bool {
        holds_medium(out, offset, SectionType::NibblePackedU64Medium, values, end)
    }

    open spec fn payload_len(values: Seq<u64>) -> int {
        packed_len(values, 32)
    }

    fn write(out_buf: &mut [u8], offset: usize, values: &[u64]) -> (r: Result<usize, CodingError>) {
        write_medium(out_buf, offset, SectionType::NibblePackedU64Medium, values)
    }
}

/// Each value widened to 64 bits.
pub open spec fn widen(vs: Seq<u32>) -> Seq<u64> {
    vs.map_values(|v: u32| v as u64)
}

impl FixedSectionWriter<u32> for NibblePackU32MedFixedSect {
    open spec fn holds_section(out: Seq<u8>, offset: int, values: Seq<u32>, end: int) -> bool {
        holds_medium(out, offset, SectionType::NibblePackedU32Medium, widen(values), end)
    }

    open spec fn payload_len(values: Seq<u32>) -> int {
        packed_len(widen(values), 32)
    }

    fn write(out_buf: &mut [u8], offset: usize, values: &[u32]) -> (r: Result<usize, CodingError>) {
        let mut wide: Vec<u64> = Vec::new();
        let mut i: usize = 0;
        while i < values.len()
            invariant
                i <= values@.len(),
                wide@ == widen(values@.subrange(0, i as int)),
            decreases values@.len() - i,
        {
            wide.push(values[i] as u64);
            assert(widen(values@.subrange(0, i + 1)) =~= widen(values@.subrange(0, i as int)).push(
                values@[i as int] as u64,
            ));
            i = i + 1;
        }
        assert(values@.subrange(0, values@.len() as int) =~= values@);
        write_medium(out_buf, offset, SectionType::NibblePackedU32Medium, wide.as_slice())
    }
}

impl NibblePackU64MedFixedSect {
    /// Reads the header of a section that starts with its type byte; `sect_bytes` must hold
    /// the whole payload it declares.
    pub fn try_from(sect_bytes: &[u8]) -> (r: Result<NibblePackU64MedFixedSect, CodingError>)
        ensures
            match spec_medium_len(sect_bytes@) {
                Ok(l) => r == Ok::<NibblePackU64MedFixedSect, CodingError>(
                    NibblePackU64MedFixedSect { encoded_bytes: l },
                ),
                Err(e) => r == Err::<NibblePackU64MedFixedSect, CodingError>(e),
            },
    {
        match medium_len(sect_bytes) {
            Ok(l) => Ok(NibblePackU64MedFixedSect { encoded_bytes: l }),
            Err(e) => Err(e),
        }
    }

    /// Decodes the 256 values of the section held by `sect_bytes`.
    pub fn iter(&self, sect_bytes: &[u8]) -> (r: Result<Vec<u64>, CodingError>)
        ensures
            match decode_groups(sect_bytes@, 3, 32) {
                Some((vs, _)) => r is Ok && r->Ok_0@ == vs,
                None => r == Err::<Vec<u64>, CodingError>(CodingError::InputTooShort),
            },
    {
        match unpack_u64(sect_bytes, 3, FIXED_LEN) {
            Ok((vs, _)) => Ok(vs),
            Err(e) => Err(e),
        }
    }
}

impl NibblePackU32MedFixedSect {
    /// Reads the header of a section that starts with its type byte; `sect_bytes` must hold
    /// the whole payload it declares.
    pub fn try_from(sect_bytes: &[u8]) -> (r: Result<NibblePackU32MedFixedSect, CodingError>)
        ensures
            match spec_medium_len(sect_bytes@) {
                Ok(l) => r == Ok::<NibblePackU32MedFixedSect, CodingError>(
                    NibblePackU32MedFixedSect { encoded_bytes: l },
                ),
                Err(e) => r == Err::<NibblePackU32MedFixedSect, CodingError>(e),
            },
    {
        match medium_len(sect_bytes) {
            Ok(l) => Ok(NibblePackU32MedFixedSect { encoded_bytes: l }),
            Err(e) => Err(e),
        }
    }

    /// Decodes the 256 values of the section held by `sect_bytes` into `output`, eight at a
    /// time. Fails with `InputTooShort` when the payload does not hold them.
    pub fn decode_to_sink<Output: SinkU32>(sect_bytes: &[u8], output: &mut Output) -> (r: Result<
        (),
        CodingError,
    >)
        ensures
            match decode_groups(sect_bytes@, 3, 32) {
                Some((vs, _)) => r is Ok && final(output).received() == old(output).received()
                    + low_u32s(vs),
                None => r == Err::<(), CodingError>(CodingError::InputTooShort) && exists|g: nat|
                    #![trigger decode_groups(sect_bytes@, 3, g)]
                    g < 32 && decode_groups(sect_bytes@, 3, g) is Some && decode_groups(
                        sect_bytes@,
                        3,
                        g + 1,
                    ) is None && final(output).received() == old(output).received() + low_u32s(
                        groups_values(sect_bytes@, 3, g),
                    ),
            },
    {
        let mut inbuf: usize = 3;
        let mut g: usize = 0;
        while g < 32
            invariant
                g <= 32,
                decode_groups(sect_bytes@, 3, g as nat) matches Some((vs, q)) && q == inbuf
                    && output.received() == old(output).received() + low_u32s(vs),
            decreases 32 - g,
        {
            let ghost before = output.received();
            let ghost vs = crate::nibblepack::groups_values(sect_bytes@, 3, g as nat);
            match unpack8_u32(sect_bytes, inbuf, output) {
                Ok(q) => {
                    proof {
                        let gv = crate::nibblepack::group_values(sect_bytes@, inbuf as int);
                        assert(low_u32s(vs + gv) =~= low_u32s(vs) + low_u32s(gv));
                    }
                    inbuf = q;
                },
                Err(e) => {
                    proof {
                        crate::nibblepack::lemma_groups_none(sect_bytes@, 3, (g + 1) as nat, 32);
                        assert(decode_groups(sect_bytes@, 3, g as nat) is Some);
                        assert(decode_groups(sect_bytes@, 3, (g + 1) as nat) is None);
                    }
                    return Err(e);
                },
            }
            g = g + 1;
        }
        Ok(())
    }
}

/// Collects decoded `u32` values, 256 of them for a whole section.
#[allow(non_camel_case_types)]
pub struct U32_256Sink {
    pub values: Vec<u32>,
}

impl U32_256Sink {
    pub fn new() -> (r: Self)
        ensures
            r.values@ == Seq::<u32>::empty(),
    {
        U32_256Sink { values: Vec::new() }
    }
}

impl SinkU32 for U32_256Sink {
    open spec fn received(&self) -> Seq<u32> {
        self.values@
    }

    fn accept_u32x8(&mut self, vals: &[u32]) {
        let mut i: usize = 0;
        let ghost start = self.values@;
        while i < vals.len()
            invariant
                i <= vals@.len(),
                self.values@ == start + vals@.subrange(0, i as int),
            decreases vals@.len() - i,
        {
            self.values.push(vals[i]);
            assert(start + vals@.subrange(0, i + 1) =~= start + vals@.subrange(0, i as int)
                + seq![vals@[i as int]]);
            i = i + 1;
        }
        assert(vals@.subrange(0, vals@.len() as int) =~= vals@);
    }
}

/// Decodes the 256 values of a `u32` section that is known to decode.
pub fn unpack_u32_section(buf: &[u8]) -> (r: Vec<u32>)
    requires
        decode_groups(buf@, 3, 32) is Some,
    ensures
        r@ == low_u32s(groups_values(buf@, 3, 32)),
{
    let mut sink = U32_256Sink::new();
    let _ = NibblePackU32MedFixedSect::decode_to_sink(buf, &mut sink);
    assert(Seq::<u32>::empty() + low_u32s(groups_values(buf@, 3, 32)) =~= low_u32s(
        groups_values(buf@, 3, 32),
    ));
    sink.values
}

/// Walks a run of fixed sections.
pub struct FixedSectIterator<'a> {
    encoded_bytes: &'a [u8],
}

impl<'a> View for FixedSectIterator<'a> {
    type V = Seq<u8>;

    /// The bytes not walked yet.
    closed spec fn view(&self) -> Seq<u8> {
        self.encoded_bytes@
    }
}

impl<'a> FixedSectIterator<'a> {
    pub fn new(encoded_bytes: &'a [u8]) -> (r: Self)
        ensures
            r@ == encoded_bytes@,
    {
        FixedSectIterator { encoded_bytes }
    }

    /// The next section with all of its bytes, type byte included; `None`, and no step,
    /// once the rest does not start with a whole section.
    pub fn next(&mut self) -> (r: Option<(FixedSectEnum, &'a [u8])>)
        ensures
            match spec_fixed_sect(old(self)@) {
                Ok(fse) => r matches Some((f, b)) && f == fse && b@ == old(self)@
                    && fse.spec_num_bytes() <= old(self)@.len() && final(self)@ == old(
                    self,
                )@.subrange(fse.spec_num_bytes() as int, old(self)@.len() as int),
                Err(_) => r is None && final(self)@ == old(self)@,
            },
    {
        let bytes: &'a [u8] = self.encoded_bytes;
        match FixedSectEnum::try_from(bytes) {
            Ok(fse) => {
                let n = fse.num_bytes();
                self.encoded_bytes = &bytes[n..bytes.len()];
                Some((fse, bytes))
            },
            Err(_) => None,
        }
    }
}

/// Round trip for `u64` values: the section that a successful `write` leaves at `offset`
/// reads back, from any slice that starts with it, as a `u64` section whose 256 decoded
/// values are exactly the values written.
pub proof fn law_round_trip_u64(out: Seq<u8>, offset: int, values: Seq<u64>, end: int, x: int)
    requires
        <NibblePackU64MedFixedSect as FixedSectionWriter<u64>>::holds_section(out, offset, values, end),
        end <= x <= out.len(),
    ensures
        spec_fixed_sect(out.subrange(offset, x)) == Ok::<FixedSectEnum, CodingError>(
            FixedSectEnum::NibblePackU64MedFixedSect(
                NibblePackU64MedFixedSect { encoded_bytes: (end - offset - 3) as u16 },
            ),
        ),
        decode_groups(out.subrange(offset, x), 3, 32) == Some((values, end - offset)),
{
    lemma_medium_reads_back(out, offset, SectionType::NibblePackedU64Medium, values, end, x);
}

/// Round trip for `u32` values: the section that a successful `write` leaves at `offset`
/// reads back, from any slice that starts with it, as a `u32` section whose 256 decoded
/// values are exactly the values written.
pub proof fn law_round_trip_u32(out: Seq<u8>, offset: int, values: Seq<u32>, end: int, x: int)
    requires
        <NibblePackU32MedFixedSect as FixedSectionWriter<u32>>::holds_section(out, offset, values, end),
        end <= x <= out.len(),
    ensures
        spec_fixed_sect(out.subrange(offset, x)) == Ok::<FixedSectEnum, CodingError>(
            FixedSectEnum::NibblePackU32MedFixedSect(
                NibblePackU32MedFixedSect { encoded_bytes: (end - offset - 3) as u16 },
            ),
        ),
        decode_groups(out.subrange(offset, x), 3, 32) is Some,
        low_u32s(groups_values(out.subrange(offset, x), 3, 32)) == values,
{
    lemma_medium_reads_back(out, offset, SectionType::NibblePackedU32Medium, widen(values), end, x);
    lemma_low_of_wide(values);
}

proof fn lemma_medium_reads_back(
    out: Seq<u8>,
    offset: int,
    t: SectionType,
    values: Seq<u64>,
    end: int,
    x: int,
)
    requires
        holds_medium(out, offset, t, values, end),
        end <= x <= out.len(),
    ensures
        spec_medium_len(out.subrange(offset, x)) == Ok::<u16, CodingError>((end - offset - 3) as u16),
        out.subrange(offset, x)[0] == t.spec_byte(),
        decode_groups(out.subrange(offset, x), 3, 32) == Some((values, end - offset)),
{
    let c = out.subrange(offset, x);
    assert(c[1] == out[offset + 1] && c[2] == out[offset + 2]);
    assert(le_u16_at(c, 1) == end - offset - 3);
    crate::nibblepack::lemma_groups_end_bound(out, offset + 3, 32);
    lemma_groups_shift(out, offset, offset + 3, 32, x);
}

/// The bytes `[e, next)` hold one fixed section: a null byte alone, or a medium section
/// whose length field says that it ends at `next`. Each successful `write` leaves one.
pub open spec fn section_at(b: Seq<u8>, e: int, next: int) -> bool {
    ||| b[e] == SectionType::Null.spec_byte() && next == e + 1
    ||| (b[e] == SectionType::NibblePackedU64Medium.spec_byte() || b[e]
        == SectionType::NibblePackedU32Medium.spec_byte()) && next >= e + 3 && le_u16_at(b, e + 1)
        == next - e - 3
}

/// `b` is a run of fixed sections that start at `ends[0] == 0`, `ends[1]`, ..., and the last
/// of which ends where `b` ends.
pub open spec fn sections_cover(b: Seq<u8>, ends: Seq<int>) -> bool {
    &&& ends.len() >= 1
    &&& ends[0] == 0
    &&& ends.last() == b.len()
    &&& forall|i: int| 0 <= i < ends.len() - 1 ==> #[trigger] section_step(b, ends, i)
}

/// Section `i` of the run lies within `b`, from `ends[i]` to `ends[i + 1]`.
pub open spec fn section_step(b: Seq<u8>, ends: Seq<int>, i: int) -> bool {
    0 <= ends[i] < ends[i + 1] <= b.len() && section_at(b, ends[i], ends[i + 1])
}

/// The sections that `FixedSectIterator` yields from `b`, in order.
pub open spec fn walk(b: Seq<u8>) -> Seq<FixedSectEnum>
    decreases b.len(),
{
    match spec_fixed_sect(b) {
        Ok(f) => if 0 < f.spec_num_bytes() <= b.len() {
            seq![f] + walk(b.subrange(f.spec_num_bytes() as int, b.len() as int))
        } else {
            Seq::empty()
        },
        Err(_) => Seq::empty(),
    }
}

/// The sum of the lengths of `s`.
pub open spec fn total_bytes(s: Seq<FixedSectEnum>) -> nat
    decreases s.len(),
{
    if s.len() == 0 {
        0
    } else {
        s[0].spec_num_bytes() + total_bytes(s.drop_first())
    }
}

/// Each successful medium `write` leaves one fixed section.
pub proof fn lemma_medium_is_section(b: Seq<u8>, offset: int, t: SectionType, values: Seq<u64>, end: int)
    requires
        holds_medium(b, offset, t, values, end),
        t != SectionType::Null,
    ensures
        section_at(b, offset, end),
{
}

proof fn lemma_section_at_shift(b: Seq<u8>, o: int, e: int, next: int)
    requires
        0 <= o <= e < next <= b.len(),
        section_at(b, e, next),
    ensures
        section_at(b.subrange(o, b.len() as int), e - o, next - o),
{
    let c = b.subrange(o, b.len() as int);
    assert(c[e - o] == b[e]);
    if next >= e + 3 {
        assert(c[e - o + 1] == b[e + 1]);
        assert(c[e - o + 2] == b[e + 2]);
    }
}

proof fn lemma_first_section(b: Seq<u8>, e1: int)
    requires
        0 < e1 <= b.len(),
        section_at(b, 0, e1),
    ensures
        spec_fixed_sect(b) is Ok,
        spec_fixed_sect(b)->Ok_0.spec_num_bytes() == e1,
{
}

proof fn lemma_ends_mono(b: Seq<u8>, ends: Seq<int>, j: int)
    requires
        sections_cover(b, ends),
        1 <= j < ends.len(),
    ensures
        ends[1] <= ends[j],
    decreases j,
{
    if j > 1 {
        lemma_ends_mono(b, ends, j - 1);
        assert(section_step(b, ends, j - 1));
    }
}

proof fn lemma_cover_rest(b: Seq<u8>, ends: Seq<int>)
    requires
        sections_cover(b, ends),
        ends.len() > 1,
    ensures
        sections_cover(
            b.subrange(ends[1], b.len() as int),
            ends.subrange(1, ends.len() as int).map_values(|y: int| y - ends[1]),
        ),
{
    let e1 = ends[1];
    let c = b.subrange(e1, b.len() as int);
    let rest = ends.subrange(1, ends.len() as int).map_values(|y: int| y - e1);
    assert(section_step(b, ends, 0));
    assert forall|i: int| 0 <= i < rest.len() - 1 implies #[trigger] section_step(c, rest, i) by {
        assert(section_step(b, ends, i + 1));
        lemma_ends_mono(b, ends, i + 1);
        assert(rest[i] == ends[i + 1] - e1);
        assert(rest[i + 1] == ends[i + 2] - e1);
        lemma_section_at_shift(b, e1, ends[i + 1], ends[i + 2]);
    }
    assert(section_step(b, ends, 0));
}

proof fn lemma_walk_step(b: Seq<u8>, e1: int)
    requires
        0 < e1 <= b.len(),
        section_at(b, 0, e1),
    ensures
        walk(b).len() == 1 + walk(b.subrange(e1, b.len() as int)).len(),
        total_bytes(walk(b)) == e1 + total_bytes(walk(b.subrange(e1, b.len() as int))),
{
    lemma_first_section(b, e1);
    let f = spec_fixed_sect(b)->Ok_0;
    let c = b.subrange(e1, b.len() as int);
    assert(walk(b) == seq![f] + walk(c));
    assert((seq![f] + walk(c)).drop_first() =~= walk(c));
}

/// Conservation: over bytes that are a run of fixed sections, the iterator yields exactly
/// one item per section, and their lengths add up to the length of the bytes.
pub proof fn law_iterator_conservation(b: Seq<u8>, ends: Seq<int>)
    requires
        sections_cover(b, ends),
    ensures
        walk(b).len() == ends.len() - 1,
        total_bytes(walk(b)) == b.len(),
    decreases ends.len(),
{
    if ends.len() == 1 {
        assert(b.len() == 0);
    } else {
        assert(section_step(b, ends, 0));
        lemma_cover_rest(b, ends);
        law_iterator_conservation(
            b.subrange(ends[1], b.len() as int),
            ends.subrange(1, ends.len() as int).map_values(|y: int| y - ends[1]),
        );
        lemma_walk_step(b, ends[1]);
    }
}

/// Two null sections written at `k` and `k + 1` read back as two separate sections of 256
/// null elements each, one byte apiece.
pub proof fn law_null_sections_independent(b: Seq<u8>, k: int)
    requires
        0 <= k,
        k + 2 <= b.len(),
        b[k] == SectionType::Null.spec_byte(),
        b[k + 1] == SectionType::Null.spec_byte(),
    ensures
        walk(b.subrange(k, k + 2)) == seq![
            FixedSectEnum::NullFixedSect(NullFixedSect {}),
            FixedSectEnum::NullFixedSect(NullFixedSect {}),
        ],
{
    let c = b.subrange(k, k + 2);
    let d = c.subrange(1, 2);
    let e = d.subrange(1, 1);
    assert(c[0] == 0 && d[0] == 0);
    assert(e.len() == 0);
    assert(walk(e) == Seq::<FixedSectEnum>::empty());
    assert(walk(d) =~= seq![FixedSectEnum::NullFixedSect(NullFixedSect {})]);
    assert(walk(c) =~= seq![
        FixedSectEnum::NullFixedSect(NullFixedSect {}),
        FixedSectEnum::NullFixedSect(NullFixedSect {}),
    ]);
}

/// A run grows by one written section: when the bytes below `ends.last()` are a run of
/// sections and a write leaves one more section on `[ends.last(), next)` (keeping the bytes
/// before it, as every write does), the bytes below `next` are a run with one more end.
pub proof fn law_cover_extend(b: Seq<u8>, ends: Seq<int>, next: int)
    requires
        sections_cover(b.subrange(0, ends.last()), ends),
        ends.last() < next <= b.len(),
        section_at(b, ends.last(), next),
    ensures
        sections_cover(b.subrange(0, next), ends.push(next)),
{
    let e = ends.last();
    let c = b.subrange(0, e);
    let d = b.subrange(0, next);
    let ne = ends.push(next);
    assert forall|i: int| 0 <= i < ne.len() - 1 implies #[trigger] section_step(d, ne, i) by {
        if i < ends.len() - 1 {
            assert(section_step(c, ends, i));
            assert(ne[i] == ends[i] && ne[i + 1] == ends[i + 1]);
            let h = ends[i];
            assert(d[h] == c[h]);
            if ends[i + 1] >= h + 3 {
                assert(d[h + 1] == c[h + 1]);
                assert(d[h + 2] == c[h + 2]);
            }
        } else {
            assert(ne[i] == e && ne[i + 1] == next);
            assert(d[e] == b[e]);
            if next >= e + 3 {
                assert(d[e + 1] == b[e + 1]);
                assert(d[e + 2] == b[e + 2]);
            }
        }
    }
    assert(ne[0] == ends[0]);
}

/// `FixedSectIterator::next` walks `walk`: on bytes `b` it yields an item exactly when
/// `walk(b)` is not empty; that item is the first of `walk(b)`, and the bytes left after it
/// walk to the rest of `walk(b)`.
pub proof fn law_next_follows_walk(b: Seq<u8>)
    ensures
        spec_fixed_sect(b) is Err <==> walk(b).len() == 0,
        walk(b).len() > 0 ==> {
            let f = walk(b)[0];
            &&& spec_fixed_sect(b) == Ok::<FixedSectEnum, CodingError>(f)
            &&& 0 < f.spec_num_bytes() <= b.len()
            &&& walk(b.subrange(f.spec_num_bytes() as int, b.len() as int)) == walk(b).drop_first()
        },
{
    match spec_fixed_sect(b) {
        Ok(f) => {
            assert(0 < f.spec_num_bytes() <= b.len());
            let rest = walk(b.subrange(f.spec_num_bytes() as int, b.len() as int));
            assert(walk(b) == seq![f] + rest);
            assert((seq![f] + rest).drop_first() =~= rest);
        },
        Err(_) => {},
    }
}

/// A successful `NullFixedSect::write` at `offset` leaves one fixed section on
/// `[offset, offset + 1)`.
pub proof fn lemma_null_is_section(b: Seq<u8>, offset: int)
    requires
        0 <= offset < b.len(),
        b[offset] == SectionType::Null.spec_byte(),
    ensures
        section_at(b, offset, offset + 1),
{
}

} // verus!
