//! The outermost layer of a hairball file.
//!
//! A file is a fixed 56-byte header, a segment-size table, and the segments
//! themselves.  Segments are laid out contiguously starting at
//! `first_segment_offset`; their concatenation carries the root message,
//! preceded by its 64-bit byte length and padded with zeros to the 4096-byte
//! allocation granule.  The segment-size table (one little-endian 32-bit byte
//! length per segment) is placed in the gap between the header and the first
//! segment when it fits there, and after the last segment otherwise; the
//! header records where.
//!
//! Header layout, all integers little-endian:
//! magic `hairball` (8 bytes) | major, minor, patch (4 bytes each) |
//! flags (4 bytes, zero) | first segment offset (4 bytes) |
//! segment count (4 bytes) | segment table offset (8 bytes) | UUID (16 bytes).

use vstd::prelude::*;
use vstd::bytes::{spec_u32_to_le_bytes, spec_u64_to_le_bytes};
use crate::codec::{
    sp_u32, sp_u64, sp_list, enc_list,
    lemma_parse_u32_of_enc, lemma_parse_u64_of_enc, lemma_parse_list_of_enc,
    lemma_enc_list_push, parse_u32, parse_u64, put_u8, put_u32, put_u64,
};
use crate::message::MsgRec;
use crate::PAGE_SIZE;
use crate::ident::Uuid;
use crate::message::{MsgV, enc_msg, sp_msg, wf_msg, lemma_parse_msg_of_enc};

verus! {

/// The error taxonomy of the container layer.
///
/// `InvalidHeader` covers a bad magic, an unrecognized major version, and a
/// truncated header, segment table or segment.  `CmfDecode` covers a
/// malformed root message inside intact segments.  `Io` stands for a failure
/// of the surrounding input/output layer, which hands this library plain
/// bytes; the library itself never returns it.
#[derive(Clone, Copy, Debug, PartialEq, Eq, Structural)]
pub enum Error {
    InvalidHeader,
    Io,
    CmfDecode,
}

/// Size of the fixed container header in bytes.
pub const HEADER_SIZE: usize = 56;

/// The format version this library writes, and the major version it accepts.
pub const VERSION_MAJOR: u32 = 0;

/// Minor part of the format version this library writes.
pub const VERSION_MINOR: u32 = 2;

/// Patch part of the format version this library writes.
pub const VERSION_PATCH: u32 = 0;

/// Ceiling on the encoded root message, so that every offset and count in
/// the header fits its field on any machine.
pub const MAX_MESSAGE_BYTES: usize = 0x7FFF_0000;

/// The eight magic bytes `hairball`.
pub open spec fn magic() -> Seq<u8> {
    seq![104u8, 97u8, 105u8, 114u8, 98u8, 97u8, 108u8, 108u8]
}

/// The container header.
pub struct HeaderV {
    pub major: u32,
    pub minor: u32,
    pub patch: u32,
    pub flags: u32,
    pub first_segment_offset: u32,
    pub num_segments: u32,
    pub segment_table_offset: u64,
    pub uuid: Seq<u8>,
}

/// The header as held in memory.
pub(crate) struct HeaderRec {
    pub major: u32,
    pub minor: u32,
    pub patch: u32,
    pub flags: u32,
    pub first_segment_offset: u32,
    pub num_segments: u32,
    pub segment_table_offset: u64,
    pub uuid: Uuid,
}

impl View for HeaderRec {
    type V = HeaderV;

    open(crate) spec fn view(&self) -> HeaderV {
        HeaderV {
            major: self.major,
            minor: self.minor,
            patch: self.patch,
            flags: self.flags,
            first_segment_offset: self.first_segment_offset,
            num_segments: self.num_segments,
            segment_table_offset: self.segment_table_offset,
            uuid: self.uuid@,
        }
    }
}

/// Encode the header; exactly `HEADER_SIZE` bytes for a 16-byte UUID.
pub open spec fn enc_header(h: HeaderV) -> Seq<u8>
    recommends
        h.uuid.len() == 16,
{
    magic() + spec_u32_to_le_bytes(h.major) + spec_u32_to_le_bytes(h.minor) + spec_u32_to_le_bytes(
        h.patch,
    ) + spec_u32_to_le_bytes(h.flags) + spec_u32_to_le_bytes(h.first_segment_offset)
        + spec_u32_to_le_bytes(h.num_segments) + spec_u64_to_le_bytes(h.segment_table_offset)
        + h.uuid
}

/// Parse the header at the start of a file.
pub open spec fn sp_header(b: Seq<u8>) -> Option<HeaderV> {
    if b.len() >= HEADER_SIZE && b.subrange(0, 8) == magic() {
        match (sp_u32(b, 8), sp_u32(b, 12), sp_u32(b, 16), sp_u32(b, 20), sp_u32(b, 24), sp_u32(
            b,
            28,
        ), sp_u64(b, 32)) {
            (
                Some((major, _)),
                Some((minor, _)),
                Some((patch, _)),
                Some((flags, _)),
                Some((first, _)),
                Some((nseg, _)),
                Some((toff, _)),
            ) => Some(
                HeaderV {
                    major,
                    minor,
                    patch,
                    flags,
                    first_segment_offset: first,
                    num_segments: nseg,
                    segment_table_offset: toff,
                    uuid: b.subrange(40, 56),
                },
            ),
            _ => None,
        }
    } else {
        None
    }
}

/// Parsing the encoding of a header, followed by anything, yields it back.
pub proof fn lemma_parse_header_of_enc(b: Seq<u8>, h: HeaderV)
    requires
        h.uuid.len() == 16,
        enc_header(h).len() <= b.len(),
        b.subrange(0, enc_header(h).len() as int) == enc_header(h),
    ensures
        sp_header(b) == Some(h),
{
    vstd::bytes::lemma_auto_spec_u32_to_from_le_bytes();
    vstd::bytes::lemma_auto_spec_u64_to_from_le_bytes();
    let enc = enc_header(h);
    assert(enc.len() == 56);
    assert(b.subrange(0, 8) =~= enc.subrange(0, 8));
    assert(enc.subrange(0, 8) =~= magic());
    assert(b.subrange(8, 12) =~= enc.subrange(8, 12));
    assert(enc.subrange(8, 12) =~= spec_u32_to_le_bytes(h.major));
    lemma_parse_u32_of_enc(b, 8, h.major);
    assert(b.subrange(12, 16) =~= enc.subrange(12, 16));
    assert(enc.subrange(12, 16) =~= spec_u32_to_le_bytes(h.minor));
    lemma_parse_u32_of_enc(b, 12, h.minor);
    assert(b.subrange(16, 20) =~= enc.subrange(16, 20));
    assert(enc.subrange(16, 20) =~= spec_u32_to_le_bytes(h.patch));
    lemma_parse_u32_of_enc(b, 16, h.patch);
    assert(b.subrange(20, 24) =~= enc.subrange(20, 24));
    assert(enc.subrange(20, 24) =~= spec_u32_to_le_bytes(h.flags));
    lemma_parse_u32_of_enc(b, 20, h.flags);
    assert(b.subrange(24, 28) =~= enc.subrange(24, 28));
    assert(enc.subrange(24, 28) =~= spec_u32_to_le_bytes(h.first_segment_offset));
    lemma_parse_u32_of_enc(b, 24, h.first_segment_offset);
    assert(b.subrange(28, 32) =~= enc.subrange(28, 32));
    assert(enc.subrange(28, 32) =~= spec_u32_to_le_bytes(h.num_segments));
    lemma_parse_u32_of_enc(b, 28, h.num_segments);
    assert(b.subrange(32, 40) =~= enc.subrange(32, 40));
    assert(enc.subrange(32, 40) =~= spec_u64_to_le_bytes(h.segment_table_offset));
    lemma_parse_u64_of_enc(b, 32, h.segment_table_offset);
    assert(b.subrange(40, 56) =~= enc.subrange(40, 56));
    assert(enc.subrange(40, 56) =~= h.uuid);
}

// ---------------------------------------------------------------------------
// Segment reassembly.
// ---------------------------------------------------------------------------

/// The 32-bit parser as a function value, for parsing the segment table.
pub open spec fn sp_u32_fn() -> spec_fn(Seq<u8>, int) -> Option<(u32, int)> {
    |b: Seq<u8>, off: int| sp_u32(b, off)
}

/// The 32-bit encoder as a function value, for encoding the segment table.
pub open spec fn enc_u32_fn() -> spec_fn(u32) -> Seq<u8> {
    |x: u32| spec_u32_to_le_bytes(x)
}

/// The concatenation of the segments with the given sizes, laid out
/// contiguously at `off`; `None` if any segment runs past the end.
pub open spec fn sp_segments(b: Seq<u8>, off: int, sizes: Seq<u32>) -> Option<Seq<u8>>
    decreases sizes.len(),
{
    if sizes.len() == 0 {
        Some(Seq::empty())
    } else if 0 <= off && off + sizes[0] <= b.len() {
        match sp_segments(b, off + sizes[0], sizes.drop_first()) {
            None => None,
            Some(rest) => Some(b.subrange(off, off + sizes[0]) + rest),
        }
    } else {
        None
    }
}

/// Total byte size of a segment table.
pub open spec fn sum_sizes(sizes: Seq<u32>) -> int
    decreases sizes.len(),
{
    if sizes.len() == 0 {
        0
    } else {
        sizes[0] + sum_sizes(sizes.drop_first())
    }
}

/// Contiguous segments reassemble to one contiguous byte range.
pub proof fn lemma_sp_segments_contig(b: Seq<u8>, off: int, sizes: Seq<u32>)
    requires
        0 <= off,
        off + sum_sizes(sizes) <= b.len(),
    ensures
        sp_segments(b, off, sizes) == Some(b.subrange(off, off + sum_sizes(sizes))),
    decreases sizes.len(),
{
    lemma_sum_sizes_nonneg(sizes);
    if sizes.len() == 0 {
        assert(b.subrange(off, off) =~= Seq::<u8>::empty());
    } else {
        lemma_sum_sizes_nonneg(sizes.drop_first());
        lemma_sp_segments_contig(b, off + sizes[0], sizes.drop_first());
        assert(b.subrange(off, off + sizes[0]) + b.subrange(
            off + sizes[0],
            off + sizes[0] + sum_sizes(sizes.drop_first()),
        ) =~= b.subrange(off, off + sum_sizes(sizes)));
    }
}

/// A segment table's total size is never negative.
pub proof fn lemma_sum_sizes_nonneg(sizes: Seq<u32>)
    ensures
        sum_sizes(sizes) >= 0,
    decreases sizes.len(),
{
    if sizes.len() > 0 {
        lemma_sum_sizes_nonneg(sizes.drop_first());
    }
}

/// The sum of a table of `n` equal sizes.
pub proof fn lemma_sum_sizes_const(n: int, c: u32)
    requires
        0 <= n,
    ensures
        sum_sizes(Seq::new(n as nat, |i: int| c)) == n * c,
    decreases n,
{
    let s = Seq::new(n as nat, |i: int| c);
    if n == 0 {
    } else {
        assert(s.drop_first() =~= Seq::new((n - 1) as nat, |i: int| c));
        lemma_sum_sizes_const(n - 1, c);
        assert(n * c == c + (n - 1) * c) by (nonlinear_arith);
    }
}

// ---------------------------------------------------------------------------
// Whole-file layout and parse.
// ---------------------------------------------------------------------------

/// `n` zero bytes.
pub open spec fn zeros(n: int) -> Seq<u8> {
    Seq::new(n as nat, |i: int| 0u8)
}

/// The root message prefixed with its 64-bit byte length.
pub open spec fn stream_of(m: MsgV) -> Seq<u8> {
    spec_u64_to_le_bytes(enc_msg(m).len() as u64) + enc_msg(m)
}

/// How many fixed-size segments the stream needs.
pub open spec fn num_segs_of(m: MsgV) -> int {
    (stream_of(m).len() + crate::PAGE_SIZE - 1) as int / crate::PAGE_SIZE as int
}

/// The stream padded with zeros to fill its segments.
pub open spec fn padded_of(m: MsgV) -> Seq<u8> {
    stream_of(m) + zeros(num_segs_of(m) * crate::PAGE_SIZE - stream_of(m).len())
}

/// Whether a table of `n` segment sizes fits between the header and the
/// first allowed segment offset.
pub open spec fn table_fits(n: int) -> bool {
    n * 4 <= crate::PAGE_SIZE - HEADER_SIZE
}

/// The segment sizes this library writes: every segment one granule.
pub open spec fn seg_sizes_of(m: MsgV) -> Seq<u32> {
    Seq::new(num_segs_of(m) as nat, |i: int| crate::PAGE_SIZE)
}

/// The header this library writes for a message and file UUID.
pub open spec fn header_of(uuid: Seq<u8>, m: MsgV) -> HeaderV {
    HeaderV {
        major: VERSION_MAJOR,
        minor: VERSION_MINOR,
        patch: VERSION_PATCH,
        flags: 0,
        first_segment_offset: crate::PAGE_SIZE,
        num_segments: num_segs_of(m) as u32,
        segment_table_offset: if table_fits(num_segs_of(m)) {
            HEADER_SIZE as u64
        } else {
            (crate::PAGE_SIZE + padded_of(m).len()) as u64
        },
        uuid: uuid,
    }
}

/// The bytes of a whole hairball file for a message and file UUID.
pub open spec fn file_bytes(uuid: Seq<u8>, m: MsgV) -> Seq<u8> {
    let n = num_segs_of(m);
    let table = enc_list(seg_sizes_of(m), enc_u32_fn());
    let head = enc_header(header_of(uuid, m));
    if table_fits(n) {
        head + table + zeros(crate::PAGE_SIZE - HEADER_SIZE - 4 * n) + padded_of(m)
    } else {
        head + zeros(crate::PAGE_SIZE - HEADER_SIZE) + padded_of(m) + table
    }
}

/// Everything a reader keeps of a file: its UUID and its root message.
pub struct ReadV {
    pub uuid: Seq<u8>,
    pub msg: MsgV,
}

/// Parse a whole file: header, segment table, segments, root message.
pub open spec fn sp_read_file(b: Seq<u8>) -> Result<ReadV, Error> {
    match sp_header(b) {
        None => Err(Error::InvalidHeader),
        Some(h) => if h.major != VERSION_MAJOR {
            Err(Error::InvalidHeader)
        } else {
            match sp_list(b, h.segment_table_offset as int, h.num_segments as int, sp_u32_fn()) {
                None => Err(Error::InvalidHeader),
                Some((sizes, _)) => match sp_segments(b, h.first_segment_offset as int, sizes) {
                    None => Err(Error::InvalidHeader),
                    Some(stream) => match sp_u64(stream, 0) {
                        None => Err(Error::CmfDecode),
                        Some((mlen, _)) => if 8 + mlen <= stream.len() {
                            match sp_msg(stream, 8) {
                                None => Err(Error::CmfDecode),
                                Some((m, end)) => if end == 8 + mlen {
                                    Ok(ReadV { uuid: h.uuid, msg: m })
                                } else {
                                    Err(Error::CmfDecode)
                                },
                            }
                        } else {
                            Err(Error::CmfDecode)
                        },
                    },
                },
            }
        },
    }
}

/// Reading a file this library wrote yields exactly the UUID and message it
/// was written with.
pub proof fn lemma_read_of_file_bytes(uuid: Seq<u8>, m: MsgV)
    requires
        uuid.len() == 16,
        wf_msg(m),
        enc_msg(m).len() <= MAX_MESSAGE_BYTES,
    ensures
        sp_read_file(file_bytes(uuid, m)) == Ok::<ReadV, Error>(ReadV { uuid, msg: m }),
{
    vstd::bytes::lemma_auto_spec_u32_to_from_le_bytes();
    vstd::bytes::lemma_auto_spec_u64_to_from_le_bytes();
    let page = crate::PAGE_SIZE as int;
    let b = file_bytes(uuid, m);
    let n = num_segs_of(m);
    let h = header_of(uuid, m);
    let head = enc_header(h);
    let sizes = seg_sizes_of(m);
    let table = enc_list(sizes, enc_u32_fn());
    let padded = padded_of(m);
    let stream = stream_of(m);
    let mlen = enc_msg(m).len() as int;

    assert(head.len() == 56);
    assert(stream.len() == 8 + mlen);
    assert(n == (stream.len() + page - 1) as int / page);
    assert(0 < n && n * page >= stream.len() && n * page < stream.len() + page) by (nonlinear_arith)
        requires
            n == (stream.len() + page - 1) as int / page,
            page == 4096,
            8 <= stream.len(),
    ;
    assert(padded.len() == n * page);
    lemma_enc_list_const_u32_len(n, crate::PAGE_SIZE);
    assert(table.len() == 4 * n);

    let table_off = h.segment_table_offset as int;
    let first = page;
    if table_fits(n) {
        assert(b == head + table + zeros(page - 56 - 4 * n) + padded);
        assert(b.len() == page + n * page);
        assert(table_off == 56);
        // header
        assert(b.subrange(0, 56) =~= head);
        lemma_parse_header_of_enc(b, h);
        // table
        assert(b.subrange(56, 56 + 4 * n) =~= table);
        lemma_parse_table(b, 56, n);
        // segments
        lemma_sum_sizes_const(n, crate::PAGE_SIZE);
        lemma_sp_segments_contig(b, first, sizes);
        assert(b.subrange(first, first + n * page) =~= padded);
    } else {
        assert(b == head + zeros(page - 56) + padded + table);
        assert(b.len() == page + n * page + 4 * n);
        assert(table_off == page + n * page);
        assert(b.subrange(0, 56) =~= head);
        lemma_parse_header_of_enc(b, h);
        assert(b.subrange(table_off, table_off + 4 * n) =~= table);
        lemma_parse_table(b, table_off, n);
        lemma_sum_sizes_const(n, crate::PAGE_SIZE);
        lemma_sp_segments_contig(b, first, sizes);
        assert(b.subrange(first, first + n * page) =~= padded);
    }
    // the reassembled stream is the padded stream; parse its length and message
    assert(sp_segments(b, first, sizes) == Some(padded));
    assert(padded.subrange(0, 8) =~= spec_u64_to_le_bytes(mlen as u64));
    lemma_parse_u64_of_enc(padded, 0, mlen as u64);
    assert(padded.subrange(8, 8 + mlen) =~= enc_msg(m));
    lemma_parse_msg_of_enc(padded, 8, m);
}

/// The segment table of `n` equal sizes is `4 * n` bytes long.
pub proof fn lemma_enc_list_const_u32_len(n: int, c: u32)
    requires
        0 <= n,
    ensures
        enc_list(Seq::new(n as nat, |i: int| c), enc_u32_fn()).len() == 4 * n,
    decreases n,
{
    vstd::bytes::lemma_auto_spec_u32_to_from_le_bytes();
    let s = Seq::new(n as nat, |i: int| c);
    if n == 0 {
    } else {
        assert(s.drop_first() =~= Seq::new((n - 1) as nat, |i: int| c));
        lemma_enc_list_const_u32_len(n - 1, c);
        assert(enc_u32_fn()(s[0]) == spec_u32_to_le_bytes(c));
    }
}

/// Parsing the segment table this library writes yields its sizes.
proof fn lemma_parse_table(b: Seq<u8>, off: int, n: int)
    requires
        0 <= off,
        0 <= n <= u32::MAX,
        off + 4 * n <= b.len(),
        b.subrange(off, off + 4 * n) == enc_list(
            Seq::new(n as nat, |i: int| crate::PAGE_SIZE),
            enc_u32_fn(),
        ),
    ensures
        sp_list(b, off, n, sp_u32_fn()) == Some(
            (Seq::new(n as nat, |i: int| crate::PAGE_SIZE), off + 4 * n),
        ),
{
    vstd::bytes::lemma_auto_spec_u32_to_from_le_bytes();
    let sizes = Seq::new(n as nat, |i: int| crate::PAGE_SIZE);
    lemma_enc_list_const_u32_len(n, crate::PAGE_SIZE);
    assert(forall|o: int, i: int|
        #![trigger sp_u32_fn()(b, o), enc_u32_fn()(sizes[i])]
        0 <= i < sizes.len() && 0 <= o && o + enc_u32_fn()(sizes[i]).len() <= b.len()
            && b.subrange(o, o + (enc_u32_fn()(sizes[i]).len() as int)) == enc_u32_fn()(sizes[i])
            ==> sp_u32_fn()(b, o) == Some((sizes[i], o + enc_u32_fn()(sizes[i]).len()))) by {
        assert forall|o: int, i: int|
            #![trigger sp_u32_fn()(b, o), enc_u32_fn()(sizes[i])]
            0 <= i < sizes.len() && 0 <= o && o + enc_u32_fn()(sizes[i]).len() <= b.len()
                && b.subrange(o, o + (enc_u32_fn()(sizes[i]).len() as int)) == enc_u32_fn()(
                sizes[i],
            ) implies sp_u32_fn()(b, o) == Some((sizes[i], o + enc_u32_fn()(sizes[i]).len())) by {
            lemma_parse_u32_of_enc(b, o, sizes[i]);
        }
    }
    lemma_parse_list_of_enc(b, off, sizes, enc_u32_fn(), sp_u32_fn());
}

// ---------------------------------------------------------------------------
// Executable parsing and assembly.
// ---------------------------------------------------------------------------

/// Parse the header at the start of `data`.
pub(crate) fn parse_header(data: &[u8]) -> (r: Option<HeaderRec>)
    ensures
        match r {
            Some(h) => sp_header(data@) == Some(h@),
            None => sp_header(data@) is None,
        },
{
    if data.len() < HEADER_SIZE {
        return None;
    }
    proof {
        let s = data@.subrange(0, 8);
        assert(s[0] == data@[0] && s[1] == data@[1] && s[2] == data@[2] && s[3] == data@[3] && s[4]
            == data@[4] && s[5] == data@[5] && s[6] == data@[6] && s[7] == data@[7]);
        assert(magic()[0] == 104u8 && magic()[1] == 97u8 && magic()[2] == 105u8 && magic()[3]
            == 114u8 && magic()[4] == 98u8 && magic()[5] == 97u8 && magic()[6] == 108u8 && magic()[7]
            == 108u8);
    }
    if !(data[0] == 104 && data[1] == 97 && data[2] == 105 && data[3] == 114 && data[4] == 98
        && data[5] == 97 && data[6] == 108 && data[7] == 108) {
        proof {
            assert(data@.subrange(0, 8) != magic());
        }
        return None;
    }
    proof {
        assert(data@.subrange(0, 8) =~= magic());
    }
    let (major, _) = parse_u32(data, 8).unwrap();
    let (minor, _) = parse_u32(data, 12).unwrap();
    let (patch, _) = parse_u32(data, 16).unwrap();
    let (flags, _) = parse_u32(data, 20).unwrap();
    let (first, _) = parse_u32(data, 24).unwrap();
    let (nseg, _) = parse_u32(data, 28).unwrap();
    let (toff, _) = parse_u64(data, 32).unwrap();
    let uuid = Uuid::from_bytes(vstd::slice::slice_subrange(data, 40, 56));
    Some(
        HeaderRec {
            major,
            minor,
            patch,
            flags,
            first_segment_offset: first,
            num_segments: nseg,
            segment_table_offset: toff,
            uuid,
        },
    )
}

/// Parse `n` consecutive 32-bit integers at `off` (the segment table).
pub(crate) fn parse_u32_list(data: &[u8], off: usize, n: u32) -> (r: Option<(Vec<u32>, usize)>)
    requires
        off <= data@.len(),
    ensures
        match r {
            Some(p) => sp_list(data@, off as int, n as int, sp_u32_fn()) == Some(
                (p.0@, p.1 as int),
            ) && p.1 <= data@.len(),
            None => sp_list(data@, off as int, n as int, sp_u32_fn()) is None,
        },
{
    let ghost f = sp_u32_fn();
    let mut acc: Vec<u32> = Vec::new();
    let mut cur = off;
    let mut i: u32 = 0;
    while i < n
        invariant
            i <= n,
            off <= data@.len(),
            cur <= data@.len(),
            acc@.len() == i,
            f == sp_u32_fn(),
            sp_list(data@, off as int, n as int, f) == (match sp_list(
                data@,
                cur as int,
                n - i,
                f,
            ) {
                None => None::<(Seq<u32>, int)>,
                Some(p) => Some((acc@ + p.0, p.1)),
            }),
        decreases n - i,
    {
        let ghost acc0 = acc@;
        let ghost cur0 = cur;
        match crate::codec::parse_u32(data, cur) {
            None => {
                proof {
                    assert(sp_list(data@, cur as int, n - i, f) is None);
                }
                return None;
            },
            Some((x, o2)) => {
                proof {
                    let tail = sp_list(data@, o2 as int, n - i - 1, f);
                    assert(f(data@, cur0 as int) == sp_u32(data@, cur0 as int));
                    assert(sp_list(data@, cur0 as int, n - i, f) == (match tail {
                        None => None::<(Seq<u32>, int)>,
                        Some(p) => Some((seq![x] + p.0, p.1)),
                    }));
                    if tail is Some {
                        let (rest, end) = tail->Some_0;
                        assert(acc0.push(x) + rest =~= acc0 + (seq![x] + rest));
                    }
                }
                acc.push(x);
                cur = o2;
                i = i + 1;
            },
        }
    }
    proof {
        assert(sp_list(data@, cur as int, 0, f) == Some((Seq::<u32>::empty(), cur as int)));
        assert(acc@ + Seq::<u32>::empty() =~= acc@);
    }
    Some((acc, cur))
}

/// Reassemble the segments with the given sizes, laid out contiguously at
/// `off`, into one byte vector.
pub(crate) fn read_segments(data: &[u8], off: usize, sizes: &Vec<u32>) -> (r: Option<Vec<u8>>)
    ensures
        match r {
            Some(v) => sp_segments(data@, off as int, sizes@) == Some(v@),
            None => sp_segments(data@, off as int, sizes@) is None,
        },
{
    let mut stream: Vec<u8> = Vec::new();
    let mut cur = off;
    let n = sizes.len();
    proof {
        assert(sizes@.subrange(0, n as int) =~= sizes@);
    }
    for i in 0..n
        invariant
            n == sizes@.len(),
            sp_segments(data@, off as int, sizes@) == (match sp_segments(
                data@,
                cur as int,
                sizes@.subrange(i as int, n as int),
            ) {
                None => None::<Seq<u8>>,
                Some(rest) => Some(stream@ + rest),
            }),
    {
        let ghost stream0 = stream@;
        let ghost cur0 = cur;
        let size = sizes[i] as usize;
        if cur > data.len() || size > data.len() - cur {
            proof {
                assert(sizes@.subrange(i as int, n as int)[0] == sizes@[i as int]);
                assert(sp_segments(data@, cur as int, sizes@.subrange(i as int, n as int))
                    is None);
            }
            return None;
        }
        stream.extend_from_slice(vstd::slice::slice_subrange(data, cur, cur + size));
        cur = cur + size;
        proof {
            let rest_sizes = sizes@.subrange(i as int, n as int);
            assert(rest_sizes[0] == sizes@[i as int]);
            assert(rest_sizes.drop_first() =~= sizes@.subrange(i + 1, n as int));
            let tail = sp_segments(data@, cur as int, sizes@.subrange(i + 1, n as int));
            assert(sp_segments(data@, cur0 as int, rest_sizes) == (match tail {
                None => None::<Seq<u8>>,
                Some(rest) => Some(
                    data@.subrange(cur0 as int, cur0 + sizes@[i as int]) + rest,
                ),
            }));
            if tail is Some {
                let rest = tail->Some_0;
                assert(stream0 + data@.subrange(cur0 as int, cur0 + sizes@[i as int]) + rest
                    =~= stream0 + (data@.subrange(cur0 as int, cur0 + sizes@[i as int]) + rest));
            }
        }
    }
    proof {
        assert(sizes@.subrange(n as int, n as int) =~= Seq::<u32>::empty());
        assert(sp_segments(data@, cur as int, Seq::<u32>::empty()) == Some(Seq::<u8>::empty()));
        assert(stream@ + Seq::<u8>::empty() =~= stream@);
    }
    Some(stream)
}

/// Parse a whole file into its UUID and root message.
pub(crate) fn read_file(data: &[u8]) -> (r: Result<(Uuid, MsgRec), Error>)
    ensures
        match r {
            Ok(p) => sp_read_file(data@) == Ok::<ReadV, Error>(ReadV { uuid: p.0@, msg: p.1@ }),
            Err(e) => sp_read_file(data@) == Err::<ReadV, Error>(e),
        },
{
    let h = match parse_header(data) {
        None => {
            return Err(Error::InvalidHeader);
        },
        Some(h) => h,
    };
    if h.major != VERSION_MAJOR {
        return Err(Error::InvalidHeader);
    }
    let sizes: Vec<u32>;
    if h.segment_table_offset > data.len() as u64 {
        if h.num_segments == 0 {
            sizes = Vec::new();
            proof {
                assert(sp_list(
                    data@,
                    h.segment_table_offset as int,
                    0,
                    sp_u32_fn(),
                ) == Some((Seq::<u32>::empty(), h.segment_table_offset as int)));
            }
        } else {
            proof {
                assert(sp_u32(data@, h.segment_table_offset as int) is None);
                assert(sp_list(
                    data@,
                    h.segment_table_offset as int,
                    h.num_segments as int,
                    sp_u32_fn(),
                ) is None);
            }
            return Err(Error::InvalidHeader);
        }
    } else {
        let toff = h.segment_table_offset as usize;
        sizes = match parse_u32_list(data, toff, h.num_segments) {
            None => {
                return Err(Error::InvalidHeader);
            },
            Some((v, _)) => v,
        };
    }
    let stream = match read_segments(data, h.first_segment_offset as usize, &sizes) {
        None => {
            return Err(Error::InvalidHeader);
        },
        Some(v) => v,
    };
    let (mlen, _) = match crate::codec::parse_u64(stream.as_slice(), 0) {
        None => {
            return Err(Error::CmfDecode);
        },
        Some(p) => p,
    };
    if mlen > (stream.len() - 8) as u64 {
        return Err(Error::CmfDecode);
    }
    let (msg, end) = match crate::message::parse_msg(stream.as_slice(), 8) {
        None => {
            return Err(Error::CmfDecode);
        },
        Some(p) => p,
    };
    if end as u64 != 8 + mlen {
        return Err(Error::CmfDecode);
    }
    Ok((h.uuid, msg))
}

/// Cheap header-only probe: the file UUID of a hairball, read from the
/// container header alone.
pub fn file_uuid(data: &[u8]) -> (r: Result<Uuid, Error>)
    ensures
        match r {
            Ok(u) => sp_header(data@) matches Some(h) && u@ == h.uuid,
            Err(e) => sp_header(data@) is None && e == Error::InvalidHeader,
        },
{
    match parse_header(data) {
        None => Err(Error::InvalidHeader),
        Some(h) => Ok(h.uuid),
    }
}

/// Append the header's encoding.
pub(crate) fn put_header(out: &mut Vec<u8>, h: &HeaderRec)
    ensures
        final(out)@ == old(out)@ + enc_header(h@),
{
    put_u8(out, 104);
    put_u8(out, 97);
    put_u8(out, 105);
    put_u8(out, 114);
    put_u8(out, 98);
    put_u8(out, 97);
    put_u8(out, 108);
    put_u8(out, 108);
    put_u32(out, h.major);
    put_u32(out, h.minor);
    put_u32(out, h.patch);
    put_u32(out, h.flags);
    put_u32(out, h.first_segment_offset);
    put_u32(out, h.num_segments);
    put_u64(out, h.segment_table_offset);
    let mut ub = h.uuid.to_bytes();
    out.append(&mut ub);
    proof {
        assert(final(out)@ =~= old(out)@ + enc_header(h@));
    }
}

/// Append a segment table of `n` granule-sized entries.
pub(crate) fn put_table(out: &mut Vec<u8>, n: u32)
    ensures
        final(out)@ == old(out)@ + enc_list(
            Seq::new(n as nat, |i: int| crate::PAGE_SIZE),
            enc_u32_fn(),
        ),
{
    let ghost out0 = out@;
    proof {
        assert(Seq::new(0nat, |i: int| crate::PAGE_SIZE) =~= Seq::<u32>::empty());
    }
    for i in 0..n
        invariant
            out@ == out0 + enc_list(Seq::new(i as nat, |k: int| crate::PAGE_SIZE), enc_u32_fn()),
    {
        put_u32(out, crate::PAGE_SIZE);
        proof {
            lemma_enc_list_push(
                Seq::new(i as nat, |k: int| crate::PAGE_SIZE),
                crate::PAGE_SIZE,
                enc_u32_fn(),
            );
            assert(Seq::new((i + 1) as nat, |k: int| crate::PAGE_SIZE) =~= Seq::new(
                i as nat,
                |k: int| crate::PAGE_SIZE,
            ).push(crate::PAGE_SIZE));
            assert(out@ =~= out0 + enc_list(
                Seq::new((i + 1) as nat, |k: int| crate::PAGE_SIZE),
                enc_u32_fn(),
            ));
        }
    }
}

/// Append `n` zero bytes.
pub(crate) fn push_zeros(out: &mut Vec<u8>, n: usize)
    ensures
        final(out)@ == old(out)@ + zeros(n as int),
{
    let mut z = vec![0u8; n];
    out.append(&mut z);
    proof {
        assert(final(out)@ =~= old(out)@ + zeros(n as int));
    }
}

/// Assemble the bytes of a whole hairball file.
pub(crate) fn build_file(uuid: &Uuid, m: &MsgRec) -> (r: Vec<u8>)
    requires
        wf_msg(m@),
        enc_msg(m@).len() <= MAX_MESSAGE_BYTES,
    ensures
        r@ == file_bytes(uuid@, m@),
{
    let mut msg: Vec<u8> = Vec::new();
    crate::message::put_msg(&mut msg, m);
    let mlen = msg.len();
    let page = PAGE_SIZE as usize;
    let stream_len = mlen + 8;
    let nseg = (stream_len + (page - 1)) / page;
    proof {
        vstd::bytes::lemma_auto_spec_u64_to_from_le_bytes();
        assert(stream_of(m@).len() == stream_len);
        assert(nseg == num_segs_of(m@));
        assert(0 < nseg && nseg * 4096 >= stream_len && nseg * 4096 < stream_len + 4096 && nseg
            <= 0x80001) by (nonlinear_arith)
            requires
                nseg == (stream_len + 4095) / 4096,
                8 <= stream_len <= 0x7FFF_0008,
        ;
    }
    let padded_len = nseg * page;
    let fits = nseg * 4 <= page - HEADER_SIZE;
    let table_off: u64 = if fits {
        HEADER_SIZE as u64
    } else {
        (page + padded_len) as u64
    };
    let h = HeaderRec {
        major: VERSION_MAJOR,
        minor: VERSION_MINOR,
        patch: VERSION_PATCH,
        flags: 0,
        first_segment_offset: PAGE_SIZE,
        num_segments: nseg as u32,
        segment_table_offset: table_off,
        uuid: *uuid,
    };
    proof {
        crate::ident::lemma_uuid_view_len(*uuid);
        assert(padded_of(m@).len() == nseg * 4096);
        assert(h@ == header_of(uuid@, m@));
    }
    let mut out: Vec<u8> = Vec::new();
    put_header(&mut out, &h);
    if fits {
        put_table(&mut out, nseg as u32);
        push_zeros(&mut out, page - HEADER_SIZE - nseg * 4);
    } else {
        push_zeros(&mut out, page - HEADER_SIZE);
    }
    put_u64(&mut out, mlen as u64);
    out.append(&mut msg);
    push_zeros(&mut out, padded_len - stream_len);
    if !fits {
        put_table(&mut out, nseg as u32);
    }
    proof {
        lemma_enc_list_const_u32_len(nseg as int, crate::PAGE_SIZE);
        assert(padded_of(m@) =~= spec_u64_to_le_bytes(mlen as u64) + enc_msg(m@) + zeros(
            padded_len - stream_len,
        ));
        assert(out@ =~= file_bytes(uuid@, m@));
    }
    out
}

} // verus!
