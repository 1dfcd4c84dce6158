//! The 64-byte file header.
//!
//! ```text
//!   magic:                    [u8; 4]   "wPRF"
//!   version:                  u8        1
//!   endianness:               u8        1 = little-endian
//!   host_arch:                u8        0 = x86_64, 1 = aarch64
//!   reserved:                 u8        0
//!   data_section_end_offset:  u64       how far valid records extend
//!   section_table_offset:     u64       where the footer is, 0 if absent
//!   feature_bitmap:           [u8; 32]
//!   padding:                  [u8; 8]   0
//! ```

use vstd::prelude::*;

use super::stream::{cut_short, failure_after, overwrite, zeros, ByteStream, StreamError};
use super::wire::{
    from_le, get_le, le_bytes, lemma_capacities, lemma_from_le_round_trip, lemma_le_len,
    lemma_le_round_trip, push_bytes, push_le,
};
use crate::text::{decimal, push_u64};

verus! {

/// The first bytes of a file: ASCII "wPRF".
pub const MAGIC: [u8; 4] = [0x77, 0x50, 0x52, 0x46];

/// The format version.
pub const VERSION: u8 = 1;

/// Mark of little-endian files.
pub const ENDIAN_LE: u8 = 1;

/// Mark of files recorded on x86-64.
pub const ARCH_X86_64: u8 = 0;

/// Mark of files recorded on 64-bit ARM.
pub const ARCH_AARCH64: u8 = 1;

/// Mark of files recorded elsewhere.
pub const ARCH_UNKNOWN: u8 = 255;

/// Size of the header in bytes.
pub const HEADER_SIZE: usize = 64;

/// The file header.
#[derive(Debug, Clone, Copy, PartialEq, Eq)]
pub struct WprfHeader {
    pub version: u8,
    pub endianness: u8,
    pub host_arch: u8,
    pub data_section_end_offset: u64,
    pub section_table_offset: u64,
    pub feature_bitmap: [u8; 32],
}

/// The fields of a header.
#[verifier::ext_equal]
pub struct HeaderView {
    pub version: u8,
    pub endianness: u8,
    pub host_arch: u8,
    pub data_section_end_offset: u64,
    pub section_table_offset: u64,
    pub feature_bitmap: Seq<u8>,
}

impl View for WprfHeader {
    type V = HeaderView;

    open spec fn view(&self) -> HeaderView {
        HeaderView {
            version: self.version,
            endianness: self.endianness,
            host_arch: self.host_arch,
            data_section_end_offset: self.data_section_end_offset,
            section_table_offset: self.section_table_offset,
            feature_bitmap: self.feature_bitmap@,
        }
    }
}

/// The header of a file without records.
pub open spec fn fresh_header(host_arch: u8) -> HeaderView {
    HeaderView {
        version: VERSION,
        endianness: ENDIAN_LE,
        host_arch,
        data_section_end_offset: HEADER_SIZE as u64,
        section_table_offset: 0,
        feature_bitmap: zeros(32),
    }
}

/// The bytes that every file starts with.
pub open spec fn magic_bytes() -> Seq<u8> {
    seq![0x77u8, 0x50, 0x52, 0x46]
}

/// The wire form of a header.
pub open spec fn header_bytes(h: HeaderView) -> Seq<u8> {
    magic_bytes() + seq![h.version, h.endianness, h.host_arch, 0u8] + le_bytes(
        h.data_section_end_offset as nat,
        8,
    ) + le_bytes(h.section_table_offset as nat, 8) + h.feature_bitmap + zeros(8)
}

/// The header that 64 bytes stand for.
pub open spec fn header_from(b: Seq<u8>) -> HeaderView {
    HeaderView {
        version: b[4],
        endianness: b[5],
        host_arch: b[6],
        data_section_end_offset: from_le(b.subrange(8, 16)) as u64,
        section_table_offset: from_le(b.subrange(16, 24)) as u64,
        feature_bitmap: b.subrange(24, 56),
    }
}

/// A header survives the way to the wire and back.
pub proof fn law_header_round_trip(h: HeaderView)
    requires
        h.feature_bitmap.len() == 32,
    ensures
        header_bytes(h).len() == HEADER_SIZE,
        header_from(header_bytes(h)) == h,
        header_bytes(h).subrange(0, 4) == magic_bytes(),
{
    let b = header_bytes(h);
    lemma_capacities();
    lemma_le_len(h.data_section_end_offset as nat, 8);
    lemma_le_len(h.section_table_offset as nat, 8);
    lemma_le_round_trip(h.data_section_end_offset as nat, 8);
    lemma_le_round_trip(h.section_table_offset as nat, 8);
    assert(b.subrange(0, 4) =~= magic_bytes());
    assert(b.subrange(8, 16) =~= le_bytes(h.data_section_end_offset as nat, 8));
    assert(b.subrange(16, 24) =~= le_bytes(h.section_table_offset as nat, 8));
    assert(b.subrange(24, 56) =~= h.feature_bitmap);
}

/// Why a header was refused.
#[derive(Debug, Clone)]
pub enum HeaderError {
    BadMagic,
    UnsupportedVersion(u8),
    Io(StreamError),
}

impl HeaderError {
    /// The text of the error.
    pub open spec fn text(&self) -> Seq<char> {
        match self {
            HeaderError::BadMagic => "invalid wPRF magic bytes"@,
            HeaderError::UnsupportedVersion(v) => "unsupported wPRF version: "@ + decimal(
                *v as nat,
            ),
            HeaderError::Io(e) => "I/O error reading header: "@ + e.text(),
        }
    }

    /// The error in words.
    pub fn message(&self) -> (s: String)
        ensures
            s@ == self.text(),
    {
        match self {
            HeaderError::BadMagic => "invalid wPRF magic bytes".to_owned(),
            HeaderError::UnsupportedVersion(v) => {
                let mut s = "unsupported wPRF version: ".to_owned();
                push_u64(&mut s, *v as u64);
                s
            },
            HeaderError::Io(e) => {
                let mut s = "I/O error reading header: ".to_owned();
                s.append(e.message().as_str());
                s
            },
        }
    }

    /// The stream error behind this one, if there is one.
    pub fn source(&self) -> (r: Option<&StreamError>)
        ensures
            r is Some <==> self is Io,
            r matches Some(e) ==> *self == HeaderError::Io(*e),
    {
        match self {
            HeaderError::Io(e) => Some(e),
            _ => None,
        }
    }
}

/// The mark of an architecture, by its name.
pub open spec fn arch_mark(name: Seq<char>) -> u8 {
    if name == "x86_64"@ {
        ARCH_X86_64
    } else if name == "aarch64"@ {
        ARCH_AARCH64
    } else {
        ARCH_UNKNOWN
    }
}

/// The mark of an architecture, by its name.
pub fn detect_arch(name: &str) -> (mark: u8)
    ensures
        mark == arch_mark(name@),
{
    let name = name.to_owned();
    if name == "x86_64".to_owned() {
        ARCH_X86_64
    } else if name == "aarch64".to_owned() {
        ARCH_AARCH64
    } else {
        ARCH_UNKNOWN
    }
}

impl WprfHeader {
    /// The header of a file without records, for a host with the given mark.
    pub fn new(host_arch: u8) -> (h: Self)
        ensures
            h@ == fresh_header(host_arch),
    {
        let h = WprfHeader {
            version: VERSION,
            endianness: ENDIAN_LE,
            host_arch,
            data_section_end_offset: HEADER_SIZE as u64,
            section_table_offset: 0,
            feature_bitmap: [0u8; 32],
        };
        assert(h@ =~= fresh_header(host_arch));
        h
    }

    /// The wire form.
    pub fn to_bytes(&self) -> (r: [u8; HEADER_SIZE])
        ensures
            r@ == header_bytes(self@),
    {
        let mut buf: Vec<u8> = Vec::new();
        buf.push(MAGIC[0]);
        buf.push(MAGIC[1]);
        buf.push(MAGIC[2]);
        buf.push(MAGIC[3]);
        buf.push(self.version);
        buf.push(self.endianness);
        buf.push(self.host_arch);
        buf.push(0);
        push_le(&mut buf, self.data_section_end_offset, 8);
        push_le(&mut buf, self.section_table_offset, 8);
        push_bytes(&mut buf, self.feature_bitmap.as_slice());
        push_le(&mut buf, 0, 8);
        proof {
            law_header_round_trip(self@);
            lemma_zero_bytes(8);
            assert(buf@ =~= header_bytes(self@));
        }
        let mut r: [u8; HEADER_SIZE] = [0u8; HEADER_SIZE];
        for i in 0..HEADER_SIZE
            invariant
                buf@.len() == HEADER_SIZE,
                forall|k: int| 0 <= k < i ==> #[trigger] r@[k] == buf@[k],
        {
            r[i] = buf[i];
        }
        assert(r@ =~= buf@);
        r
    }

    /// Writes the header at the position of a stream.
    pub fn write_to<W: ByteStream>(&self, w: &mut W) -> (r: Result<(), StreamError>)
        ensures
            r is Ok ==> {
                &&& final(w).bytes() == overwrite(old(w).bytes(), old(w).at(), header_bytes(self@))
                &&& final(w).at() == old(w).at() + HEADER_SIZE
            },
            r is Err ==> cut_short(
                old(w).bytes(),
                old(w).at(),
                header_bytes(self@),
                final(w).bytes(),
            ),
            final(w).failure() == failure_after(old(w).failure(), r),
            old(w).healthy() ==> final(w).healthy(),
            old(w).healthy() && old(w).at() + HEADER_SIZE <= isize::MAX ==> r is Ok,
    {
        proof {
            law_header_round_trip(self@);
        }
        let b = self.to_bytes();
        w.write_all(b.as_slice())
    }

    /// The header that a wire form stands for.
    pub fn from_bytes(buf: &[u8; HEADER_SIZE]) -> (r: Result<Self, HeaderError>)
        ensures
            header_outcome(buf@, r),
    {
        WprfHeader::parse(buf.as_slice())
    }

    fn parse(b: &[u8]) -> (r: Result<Self, HeaderError>)
        requires
            b@.len() == HEADER_SIZE,
        ensures
            header_outcome(b@, r),
    {
        let magic_ok = b[0] == MAGIC[0] && b[1] == MAGIC[1] && b[2] == MAGIC[2] && b[3] == MAGIC[3];
        proof {
            assert(magic_ok <==> b@.subrange(0, 4) =~= magic_bytes()) by {
                if b@.subrange(0, 4) =~= magic_bytes() {
                    assert(b@.subrange(0, 4)[0] == b@[0]);
                    assert(b@.subrange(0, 4)[1] == b@[1]);
                    assert(b@.subrange(0, 4)[2] == b@[2]);
                    assert(b@.subrange(0, 4)[3] == b@[3]);
                }
            }
        }
        if !magic_ok {
            return Err(HeaderError::BadMagic);
        }
        let version: u8 = b[4];
        if version != VERSION {
            return Err(HeaderError::UnsupportedVersion(version));
        }
        let mut feature_bitmap: [u8; 32] = [0u8; 32];
        for i in 0..32usize
            invariant
                b@.len() == HEADER_SIZE,
                forall|k: int| 0 <= k < i ==> #[trigger] feature_bitmap@[k] == b@[24 + k],
        {
            feature_bitmap[i] = b[24 + i];
        }
        let h = WprfHeader {
            version,
            endianness: b[5],
            host_arch: b[6],
            data_section_end_offset: get_le(b, 8, 8),
            section_table_offset: get_le(b, 16, 8),
            feature_bitmap,
        };
        proof {
            assert(h@.feature_bitmap =~= b@.subrange(24, 56));
        }
        Ok(h)
    }

    /// Reads a header at the position of a stream.
    pub fn read_from<R: ByteStream>(r: &mut R) -> (h: Result<Self, HeaderError>)
        ensures
            final(r).bytes() == old(r).bytes(),
            old(r).healthy() ==> final(r).healthy(),
            !(h matches Err(HeaderError::Io(_))) ==> {
                &&& old(r).at() + HEADER_SIZE <= old(r).bytes().len()
                &&& header_outcome(
                    old(r).bytes().subrange(old(r).at() as int, old(r).at() + HEADER_SIZE),
                    h,
                )
                &&& final(r).at() == old(r).at() + HEADER_SIZE
                &&& final(r).failure() == old(r).failure()
            },
            h matches Err(HeaderError::Io(e)) ==> {
                &&& final(r).failure() == Some(e@)
                &&& old(r).healthy() ==> e is UnexpectedEof && old(r).at() + HEADER_SIZE
                    > old(r).bytes().len()
            },
    {
        match r.read_exact(HEADER_SIZE) {
            Ok(buf) => WprfHeader::parse(buf.as_slice()),
            Err(e) => Err(HeaderError::Io(e)),
        }
    }
}

/// What parsing 64 bytes comes to.
pub open spec fn header_outcome(b: Seq<u8>, r: Result<WprfHeader, HeaderError>) -> bool {
    if b.subrange(0, 4) != magic_bytes() {
        r matches Err(e) && e is BadMagic
    } else if b[4] != VERSION {
        r matches Err(e) && e == HeaderError::UnsupportedVersion(b[4])
    } else {
        r matches Ok(h) && h@ == header_from(b)
    }
}

proof fn lemma_zero_bytes(n: nat)
    ensures
        le_bytes(0, n) =~= zeros(n),
    decreases n,
{
    if n > 0 {
        lemma_zero_bytes((n - 1) as nat);
    }
}

/// The layout of a header on the wire: 64 bytes that start with "wPRF", each field
/// at its offset, the rest zero.
pub proof fn law_header_layout(h: HeaderView)
    requires
        h.feature_bitmap.len() == 32,
    ensures
        ({
            let b = header_bytes(h);
            &&& b.len() == 64
            &&& b[0] == 0x77 && b[1] == 0x50 && b[2] == 0x52 && b[3] == 0x46
            &&& b[4] == h.version
            &&& b[5] == h.endianness
            &&& b[6] == h.host_arch
            &&& b[7] == 0
            &&& from_le(b.subrange(8, 16)) == h.data_section_end_offset
            &&& from_le(b.subrange(16, 24)) == h.section_table_offset
            &&& b.subrange(24, 56) == h.feature_bitmap
            &&& forall|i: int| 56 <= i < 64 ==> #[trigger] b[i] == 0
        }),
{
    let b = header_bytes(h);
    law_header_round_trip(h);
    lemma_capacities();
    lemma_from_le_round_trip(b.subrange(8, 16));
    lemma_from_le_round_trip(b.subrange(16, 24));
    lemma_le_len(h.data_section_end_offset as nat, 8);
    lemma_le_len(h.section_table_offset as nat, 8);
    assert(b.subrange(0, 4)[0] == b[0] && b.subrange(0, 4)[1] == b[1] && b.subrange(0, 4)[2]
        == b[2] && b.subrange(0, 4)[3] == b[3]);
}

/// A new file is of version 1 and little-endian, has no records and no footer, and
/// no features yet.
pub proof fn law_fresh_header(host_arch: u8)
    ensures
        ({
            let h = fresh_header(host_arch);
            &&& h.version == 1
            &&& h.endianness == 1
            &&& h.host_arch == host_arch
            &&& h.data_section_end_offset == 64
            &&& h.section_table_offset == 0
            &&& h.feature_bitmap.len() == 32
            &&& forall|i: int| 0 <= i < 32 ==> #[trigger] h.feature_bitmap[i] == 0
        }),
{
}

/// A header is accepted exactly if it starts with "wPRF" and is of version one;
/// the bytes at the start count more than the version.
pub proof fn law_header_is_checked(b: Seq<u8>, r: Result<WprfHeader, HeaderError>)
    requires
        b.len() == 64,
        header_outcome(b, r),
    ensures
        r is Ok <==> b[0] == 0x77 && b[1] == 0x50 && b[2] == 0x52 && b[3] == 0x46 && b[4] == 1,
        r matches Err(HeaderError::UnsupportedVersion(v)) ==> v == b[4] && v != 1,
        r matches Err(HeaderError::BadMagic) ==> b[0] != 0x77 || b[1] != 0x50 || b[2] != 0x52
            || b[3] != 0x46,
        r matches Err(e) ==> e is BadMagic || e is UnsupportedVersion,
        r matches Ok(h) ==> h@ == header_from(b),
{
    let start = b.subrange(0, 4);
    assert(start[0] == b[0] && start[1] == b[1] && start[2] == b[2] && start[3] == b[3]);
    if b[0] == 0x77 && b[1] == 0x50 && b[2] == 0x52 && b[3] == 0x46 {
        assert(start =~= magic_bytes());
    }
}

/// The marks of the architectures.
pub proof fn law_architecture_marks(name: Seq<char>)
    ensures
        name == "x86_64"@ ==> arch_mark(name) == 0,
        name == "aarch64"@ ==> arch_mark(name) == 1,
        name != "x86_64"@ && name != "aarch64"@ ==> arch_mark(name) == 255,
{
    reveal_strlit("x86_64");
    reveal_strlit("aarch64");
    assert("x86_64"@.len() != "aarch64"@.len());
}

} // verus!
