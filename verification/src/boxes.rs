//! Box headers and the four-character types of the format.
//!
//! A box starts with a 32-bit size and a four-character type. A size of 1
//! says that a 64-bit size follows; a size of 0 says that the box runs to
//! the end of the input.

use crate::bytes::{
    be32_at, be64_at, bits64, code_at, copy_range, u32_at, u64_at,
};
use crate::text::{decimal, push_decimal, push_text, text_of};
use vstd::prelude::*;
use vstd::utf8::{decode_utf8, encode_utf8, valid_utf8};

verus! {

// ---------------------------------------------------------------------
// Errors
// ---------------------------------------------------------------------

/// Why a box could not be read.
#[derive(Clone, Copy, Debug, PartialEq, Eq)]
pub enum BoxError {
    /// The input ends inside the first eight bytes.
    TruncatedHeader,
    /// The input ends inside the 64-bit size.
    TruncatedLargesize,
    /// The 64-bit size is less than the sixteen bytes of the header.
    LargesizeTooSmall,
    /// The 32-bit size is less than the eight bytes of the header.
    SizeTooSmall,
    /// The box would end past the largest 64-bit offset.
    EndOverflow {
        /// The type of the box.
        fourcc: [u8; 4],
        /// The size that it declares.
        total: u64,
        /// Where it starts.
        start: u64,
    },
    /// The body of a box that runs to the end of the input has no length.
    OpenEndedBody,
    /// The input ends before the declared end of the body.
    TruncatedBody,
}

/// The text of a type: the four characters, or question marks where they
/// are not well-formed UTF-8.
pub open spec fn type_text(code: Seq<u8>) -> Seq<char> {
    if valid_utf8(code) {
        decode_utf8(code)
    } else {
        "????"@
    }
}

/// The text of a type.
pub fn code_text(code: &[u8; 4]) -> (r: &str)
    ensures
        r@ == type_text(code@),
{
    match text_of(code) {
        Some(s) => s,
        None => "????",
    }
}

/// The message that stands for an error.
pub open spec fn box_error_text(e: BoxError) -> Seq<char> {
    match e {
        BoxError::TruncatedHeader => "MP4: truncated box header"@,
        BoxError::TruncatedLargesize => "failed to fill whole buffer"@,
        BoxError::LargesizeTooSmall => "MP4: box largesize < 16"@,
        BoxError::SizeTooSmall => "MP4: box size < 8"@,
        BoxError::EndOverflow { fourcc, total, start } => "MP4: box '"@ + type_text(fourcc@)
            + "' declared size "@ + decimal(total as nat) + " from offset "@ + decimal(start as nat)
            + " overflows u64"@,
        BoxError::OpenEndedBody => "MP4: cannot read open-ended box body"@,
        BoxError::TruncatedBody => "MP4: truncated box body"@,
    }
}

impl BoxError {
    /// The message that stands for the error.
    pub fn message(&self) -> (r: String)
        ensures
            r@ == box_error_text(*self),
    {
        let mut s: String = String::new();
        match self {
            BoxError::TruncatedHeader => push_text(&mut s, "MP4: truncated box header"),
            BoxError::TruncatedLargesize => push_text(&mut s, "failed to fill whole buffer"),
            BoxError::LargesizeTooSmall => push_text(&mut s, "MP4: box largesize < 16"),
            BoxError::SizeTooSmall => push_text(&mut s, "MP4: box size < 8"),
            BoxError::EndOverflow { fourcc, total, start } => {
                push_text(&mut s, "MP4: box '");
                push_text(&mut s, code_text(fourcc));
                push_text(&mut s, "' declared size ");
                push_decimal(&mut s, *total);
                push_text(&mut s, " from offset ");
                push_decimal(&mut s, *start);
                push_text(&mut s, " overflows u64");
            },
            BoxError::OpenEndedBody => push_text(&mut s, "MP4: cannot read open-ended box body"),
            BoxError::TruncatedBody => push_text(&mut s, "MP4: truncated box body"),
        }
        assert(s@ =~= box_error_text(*self));
        s
    }
}

// ---------------------------------------------------------------------
// Headers
// ---------------------------------------------------------------------

/// A box header.
#[derive(Clone, Copy, Debug, PartialEq, Eq)]
pub struct BoxHeader {
    /// The four-character type.
    pub fourcc: [u8; 4],
    /// How long the box is, header and all, or nothing where it runs to
    /// the end of the input.
    pub total_size: Option<u64>,
    /// How long the header is: eight or sixteen bytes.
    pub header_len: u64,
}

impl BoxHeader {
    /// The header is no longer than the box.
    pub open spec fn wf(self) -> bool {
        self.total_size matches Some(t) ==> self.header_len <= t
    }

    /// How long the body is, if that is known.
    pub open spec fn payload(self) -> Option<u64> {
        match self.total_size {
            Some(t) => Some((t - self.header_len) as u64),
            None => None,
        }
    }

    /// The type as text.
    pub fn type_str(&self) -> (r: &str)
        ensures
            r@ == type_text(self.fourcc@),
    {
        code_text(&self.fourcc)
    }

    /// How long the body is, if that is known.
    pub fn payload_size(&self) -> (r: Option<u64>)
        requires
            self.wf(),
        ensures
            r == self.payload(),
    {
        match self.total_size {
            Some(t) => Some(t - self.header_len),
            None => None,
        }
    }
}

/// What stands at the start of an input.
pub enum HeaderView {
    /// Nothing, or too little where that is allowed.
    End,
    /// A header: type, total size, header length.
    Header(Seq<u8>, Option<u64>, u64),
}

/// The header that `input` starts with, where `input` begins at offset
/// `start`. A cut-off header counts as the end when `lenient`.
pub open spec fn header_of(input: Seq<u8>, start: u64, lenient: bool) -> Result<
    HeaderView,
    BoxError,
> {
    if input.len() == 0 || (lenient && input.len() < 8) {
        Ok(HeaderView::End)
    } else if input.len() < 8 {
        Err(BoxError::TruncatedHeader)
    } else if be32_at(input, 0) == 0 {
        Ok(HeaderView::Header(input.subrange(4, 8), None, 8))
    } else if be32_at(input, 0) == 1 && input.len() < 16 {
        Err(BoxError::TruncatedLargesize)
    } else if be32_at(input, 0) == 1 && be64_at(input, 8) < 16 {
        Err(BoxError::LargesizeTooSmall)
    } else if 1 < be32_at(input, 0) < 8 {
        Err(BoxError::SizeTooSmall)
    } else {
        let total = if be32_at(input, 0) == 1 {
            be64_at(input, 8)
        } else {
            be32_at(input, 0) as u64
        };
        let header_len: u64 = if be32_at(input, 0) == 1 {
            16
        } else {
            8
        };
        if start + total > u64::MAX {
            Err(
                BoxError::EndOverflow {
                    fourcc: [input[4], input[5], input[6], input[7]],
                    total,
                    start,
                },
            )
        } else {
            Ok(HeaderView::Header(input.subrange(4, 8), Some(total), header_len))
        }
    }
}

/// What a reader gave is what stands at the start of the input.
pub open spec fn read_agrees(
    r: Result<Option<BoxHeader>, BoxError>,
    v: Result<HeaderView, BoxError>,
) -> bool {
    match r {
        Ok(Some(h)) => v matches Ok(HeaderView::Header(code, total, len)) && h.fourcc@ == code
            && h.total_size == total && h.header_len == len,
        Ok(None) => v matches Ok(HeaderView::End),
        Err(e) => v matches Err(f) && e == f,
    }
}

/// The box ends at an offset that 64 bits hold, so the body of a box that
/// starts at `start` can be found by additions that do not overflow.
pub open spec fn end_is_bounded(r: Result<Option<BoxHeader>, BoxError>, start: u64) -> bool {
    r matches Ok(Some(h)) ==> h.wf() && (h.total_size matches Some(t) ==> start + t <= u64::MAX)
}

/// Read the box header that `input` starts with, where `input` holds the
/// bytes from offset `start` on. At the end of the input there is none.
pub fn read_box_header(input: &[u8], start: u64) -> (r: Result<Option<BoxHeader>, BoxError>)
    ensures
        read_agrees(r, header_of(input@, start, false)),
        end_is_bounded(r, start),
{
    read_box_header_inner(input, start, false)
}

/// Like [`read_box_header`], but trailing bytes that cannot form a box
/// count as the end of the input.
pub fn read_box_header_lenient(input: &[u8], start: u64) -> (r: Result<
    Option<BoxHeader>,
    BoxError,
>)
    ensures
        read_agrees(r, header_of(input@, start, true)),
        end_is_bounded(r, start),
{
    read_box_header_inner(input, start, true)
}

/// Read a box header, strictly or not.
fn read_box_header_inner(input: &[u8], start: u64, lenient: bool) -> (r: Result<
    Option<BoxHeader>,
    BoxError,
>)
    ensures
        read_agrees(r, header_of(input@, start, lenient)),
        end_is_bounded(r, start),
{
    if input.len() < 8 {
        if input.len() == 0 || lenient {
            return Ok(None);
        }
        return Err(BoxError::TruncatedHeader);
    }
    let size32: u32 = u32_at(input, 0);
    let fourcc: [u8; 4] = code_at(input, 4);
    if size32 == 0 {
        return Ok(Some(BoxHeader { fourcc, total_size: None, header_len: 8 }));
    }
    let mut total: u64 = size32 as u64;
    let mut header_len: u64 = 8;
    if size32 == 1 {
        if input.len() < 16 {
            return Err(BoxError::TruncatedLargesize);
        }
        total = u64_at(input, 8);
        header_len = 16;
        if total < 16 {
            return Err(BoxError::LargesizeTooSmall);
        }
    } else if size32 < 8 {
        return Err(BoxError::SizeTooSmall);
    }
    if start.checked_add(total).is_none() {
        assert(fourcc =~= [input@[4], input@[5], input@[6], input@[7]]);
        return Err(BoxError::EndOverflow { fourcc, total, start });
    }
    Ok(Some(BoxHeader { fourcc, total_size: Some(total), header_len }))
}

/// A header is read by its layout. A 32-bit size of 0 says that the box has
/// no end of its own; 1 says that the size stands in 64 bits behind the
/// type, and then the header is 16 bytes long; else the size is the one
/// there. A size that does not cover the header, or one that leads past the
/// largest offset, is refused.
pub proof fn law_header_layout(input: Seq<u8>, start: u64, lenient: bool)
    requires
        input.len() >= 16,
    ensures
        ({
            let small = be32_at(input, 0);
            let large = be64_at(input, 8);
            let r = header_of(input, start, lenient);
            &&& r is Ok <==> small == 0 || (small == 1 && large >= 16 && start + large <= u64::MAX)
                || (small >= 8 && start + small <= u64::MAX)
            &&& r matches Ok(h) ==> {
                &&& h matches HeaderView::Header(code, total, len)
                &&& code == input.subrange(4, 8)
                &&& small == 0 ==> total is None && len == 8
                &&& small == 1 ==> total == Some(large) && len == 16
                &&& small > 1 ==> total == Some(small as u64) && len == 8
            }
        }),
{
}

/// Fewer than eight bytes are the end of the input where that is allowed or
/// there are none, and else a header that is cut off.
pub proof fn law_short_header(input: Seq<u8>, start: u64, lenient: bool)
    requires
        input.len() < 8,
    ensures
        if lenient || input.len() == 0 {
            header_of(input, start, lenient) matches Ok(HeaderView::End)
        } else {
            header_of(input, start, lenient) matches Err(BoxError::TruncatedHeader)
        },
{
}

/// The body of a box, where `input` holds what follows its header. The
/// body of a box that runs to the end of the input cannot be asked for.
pub fn read_box_body(input: &[u8], h: &BoxHeader) -> (r: Result<Vec<u8>, BoxError>)
    requires
        h.wf(),
    ensures
        match r {
            Ok(body) => h.payload() matches Some(n) && n <= input@.len() && body@
                == input@.subrange(0, n as int),
            Err(BoxError::OpenEndedBody) => h.payload() is None,
            Err(e) => e == BoxError::TruncatedBody && (h.payload() matches Some(n) && n
                > input@.len()),
        },
{
    match h.payload_size() {
        None => Err(BoxError::OpenEndedBody),
        Some(payload) => {
            if payload > input.len() as u64 {
                return Err(BoxError::TruncatedBody);
            }
            Ok(copy_range(input, 0, payload as usize))
        },
    }
}

/// How a reader steps over a body.
#[derive(Clone, Copy, Debug, PartialEq, Eq)]
pub enum BodySkip {
    /// There is no body.
    Stay,
    /// Move from the current position by this much.
    Forward(i64),
    /// Move to the end of the input.
    ToEnd,
}

/// How to step over the body of a box: by its length, whose 64 bits are
/// taken as a signed distance.
pub fn skip_box_body(h: &BoxHeader) -> (r: BodySkip)
    requires
        h.wf(),
    ensures
        match r {
            BodySkip::Stay => h.payload() == Some(0u64),
            BodySkip::Forward(d) => h.payload() matches Some(n) && n > 0 && bits64(d) == n,
            BodySkip::ToEnd => h.payload() is None,
        },
{
    match h.payload_size() {
        None => BodySkip::ToEnd,
        Some(payload) => {
            if payload == 0 {
                return BodySkip::Stay;
            }
            let distance: i64 = if payload <= 0x7FFF_FFFF_FFFF_FFFF {
                payload as i64
            } else {
                (payload as i128 - 0x1_0000_0000_0000_0000) as i64
            };
            BodySkip::Forward(distance)
        },
    }
}

/// The four bytes that `s` starts with.
pub fn fourcc(s: &str) -> (r: [u8; 4])
    requires
        encode_utf8(s@).len() >= 4,
    ensures
        r@ == encode_utf8(s@).subrange(0, 4),
{
    code_at(s.as_bytes(), 0)
}

// ---------------------------------------------------------------------
// Box types
// ---------------------------------------------------------------------

/// `ftyp`: file type.
pub const FTYP: [u8; 4] = [0x66, 0x74, 0x79, 0x70];

/// `pdin`: progressive download info.
pub const PDIN: [u8; 4] = [0x70, 0x64, 0x69, 0x6e];

/// `moov`: movie.
pub const MOOV: [u8; 4] = [0x6d, 0x6f, 0x6f, 0x76];

/// `mvhd`: movie header.
pub const MVHD: [u8; 4] = [0x6d, 0x76, 0x68, 0x64];

/// `trak`: track.
pub const TRAK: [u8; 4] = [0x74, 0x72, 0x61, 0x6b];

/// `tkhd`: track header.
pub const TKHD: [u8; 4] = [0x74, 0x6b, 0x68, 0x64];

/// `tref`: track reference.
pub const TREF: [u8; 4] = [0x74, 0x72, 0x65, 0x66];

/// `trgr`: track group.
pub const TRGR: [u8; 4] = [0x74, 0x72, 0x67, 0x72];

/// `edts`: edit.
pub const EDTS: [u8; 4] = [0x65, 0x64, 0x74, 0x73];

/// `mdia`: media.
pub const MDIA: [u8; 4] = [0x6d, 0x64, 0x69, 0x61];

/// `mdhd`: media header.
pub const MDHD: [u8; 4] = [0x6d, 0x64, 0x68, 0x64];

/// `elng`: extended language.
pub const ELNG: [u8; 4] = [0x65, 0x6c, 0x6e, 0x67];

/// `hdlr`: handler reference.
pub const HDLR: [u8; 4] = [0x68, 0x64, 0x6c, 0x72];

/// `minf`: media information.
pub const MINF: [u8; 4] = [0x6d, 0x69, 0x6e, 0x66];

/// `vmhd`: video media header.
pub const VMHD: [u8; 4] = [0x76, 0x6d, 0x68, 0x64];

/// `hmhd`: hint media header.
pub const HMHD: [u8; 4] = [0x68, 0x6d, 0x68, 0x64];

/// `gmhd`: QuickTime base media information header atom.
pub const GMHD: [u8; 4] = [0x67, 0x6d, 0x68, 0x64];

/// `gmin`: QuickTime base media info atom.
pub const GMIN: [u8; 4] = [0x67, 0x6d, 0x69, 0x6e];

/// `tcmi`: QuickTime timecode media information atom.
pub const TCMI: [u8; 4] = [0x74, 0x63, 0x6d, 0x69];

/// `dinf`: data information.
pub const DINF: [u8; 4] = [0x64, 0x69, 0x6e, 0x66];

/// `dref`: data reference.
pub const DREF: [u8; 4] = [0x64, 0x72, 0x65, 0x66];

/// `url `: data entry URL.
pub const URL_: [u8; 4] = [0x75, 0x72, 0x6c, 0x20];

/// `urn `: data entry URN.
pub const URN_: [u8; 4] = [0x75, 0x72, 0x6e, 0x20];

/// `stbl`: sample table.
pub const STBL: [u8; 4] = [0x73, 0x74, 0x62, 0x6c];

/// `stsd`: sample description.
pub const STSD: [u8; 4] = [0x73, 0x74, 0x73, 0x64];

/// `stts`: decoding time to sample.
pub const STTS: [u8; 4] = [0x73, 0x74, 0x74, 0x73];

/// `stss`: sync sample.
pub const STSS: [u8; 4] = [0x73, 0x74, 0x73, 0x73];

/// `stsc`: sample to chunk.
pub const STSC: [u8; 4] = [0x73, 0x74, 0x73, 0x63];

/// `stsz`: sample size.
pub const STSZ: [u8; 4] = [0x73, 0x74, 0x73, 0x7a];

/// `stz2`: compact sample size.
pub const STZ2: [u8; 4] = [0x73, 0x74, 0x7a, 0x32];

/// `stco`: chunk offset.
pub const STCO: [u8; 4] = [0x73, 0x74, 0x63, 0x6f];

/// `stsh`: shadow sync sample.
pub const STSH: [u8; 4] = [0x73, 0x74, 0x73, 0x68];

/// `stdp`: degradation priority.
pub const STDP: [u8; 4] = [0x73, 0x74, 0x64, 0x70];

/// `sdtp`: sample dependency type.
pub const SDTP: [u8; 4] = [0x73, 0x64, 0x74, 0x70];

/// `padb`: padding bits.
pub const PADB: [u8; 4] = [0x70, 0x61, 0x64, 0x62];

/// `ctts`: composition time to sample.
pub const CTTS: [u8; 4] = [0x63, 0x74, 0x74, 0x73];

/// `cslg`: composition to decode.
pub const CSLG: [u8; 4] = [0x63, 0x73, 0x6c, 0x67];

/// `co64`: 64-bit chunk offset.
pub const CO64: [u8; 4] = [0x63, 0x6f, 0x36, 0x34];

/// `sbgp`: sample to group.
pub const SBGP: [u8; 4] = [0x73, 0x62, 0x67, 0x70];

/// `sgpd`: sample group description.
pub const SGPD: [u8; 4] = [0x73, 0x67, 0x70, 0x64];

/// `csgp`: compact sample to group.
pub const CSGP: [u8; 4] = [0x63, 0x73, 0x67, 0x70];

/// `subs`: sub sample information.
pub const SUBS: [u8; 4] = [0x73, 0x75, 0x62, 0x73];

/// `saiz`: sample auxiliary information sizes.
pub const SAIZ: [u8; 4] = [0x73, 0x61, 0x69, 0x7a];

/// `saio`: sample auxiliary information offsets.
pub const SAIO: [u8; 4] = [0x73, 0x61, 0x69, 0x6f];

/// `elst`: edit list.
pub const ELST: [u8; 4] = [0x65, 0x6c, 0x73, 0x74];

/// `mdat`: media data.
pub const MDAT: [u8; 4] = [0x6d, 0x64, 0x61, 0x74];

/// `free`: free space.
pub const FREE: [u8; 4] = [0x66, 0x72, 0x65, 0x65];

/// `skip`: free space.
pub const SKIP: [u8; 4] = [0x73, 0x6b, 0x69, 0x70];

/// `udta`: user data.
pub const UDTA: [u8; 4] = [0x75, 0x64, 0x74, 0x61];

/// `meta`: metadata.
pub const META: [u8; 4] = [0x6d, 0x65, 0x74, 0x61];

/// `ilst`: metadata item list.
pub const ILST: [u8; 4] = [0x69, 0x6c, 0x73, 0x74];

/// `data`: metadata value.
pub const DATA: [u8; 4] = [0x64, 0x61, 0x74, 0x61];

/// `pitm`: primary item.
pub const PITM: [u8; 4] = [0x70, 0x69, 0x74, 0x6d];

/// `iloc`: item location.
pub const ILOC: [u8; 4] = [0x69, 0x6c, 0x6f, 0x63];

/// `iinf`: item information.
pub const IINF: [u8; 4] = [0x69, 0x69, 0x6e, 0x66];

/// `infe`: item info entry.
pub const INFE: [u8; 4] = [0x69, 0x6e, 0x66, 0x65];

/// `iref`: item reference.
pub const IREF: [u8; 4] = [0x69, 0x72, 0x65, 0x66];

/// `idat`: item data.
pub const IDAT: [u8; 4] = [0x69, 0x64, 0x61, 0x74];

/// `meco`: additional metadata container.
pub const MECO: [u8; 4] = [0x6d, 0x65, 0x63, 0x6f];

/// `mere`: metabox relation.
pub const MERE: [u8; 4] = [0x6d, 0x65, 0x72, 0x65];

/// `fiin`: FD item information.
pub const FIIN: [u8; 4] = [0x66, 0x69, 0x69, 0x6e];

/// `paen`: partition entry.
pub const PAEN: [u8; 4] = [0x70, 0x61, 0x65, 0x6e];

/// `fpar`: file partition.
pub const FPAR: [u8; 4] = [0x66, 0x70, 0x61, 0x72];

/// `fecr`: FEC reservoir.
pub const FECR: [u8; 4] = [0x66, 0x65, 0x63, 0x72];

/// `segr`: FD session group.
pub const SEGR: [u8; 4] = [0x73, 0x65, 0x67, 0x72];

/// `gitn`: group ID to name.
pub const GITN: [u8; 4] = [0x67, 0x69, 0x74, 0x6e];

/// `fire`: file reservoir.
pub const FIRE: [u8; 4] = [0x66, 0x69, 0x72, 0x65];

/// `feci`: FEC information.
pub const FECI: [u8; 4] = [0x66, 0x65, 0x63, 0x69];

/// `rtp `: RTP server hint sample entry.
pub const RTP_HINT: [u8; 4] = [0x72, 0x74, 0x70, 0x20];

/// `srtp`: SRTP hint sample entry.
pub const SRTP_HINT: [u8; 4] = [0x73, 0x72, 0x74, 0x70];

/// `rrtp`: RTP reception hint sample entry.
pub const RRTP_HINT: [u8; 4] = [0x72, 0x72, 0x74, 0x70];

/// `tims`: timescale entry.
pub const TIMS: [u8; 4] = [0x74, 0x69, 0x6d, 0x73];

/// `tsro`: time offset.
pub const TSRO: [u8; 4] = [0x74, 0x73, 0x72, 0x6f];

/// `snro`: sequence offset.
pub const SNRO: [u8; 4] = [0x73, 0x6e, 0x72, 0x6f];

/// `srpp`: SRTP process.
pub const SRPP: [u8; 4] = [0x73, 0x72, 0x70, 0x70];

/// `rtcp`: RTCP reception hint sample entry.
pub const RTCP_HINT: [u8; 4] = [0x72, 0x74, 0x63, 0x70];

/// `sm2t`: MPEG-2 TS server hint sample entry.
pub const SM2T: [u8; 4] = [0x73, 0x6d, 0x32, 0x74];

/// `rm2t`: MPEG-2 TS reception hint sample entry.
pub const RM2T: [u8; 4] = [0x72, 0x6d, 0x32, 0x74];

/// `tmcd`: QuickTime timecode sample entry.
pub const TMCD: [u8; 4] = [0x74, 0x6d, 0x63, 0x64];

/// `load`: QuickTime track load settings atom.
pub const LOAD: [u8; 4] = [0x6c, 0x6f, 0x61, 0x64];

/// `pnot`: QuickTime preview atom.
pub const PNOT: [u8; 4] = [0x70, 0x6e, 0x6f, 0x74];

/// `hinf`: hint statistics.
pub const HINF: [u8; 4] = [0x68, 0x69, 0x6e, 0x66];

/// `kind`: track kind.
pub const KIND: [u8; 4] = [0x6b, 0x69, 0x6e, 0x64];

/// `cprt`: copyright.
pub const CPRT: [u8; 4] = [0x63, 0x70, 0x72, 0x74];

/// `tsel`: track selection.
pub const TSEL: [u8; 4] = [0x74, 0x73, 0x65, 0x6c];

/// `strk`: sub track.
pub const STRK: [u8; 4] = [0x73, 0x74, 0x72, 0x6b];

/// `stri`: sub track information.
pub const STRI: [u8; 4] = [0x73, 0x74, 0x72, 0x69];

/// `strd`: sub track definition.
pub const STRD: [u8; 4] = [0x73, 0x74, 0x72, 0x64];

/// `stsg`: sub track sample group.
pub const STSG: [u8; 4] = [0x73, 0x74, 0x73, 0x67];

/// `mvex`: movie extends.
pub const MVEX: [u8; 4] = [0x6d, 0x76, 0x65, 0x78];

/// `mehd`: movie extends header.
pub const MEHD: [u8; 4] = [0x6d, 0x65, 0x68, 0x64];

/// `trex`: track extends.
pub const TREX: [u8; 4] = [0x74, 0x72, 0x65, 0x78];

/// `leva`: level assignment.
pub const LEVA: [u8; 4] = [0x6c, 0x65, 0x76, 0x61];

/// `trep`: track extension properties.
pub const TREP: [u8; 4] = [0x74, 0x72, 0x65, 0x70];

/// `moof`: movie fragment.
pub const MOOF: [u8; 4] = [0x6d, 0x6f, 0x6f, 0x66];

/// `mfhd`: movie fragment header.
pub const MFHD: [u8; 4] = [0x6d, 0x66, 0x68, 0x64];

/// `traf`: track fragment.
pub const TRAF: [u8; 4] = [0x74, 0x72, 0x61, 0x66];

/// `tfhd`: track fragment header.
pub const TFHD: [u8; 4] = [0x74, 0x66, 0x68, 0x64];

/// `tfdt`: track fragment decode time.
pub const TFDT: [u8; 4] = [0x74, 0x66, 0x64, 0x74];

/// `trun`: track fragment run.
pub const TRUN: [u8; 4] = [0x74, 0x72, 0x75, 0x6e];

/// `sidx`: segment index.
pub const SIDX: [u8; 4] = [0x73, 0x69, 0x64, 0x78];

/// `ssix`: subsegment index.
pub const SSIX: [u8; 4] = [0x73, 0x73, 0x69, 0x78];

/// `styp`: segment type.
pub const STYP: [u8; 4] = [0x73, 0x74, 0x79, 0x70];

/// `prft`: producer reference time.
pub const PRFT: [u8; 4] = [0x70, 0x72, 0x66, 0x74];

/// `emsg`: DASH event message.
pub const EMSG: [u8; 4] = [0x65, 0x6d, 0x73, 0x67];

/// `mfra`: movie fragment random access.
pub const MFRA: [u8; 4] = [0x6d, 0x66, 0x72, 0x61];

/// `tfra`: track fragment random access.
pub const TFRA: [u8; 4] = [0x74, 0x66, 0x72, 0x61];

/// `mfro`: movie fragment random access offset.
pub const MFRO: [u8; 4] = [0x6d, 0x66, 0x72, 0x6f];

/// `soun`: audio media handler.
pub const HANDLER_SOUN: [u8; 4] = [0x73, 0x6f, 0x75, 0x6e];

/// `vide`: video media handler.
pub const HANDLER_VIDE: [u8; 4] = [0x76, 0x69, 0x64, 0x65];

/// `subt`: subtitle media handler.
pub const HANDLER_SUBT: [u8; 4] = [0x73, 0x75, 0x62, 0x74];

/// `text`: timed text media handler.
pub const HANDLER_TEXT: [u8; 4] = [0x74, 0x65, 0x78, 0x74];

/// `sbtl`: legacy subtitle media handler.
pub const HANDLER_SBTL: [u8; 4] = [0x73, 0x62, 0x74, 0x6c];

/// `meta`: timed metadata handler.
pub const HANDLER_META: [u8; 4] = [0x6d, 0x65, 0x74, 0x61];

/// `sinf`: protection scheme information.
pub const SINF: [u8; 4] = [0x73, 0x69, 0x6e, 0x66];

/// `frma`: original format.
pub const FRMA: [u8; 4] = [0x66, 0x72, 0x6d, 0x61];

/// `schm`: scheme type.
pub const SCHM: [u8; 4] = [0x73, 0x63, 0x68, 0x6d];

/// `schi`: scheme information.
pub const SCHI: [u8; 4] = [0x73, 0x63, 0x68, 0x69];

/// `encv`: protected video sample entry.
pub const ENCV: [u8; 4] = [0x65, 0x6e, 0x63, 0x76];

/// `enca`: protected audio sample entry.
pub const ENCA: [u8; 4] = [0x65, 0x6e, 0x63, 0x61];

/// `enct`: protected text sample entry.
pub const ENCT: [u8; 4] = [0x65, 0x6e, 0x63, 0x74];

/// `encs`: protected system sample entry.
pub const ENCS: [u8; 4] = [0x65, 0x6e, 0x63, 0x73];

/// `stvi`: stereo video.
pub const STVI: [u8; 4] = [0x73, 0x74, 0x76, 0x69];

/// `tenc`: track encryption.
pub const TENC: [u8; 4] = [0x74, 0x65, 0x6e, 0x63];

/// `pssh`: protection system header.
pub const PSSH: [u8; 4] = [0x70, 0x73, 0x73, 0x68];

/// `senc`: sample encryption.
pub const SENC: [u8; 4] = [0x73, 0x65, 0x6e, 0x63];

/// `uuid`: box with a 16-byte extended type.
pub const UUID: [u8; 4] = [0x75, 0x75, 0x69, 0x64];

/// `iprp`: item properties.
pub const IPRP: [u8; 4] = [0x69, 0x70, 0x72, 0x70];

/// `ipco`: item property container.
pub const IPCO: [u8; 4] = [0x69, 0x70, 0x63, 0x6f];

/// `ipma`: item property association.
pub const IPMA: [u8; 4] = [0x69, 0x70, 0x6d, 0x61];

/// `ispe`: image spatial extents property.
pub const ISPE: [u8; 4] = [0x69, 0x73, 0x70, 0x65];

/// `pixi`: pixel information property.
pub const PIXI: [u8; 4] = [0x70, 0x69, 0x78, 0x69];

/// `rloc`: relative location property.
pub const RLOC: [u8; 4] = [0x72, 0x6c, 0x6f, 0x63];

/// `auxC`: auxiliary type property.
pub const AUXC: [u8; 4] = [0x61, 0x75, 0x78, 0x43];

/// `irot`: image rotation property.
pub const IROT: [u8; 4] = [0x69, 0x72, 0x6f, 0x74];

/// `imir`: image mirroring property.
pub const IMIR: [u8; 4] = [0x69, 0x6d, 0x69, 0x72];

/// `lsel`: layer selector property.
pub const LSEL: [u8; 4] = [0x6c, 0x73, 0x65, 0x6c];

/// `grpl`: groups list.
pub const GRPL: [u8; 4] = [0x67, 0x72, 0x70, 0x6c];

/// `udes`: user description property.
pub const UDES: [u8; 4] = [0x75, 0x64, 0x65, 0x73];

/// `altt`: accessibility text property.
pub const ALTT: [u8; 4] = [0x61, 0x6c, 0x74, 0x74];

/// `iscl`: image scaling property.
pub const ISCL: [u8; 4] = [0x69, 0x73, 0x63, 0x6c];

/// `rref`: required reference types property.
pub const RREF: [u8; 4] = [0x72, 0x72, 0x65, 0x66];

/// `crtt`: creation time property.
pub const CRTT: [u8; 4] = [0x63, 0x72, 0x74, 0x74];

/// `mdft`: modification time property.
pub const MDFT: [u8; 4] = [0x6d, 0x64, 0x66, 0x74];

} // verus!
