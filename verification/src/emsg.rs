//! `emsg`: an event for the client, carried in a segment.

use crate::boxes::EMSG;
use crate::bytes::{
    be32, be32_at, be64, be64_at, boxed, lemma_be32_at, lemma_be64_at, put_bytes, put_u32, put_u64,
    put_u8, wrap_box,
};
use crate::seqs::{holds_at, lemma_holds_split, lemma_holds_whole};
use crate::text::{has_nul, nul_free};
use vstd::prelude::*;
use vstd::utf8::encode_utf8;

verus! {

/// When an event happens.
#[derive(Clone, Copy, Debug, PartialEq, Eq)]
pub enum EmsgTime {
    /// So long after the earliest presentation time of the segment.
    Delta(u32),
    /// At this point of the presentation.
    Absolute(u64),
}

/// An event message box.
#[derive(Clone, Debug, PartialEq, Eq)]
pub struct EmsgBox {
    /// The scheme of the message.
    pub scheme_id_uri: String,
    /// What the scheme makes of it.
    pub value: String,
    /// Ticks per second of the times below.
    pub timescale: u32,
    /// When the event happens.
    pub presentation: EmsgTime,
    /// How long it lasts.
    pub event_duration: u32,
    /// Which event of the scheme and value this is.
    pub id: u32,
    /// The message.
    pub message_data: Vec<u8>,
}

/// The value of an [`EmsgBox`].
#[verifier::ext_equal]
pub struct EmsgView {
    pub scheme_id_uri: Seq<char>,
    pub value: Seq<char>,
    pub timescale: u32,
    pub presentation: EmsgTime,
    pub event_duration: u32,
    pub id: u32,
    pub message_data: Seq<u8>,
}

impl View for EmsgBox {
    type V = EmsgView;

    open spec fn view(&self) -> EmsgView {
        EmsgView {
            scheme_id_uri: self.scheme_id_uri@,
            value: self.value@,
            timescale: self.timescale,
            presentation: self.presentation,
            event_duration: self.event_duration,
            id: self.id,
            message_data: self.message_data@,
        }
    }
}

/// The values of event messages.
pub open spec fn emsg_views(e: Seq<EmsgBox>) -> Seq<EmsgView> {
    Seq::new(e.len(), |i: int| e[i]@)
}

/// Neither string holds its own terminator.
pub open spec fn emsg_wf(e: EmsgView) -> bool {
    nul_free(e.scheme_id_uri) && nul_free(e.value)
}

/// The two strings, each with its terminator.
pub open spec fn emsg_strings(e: EmsgView) -> Seq<u8> {
    encode_utf8(e.scheme_id_uri) + seq![0u8] + encode_utf8(e.value) + seq![0u8]
}

/// The body of an `emsg` box: version 0 for a delta, version 1 for a point
/// of the presentation.
pub open spec fn emsg_body(e: EmsgView) -> Seq<u8> {
    match e.presentation {
        EmsgTime::Delta(delta) => be32(0) + emsg_strings(e) + be32(e.timescale) + be32(delta)
            + be32(e.event_duration) + be32(e.id) + e.message_data,
        EmsgTime::Absolute(time) => be32(0x0100_0000) + be32(e.timescale) + be64(time) + be32(
            e.event_duration,
        ) + be32(e.id) + emsg_strings(e) + e.message_data,
    }
}

/// Append the two strings.
fn put_strings(out: &mut Vec<u8>, e: &EmsgBox)
    ensures
        final(out)@ == old(out)@ + emsg_strings(e@),
{
    put_bytes(out, e.scheme_id_uri.as_str().as_bytes());
    put_u8(out, 0);
    put_bytes(out, e.value.as_str().as_bytes());
    put_u8(out, 0);
    assert(out@ =~= old(out)@ + emsg_strings(e@));
}

/// Serialise an `emsg` box. There is none where a string holds a NUL.
pub fn build_emsg_box(e: &EmsgBox) -> (r: Option<Vec<u8>>)
    ensures
        match r {
            Some(b) => emsg_wf(e@) && b@ == boxed(EMSG, emsg_body(e@)),
            None => !emsg_wf(e@),
        },
{
    if has_nul(&e.scheme_id_uri) || has_nul(&e.value) {
        return None;
    }
    let mut body: Vec<u8> = Vec::new();
    match e.presentation {
        EmsgTime::Delta(delta) => {
            put_u32(&mut body, 0);
            put_strings(&mut body, e);
            put_u32(&mut body, e.timescale);
            put_u32(&mut body, delta);
            put_u32(&mut body, e.event_duration);
            put_u32(&mut body, e.id);
        },
        EmsgTime::Absolute(time) => {
            put_u32(&mut body, 0x0100_0000);
            put_u32(&mut body, e.timescale);
            put_u64(&mut body, time);
            put_u32(&mut body, e.event_duration);
            put_u32(&mut body, e.id);
            put_strings(&mut body, e);
        },
    }
    put_bytes(&mut body, e.message_data.as_slice());
    assert(body@ =~= emsg_body(e@));
    Some(wrap_box(&EMSG, body.as_slice()))
}

/// The two strings of an event stand at `at`, each with a zero byte behind
/// it.
pub open spec fn strings_at(s: Seq<u8>, at: int, e: EmsgView) -> bool {
    let scheme = encode_utf8(e.scheme_id_uri);
    let value = encode_utf8(e.value);
    &&& holds_at(s, at, scheme)
    &&& s[at + scheme.len()] == 0
    &&& holds_at(s, at + scheme.len() + 1, value)
    &&& s[at + scheme.len() + 1 + value.len()] == 0
}

/// How long the two strings of an event are with their zero bytes.
pub open spec fn strings_len(e: EmsgView) -> int {
    (encode_utf8(e.scheme_id_uri).len() + encode_utf8(e.value).len() + 2) as int
}

proof fn lemma_strings(s: Seq<u8>, at: int, e: EmsgView)
    requires
        holds_at(s, at, emsg_strings(e)),
    ensures
        strings_at(s, at, e),
        emsg_strings(e).len() == strings_len(e),
{
    let a = encode_utf8(e.scheme_id_uri);
    let b = encode_utf8(e.value);
    let z = seq![0u8];
    lemma_holds_split(s, at, a + z + b, z);
    lemma_holds_split(s, at, a + z, b);
    lemma_holds_split(s, at, a, z);
    assert(s.subrange(at + a.len(), at + a.len() + 1)[0] == s[at + a.len()]);
    let end = at + a.len() + 1 + b.len();
    assert(s.subrange(end, end + 1)[0] == s[end]);
}

/// An event at a time from the start of its segment reads back by its
/// layout: version 0, the strings, and behind them the clock, the time from
/// the start, the duration, the number and the message.
proof fn lemma_delta_reads_back(e: EmsgView, delta: u32)
    requires
        e.presentation == EmsgTime::Delta(delta),
    ensures
        ({
            let s = emsg_body(e);
            let n = 4 + strings_len(e);
            &&& s.len() == n + 16 + e.message_data.len()
            &&& be32_at(s, 0) == 0
            &&& strings_at(s, 4, e)
            &&& be32_at(s, n) == e.timescale
            &&& be32_at(s, n + 4) == delta
            &&& be32_at(s, n + 8) == e.event_duration
            &&& be32_at(s, n + 12) == e.id
            &&& holds_at(s, n + 16, e.message_data)
        }),
{
    let s = emsg_body(e);
    let strings = emsg_strings(e);
    let a1 = be32(0) + strings;
    let a2 = a1 + be32(e.timescale);
    let a3 = a2 + be32(delta);
    let a4 = a3 + be32(e.event_duration);
    let a5 = a4 + be32(e.id);
    lemma_holds_whole(s);
    lemma_holds_split(s, 0, a5, e.message_data);
    lemma_holds_split(s, 0, a4, be32(e.id));
    lemma_holds_split(s, 0, a3, be32(e.event_duration));
    lemma_holds_split(s, 0, a2, be32(delta));
    lemma_holds_split(s, 0, a1, be32(e.timescale));
    lemma_holds_split(s, 0, be32(0), strings);
    lemma_strings(s, 4, e);
    let n = 4 + strings_len(e);
    lemma_be32_at(s, 0, 0);
    lemma_be32_at(s, n, e.timescale);
    lemma_be32_at(s, n + 4, delta);
    lemma_be32_at(s, n + 8, e.event_duration);
    lemma_be32_at(s, n + 12, e.id);
}

/// An event at a time of its own reads back by its layout: version 1, the
/// clock, the time in 64 bits, the duration, the number, the strings and the
/// message.
proof fn lemma_absolute_reads_back(e: EmsgView, time: u64)
    requires
        e.presentation == EmsgTime::Absolute(time),
    ensures
        ({
            let s = emsg_body(e);
            let n = 24 + strings_len(e);
            &&& s.len() == n + e.message_data.len()
            &&& be32_at(s, 0) == 0x0100_0000
            &&& be32_at(s, 4) == e.timescale
            &&& be64_at(s, 8) == time
            &&& be32_at(s, 16) == e.event_duration
            &&& be32_at(s, 20) == e.id
            &&& strings_at(s, 24, e)
            &&& holds_at(s, n, e.message_data)
        }),
{
    let s = emsg_body(e);
    let strings = emsg_strings(e);
    let a1 = be32(0x0100_0000) + be32(e.timescale);
    let a2 = a1 + be64(time);
    let a3 = a2 + be32(e.event_duration);
    let a4 = a3 + be32(e.id);
    let a5 = a4 + strings;
    lemma_holds_whole(s);
    lemma_holds_split(s, 0, a5, e.message_data);
    lemma_holds_split(s, 0, a4, strings);
    lemma_holds_split(s, 0, a3, be32(e.id));
    lemma_holds_split(s, 0, a2, be32(e.event_duration));
    lemma_holds_split(s, 0, a1, be64(time));
    lemma_holds_split(s, 0, be32(0x0100_0000), be32(e.timescale));
    lemma_strings(s, 24, e);
    lemma_be32_at(s, 0, 0x0100_0000);
    lemma_be32_at(s, 4, e.timescale);
    lemma_be64_at(s, 8, time);
    lemma_be32_at(s, 16, e.event_duration);
    lemma_be32_at(s, 20, e.id);
}

/// An event reads back by its layout. One at a time from the start of its
/// segment is of version 0: strings, clock, time from the start, duration,
/// number, message. One at a time of its own is of version 1: clock, time in
/// 64 bits, duration, number, strings, message.
pub proof fn law_emsg_reads_back(e: EmsgView)
    ensures
        ({
            let s = emsg_body(e);
            match e.presentation {
                EmsgTime::Delta(delta) => {
                    let n = 4 + strings_len(e);
                    &&& s.len() == n + 16 + e.message_data.len()
                    &&& be32_at(s, 0) == 0
                    &&& strings_at(s, 4, e)
                    &&& be32_at(s, n) == e.timescale
                    &&& be32_at(s, n + 4) == delta
                    &&& be32_at(s, n + 8) == e.event_duration
                    &&& be32_at(s, n + 12) == e.id
                    &&& holds_at(s, n + 16, e.message_data)
                },
                EmsgTime::Absolute(time) => {
                    let n = 24 + strings_len(e);
                    &&& s.len() == n + e.message_data.len()
                    &&& be32_at(s, 0) == 0x0100_0000
                    &&& be32_at(s, 4) == e.timescale
                    &&& be64_at(s, 8) == time
                    &&& be32_at(s, 16) == e.event_duration
                    &&& be32_at(s, 20) == e.id
                    &&& strings_at(s, 24, e)
                    &&& holds_at(s, n, e.message_data)
                },
            }
        }),
{
    match e.presentation {
        EmsgTime::Delta(delta) => {
            lemma_delta_reads_back(e, delta);
        },
        EmsgTime::Absolute(time) => {
            lemma_absolute_reads_back(e, time);
        },
    }
}

} // verus!
