//! A whole box, taken apart again.

use crate::boxes::{header_of, BoxError, HeaderView, HDLR, UUID};
use crate::bytes::{
    be32, be32_at, boxed, code_at, fits_box, lemma_be32_at, put_bytes, same_code, u32_at, wrap_box,
};
use vstd::prelude::*;

verus! {

/// The body of a box that is all of `s`: without its header, and without the
/// extended type of a `uuid` box. What is not one whole box is its own body.
pub open spec fn body_in(s: Seq<u8>) -> Seq<u8> {
    if s.len() < 8 || be32_at(s, 0) != s.len() {
        s
    } else if s.subrange(4, 8) == UUID@ && s.len() >= 24 {
        s.skip(24)
    } else {
        s.skip(8)
    }
}

/// The body of a box.
pub fn body_of(built: &[u8]) -> (r: &[u8])
    ensures
        r@ == body_in(built@),
{
    if built.len() >= 8 {
        let declared: u32 = u32_at(built, 0);
        if declared as u64 == built.len() as u64 {
            if built.len() >= 24 && same_code(&code_at(built, 4), &UUID) {
                let r: &[u8] = &built[24..built.len()];
                assert(r@ =~= built@.skip(24));
                return r;
            }
            let r: &[u8] = &built[8..built.len()];
            assert(r@ =~= built@.skip(8));
            return r;
        }
    }
    built
}

/// The body of a minimal handler box.
pub open spec fn hdlr_body(handler: [u8; 4]) -> Seq<u8> {
    Seq::new(8, |i: int| 0u8) + handler@ + Seq::new(13, |i: int| 0u8)
}

/// A minimal handler box: a type and an empty name.
pub fn hdlr(handler: &[u8; 4]) -> (r: Vec<u8>)
    ensures
        r@ == boxed(HDLR, hdlr_body(*handler)),
{
    let mut body: Vec<u8> = Vec::new();
    put_bytes(&mut body, &[0u8; 8]);
    put_bytes(&mut body, handler);
    put_bytes(&mut body, &[0u8; 13]);
    assert(body@ =~= hdlr_body(*handler));
    wrap_box(&HDLR, body.as_slice())
}

/// How a box starts.
proof fn lemma_box_head(code: [u8; 4], body: Seq<u8>, tail: Seq<u8>)
    requires
        fits_box(body),
    ensures
        be32_at(boxed(code, body) + tail, 0) == 8 + body.len(),
        (boxed(code, body) + tail).subrange(4, 8) == code@,
        boxed(code, body).len() == 8 + body.len(),
{
    let s = boxed(code, body) + tail;
    let n = (8 + body.len()) as u32;
    assert(s.subrange(0, 4) =~= be32(n));
    lemma_be32_at(s, 0, n);
    assert(s.subrange(4, 8) =~= code@);
}

/// The body of a box that was built is the body that it was built from.
pub proof fn law_built_box_gives_its_body(code: [u8; 4], body: Seq<u8>)
    requires
        fits_box(body),
        code != UUID,
    ensures
        body_in(boxed(code, body)) == body,
{
    let s = boxed(code, body);
    lemma_box_head(code, body, Seq::empty());
    assert(s + Seq::<u8>::empty() =~= s);
    assert(code@ != UUID@) by {
        if code@ == UUID@ {
            assert(code =~= UUID);
        }
    }
    assert(s.skip(8) =~= body);
}

/// The same of a `uuid` box with its extended type.
pub proof fn law_built_uuid_box_gives_its_body(usertype: Seq<u8>, body: Seq<u8>)
    requires
        usertype.len() == 16,
        fits_box(usertype + body),
    ensures
        body_in(boxed(UUID, usertype + body)) == body,
{
    let s = boxed(UUID, usertype + body);
    lemma_box_head(UUID, usertype + body, Seq::empty());
    assert(s + Seq::<u8>::empty() =~= s);
    assert(s.skip(24) =~= body);
}

/// The header of a box that was built reads back as its type and its size,
/// whatever follows the box.
pub proof fn law_built_box_header_reads_back(
    code: [u8; 4],
    body: Seq<u8>,
    tail: Seq<u8>,
    start: u64,
    lenient: bool,
)
    requires
        fits_box(body),
        start + 8 + body.len() <= u64::MAX,
    ensures
        header_of(boxed(code, body) + tail, start, lenient) == Ok::<
            HeaderView,
            BoxError,
        >(HeaderView::Header(code@, Some((8 + body.len()) as u64), 8)),
{
    lemma_box_head(code, body, tail);
}

/// A handler box has its handler behind eight zero bytes and zeros behind
/// it, in 25 bytes.
pub proof fn law_hdlr_layout(handler: [u8; 4])
    ensures
        ({
            let s = hdlr_body(handler);
            &&& s.len() == 25
            &&& s.subrange(8, 12) == handler@
            &&& forall|i: int| 0 <= i < 25 && !(8 <= i < 12) ==> #[trigger] s[i] == 0
        }),
{
    assert(hdlr_body(handler).subrange(8, 12) =~= handler@);
}

} // verus!
