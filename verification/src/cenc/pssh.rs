//! `pssh`: the header of one content protection system.

use crate::boxes::PSSH;
use crate::bytes::{
    be32, be32_at, boxed, copy_range, id16_at, lemma_be32_at, put_bytes, put_u32, put_u8, u32_at,
    wrap_box,
};
use crate::cenc::error::{Carrier, CencError};
use crate::cenc::types::{agrees, id_views, PsshBox, PsshView};
use crate::seqs::{joined, lemma_joined_equal_parts, lemma_joined_push};
use vstd::prelude::*;

verus! {

/// Where the data size stands: behind the KID list of a version that has
/// one.
pub open spec fn data_size_at(s: Seq<u8>) -> int {
    if s[0] == 0 {
        20
    } else {
        24 + 16 * be32_at(s, 20)
    }
}

/// The record that a `pssh` body holds.
pub open spec fn pssh_of(s: Seq<u8>) -> Result<PsshView, CencError> {
    if s.len() < 20 {
        Err(CencError::ShortPayload(Carrier::Pssh))
    } else if s[0] > 0 && s.len() < 24 {
        Err(CencError::MissingKidCount)
    } else if s.len() < data_size_at(s) {
        Err(CencError::TruncatedKids)
    } else if s.len() < data_size_at(s) + 4 {
        Err(CencError::MissingDataSize)
    } else if s.len() < data_size_at(s) + 4 + be32_at(s, data_size_at(s)) {
        Err(CencError::TruncatedData)
    } else {
        let kid_count = if s[0] == 0 {
            0nat
        } else {
            be32_at(s, 20) as nat
        };
        let data_at = data_size_at(s) + 4;
        Ok(
            PsshView {
                version: s[0],
                system_id: s.subrange(4, 20),
                kids: Seq::new(kid_count, |i: int| s.subrange(24 + 16 * i, 40 + 16 * i)),
                data: s.subrange(data_at, data_at + be32_at(s, data_size_at(s))),
            },
        )
    }
}

/// Why a `pssh` record cannot be written, if it cannot.
pub open spec fn pssh_refusal(p: PsshView) -> Option<CencError> {
    if p.version == 0 && p.kids.len() > 0 {
        Some(CencError::KidsNeedVersionOne)
    } else if p.kids.len() > u32::MAX {
        Some(CencError::KidCountTooLarge)
    } else if p.data.len() > u32::MAX {
        Some(CencError::DataTooLarge(Carrier::Pssh))
    } else {
        None
    }
}

/// The KID list of a version that has one.
pub open spec fn kids_wire(p: PsshView) -> Seq<u8> {
    if p.version > 0 {
        be32(p.kids.len() as u32) + joined(p.kids)
    } else {
        Seq::empty()
    }
}

/// The body of a `pssh` box.
pub open spec fn pssh_body(p: PsshView) -> Seq<u8> {
    seq![p.version, 0, 0, 0] + p.system_id + kids_wire(p) + be32(p.data.len() as u32) + p.data
}

/// The identifiers of a record are sixteen bytes long.
pub open spec fn pssh_ids_wf(p: PsshView) -> bool {
    p.system_id.len() == 16 && forall|i: int| 0 <= i < p.kids.len() ==> (#[trigger] p.kids[i]).len()
        == 16
}

/// Parse a `pssh` body: what follows the box header.
pub fn parse_pssh(body: &[u8]) -> (r: Result<PsshBox, CencError>)
    ensures
        agrees(r, pssh_of(body@)),
{
    let len: u64 = body.len() as u64;
    if body.len() < 20 {
        return Err(CencError::ShortPayload(Carrier::Pssh));
    }
    let version: u8 = body[0];
    let mut kids: Vec<[u8; 16]> = Vec::new();
    let mut cursor: usize = 20;
    if version > 0 {
        if body.len() < 24 {
            return Err(CencError::MissingKidCount);
        }
        let kid_count: u32 = u32_at(body, 20);
        if len < 24 + 16 * (kid_count as u64) {
            return Err(CencError::TruncatedKids);
        }
        let mut i: u32 = 0;
        cursor = 24;
        while i < kid_count
            invariant
                i <= kid_count,
                24 + 16 * kid_count <= body.len(),
                cursor == 24 + 16 * i,
                kids.len() == i,
                forall|j: int|
                    0 <= j < i ==> (#[trigger] kids@[j])@ == body@.subrange(24 + 16 * j, 40 + 16 * j),
            decreases kid_count - i,
        {
            kids.push(id16_at(body, cursor));
            cursor = cursor + 16;
            i = i + 1;
        }
    }
    assert(cursor == data_size_at(body@));
    if body.len() - cursor < 4 {
        return Err(CencError::MissingDataSize);
    }
    let data_size: u32 = u32_at(body, cursor);
    let data_at: usize = cursor + 4;
    if ((body.len() - data_at) as u64) < data_size as u64 {
        return Err(CencError::TruncatedData);
    }
    let data: Vec<u8> = copy_range(body, data_at, data_at + data_size as usize);
    let system_id: [u8; 16] = id16_at(body, 4);
    proof {
        let v = pssh_of(body@)->Ok_0;
        assert(id_views(kids@) =~= v.kids);
    }
    Ok(PsshBox { version, system_id, kids, data })
}

/// Append the bytes that a `pssh` body holds after its version and flags.
fn put_pssh_fields(body: &mut Vec<u8>, pssh: &PsshBox)
    requires
        pssh_refusal(pssh@) is None,
    ensures
        final(body)@ == old(body)@ + pssh@.system_id + kids_wire(pssh@) + be32(
            pssh@.data.len() as u32,
        ) + pssh@.data,
{
    let ghost start = body@ + pssh@.system_id;
    put_bytes(body, &pssh.system_id);
    if pssh.version > 0 {
        put_u32(body, pssh.kids.len() as u32);
        let mut i: usize = 0;
        let ghost counted = body@;
        assert(id_views(pssh.kids@).take(0) =~= Seq::<Seq<u8>>::empty());
        assert(joined(id_views(pssh.kids@).take(0)) =~= Seq::<u8>::empty());
        assert(body@ =~= counted + joined(id_views(pssh.kids@).take(0)));
        while i < pssh.kids.len()
            invariant
                i <= pssh.kids.len(),
                body@ == counted + joined(id_views(pssh.kids@).take(i as int)),
            decreases pssh.kids.len() - i,
        {
            let ghost done = id_views(pssh.kids@).take(i as int);
            put_bytes(body, &pssh.kids[i]);
            proof {
                lemma_joined_push(done, pssh.kids@[i as int]@);
                assert(done.push(pssh.kids@[i as int]@) =~= id_views(pssh.kids@).take(i + 1));
                assert(body@ =~= counted + joined(id_views(pssh.kids@).take(i + 1)));
            }
            i = i + 1;
        }
        assert(id_views(pssh.kids@).take(pssh.kids.len() as int) =~= id_views(pssh.kids@));
    }
    assert(body@ =~= start + kids_wire(pssh@));
    put_u32(body, pssh.data.len() as u32);
    put_bytes(body, pssh.data.as_slice());
}

/// Serialise a `pssh` box. Records that would not parse back are refused.
pub fn build_pssh_box(pssh: &PsshBox) -> (r: Result<Vec<u8>, CencError>)
    ensures
        match r {
            Ok(b) => pssh_refusal(pssh@) is None && b@ == boxed(PSSH, pssh_body(pssh@)),
            Err(e) => pssh_refusal(pssh@) == Some(e),
        },
{
    if pssh.version == 0 && pssh.kids.len() > 0 {
        return Err(CencError::KidsNeedVersionOne);
    }
    if pssh.kids.len() as u64 > u32::MAX as u64 {
        return Err(CencError::KidCountTooLarge);
    }
    if pssh.data.len() as u64 > u32::MAX as u64 {
        return Err(CencError::DataTooLarge(Carrier::Pssh));
    }
    let mut body: Vec<u8> = Vec::new();
    put_u8(&mut body, pssh.version);
    put_u8(&mut body, 0);
    put_u8(&mut body, 0);
    put_u8(&mut body, 0);
    assert(body@ =~= seq![pssh.version, 0, 0, 0]);
    put_pssh_fields(&mut body, pssh);
    Ok(wrap_box(&PSSH, body.as_slice()))
}

// ---------------------------------------------------------------------
// Laws
// ---------------------------------------------------------------------

/// A `pssh` record that can be written parses back as it was, also with
/// more bytes behind it.
pub proof fn law_pssh_build_parse(p: PsshView, tail: Seq<u8>)
    requires
        pssh_ids_wf(p),
        pssh_refusal(p) is None,
    ensures
        pssh_of(pssh_body(p) + tail) == Ok::<PsshView, CencError>(p),
{
    let s = pssh_body(p) + tail;
    lemma_joined_equal_parts(p.kids, 16);
    let head = seq![p.version, 0, 0, 0] + p.system_id;
    assert(s.subrange(4, 20) =~= p.system_id);
    if p.version > 0 {
        assert(s.subrange(20, 24) =~= be32(p.kids.len() as u32));
        lemma_be32_at(s, 20, p.kids.len() as u32);
        assert forall|i: int| 0 <= i < p.kids.len() implies s.subrange(24 + 16 * i, 40 + 16 * i)
            == #[trigger] p.kids[i] by {
            assert(s.subrange(24 + 16 * i, 40 + 16 * i) =~= joined(p.kids).subrange(
                16 * i,
                16 * i + 16,
            ));
        }
    }
    let at = data_size_at(s);
    assert(at == 20 + kids_wire(p).len());
    assert(s.subrange(at, at + 4) =~= be32(p.data.len() as u32));
    lemma_be32_at(s, at, p.data.len() as u32);
    assert(s.subrange(at + 4, at + 4 + p.data.len()) =~= p.data);
    assert(pssh_of(s)->Ok_0.kids =~= p.kids);
}

/// Every `pssh` body that parses gives a record that can be written and
/// that parses again to the same record.
pub proof fn law_pssh_parse_build_parse(s: Seq<u8>)
    ensures
        pssh_of(s) matches Ok(p) ==> pssh_refusal(p) is None && pssh_of(pssh_body(p)) == Ok::<
            PsshView,
            CencError,
        >(p),
{
    if let Ok(p) = pssh_of(s) {
        law_pssh_build_parse(p, Seq::empty());
        assert(pssh_body(p) + Seq::<u8>::empty() =~= pssh_body(p));
    }
}

/// Every body shorter than a written `pssh` body is refused.
pub proof fn law_truncated_pssh_is_refused(p: PsshView, cut: int)
    requires
        pssh_ids_wf(p),
        pssh_refusal(p) is None,
        0 <= cut < pssh_body(p).len(),
    ensures
        pssh_of(pssh_body(p).take(cut)) is Err,
{
    let t = pssh_body(p).take(cut);
    lemma_joined_equal_parts(p.kids, 16);
    let at = 20 + kids_wire(p).len() as int;
    if cut >= 20 {
        assert(t[0] == p.version);
    }
    if p.version > 0 && cut >= 24 {
        assert(t.subrange(20, 24) =~= be32(p.kids.len() as u32));
        lemma_be32_at(t, 20, p.kids.len() as u32);
    }
    if cut >= at + 4 {
        assert(t.subrange(at, at + 4) =~= be32(p.data.len() as u32));
        lemma_be32_at(t, at, p.data.len() as u32);
    }
}

} // verus!
