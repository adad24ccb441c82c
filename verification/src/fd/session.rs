//! `segr`: which file groups and channels belong to one session.

use crate::boxes::SEGR;
use crate::bytes::{
    be16, be16_at, be32, be32_at, boxed, lemma_be16_at, lemma_be16_wire, lemma_be32_at,
    lemma_be32_wire, put_u16, put_u32, put_u8, wrap_box,
};
use crate::fd::wire::{rd_u16, rd_u32, rd_u8};
use crate::seqs::{
    holds_at, joined, lemma_holds_split, lemma_joined_equal_parts, lemma_joined_first,
    lemma_joined_push, lemma_joined_tiles,
};
use vstd::prelude::*;

verus! {

/// A session group.
#[derive(Clone, Debug, PartialEq, Eq)]
pub struct SessionGroup {
    /// The file groups that the session group complies with.
    pub group_ids: Vec<u32>,
    /// The hint tracks of its channels, the base channel first.
    pub hint_track_ids: Vec<u32>,
}

/// A session group box.
#[derive(Clone, Debug, PartialEq, Eq)]
pub struct SegrBox {
    /// The session groups, in order.
    pub session_groups: Vec<SessionGroup>,
}

/// The value of a [`SessionGroup`].
#[verifier::ext_equal]
pub struct SessionGroupView {
    pub group_ids: Seq<u32>,
    pub hint_track_ids: Seq<u32>,
}

impl View for SessionGroup {
    type V = SessionGroupView;

    open spec fn view(&self) -> SessionGroupView {
        SessionGroupView { group_ids: self.group_ids@, hint_track_ids: self.hint_track_ids@ }
    }
}

/// The values of session groups.
pub open spec fn group_views(g: Seq<SessionGroup>) -> Seq<SessionGroupView> {
    Seq::new(g.len(), |i: int| g[i]@)
}

impl View for SegrBox {
    type V = Seq<SessionGroupView>;

    open spec fn view(&self) -> Seq<SessionGroupView> {
        group_views(self.session_groups@)
    }
}

/// The `n` 32-bit integers that start at `at`.
pub open spec fn words_at(s: Seq<u8>, at: int, n: nat) -> Seq<u32> {
    Seq::new(n, |i: int| be32_at(s, at + 4 * i))
}

/// The session group that starts at `pos`, and where it ends.
pub open spec fn group_at(s: Seq<u8>, pos: int) -> Option<(SessionGroupView, int)> {
    if pos + 1 > s.len() {
        None
    } else {
        let channels_at = pos + 1 + 4 * s[pos];
        if channels_at + 2 > s.len() || channels_at + 2 + 4 * be16_at(s, channels_at) > s.len() {
            None
        } else {
            Some(
                (
                    SessionGroupView {
                        group_ids: words_at(s, pos + 1, s[pos] as nat),
                        hint_track_ids: words_at(
                            s,
                            channels_at + 2,
                            be16_at(s, channels_at) as nat,
                        ),
                    },
                    channels_at + 2 + 4 * be16_at(s, channels_at),
                ),
            )
        }
    }
}

/// The `n` session groups that follow one another from `pos`, and where
/// the last one ends.
pub open spec fn groups_from(s: Seq<u8>, pos: int, n: nat) -> Option<(Seq<SessionGroupView>, int)>
    decreases n,
{
    if n == 0 {
        Some((Seq::empty(), pos))
    } else {
        match group_at(s, pos) {
            None => None,
            Some((first, next)) => match groups_from(s, next, (n - 1) as nat) {
                None => None,
                Some((rest, end)) => Some((seq![first] + rest, end)),
            },
        }
    }
}

/// The session groups that a `segr` body holds, and where they end.
pub open spec fn segr_parts(s: Seq<u8>) -> Option<(Seq<SessionGroupView>, int)> {
    if s.len() < 2 {
        None
    } else {
        groups_from(s, 2, be16_at(s, 0) as nat)
    }
}

/// The session groups that a `segr` body holds.
pub open spec fn segr_of(s: Seq<u8>) -> Option<Seq<SessionGroupView>> {
    match segr_parts(s) {
        None => None,
        Some((groups, _end)) => Some(groups),
    }
}

/// 32-bit integers on the wire.
pub open spec fn word_wires(words: Seq<u32>) -> Seq<Seq<u8>> {
    Seq::new(words.len(), |i: int| be32(words[i]))
}

/// A session group on the wire, with the low bits of its counts.
pub open spec fn group_wire(g: SessionGroupView) -> Seq<u8> {
    seq![(g.group_ids.len() % 0x100) as u8] + joined(word_wires(g.group_ids)) + be16(
        (g.hint_track_ids.len() % 0x1_0000) as u16,
    ) + joined(word_wires(g.hint_track_ids))
}

/// The session groups on the wire.
pub open spec fn group_wires(groups: Seq<SessionGroupView>) -> Seq<Seq<u8>> {
    Seq::new(groups.len(), |i: int| group_wire(groups[i]))
}

/// The body of a `segr` box.
pub open spec fn segr_body(groups: Seq<SessionGroupView>) -> Seq<u8> {
    be16((groups.len() % 0x1_0000) as u16) + joined(group_wires(groups))
}

/// The counts of a session group fit their fields.
pub open spec fn group_fits(g: SessionGroupView) -> bool {
    g.group_ids.len() <= 0xFF && g.hint_track_ids.len() <= 0xFFFF
}

/// All counts fit their fields.
pub open spec fn segr_wf(groups: Seq<SessionGroupView>) -> bool {
    groups.len() <= 0xFFFF && forall|i: int| 0 <= i < groups.len() ==> group_fits(#[trigger] groups[i])
}

/// Read `n` 32-bit integers at `start`, and say where they end.
#[verifier::loop_isolation(false)]
fn rd_words(body: &[u8], start: usize, n: u16) -> (r: Option<(Vec<u32>, usize)>)
    requires
        start <= body@.len(),
    ensures
        match r {
            Some((v, end)) => end == start + 4 * n && end <= body@.len() && v@ == words_at(
                body@,
                start as int,
                n as nat,
            ),
            None => start + 4 * n > body@.len(),
        },
{
    let mut pos: usize = start;
    let mut out: Vec<u32> = Vec::new();
    let mut i: u16 = 0;
    while i < n
        invariant
            i <= n,
            pos <= body.len(),
            pos == start + 4 * i,
            out.len() == i,
            forall|k: int| 0 <= k < i ==> #[trigger] out@[k] == be32_at(body@, start + 4 * k),
        decreases n - i,
    {
        match rd_u32(body, &mut pos) {
            Some(w) => out.push(w),
            None => {
                return None;
            },
        }
        i = i + 1;
    }
    assert(out@ =~= words_at(body@, start as int, n as nat));
    Some((out, pos))
}

/// Read a session group at `start`, and say where it ends.
fn rd_group(body: &[u8], start: usize) -> (r: Option<(SessionGroup, usize)>)
    requires
        start <= body@.len(),
    ensures
        match r {
            Some((g, end)) => end <= body@.len() && group_at(body@, start as int) == Some(
                (g@, end as int),
            ),
            None => group_at(body@, start as int) is None,
        },
{
    let mut pos: usize = start;
    let entry_count: u8 = rd_u8(body, &mut pos)?;
    let (group_ids, ids_end): (Vec<u32>, usize) = rd_words(body, pos, entry_count as u16)?;
    pos = ids_end;
    let num_channels: u16 = rd_u16(body, &mut pos)?;
    let (hint_track_ids, end): (Vec<u32>, usize) = rd_words(body, pos, num_channels)?;
    Some((SessionGroup { group_ids, hint_track_ids }, end))
}

/// Parse a `segr` body. There is none where it is cut off.
#[verifier::loop_isolation(false)]
pub fn parse_segr_box(body: &[u8]) -> (r: Option<SegrBox>)
    ensures
        match r {
            Some(b) => segr_of(body@) == Some(b@),
            None => segr_of(body@) is None,
        },
{
    let mut p: usize = 0;
    let num: u16 = rd_u16(body, &mut p)?;
    let mut session_groups: Vec<SessionGroup> = Vec::new();
    let mut i: u16 = 0;
    let ghost all = segr_parts(body@);
    assert(group_views(session_groups@) =~= Seq::<SessionGroupView>::empty());
    assert(forall|t: Seq<SessionGroupView>| #![auto] Seq::<SessionGroupView>::empty() + t =~= t);
    while i < num
        invariant
            i <= num,
            p <= body.len(),
            session_groups.len() == i,
            all == (match groups_from(body@, p as int, (num - i) as nat) {
                None => None,
                Some((rest, end)) => Some((group_views(session_groups@) + rest, end)),
            }),
        decreases num - i,
    {
        let ghost before = group_views(session_groups@);
        match rd_group(body, p) {
            Some((g, end)) => {
                p = end;
                session_groups.push(g);
                proof {
                    assert(group_views(session_groups@) =~= before.push(g@));
                    assert forall|t: Seq<SessionGroupView>|
                        #[trigger] (before + (seq![g@] + t)) =~= before.push(g@) + t by {}
                }
            },
            None => {
                return None;
            },
        }
        i = i + 1;
    }
    assert(group_views(session_groups@) + Seq::<SessionGroupView>::empty() =~= group_views(
        session_groups@,
    ));
    Some(SegrBox { session_groups })
}

/// Append 32-bit integers.
fn wr_words(out: &mut Vec<u8>, words: &Vec<u32>)
    ensures
        final(out)@ == old(out)@ + joined(word_wires(words@)),
{
    let ghost head = out@;
    let ghost wires = word_wires(words@);
    let mut i: usize = 0;
    assert(wires.take(0) =~= Seq::<Seq<u8>>::empty());
    assert(out@ =~= head + joined(wires.take(0)));
    while i < words.len()
        invariant
            i <= words.len(),
            wires == word_wires(words@),
            out@ == head + joined(wires.take(i as int)),
        decreases words.len() - i,
    {
        put_u32(out, words[i]);
        proof {
            lemma_joined_push(wires.take(i as int), wires[i as int]);
            assert(wires.take(i as int).push(wires[i as int]) =~= wires.take(i + 1));
            assert(out@ =~= head + joined(wires.take(i + 1)));
        }
        i = i + 1;
    }
    assert(wires.take(words.len() as int) =~= wires);
}

/// Append a session group.
fn wr_group(out: &mut Vec<u8>, g: &SessionGroup)
    ensures
        final(out)@ == old(out)@ + group_wire(g@),
{
    put_u8(out, (g.group_ids.len() % 0x100) as u8);
    wr_words(out, &g.group_ids);
    put_u16(out, (g.hint_track_ids.len() % 0x1_0000) as u16);
    wr_words(out, &g.hint_track_ids);
    assert(out@ =~= old(out)@ + group_wire(g@));
}

/// Serialise a `segr` box. Counts keep their low bits.
pub fn build_segr_box(b: &SegrBox) -> (r: Vec<u8>)
    ensures
        r@ == boxed(SEGR, segr_body(b@)),
{
    let mut body: Vec<u8> = Vec::new();
    put_u16(&mut body, (b.session_groups.len() % 0x1_0000) as u16);
    let ghost head = body@;
    let ghost wires = group_wires(b@);
    let mut i: usize = 0;
    assert(wires.take(0) =~= Seq::<Seq<u8>>::empty());
    assert(body@ =~= head + joined(wires.take(0)));
    while i < b.session_groups.len()
        invariant
            i <= b.session_groups.len(),
            wires == group_wires(b@),
            body@ == head + joined(wires.take(i as int)),
        decreases b.session_groups.len() - i,
    {
        wr_group(&mut body, &b.session_groups[i]);
        proof {
            lemma_joined_push(wires.take(i as int), wires[i as int]);
            assert(wires.take(i as int).push(wires[i as int]) =~= wires.take(i + 1));
            assert(body@ =~= head + joined(wires.take(i + 1)));
        }
        i = i + 1;
    }
    assert(wires.take(b.session_groups.len() as int) =~= wires);
    assert(body@ =~= segr_body(b@));
    wrap_box(&SEGR, body.as_slice())
}

// ---------------------------------------------------------------------
// Laws
// ---------------------------------------------------------------------

/// Integers are found where they were written.
proof fn lemma_words_at(s: Seq<u8>, at: int, words: Seq<u32>)
    requires
        0 <= at,
        at + 4 * words.len() <= s.len(),
        s.subrange(at, at + 4 * words.len()) == joined(word_wires(words)),
    ensures
        words_at(s, at, words.len()) == words,
{
    let wires = word_wires(words);
    lemma_joined_equal_parts(wires, 4);
    assert forall|i: int| 0 <= i < words.len() implies be32_at(s, at + 4 * i) == #[trigger] words[i] by {
        assert(wires[i] == be32(words[i]));
        assert(s.subrange(at + 4 * i, at + 4 * i + 4) =~= joined(wires).subrange(4 * i, 4 * i + 4));
        lemma_be32_at(s, at + 4 * i, words[i]);
    }
    assert(words_at(s, at, words.len()) =~= words);
}

/// Integers that were read are written as they were.
proof fn lemma_words_wire(s: Seq<u8>, at: int, n: nat)
    requires
        0 <= at,
        at + 4 * n <= s.len(),
    ensures
        joined(word_wires(words_at(s, at, n))) == s.subrange(at, at + 4 * n),
{
    let wires = word_wires(words_at(s, at, n));
    assert forall|i: int| 0 <= i < wires.len() implies #[trigger] wires[i] == s.subrange(
        at + 4 * i,
        at + 4 * i + 4,
    ) by {
        lemma_be32_wire(s, at + 4 * i);
    }
    lemma_joined_tiles(wires, 4, s, at);
}

/// A session group whose counts fit is found where it was written.
proof fn lemma_group_at(s: Seq<u8>, pos: int, g: SessionGroupView)
    requires
        holds_at(s, pos, group_wire(g)),
        group_fits(g),
    ensures
        group_at(s, pos) == Some((g, pos + group_wire(g).len())),
{
    let a = g.group_ids.len() as int;
    let h = g.hint_track_ids.len() as int;
    let ids = joined(word_wires(g.group_ids));
    let tracks = joined(word_wires(g.hint_track_ids));
    let count = seq![a as u8];
    lemma_joined_equal_parts(word_wires(g.group_ids), 4);
    lemma_joined_equal_parts(word_wires(g.hint_track_ids), 4);
    assert(group_wire(g) =~= count + ids + be16(h as u16) + tracks);
    let c = pos + 1 + 4 * a;
    lemma_holds_split(s, pos, count + ids + be16(h as u16), tracks);
    lemma_holds_split(s, pos, count + ids, be16(h as u16));
    lemma_holds_split(s, pos, count, ids);
    assert(s[pos] == s.subrange(pos, pos + 1)[0]);
    lemma_words_at(s, pos + 1, g.group_ids);
    lemma_be16_at(s, c, h as u16);
    lemma_words_at(s, c + 2, g.hint_track_ids);
}

/// A session group that was read has counts that fit, and is written as it
/// was.
proof fn lemma_group_wire(s: Seq<u8>, pos: int)
    requires
        0 <= pos,
        group_at(s, pos) is Some,
    ensures
        ({
            let (g, end) = group_at(s, pos)->0;
            pos < end <= s.len() && group_fits(g) && group_wire(g) == s.subrange(pos, end)
        }),
{
    let (g, end) = group_at(s, pos)->0;
    let c = pos + 1 + 4 * s[pos];
    lemma_words_wire(s, pos + 1, s[pos] as nat);
    lemma_be16_wire(s, c);
    lemma_words_wire(s, c + 2, be16_at(s, c) as nat);
    assert(seq![s[pos]] =~= s.subrange(pos, pos + 1));
    assert(s.subrange(pos, pos + 1) + s.subrange(pos + 1, c) =~= s.subrange(pos, c));
    assert(s.subrange(pos, c) + s.subrange(c, c + 2) =~= s.subrange(pos, c + 2));
    assert(s.subrange(pos, c + 2) + s.subrange(c + 2, end) =~= s.subrange(pos, end));
}

/// Session groups are found where they were written.
proof fn lemma_groups_from(s: Seq<u8>, pos: int, groups: Seq<SessionGroupView>)
    requires
        holds_at(s, pos, joined(group_wires(groups))),
        forall|i: int| 0 <= i < groups.len() ==> group_fits(#[trigger] groups[i]),
    ensures
        groups_from(s, pos, groups.len()) == Some(
            (groups, pos + joined(group_wires(groups)).len()),
        ),
    decreases groups.len(),
{
    let wires = group_wires(groups);
    if groups.len() > 0 {
        let rest = groups.drop_first();
        let w0 = group_wire(groups[0]);
        lemma_joined_first(wires);
        assert(wires.drop_first() =~= group_wires(rest));
        lemma_holds_split(s, pos, w0, joined(group_wires(rest)));
        lemma_group_at(s, pos, groups[0]);
        let next = pos + w0.len();
        lemma_groups_from(s, next, rest);
        assert(seq![groups[0]] + rest =~= groups);
    } else {
        assert(groups =~= Seq::empty());
    }
}

/// Session groups that were read have counts that fit, and are written as
/// they were.
proof fn lemma_groups_wire(s: Seq<u8>, pos: int, n: nat)
    requires
        0 <= pos <= s.len(),
        groups_from(s, pos, n) is Some,
    ensures
        ({
            let (groups, end) = groups_from(s, pos, n)->0;
            &&& pos <= end <= s.len()
            &&& groups.len() == n
            &&& forall|i: int| 0 <= i < groups.len() ==> group_fits(#[trigger] groups[i])
            &&& joined(group_wires(groups)) == s.subrange(pos, end)
        }),
    decreases n,
{
    let (groups, end) = groups_from(s, pos, n)->0;
    if n > 0 {
        let (first, next) = group_at(s, pos)->0;
        lemma_group_wire(s, pos);
        lemma_groups_wire(s, next, (n - 1) as nat);
        let (rest, _end) = groups_from(s, next, (n - 1) as nat)->0;
        assert(groups == seq![first] + rest);
        assert(groups[0] == first);
        assert forall|i: int| 0 <= i < groups.len() implies group_fits(#[trigger] groups[i]) by {
            if i > 0 {
                assert(groups[i] == rest[i - 1]);
            }
        }
        let wires = group_wires(groups);
        lemma_joined_first(wires);
        assert(wires.drop_first() =~= group_wires(rest));
        assert(s.subrange(pos, next) + s.subrange(next, end) =~= s.subrange(pos, end));
    } else {
        assert(joined(group_wires(groups)) =~= s.subrange(pos, end));
    }
}

/// Session groups whose counts fit parse back as they were written, also
/// with more bytes behind them.
pub proof fn law_segr_build_parse(groups: Seq<SessionGroupView>, tail: Seq<u8>)
    requires
        segr_wf(groups),
    ensures
        segr_of(segr_body(groups) + tail) == Some(groups),
{
    let s = segr_body(groups) + tail;
    let n = groups.len() as u16;
    let rows = joined(group_wires(groups));
    assert(s.subrange(0, 2) =~= be16(n));
    lemma_be16_at(s, 0, n);
    assert(s.subrange(2, 2 + rows.len() as int) =~= rows);
    lemma_groups_from(s, 2, groups);
}

/// Every body that parses gives session groups whose counts fit and that
/// parse again to themselves once written.
pub proof fn law_segr_parse_build_parse(s: Seq<u8>)
    ensures
        segr_of(s) matches Some(groups) ==> segr_wf(groups) && segr_of(segr_body(groups)) == Some(
            groups,
        ),
{
    if let Some(groups) = segr_of(s) {
        lemma_groups_wire(s, 2, be16_at(s, 0) as nat);
        law_segr_build_parse(groups, Seq::empty());
        assert(segr_body(groups) + Seq::<u8>::empty() =~= segr_body(groups));
    }
}

/// A body that parses with nothing behind the last session group is
/// written again byte for byte.
pub proof fn law_segr_rebuild_is_byte_exact(s: Seq<u8>)
    requires
        segr_parts(s) is Some,
        (segr_parts(s)->0).1 == s.len(),
    ensures
        segr_of(s) matches Some(groups) && segr_body(groups) == s,
{
    let (groups, end) = segr_parts(s)->0;
    lemma_groups_wire(s, 2, be16_at(s, 0) as nat);
    lemma_be16_wire(s, 0);
    lemma_segr_body(s, groups);
}

/// Session groups whose count and rows are those of `s` are written as `s`.
proof fn lemma_segr_body(s: Seq<u8>, groups: Seq<SessionGroupView>)
    requires
        s.len() >= 2,
        groups.len() == be16_at(s, 0),
        be16(be16_at(s, 0)) == s.subrange(0, 2),
        joined(group_wires(groups)) == s.subrange(2, s.len() as int),
    ensures
        segr_body(groups) == s,
{
    assert(segr_body(groups) == s.subrange(0, 2) + s.subrange(2, s.len() as int));
    assert(s.subrange(0, 2) + s.subrange(2, s.len() as int) =~= s);
}

/// A session group that is read from the start of `s` ends there in `s` too.
proof fn lemma_group_stays(s: Seq<u8>, cut: int, pos: int)
    requires
        0 <= pos,
        0 <= cut <= s.len(),
        group_at(s.take(cut), pos) is Some,
    ensures
        ({
            let end = (group_at(s.take(cut), pos)->0).1;
            &&& pos < end <= cut
            &&& group_at(s, pos) is Some
            &&& (group_at(s, pos)->0).1 == end
        }),
{
    let t = s.take(cut);
    let c = pos + 1 + 4 * t[pos];
    assert(t[pos] == s[pos]);
    assert(t[c] == s[c] && t[c + 1] == s[c + 1]);
}

/// Session groups that are read from the start of `s` end there in `s` too.
proof fn lemma_groups_stay(s: Seq<u8>, cut: int, pos: int, n: nat)
    requires
        0 <= pos <= cut <= s.len(),
        groups_from(s.take(cut), pos, n) is Some,
    ensures
        ({
            let end = (groups_from(s.take(cut), pos, n)->0).1;
            &&& end <= cut
            &&& groups_from(s, pos, n) is Some
            &&& (groups_from(s, pos, n)->0).1 == end
        }),
    decreases n,
{
    if n > 0 {
        lemma_group_stays(s, cut, pos);
        let next = (group_at(s.take(cut), pos)->0).1;
        lemma_groups_stay(s, cut, next, (n - 1) as nat);
    }
}

/// Every body shorter than a written `segr` body is refused.
pub proof fn law_truncated_segr_is_refused(groups: Seq<SessionGroupView>, cut: int)
    requires
        segr_wf(groups),
        0 <= cut < segr_body(groups).len(),
    ensures
        segr_of(segr_body(groups).take(cut)) is None,
{
    let s = segr_body(groups);
    let t = s.take(cut);
    let n = groups.len() as u16;
    let rows = joined(group_wires(groups));
    if cut >= 2 {
        assert(t.subrange(0, 2) =~= be16(n));
        lemma_be16_at(t, 0, n);
        assert(s.subrange(2, 2 + rows.len() as int) =~= rows);
        lemma_groups_from(s, 2, groups);
        if groups_from(t, 2, n as nat) is Some {
            lemma_groups_stay(s, cut, 2, n as nat);
        }
    }
}

} // verus!
