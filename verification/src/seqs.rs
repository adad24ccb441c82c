//! Byte runs put together from parts.

use vstd::prelude::*;

verus! {

/// The run `x` stands in `s` at `pos`.
pub open spec fn holds_at(s: Seq<u8>, pos: int, x: Seq<u8>) -> bool {
    0 <= pos && pos + x.len() <= s.len() && s.subrange(pos, pos + x.len()) == x
}

/// Where two runs stand together, each stands by itself.
pub proof fn lemma_holds_split(s: Seq<u8>, pos: int, x: Seq<u8>, y: Seq<u8>)
    requires
        holds_at(s, pos, x + y),
    ensures
        holds_at(s, pos, x),
        holds_at(s, pos + x.len(), y),
{
    let t = s.subrange(pos, pos + (x + y).len());
    assert(s.subrange(pos, pos + x.len()) =~= t.subrange(0, x.len() as int));
    assert((x + y).subrange(0, x.len() as int) =~= x);
    assert(s.subrange(pos + x.len(), pos + x.len() + y.len()) =~= t.subrange(
        x.len() as int,
        (x + y).len() as int,
    ));
    assert((x + y).subrange(x.len() as int, (x + y).len() as int) =~= y);
}

/// A run that stands within a run that stands in `s` stands in `s`.
pub proof fn lemma_holds_within(s: Seq<u8>, pos: int, x: Seq<u8>, at: int, y: Seq<u8>)
    requires
        holds_at(s, pos, x),
        holds_at(x, at, y),
    ensures
        holds_at(s, pos + at, y),
{
    assert(s.subrange(pos + at, pos + at + y.len()) =~= s.subrange(
        pos,
        pos + x.len(),
    ).subrange(at, at + y.len()));
}

/// A run stands in itself.
pub proof fn lemma_holds_whole(s: Seq<u8>)
    ensures
        holds_at(s, 0, s),
{
    assert(s.subrange(0, s.len() as int) =~= s);
}

/// Where parts of one length `w` stand together, the `i`-th stands at
/// `w * i`.
pub proof fn lemma_holds_row(s: Seq<u8>, pos: int, parts: Seq<Seq<u8>>, w: int, i: int)
    requires
        w >= 0,
        forall|k: int| 0 <= k < parts.len() ==> (#[trigger] parts[k]).len() == w,
        holds_at(s, pos, joined(parts)),
        0 <= i < parts.len(),
    ensures
        holds_at(s, pos + w * i, parts[i]),
{
    lemma_joined_equal_parts(parts, w);
    let n = parts.len() as int;
    let all = joined(parts);
    assert(0 <= w * i && w * i + w <= w * n) by (nonlinear_arith)
        requires
            0 <= i < n,
            w >= 0,
    ;
    assert(all.subrange(w * i, w * i + w) == parts[i]);
    assert(s.subrange(pos + w * i, pos + w * i + w) =~= s.subrange(
        pos,
        pos + all.len(),
    ).subrange(w * i, w * i + w));
}

/// The parts one after the other.
pub open spec fn joined(parts: Seq<Seq<u8>>) -> Seq<u8>
    decreases parts.len(),
{
    if parts.len() == 0 {
        Seq::empty()
    } else {
        joined(parts.drop_last()) + parts.last()
    }
}

/// One part more at the end.
pub proof fn lemma_joined_push(parts: Seq<Seq<u8>>, part: Seq<u8>)
    ensures
        joined(parts.push(part)) == joined(parts) + part,
{
    assert(parts.push(part).drop_last() =~= parts);
}

/// No parts make up nothing.
pub proof fn lemma_joined_none(parts: Seq<Seq<u8>>)
    ensures
        joined(parts.take(0)) == Seq::<u8>::empty(),
{
    assert(parts.take(0) =~= Seq::<Seq<u8>>::empty());
}

/// One part more of a list of parts.
pub proof fn lemma_joined_step(parts: Seq<Seq<u8>>, i: int)
    requires
        0 <= i < parts.len(),
    ensures
        joined(parts.take(i + 1)) == joined(parts.take(i)) + parts[i],
{
    lemma_joined_push(parts.take(i), parts[i]);
    assert(parts.take(i).push(parts[i]) =~= parts.take(i + 1));
}

/// All parts of a list of parts.
pub proof fn lemma_joined_all(parts: Seq<Seq<u8>>)
    ensures
        joined(parts.take(parts.len() as int)) == joined(parts),
{
    assert(parts.take(parts.len() as int) =~= parts);
}

/// The first part, then the others.
pub proof fn lemma_joined_first(parts: Seq<Seq<u8>>)
    requires
        parts.len() > 0,
    ensures
        joined(parts) == parts[0] + joined(parts.drop_first()),
    decreases parts.len(),
{
    if parts.len() == 1 {
        assert(parts.drop_last() =~= Seq::<Seq<u8>>::empty());
        assert(parts.drop_first() =~= Seq::<Seq<u8>>::empty());
        assert(joined(parts.drop_last()) =~= Seq::<u8>::empty());
        assert(joined(parts) =~= parts[0] + joined(parts.drop_first()));
    } else {
        lemma_joined_first(parts.drop_last());
        assert(parts.drop_last().drop_first() =~= parts.drop_first().drop_last());
        assert(joined(parts) =~= parts[0] + joined(parts.drop_first()));
    }
}

/// Parts of one length `w` make up a run of that many bytes each, in which
/// the `i`-th part starts at `w * i`.
pub proof fn lemma_joined_equal_parts(parts: Seq<Seq<u8>>, w: int)
    requires
        w >= 0,
        forall|i: int| 0 <= i < parts.len() ==> (#[trigger] parts[i]).len() == w,
    ensures
        joined(parts).len() == w * parts.len(),
        forall|i: int|
            0 <= i < parts.len() ==> joined(parts).subrange(w * i, w * i + w) == #[trigger] parts[i],
    decreases parts.len(),
{
    if parts.len() > 0 {
        let init = parts.drop_last();
        let n = parts.len() as int;
        lemma_joined_equal_parts(init, w);
        assert(w * n == w * (n - 1) + w) by (nonlinear_arith);
        assert forall|i: int| 0 <= i < n implies joined(parts).subrange(w * i, w * i + w)
            == #[trigger] parts[i] by {
            if i < n - 1 {
                assert(w * i + w <= w * (n - 1)) by (nonlinear_arith)
                    requires
                        0 <= i < n - 1,
                        w >= 0,
                ;
                assert(w * i >= 0) by (nonlinear_arith)
                    requires
                        0 <= i,
                        w >= 0,
                ;
                assert(init[i] == parts[i]);
                assert(joined(parts).subrange(w * i, w * i + w) =~= joined(init).subrange(
                    w * i,
                    w * i + w,
                ));
            } else {
                assert(joined(parts).subrange(w * i, w * i + w) =~= parts.last());
            }
        }
    }
}

/// Parts of length `w` that follow one another in `s` from `at` on join to
/// the run that they cover.
pub proof fn lemma_joined_tiles(parts: Seq<Seq<u8>>, w: int, s: Seq<u8>, at: int)
    requires
        w >= 0,
        at >= 0,
        at + w * parts.len() <= s.len(),
        forall|i: int|
            0 <= i < parts.len() ==> #[trigger] parts[i] == s.subrange(at + w * i, at + w * i + w),
    ensures
        joined(parts) == s.subrange(at, at + w * parts.len()),
    decreases parts.len(),
{
    let n = parts.len() as int;
    if n > 0 {
        let init = parts.drop_last();
        assert(w * n == w * (n - 1) + w) by (nonlinear_arith);
        assert(w * (n - 1) >= 0) by (nonlinear_arith)
            requires
                w >= 0,
                n >= 1,
        ;
        assert forall|i: int| 0 <= i < init.len() implies #[trigger] init[i] == s.subrange(
            at + w * i,
            at + w * i + w,
        ) by {
            assert(init[i] == parts[i]);
        }
        lemma_joined_tiles(init, w, s, at);
        assert(parts.last() == parts[n - 1]);
        assert(joined(parts) =~= s.subrange(at, at + w * n));
    } else {
        assert(w * n == 0) by (nonlinear_arith)
            requires
                n == 0,
        ;
        assert(joined(parts) =~= s.subrange(at, at + w * n));
    }
}

/// A part stands in the joined parts behind those before it.
pub proof fn lemma_part_in_joined(parts: Seq<Seq<u8>>, i: int)
    requires
        0 <= i < parts.len(),
    ensures
        holds_at(joined(parts), joined(parts.take(i)).len() as int, parts[i]),
    decreases parts.len(),
{
    let init = parts.drop_last();
    let all = joined(parts);
    if i < parts.len() - 1 {
        lemma_part_in_joined(init, i);
        assert(init.take(i) =~= parts.take(i));
        let at = joined(parts.take(i)).len() as int;
        assert(all.subrange(at, at + parts[i].len()) =~= joined(init).subrange(
            at,
            at + parts[i].len(),
        ));
    } else {
        assert(parts.take(i) =~= init);
        assert(all.subrange(joined(init).len() as int, all.len() as int) =~= parts[i]);
    }
}

} // verus!
