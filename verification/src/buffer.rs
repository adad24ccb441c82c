//! A file in memory that can be written anywhere.

use vstd::prelude::*;

verus! {

/// Where to move in a file.
#[derive(Clone, Copy, Debug, PartialEq, Eq)]
pub enum SeekTo {
    /// So far from the start.
    Start(u64),
    /// So far from the end.
    End(i64),
    /// So far from the current position.
    Current(i64),
}

/// A file in memory and a position in it.
#[derive(Clone, Debug, Default, PartialEq, Eq)]
pub struct SharedBuf {
    /// The file.
    pub bytes: Vec<u8>,
    /// The position, which may be past the end.
    pub pos: u64,
}

/// A file after `data` was written at `pos`; a hole is filled with zeros.
pub open spec fn overwritten(file: Seq<u8>, pos: nat, data: Seq<u8>) -> Seq<u8> {
    let end = pos + data.len();
    Seq::new(
        if end > file.len() {
            end
        } else {
            file.len()
        },
        |i: int|
            if pos <= i < end {
                data[i - pos]
            } else if i < file.len() {
                file[i]
            } else {
                0u8
            },
    )
}

/// Where a move leads in a file of `len` bytes. A start past the signed
/// range is as good as one before the file.
pub open spec fn target_of(len: nat, pos: u64, to: SeekTo) -> int {
    match to {
        SeekTo::Start(n) => if n <= i64::MAX {
            n as int
        } else {
            n - 0x1_0000_0000_0000_0000
        },
        SeekTo::End(off) => len + off,
        SeekTo::Current(off) => pos + off,
    }
}

impl SharedBuf {
    /// An empty file.
    pub fn new() -> (r: SharedBuf)
        ensures
            r.bytes@.len() == 0,
            r.pos == 0,
    {
        SharedBuf { bytes: Vec::new(), pos: 0 }
    }

    /// Write at the position, and move behind what was written.
    pub fn write(&mut self, data: &[u8]) -> (n: usize)
        requires
            old(self).pos + data@.len() <= usize::MAX,
        ensures
            n == data@.len(),
            final(self).bytes@ == overwritten(old(self).bytes@, old(self).pos as nat, data@),
            final(self).pos == old(self).pos + data@.len(),
    {
        let ghost file = self.bytes@;
        let at: usize = self.pos as usize;
        let end: usize = at + data.len();
        let mut filled: usize = self.bytes.len();
        while filled < end
            invariant
                filled == self.bytes@.len(),
                file.len() <= filled,
                filled <= end || filled == file.len(),
                self.pos == old(self).pos,
                forall|i: int| 0 <= i < file.len() ==> self.bytes@[i] == file[i],
                forall|i: int| file.len() <= i < filled ==> self.bytes@[i] == 0,
            decreases end - filled,
        {
            self.bytes.push(0);
            filled = filled + 1;
        }
        let ghost grown = self.bytes@;
        let mut i: usize = 0;
        while i < data.len()
            invariant
                i <= data.len(),
                at + data.len() == end,
                end <= grown.len(),
                self.pos == old(self).pos,
                self.bytes@.len() == grown.len(),
                forall|k: int| 0 <= k < at ==> self.bytes@[k] == grown[k],
                forall|k: int| at <= k < at + i ==> self.bytes@[k] == data@[k - at],
                forall|k: int| at + i <= k < grown.len() ==> self.bytes@[k] == grown[k],
            decreases data.len() - i,
        {
            self.bytes.set(at + i, data[i]);
            i = i + 1;
        }
        self.pos = end as u64;
        assert(self.bytes@ =~= overwritten(file, at as nat, data@));
        data.len()
    }

    /// Move, if that does not lead before the start.
    pub fn seek(&mut self, to: SeekTo) -> (r: Option<u64>)
        requires
            old(self).bytes@.len() <= i64::MAX,
            old(self).pos <= i64::MAX,
            target_of(old(self).bytes@.len(), old(self).pos, to) <= i64::MAX,
        ensures
            final(self).bytes@ == old(self).bytes@,
            ({
                let target = target_of(old(self).bytes@.len(), old(self).pos, to);
                if target < 0 {
                    r is None && final(self).pos == old(self).pos
                } else {
                    r == Some(target as u64) && final(self).pos == target
                }
            }),
    {
        let target: i128 = match to {
            SeekTo::Start(n) => if n <= 0x7FFF_FFFF_FFFF_FFFF {
                n as i128
            } else {
                n as i128 - 0x1_0000_0000_0000_0000
            },
            SeekTo::End(off) => self.bytes.len() as i128 + off as i128,
            SeekTo::Current(off) => self.pos as i128 + off as i128,
        };
        if target < 0 {
            return None;
        }
        self.pos = target as u64;
        Some(self.pos)
    }
}

/// What was written reads back, and the rest of the file is as it was.
pub proof fn law_write_reads_back(file: Seq<u8>, pos: nat, data: Seq<u8>)
    ensures
        ({
            let after = overwritten(file, pos, data);
            &&& after.subrange(pos as int, (pos + data.len()) as int) == data
            &&& forall|i: int|
                0 <= i < file.len() && !(pos <= i < pos + data.len()) ==> #[trigger] after[i]
                    == file[i]
        }),
{
    let after = overwritten(file, pos, data);
    assert(after.subrange(pos as int, (pos + data.len()) as int) =~= data);
}

/// To write at the end is to append.
pub proof fn law_write_at_end_appends(file: Seq<u8>, data: Seq<u8>)
    ensures
        overwritten(file, file.len(), data) == file + data,
{
    assert(overwritten(file, file.len(), data) =~= file + data);
}

/// A seek goes to the given offset from the start, to an offset from the end
/// of the file, or to an offset from where the buffer is. One from the start
/// past the largest signed number is one before the start.
pub proof fn law_seek_targets(len: nat, pos: u64, off: i64, n: u64)
    ensures
        target_of(len, pos, SeekTo::End(off)) - len == off,
        target_of(len, pos, SeekTo::Current(off)) - pos == off,
        n <= i64::MAX ==> target_of(len, pos, SeekTo::Start(n)) == n,
        n > i64::MAX ==> target_of(len, pos, SeekTo::Start(n)) < 0,
{
}

} // verus!
