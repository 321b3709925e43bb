//! The in-memory log region and the log levels.

use vstd::prelude::*;
use vstd::string::StringSliceAdditionalSpecFns;

verus! {

/// A ring of `N` bytes that log text is written to. Text is always followed
/// by a zero byte; text that would not fit behind the current position
/// starts over at the front.
pub struct MemReg<const N: usize> {
    reg: [u8; N],
    pos: usize,
}

/// The ring `reg` and the position after `bytes` were written from `pos` on,
/// the position wrapping round at the end of the ring.
pub open spec fn ring_written(reg: Seq<u8>, pos: int, bytes: Seq<u8>) -> (Seq<u8>, int)
    decreases bytes.len(),
{
    if bytes.len() == 0 {
        (reg, pos)
    } else {
        let (ring, at) = ring_written(reg, pos, bytes.drop_last());
        (ring.update(at, bytes.last()), (at + 1) % (reg.len() as int))
    }
}

/// Where text of `len` bytes starts when the position is `pos`: at `pos` if
/// the text and its zero byte end before the end of the ring, at 0 else.
pub open spec fn text_start(size: int, pos: int, len: int) -> int {
    if pos + len + 1 >= size {
        0
    } else {
        pos
    }
}

impl<const N: usize> MemReg<N> {
    /// The bytes of the ring.
    pub closed spec fn ring(&self) -> Seq<u8> {
        self.reg@
    }

    /// The position at which the next text starts unless it has to start over.
    pub closed spec fn position(&self) -> int {
        self.pos as int
    }

    /// The position lies inside the ring.
    pub open spec fn wf(&self) -> bool {
        0 <= self.position() < N && self.ring().len() == N
    }

    /// A ring of zeros with the position at the front.
    pub fn new() -> (region: Self)
        requires
            N > 0,
        ensures
            region.wf(),
            region.position() == 0,
            forall|i: int| 0 <= i < N ==> region.ring()[i] == 0,
    {
        MemReg { reg: [0u8; N], pos: 0 }
    }

    /// Writes the bytes of `s` to the ring and a zero byte behind them. The
    /// position is left at the zero byte, so that the next text overwrites it.
    pub fn write_str(&mut self, s: &str)
        requires
            old(self).wf(),
        ensures
            final(self).wf(),
            ({
                let bytes = s.spec_bytes();
                let start = text_start(N as int, old(self).position(), bytes.len() as int);
                let (ring, at) = ring_written(old(self).ring(), start, bytes);
                final(self).position() == at && final(self).ring() == ring.update(at, 0u8)
            }),
    {
        let bytes = s.as_bytes();
        let len: usize = bytes.len();
        if len >= N || self.pos >= N - len || self.pos + len + 1 >= N {
            self.pos = 0;
        }
        let ghost start = self.pos as int;
        let mut i: usize = 0;
        while i < len
            invariant
                i <= len,
                len == bytes@.len(),
                N > 0,
                0 <= self.pos < N,
                self.reg@.len() == N,
                (self.reg@, self.pos as int) == ring_written(
                    old(self).reg@,
                    start,
                    bytes@.take(i as int),
                ),
            decreases len - i,
        {
            let b: u8 = bytes[i];
            self.reg[self.pos] = b;
            self.pos = (self.pos + 1) % N;
            proof {
                assert(bytes@.take(i + 1).drop_last() == bytes@.take(i as int));
            }
            i += 1;
        }
        assert(bytes@.take(len as int) == bytes@);
        self.reg[self.pos] = 0;
    }

    /// The position at which the next text starts unless it has to start over.
    pub fn pos(&self) -> (pos: usize)
        ensures
            pos == self.position(),
    {
        self.pos
    }

    /// Byte `index` of the ring.
    pub fn byte(&self, index: usize) -> (value: u8)
        requires
            index < N,
        ensures
            value == self.ring()[index as int],
    {
        self.reg[index]
    }
}

/// Severity of a log line.
#[derive(Clone, Copy, Debug, PartialEq, Eq, Structural)]
pub enum LogLevel {
    Error,
    Warn,
    Info,
    Debug,
    Trace,
}

impl LogLevel {
    /// Rank of the level: 0 for `Error` up to 4 for `Trace`.
    pub open spec fn rank(self) -> int {
        match self {
            LogLevel::Error => 0,
            LogLevel::Warn => 1,
            LogLevel::Info => 2,
            LogLevel::Debug => 3,
            LogLevel::Trace => 4,
        }
    }

    /// Rank of the level: 0 for `Error` up to 4 for `Trace`.
    pub fn index(self) -> (rank: usize)
        ensures
            rank == self.rank(),
    {
        match self {
            LogLevel::Error => 0,
            LogLevel::Warn => 1,
            LogLevel::Info => 2,
            LogLevel::Debug => 3,
            LogLevel::Trace => 4,
        }
    }

    /// The name under which the level appears in a log line.
    pub fn name(self) -> (name: &'static str)
        ensures
            name@ == match self {
                LogLevel::Error => "ERROR"@,
                LogLevel::Warn => "WARN"@,
                LogLevel::Info => "INFO"@,
                LogLevel::Debug => "DEBUG"@,
                LogLevel::Trace => "TRACE"@,
            },
    {
        match self {
            LogLevel::Error => "ERROR",
            LogLevel::Warn => "WARN",
            LogLevel::Info => "INFO",
            LogLevel::Debug => "DEBUG",
            LogLevel::Trace => "TRACE",
        }
    }
}

} // verus!
