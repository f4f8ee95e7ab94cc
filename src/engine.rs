//! The overlay engine's decisions. The engine never touches a file itself:
//! each step hands out one action on a backing file, and whoever runs the
//! engine performs it and hands the outcome back as an event.

use vstd::prelude::*;
use crate::blocks::{Block, IterBlocks, iter_blocks};
use crate::layout::{Layout, OverlayError, be_value};

verus! {

/// The three files behind an overlay.
#[derive(Debug, PartialEq, Eq, Structural, Clone, Copy)]
pub enum FileId {
    /// The read-only file whose contents the overlay starts from.
    Base,
    /// The index and the overwritten copies of base blocks.
    Diff,
    /// The bytes past the base's full blocks.
    Extra,
}

/// What the engine asks to be done next.
#[derive(Debug)]
pub enum Action {
    /// Read `len` bytes of `file` at `at`; answer with `Event::Bytes`.
    Read { file: FileId, at: u64, len: u64 },
    /// Write `data` into `file` at `at`; answer with `Event::Written`.
    Write { file: FileId, at: u64, data: Vec<u8> },
    /// Write `len` zero bytes into `file` at `at`; answer with `Event::Written`.
    Zeros { file: FileId, at: u64, len: u64 },
    /// Measure `file`; answer with `Event::Length`.
    Length { file: FileId },
    /// The operation is over and succeeded.
    Finished,
    /// The operation is over and failed.
    Failed(OverlayError),
}

/// The outcome of the last action.
#[derive(Debug)]
pub enum Event {
    /// The bytes read, fewer than asked for where the file ended first.
    Bytes(Vec<u8>),
    /// The length of the file measured.
    Length(u64),
    /// The bytes were written.
    Written,
}

/// The state of a set-up overlay: its geometry and the virtual file's length.
#[derive(Debug, PartialEq, Eq, Structural, Clone, Copy)]
pub struct Overlay {
    pub layout: Layout,
    pub file_size: u64,
}

impl Overlay {
    pub open spec fn wf(&self) -> bool {
        &&& self.layout.wf()
        &&& self.file_size >= self.layout.spec_base_region()
    }

    /// Starts writing `data` at `start`.
    pub fn write(&self, start: u64, data: Vec<u8>) -> (r: WriteOp)
        requires
            self.wf(),
            start + data@.len() <= u64::MAX,
        ensures
            r.wf(),
            r.spec_layout() == self.layout,
            r.spec_file_size() == self.file_size,
            r.spec_phase() == WritePhase::Blocks,
            r.spec_data() == data@,
            r.spec_start() == start,
            r.spec_iter().position() == start,
            r.spec_iter().end() == start + data@.len(),
    {
        let iter = iter_blocks(self.layout.block_size, start, data.len() as u64);
        WriteOp { layout: self.layout, file_size: self.file_size, start, data, iter, phase: WritePhase::Blocks }
    }

    /// Takes on the virtual file's length as a finished write left it.
    pub fn finish_write(&mut self, op: &WriteOp)
        requires
            old(self).wf(),
            op.wf(),
            op.spec_layout() == old(self).layout,
        ensures
            final(self).wf(),
            final(self).layout == old(self).layout,
            final(self).file_size == op.spec_file_size(),
    {
        self.file_size = op.file_size;
    }

    /// Starts a read of up to `size` bytes at `start`, clamped to the end of
    /// the virtual file.
    pub fn read(&self, start: u64, size: u64) -> (r: ReadOp)
        requires
            self.wf(),
        ensures
            r.wf(),
            r.spec_layout() == self.layout,
            r.spec_phase() == ReadPhase::Blocks,
            r.spec_out().len() == 0,
            r.spec_start() == start,
            r.spec_iter().position() == start,
            r.spec_iter().buffer_offset() == 0,
            r.spec_iter().end() == start + clamp(self.file_size as int, start as int, size as int),
    {
        let n: u64 = if start >= self.file_size {
            0
        } else if size < self.file_size - start {
            size
        } else {
            self.file_size - start
        };
        let iter = iter_blocks(self.layout.block_size, start, n);
        proof {
            iter.lemma_remaining();
            if n > 0 {
                assert(iter.remaining()[0].start == start);
            }
        }
        ReadOp { layout: self.layout, start, iter, out: Vec::new(), phase: ReadPhase::Blocks }
    }
}

/// `s` with `d` written over it at `at`; where `at` lies past the end, the
/// gap reads as zeros.
pub open spec fn overwrite(s: Seq<u8>, at: int, d: Seq<u8>) -> Seq<u8> {
    let n = if d.len() > 0 && at + d.len() > s.len() { at + d.len() } else { s.len() as int };
    Seq::new(n as nat, |i: int| if at <= i < at + d.len() { d[i - at] } else if i < s.len() { s[i] } else { 0u8 })
}

/// Copies `data[lo..hi]`.
fn copy_range(data: &Vec<u8>, lo: usize, hi: usize) -> (r: Vec<u8>)
    requires
        lo <= hi <= data@.len(),
    ensures
        r@ == data@.subrange(lo as int, hi as int),
{
    let mut r: Vec<u8> = Vec::new();
    let mut i: usize = lo;
    while i < hi
        invariant
            lo <= i <= hi <= data@.len(),
            r@ == data@.subrange(lo as int, i as int),
        decreases hi - i,
    {
        r.push(data[i]);
        i = i + 1;
        assert(r@ =~= data@.subrange(lo as int, i as int));
    }
    r
}

/// Writes `d` over `buf` at `at`.
fn splice(buf: &mut Vec<u8>, at: usize, d: &Vec<u8>)
    requires
        at + d@.len() <= old(buf)@.len(),
    ensures
        final(buf)@ == overwrite(old(buf)@, at as int, d@),
{
    let n = buf.len();
    let mut i: usize = 0;
    while i < d.len()
        invariant
            at + d@.len() <= n,
            buf@.len() == n,
            n == old(buf)@.len(),
            i <= d@.len(),
            forall|j: int| 0 <= j < buf@.len() ==> #[trigger] buf@[j] == if at <= j < at + i { d@[j - at] } else { old(buf)@[j] },
        decreases d@.len() - i,
    {
        buf.set(at + i, d[i]);
        i = i + 1;
    }
    assert(buf@ =~= overwrite(old(buf)@, at as int, d@));
}

/// How many of the `size` bytes at `start` lie before `file_size`.
pub open spec fn clamp(file_size: int, start: int, size: int) -> int {
    if start >= file_size { 0 } else if size < file_size - start { size } else { file_size - start }
}

/// Where a setup stands.
#[derive(Debug, PartialEq, Eq, Structural, Clone, Copy)]
pub enum SetupPhase {
    /// Waiting for the base's length.
    BaseLength,
    /// Waiting for the diff's length.
    DiffLength,
    /// Waiting for the zeroed index to be written.
    HeaderWritten,
    /// Waiting for the extra file's length.
    ExtraLength,
    /// Waiting for the base's trailing partial block.
    TailBytes,
    /// Waiting for that block to be written into the extra file.
    TailWritten,
    Done,
    Failed(OverlayError),
}

/// Setting up an overlay over its three files: sizing the index, giving an
/// empty diff a zeroed index, and seeding an empty extra file with the
/// base's trailing partial block.
pub struct SetupOp {
    block_size: u64,
    base_size: u64,
    layout: Layout,
    extra_size: u64,
    phase: SetupPhase,
}

/// Whether a base of `base_size` bytes in blocks of `block_size` bytes is too
/// large for the index's offsets.
pub open spec fn base_too_large(block_size: u64, base_size: u64) -> bool {
    base_size / block_size * 8 > u64::MAX
}

impl SetupOp {
    pub closed spec fn spec_block_size(&self) -> u64 {
        self.block_size
    }

    pub closed spec fn spec_base_size(&self) -> u64 {
        self.base_size
    }

    pub closed spec fn spec_layout(&self) -> Layout {
        self.layout
    }

    pub closed spec fn spec_extra_size(&self) -> u64 {
        self.extra_size
    }

    pub closed spec fn spec_phase(&self) -> SetupPhase {
        self.phase
    }

    pub closed spec fn wf(&self) -> bool {
        &&& self.block_size > 0
        &&& match self.phase {
            SetupPhase::BaseLength => true,
            SetupPhase::Failed(_) => true,
            _ => {
                &&& self.layout.wf()
                &&& self.layout.block_size == self.block_size
                &&& self.layout.nblocks == self.base_size / self.block_size
                &&& self.phase == SetupPhase::Done ==> self.layout.spec_base_region() + self.extra_size <= u64::MAX
                &&& self.phase == SetupPhase::DiffLength ==> self.layout.nblocks > 0
                &&& self.phase == SetupPhase::HeaderWritten ==> self.layout.nblocks > 0
            },
        }
    }

    /// Starts setting up an overlay with blocks of `block_size` bytes; the
    /// first action asks for the base's length.
    pub fn new(block_size: u64) -> (r: (SetupOp, Action))
        requires
            block_size > 0,
        ensures
            r.0.wf(),
            r.0.spec_block_size() == block_size,
            r.0.spec_phase() == SetupPhase::BaseLength,
            r.1 == (Action::Length { file: FileId::Base }),
    {
        let op = SetupOp {
            block_size,
            base_size: 0,
            layout: Layout { block_size, nblocks: 0, nbytes: 4 },
            extra_size: 0,
            phase: SetupPhase::BaseLength,
        };
        (op, Action::Length { file: FileId::Base })
    }

    fn fail(&mut self, e: OverlayError) -> (r: Action)
        requires
            old(self).wf(),
        ensures
            final(self).wf(),
            final(self).spec_phase() == SetupPhase::Failed(e),
            final(self).spec_block_size() == old(self).spec_block_size(),
            final(self).spec_base_size() == old(self).spec_base_size(),
            final(self).spec_layout() == old(self).spec_layout(),
            r == Action::Failed(e),
    {
        self.phase = SetupPhase::Failed(e);
        Action::Failed(e)
    }

    /// Settles the virtual file's length once the extra file's is known.
    fn finish(&mut self, extra_size: u64) -> (r: Action)
        requires
            old(self).wf(),
            old(self).phase != SetupPhase::BaseLength,
            !(old(self).phase is Failed),
        ensures
            final(self).wf(),
            final(self).spec_block_size() == old(self).spec_block_size(),
            final(self).spec_base_size() == old(self).spec_base_size(),
            final(self).spec_layout() == old(self).spec_layout(),
            if old(self).spec_layout().spec_base_region() + extra_size > u64::MAX {
                final(self).spec_phase() == SetupPhase::Failed(OverlayError::TooLarge)
                    && r == Action::Failed(OverlayError::TooLarge)
            } else {
                final(self).spec_phase() == SetupPhase::Done && r == Action::Finished
                    && final(self).spec_extra_size() == extra_size
            },
    {
        let region = self.layout.base_region();
        if extra_size > u64::MAX - region {
            return self.fail(OverlayError::TooLarge);
        }
        self.extra_size = extra_size;
        self.phase = SetupPhase::Done;
        Action::Finished
    }

    /// Hands the outcome of the last action to the setup and returns the
    /// next action.
    pub fn resume(&mut self, event: Event) -> (r: Action)
        requires
            old(self).wf(),
        ensures
            final(self).wf(),
            final(self).spec_block_size() == old(self).spec_block_size(),
            setup_resumed(*old(self), event, *final(self), r),
    {
        let bs = self.block_size;
        match self.phase {
            SetupPhase::BaseLength => {
                match event {
                    Event::Length(n) => {
                        assert(n / bs > u64::MAX / 8 <==> base_too_large(bs, n)) by (nonlinear_arith)
                            requires bs > 0;
                        if n / bs > u64::MAX / 8 {
                            return self.fail(OverlayError::TooLarge);
                        }
                        self.base_size = n;
                        self.layout = Layout::new(bs, n);
                        if self.layout.nblocks > 0 {
                            self.phase = SetupPhase::DiffLength;
                            Action::Length { file: FileId::Diff }
                        } else {
                            self.phase = SetupPhase::ExtraLength;
                            Action::Length { file: FileId::Extra }
                        }
                    },
                    _ => self.fail(OverlayError::ShortRead),
                }
            },
            SetupPhase::DiffLength => {
                match event {
                    Event::Length(d) => {
                        let hdr = self.layout.header_len();
                        assert(hdr >= 1) by (nonlinear_arith)
                            requires hdr == self.layout.nbytes * self.layout.nblocks, self.layout.nbytes >= 4,
                                self.layout.nblocks > 0;
                        if d == 0 {
                            self.phase = SetupPhase::HeaderWritten;
                            let mut zero: Vec<u8> = Vec::new();
                            zero.push(0u8);
                            assert(zero@ =~= seq![0u8]);
                            Action::Write { file: FileId::Diff, at: hdr - 1, data: zero }
                        } else if d < hdr {
                            self.fail(OverlayError::CorruptedDiff)
                        } else {
                            self.phase = SetupPhase::ExtraLength;
                            Action::Length { file: FileId::Extra }
                        }
                    },
                    _ => self.fail(OverlayError::ShortRead),
                }
            },
            SetupPhase::HeaderWritten => {
                match event {
                    Event::Written => {
                        self.phase = SetupPhase::ExtraLength;
                        Action::Length { file: FileId::Extra }
                    },
                    _ => self.fail(OverlayError::ShortRead),
                }
            },
            SetupPhase::ExtraLength => {
                match event {
                    Event::Length(x) => {
                        let rem = self.base_size % bs;
                        if rem != 0 && x == 0 {
                            self.phase = SetupPhase::TailBytes;
                            Action::Read { file: FileId::Base, at: self.layout.base_region(), len: rem }
                        } else {
                            self.finish(x)
                        }
                    },
                    _ => self.fail(OverlayError::ShortRead),
                }
            },
            SetupPhase::TailBytes => {
                match event {
                    Event::Bytes(t) => {
                        if t.len() as u64 != self.base_size % bs {
                            return self.fail(OverlayError::ShortRead);
                        }
                        self.phase = SetupPhase::TailWritten;
                        Action::Write { file: FileId::Extra, at: 0, data: t }
                    },
                    _ => self.fail(OverlayError::ShortRead),
                }
            },
            SetupPhase::TailWritten => {
                match event {
                    Event::Written => {
                        let rem = self.base_size % bs;
                        self.finish(rem)
                    },
                    _ => self.fail(OverlayError::ShortRead),
                }
            },
            SetupPhase::Done => Action::Finished,
            SetupPhase::Failed(e) => Action::Failed(e),
        }
    }

    /// The overlay that a finished setup produced.
    pub fn overlay(&self) -> (r: Option<Overlay>)
        requires
            self.wf(),
        ensures
            self.spec_phase() == SetupPhase::Done
                ==> self.spec_layout().spec_base_region() + self.spec_extra_size() <= u64::MAX,
            self.spec_phase() == SetupPhase::Done ==> r == Some(Overlay {
                layout: self.spec_layout(),
                file_size: (self.spec_layout().spec_base_region() + self.spec_extra_size()) as u64,
            }) && r.unwrap().wf(),
            self.spec_phase() != SetupPhase::Done ==> r is None,
    {
        match self.phase {
            SetupPhase::Done => {
                Some(Overlay { layout: self.layout, file_size: self.layout.base_region() + self.extra_size })
            },
            _ => None,
        }
    }
}

/// `post` and `r` come from `pre` on `event`.
pub open spec fn setup_resumed(pre: SetupOp, event: Event, post: SetupOp, r: Action) -> bool {
    let bs = pre.spec_block_size();
    let layout = post.spec_layout();
    match pre.spec_phase() {
        SetupPhase::BaseLength => match event {
            Event::Length(n) => if base_too_large(bs, n) {
                post.spec_phase() == SetupPhase::Failed(OverlayError::TooLarge) && r == Action::Failed(OverlayError::TooLarge)
            } else {
                &&& post.spec_base_size() == n
                &&& layout.block_size == bs
                &&& layout.nblocks == n / bs
                &&& layout.wf()
                &&& if layout.nblocks > 0 {
                    post.spec_phase() == SetupPhase::DiffLength && r == Action::Length { file: FileId::Diff }
                } else {
                    post.spec_phase() == SetupPhase::ExtraLength && r == Action::Length { file: FileId::Extra }
                }
            },
            _ => post.spec_phase() == SetupPhase::Failed(OverlayError::ShortRead) && r == Action::Failed(OverlayError::ShortRead),
        },
        SetupPhase::DiffLength => match event {
            Event::Length(d) => {
                &&& post.spec_base_size() == pre.spec_base_size()
                &&& layout == pre.spec_layout()
                &&& if d == 0 {
                    &&& post.spec_phase() == SetupPhase::HeaderWritten
                    &&& r matches Action::Write { file, at, data }
                    &&& file == FileId::Diff
                    &&& at == layout.spec_header_len() - 1
                    &&& data@ == seq![0u8]
                } else if d < layout.spec_header_len() {
                    post.spec_phase() == SetupPhase::Failed(OverlayError::CorruptedDiff) && r == Action::Failed(OverlayError::CorruptedDiff)
                } else {
                    post.spec_phase() == SetupPhase::ExtraLength && r == Action::Length { file: FileId::Extra }
                }
            },
            _ => post.spec_phase() == SetupPhase::Failed(OverlayError::ShortRead) && r == Action::Failed(OverlayError::ShortRead),
        },
        SetupPhase::HeaderWritten => match event {
            Event::Written => post.spec_base_size() == pre.spec_base_size() && layout == pre.spec_layout()
                && post.spec_phase() == SetupPhase::ExtraLength && r == Action::Length { file: FileId::Extra },
            _ => post.spec_phase() == SetupPhase::Failed(OverlayError::ShortRead) && r == Action::Failed(OverlayError::ShortRead),
        },
        SetupPhase::ExtraLength => match event {
            Event::Length(x) => {
                &&& post.spec_base_size() == pre.spec_base_size()
                &&& layout == pre.spec_layout()
                &&& if pre.spec_base_size() % bs != 0 && x == 0 {
                    post.spec_phase() == SetupPhase::TailBytes
                        && r == Action::Read { file: FileId::Base, at: layout.spec_base_region() as u64, len: (pre.spec_base_size() % bs) as u64 }
                } else {
                    finished(layout, x as int, post, r)
                }
            },
            _ => post.spec_phase() == SetupPhase::Failed(OverlayError::ShortRead) && r == Action::Failed(OverlayError::ShortRead),
        },
        SetupPhase::TailBytes => match event {
            Event::Bytes(t) if t@.len() == pre.spec_base_size() % bs => {
                &&& post.spec_base_size() == pre.spec_base_size()
                &&& layout == pre.spec_layout()
                &&& post.spec_phase() == SetupPhase::TailWritten
                &&& r matches Action::Write { file, at, data }
                &&& file == FileId::Extra
                &&& at == 0
                &&& data == t
            },
            _ => post.spec_phase() == SetupPhase::Failed(OverlayError::ShortRead) && r == Action::Failed(OverlayError::ShortRead),
        },
        SetupPhase::TailWritten => match event {
            Event::Written => post.spec_base_size() == pre.spec_base_size() && layout == pre.spec_layout()
                && finished(layout, (pre.spec_base_size() % bs) as int, post, r),
            _ => post.spec_phase() == SetupPhase::Failed(OverlayError::ShortRead) && r == Action::Failed(OverlayError::ShortRead),
        },
        SetupPhase::Done => post == pre && r == Action::Finished,
        SetupPhase::Failed(e) => post == pre && r == Action::Failed(e),
    }
}

/// The setup ends with an extra file of `extra_size` bytes.
pub open spec fn finished(layout: Layout, extra_size: int, post: SetupOp, r: Action) -> bool {
    if layout.spec_base_region() + extra_size > u64::MAX {
        post.spec_phase() == SetupPhase::Failed(OverlayError::TooLarge) && r == Action::Failed(OverlayError::TooLarge)
    } else {
        post.spec_phase() == SetupPhase::Done && r == Action::Finished && post.spec_extra_size() == extra_size
    }
}

/// Where a read stands.
#[derive(Debug, PartialEq, Eq, Structural, Clone, Copy)]
pub enum ReadPhase {
    /// About to take the next slice.
    Blocks,
    /// Waiting for the index entry of the slice's block.
    Entry(Block),
    /// Waiting for the slice's bytes.
    Bytes(Block),
    Done,
    Failed(OverlayError),
}

/// A read in progress.
pub struct ReadOp {
    layout: Layout,
    start: u64,
    iter: IterBlocks,
    out: Vec<u8>,
    phase: ReadPhase,
}

/// Whether `b` is a slice that an operation of this geometry may hand out.
pub open spec fn block_ok(layout: Layout, b: Block) -> bool {
    &&& b.start < b.end
    &&& b.block_size == layout.block_size
    &&& b.end <= (b.spec_num() + 1) * layout.block_size
}

impl ReadOp {
    pub closed spec fn spec_layout(&self) -> Layout {
        self.layout
    }

    pub closed spec fn spec_start(&self) -> u64 {
        self.start
    }

    pub closed spec fn spec_iter(&self) -> IterBlocks {
        self.iter
    }

    /// The bytes read so far.
    pub closed spec fn spec_out(&self) -> Seq<u8> {
        self.out@
    }

    pub closed spec fn spec_phase(&self) -> ReadPhase {
        self.phase
    }

    pub closed spec fn wf(&self) -> bool {
        &&& self.layout.wf()
        &&& self.iter.wf()
        &&& self.iter.block_size() == self.layout.block_size
        &&& self.iter.position() >= self.start
        &&& self.iter.buffer_offset() == self.iter.position() - self.start
        &&& match self.phase {
            ReadPhase::Entry(b) => block_ok(self.layout, b) && b.end == self.iter.position()
                && b.offset == b.start - self.start,
            ReadPhase::Bytes(b) => block_ok(self.layout, b) && b.end == self.iter.position()
                && b.offset == b.start - self.start,
            _ => true,
        }
    }

    /// What a well-formed read keeps true.
    pub proof fn lemma_wf(&self)
        requires
            self.wf(),
        ensures
            self.spec_layout().wf(),
            self.spec_iter().wf(),
            self.spec_iter().block_size() == self.spec_layout().block_size,
            self.spec_iter().position() >= self.spec_start(),
            self.spec_iter().buffer_offset() == self.spec_iter().position() - self.spec_start(),
            self.spec_phase() matches ReadPhase::Entry(b) ==> block_ok(self.spec_layout(), b)
                && b.end == self.spec_iter().position(),
            self.spec_phase() matches ReadPhase::Bytes(b) ==> block_ok(self.spec_layout(), b)
                && b.end == self.spec_iter().position(),
    {
    }

    /// Takes the next slice and asks for what it needs: the extra file's
    /// bytes past the base's full blocks, else the block's index entry.
    fn advance(&mut self) -> (r: Action)
        requires
            old(self).wf(),
        ensures
            final(self).wf(),
            advanced(*old(self), *final(self), r),
    {
        proof {
            self.iter.lemma_remaining();
        }
        match self.iter.next() {
            None => {
                self.phase = ReadPhase::Done;
                Action::Finished
            },
            Some(b) => {
                let num = b.num();
                if num >= self.layout.nblocks {
                    proof {
                        assert(b.start >= self.layout.spec_base_region()) by (nonlinear_arith)
                            requires num == b.start / self.layout.block_size, num >= self.layout.nblocks,
                                self.layout.block_size > 0;
                    }
                    self.phase = ReadPhase::Bytes(b);
                    Action::Read { file: FileId::Extra, at: b.start - self.layout.base_region(), len: b.size() }
                } else {
                    self.phase = ReadPhase::Entry(b);
                    Action::Read { file: FileId::Diff, at: self.layout.entry_offset(num), len: self.layout.nbytes }
                }
            },
        }
    }

    /// Hands the outcome of the last action to the read and returns the next
    /// action. The first call's event is not looked at.
    pub fn resume(&mut self, event: Event) -> (r: Action)
        requires
            old(self).wf(),
        ensures
            final(self).wf(),
            final(self).spec_layout() == old(self).spec_layout(),
            final(self).spec_start() == old(self).spec_start(),
            r is Read || r is Finished || r is Failed,
            match old(self).spec_phase() {
                ReadPhase::Blocks => advanced(*old(self), *final(self), r),
                ReadPhase::Entry(b) => match event {
                    Event::Bytes(e) if e@.len() == old(self).spec_layout().nbytes => entry_followed(*old(self), *final(self), r, b, be_value(e@) as int),
                    _ => final(self).spec_phase() == ReadPhase::Failed(OverlayError::ShortRead)
                        && r == Action::Failed(OverlayError::ShortRead),
                },
                ReadPhase::Bytes(b) => match event {
                    Event::Bytes(d) if d@.len() == b.spec_size() =>
                        advanced_from(*old(self), *final(self), r, old(self).spec_out() + d@),
                    _ => final(self).spec_phase() == ReadPhase::Failed(OverlayError::ShortRead)
                        && r == Action::Failed(OverlayError::ShortRead),
                },
                ReadPhase::Done => *final(self) == *old(self) && r == Action::Finished,
                ReadPhase::Failed(e) => *final(self) == *old(self) && r == Action::Failed(e),
            },
    {
        match self.phase {
            ReadPhase::Blocks => self.advance(),
            ReadPhase::Entry(b) => {
                match event {
                    Event::Bytes(e) => {
                        if e.len() as u64 != self.layout.nbytes {
                            self.phase = ReadPhase::Failed(OverlayError::ShortRead);
                            return Action::Failed(OverlayError::ShortRead);
                        }
                        match self.layout.read_index(e.as_slice()) {
                            Err(err) => {
                                self.phase = ReadPhase::Failed(err);
                                Action::Failed(err)
                            },
                            Ok(None) => {
                                self.phase = ReadPhase::Bytes(b);
                                Action::Read { file: FileId::Base, at: b.start, len: b.size() }
                            },
                            Ok(Some(pos)) => {
                                let within = b.start % self.layout.block_size;
                                if pos > u64::MAX - within {
                                    self.phase = ReadPhase::Failed(OverlayError::CorruptedDiff);
                                    Action::Failed(OverlayError::CorruptedDiff)
                                } else {
                                    self.phase = ReadPhase::Bytes(b);
                                    Action::Read { file: FileId::Diff, at: pos + within, len: b.size() }
                                }
                            },
                        }
                    },
                    _ => {
                        self.phase = ReadPhase::Failed(OverlayError::ShortRead);
                        Action::Failed(OverlayError::ShortRead)
                    },
                }
            },
            ReadPhase::Bytes(b) => {
                match event {
                    Event::Bytes(d) => {
                        if d.len() as u64 != b.size() {
                            self.phase = ReadPhase::Failed(OverlayError::ShortRead);
                            return Action::Failed(OverlayError::ShortRead);
                        }
                        let mut d = d;
                        self.out.append(&mut d);
                        self.advance()
                    },
                    _ => {
                        self.phase = ReadPhase::Failed(OverlayError::ShortRead);
                        Action::Failed(OverlayError::ShortRead)
                    },
                }
            },
            ReadPhase::Done => Action::Finished,
            ReadPhase::Failed(e) => Action::Failed(e),
        }
    }

    /// The bytes read.
    pub fn into_bytes(self) -> (r: Vec<u8>)
        ensures
            r@ == self.spec_out(),
    {
        self.out
    }
}

/// Where a write stands.
#[derive(Debug, PartialEq, Eq, Structural, Clone, Copy)]
pub enum WritePhase {
    /// About to take the next slice.
    Blocks,
    /// Waiting for the index entry of the slice's block.
    Entry(Block),
    /// Waiting for the diff's length, where a new payload slot goes.
    Length(Block),
    /// Waiting for the index entry naming the new slot at the diff offset to be written.
    Indexed(Block, u64),
    /// Waiting for the base block that the slice goes into.
    BaseBlock(Block, u64),
    /// Waiting for the slice's bytes to be written to the diff.
    Piece(Block),
    /// Waiting for the zeros up to the slice to be written to the extra file.
    Gap(Block),
    /// Waiting for the rest of the data to be written to the extra file.
    Tail(Block),
    Done,
    Failed(OverlayError),
}

/// A write in progress.
pub struct WriteOp {
    layout: Layout,
    file_size: u64,
    start: u64,
    data: Vec<u8>,
    iter: IterBlocks,
    phase: WritePhase,
}

/// Whether `b` is a slice of a write of `len` bytes at `start` that an
/// operation of this geometry may hand out.
pub open spec fn slice_ok(layout: Layout, start: u64, len: int, b: Block) -> bool {
    &&& block_ok(layout, b)
    &&& b.offset == b.start - start
    &&& b.start >= start
    &&& b.end <= start + len
}

impl WriteOp {
    pub closed spec fn spec_layout(&self) -> Layout {
        self.layout
    }

    /// The virtual file's length as the write has left it so far.
    pub closed spec fn spec_file_size(&self) -> u64 {
        self.file_size
    }

    pub closed spec fn spec_start(&self) -> u64 {
        self.start
    }

    pub closed spec fn spec_data(&self) -> Seq<u8> {
        self.data@
    }

    pub closed spec fn spec_iter(&self) -> IterBlocks {
        self.iter
    }

    pub closed spec fn spec_phase(&self) -> WritePhase {
        self.phase
    }

    pub closed spec fn wf(&self) -> bool {
        let n = self.layout.nblocks;
        &&& self.layout.wf()
        &&& self.file_size >= self.layout.spec_base_region()
        &&& self.iter.wf()
        &&& self.iter.block_size() == self.layout.block_size
        &&& self.iter.position() >= self.start
        &&& self.iter.buffer_offset() == self.iter.position() - self.start
        &&& self.iter.end() == self.start + self.data@.len()
        &&& match self.phase {
            WritePhase::Entry(b) => slice_ok(self.layout, self.start, self.data@.len() as int, b)
                && b.end == self.iter.position() && b.spec_num() < n && ends_block(self.iter, b),
            WritePhase::Length(b) => slice_ok(self.layout, self.start, self.data@.len() as int, b)
                && b.end == self.iter.position() && b.spec_num() < n && ends_block(self.iter, b),
            WritePhase::Indexed(b, _) => slice_ok(self.layout, self.start, self.data@.len() as int, b)
                && b.end == self.iter.position() && b.spec_num() < n && ends_block(self.iter, b),
            WritePhase::BaseBlock(b, _) => slice_ok(self.layout, self.start, self.data@.len() as int, b)
                && b.end == self.iter.position() && b.spec_num() < n && ends_block(self.iter, b),
            WritePhase::Piece(b) => slice_ok(self.layout, self.start, self.data@.len() as int, b)
                && b.end == self.iter.position() && b.spec_num() < n && ends_block(self.iter, b),
            WritePhase::Gap(b) => slice_ok(self.layout, self.start, self.data@.len() as int, b)
                && b.spec_num() >= n && b.start > self.file_size,
            WritePhase::Tail(b) => slice_ok(self.layout, self.start, self.data@.len() as int, b)
                && b.spec_num() >= n && b.start <= self.file_size,
            _ => true,
        }
    }

    /// What a well-formed write keeps true.
    pub proof fn lemma_wf(&self)
        requires
            self.wf(),
        ensures
            self.spec_layout().wf(),
            self.spec_file_size() >= self.spec_layout().spec_base_region(),
            self.spec_iter().wf(),
            self.spec_iter().block_size() == self.spec_layout().block_size,
            self.spec_iter().position() >= self.spec_start(),
            self.spec_iter().buffer_offset() == self.spec_iter().position() - self.spec_start(),
            self.spec_iter().end() == self.spec_start() + self.spec_data().len(),
            write_phase_ok(*self),
    {
    }

    /// Takes the next slice and asks for what it needs.
    fn advance(&mut self) -> (r: Action)
        requires
            old(self).wf(),
        ensures
            final(self).wf(),
            write_advanced(*old(self), *final(self), r),
    {
        proof {
            self.iter.lemma_remaining();
        }
        match self.iter.next() {
            None => {
                self.phase = WritePhase::Done;
                Action::Finished
            },
            Some(b) => {
                let num = b.num();
                if num >= self.layout.nblocks {
                    let region = self.layout.base_region();
                    proof {
                        assert(b.start >= self.layout.spec_base_region()) by (nonlinear_arith)
                            requires num == b.start / self.layout.block_size, num >= self.layout.nblocks,
                                self.layout.block_size > 0;
                    }
                    if b.start > self.file_size {
                        self.phase = WritePhase::Gap(b);
                        Action::Zeros { file: FileId::Extra, at: self.file_size - region, len: b.start - self.file_size }
                    } else {
                        self.phase = WritePhase::Tail(b);
                        let len = self.data.len();
                        assert(b.offset <= len);
                        let rest = copy_range(&self.data, b.offset as usize, len);
                        Action::Write { file: FileId::Extra, at: b.start - region, data: rest }
                    }
                } else {
                    self.phase = WritePhase::Entry(b);
                    Action::Read { file: FileId::Diff, at: self.layout.entry_offset(num), len: self.layout.nbytes }
                }
            },
        }
    }

    /// The bytes of the data that slice `b` carries.
    fn piece(&self, b: Block) -> (r: Vec<u8>)
        requires
            slice_ok(self.layout, self.start, self.data@.len() as int, b),
        ensures
            r@ == piece_of(self.data@, b),
    {
        let len = self.data.len();
        assert(b.offset + (b.end - b.start) <= len);
        let lo = b.offset as usize;
        let hi = (b.offset + (b.end - b.start)) as usize;
        copy_range(&self.data, lo, hi)
    }

    fn fail(&mut self, e: OverlayError) -> (r: Action)
        requires
            old(self).wf(),
        ensures
            final(self).wf(),
            failed(*old(self), *final(self), r, e),
    {
        self.phase = WritePhase::Failed(e);
        Action::Failed(e)
    }

    /// Hands the outcome of the last action to the write and returns the
    /// next action. The first call's event is not looked at.
    pub fn resume(&mut self, event: Event) -> (r: Action)
        requires
            old(self).wf(),
        ensures
            final(self).wf(),
            final(self).spec_layout() == old(self).spec_layout(),
            final(self).spec_start() == old(self).spec_start(),
            final(self).spec_data() == old(self).spec_data(),
            write_resumed(*old(self), event, *final(self), r),
            r matches Action::Write { file, .. } ==> file != FileId::Base,
            r matches Action::Zeros { file, .. } ==> file == FileId::Extra,
    {
        let bs = self.layout.block_size;
        match self.phase {
            WritePhase::Blocks => self.advance(),
            WritePhase::Entry(b) => {
                match event {
                    Event::Bytes(e) => {
                        if e.len() as u64 != self.layout.nbytes {
                            return self.fail(OverlayError::ShortRead);
                        }
                        match self.layout.read_index(e.as_slice()) {
                            Err(err) => self.fail(err),
                            Ok(None) => {
                                self.phase = WritePhase::Length(b);
                                Action::Length { file: FileId::Diff }
                            },
                            Ok(Some(pos)) => {
                                let within = b.start % bs;
                                if pos > u64::MAX - within {
                                    self.fail(OverlayError::CorruptedDiff)
                                } else {
                                    self.phase = WritePhase::Piece(b);
                                    let piece = self.piece(b);
                                    Action::Write { file: FileId::Diff, at: pos + within, data: piece }
                                }
                            },
                        }
                    },
                    _ => self.fail(OverlayError::ShortRead),
                }
            },
            WritePhase::Length(b) => {
                match event {
                    Event::Length(len) => {
                        match self.layout.write_index(len) {
                            Err(err) => self.fail(err),
                            Ok(entry) => {
                                self.phase = WritePhase::Indexed(b, len);
                                Action::Write { file: FileId::Diff, at: self.layout.entry_offset(b.num()), data: entry }
                            },
                        }
                    },
                    _ => self.fail(OverlayError::ShortRead),
                }
            },
            WritePhase::Indexed(b, pos) => {
                match event {
                    Event::Written => {
                        if b.size() == bs {
                            self.phase = WritePhase::Piece(b);
                            let piece = self.piece(b);
                            Action::Write { file: FileId::Diff, at: pos, data: piece }
                        } else {
                            let num = b.num();
                            assert(num * bs <= self.layout.spec_base_region()) by (nonlinear_arith)
                                requires num < self.layout.nblocks, bs > 0, bs == self.layout.block_size;
                            self.phase = WritePhase::BaseBlock(b, pos);
                            Action::Read { file: FileId::Base, at: num * bs, len: bs }
                        }
                    },
                    _ => self.fail(OverlayError::ShortRead),
                }
            },
            WritePhase::BaseBlock(b, pos) => {
                match event {
                    Event::Bytes(buf) => {
                        if buf.len() as u64 != bs {
                            return self.fail(OverlayError::ShortRead);
                        }
                        let mut buf = buf;
                        let piece = self.piece(b);
                        proof {
                            lemma_within_block(bs as int, b.start as int, b.end as int);
                        }
                        splice(&mut buf, (b.start % bs) as usize, &piece);
                        self.phase = WritePhase::Piece(b);
                        Action::Write { file: FileId::Diff, at: pos, data: buf }
                    },
                    _ => self.fail(OverlayError::ShortRead),
                }
            },
            WritePhase::Piece(_) => {
                match event {
                    Event::Written => self.advance(),
                    _ => self.fail(OverlayError::ShortRead),
                }
            },
            WritePhase::Gap(b) => {
                match event {
                    Event::Written => {
                        self.file_size = b.start;
                        let len = self.data.len();
                        assert(b.offset <= len);
                        let rest = copy_range(&self.data, b.offset as usize, len);
                        self.phase = WritePhase::Tail(b);
                        Action::Write { file: FileId::Extra, at: b.start - self.layout.base_region(), data: rest }
                    },
                    _ => self.fail(OverlayError::ShortRead),
                }
            },
            WritePhase::Tail(b) => {
                match event {
                    Event::Written => {
                        let end = b.start + (self.data.len() as u64 - b.offset);
                        if end > self.file_size {
                            self.file_size = end;
                        }
                        self.phase = WritePhase::Done;
                        Action::Finished
                    },
                    _ => self.fail(OverlayError::ShortRead),
                }
            },
            WritePhase::Done => Action::Finished,
            WritePhase::Failed(e) => Action::Failed(e),
        }
    }
}

proof fn lemma_within_block(bs: int, s: int, e: int)
    requires
        bs > 0,
        0 <= s < e <= (s / bs + 1) * bs,
    ensures
        s % bs + (e - s) <= bs,
{
    assert(s == (s / bs) * bs + s % bs) by (nonlinear_arith) requires bs > 0;
    assert((s / bs + 1) * bs == (s / bs) * bs + bs) by (nonlinear_arith);
}

/// Where slices remain after `b`, `b` ends at its block's end.
pub open spec fn ends_block(iter: IterBlocks, b: Block) -> bool {
    iter.remaining().len() > 0 ==> b.end == (b.spec_num() + 1) * iter.block_size()
}

/// The slice that a write phase is about is one the write may hand out.
pub open spec fn write_phase_ok(op: WriteOp) -> bool {
    let layout = op.spec_layout();
    let len = op.spec_data().len() as int;
    let start = op.spec_start();
    let n = layout.nblocks;
    let pos = op.spec_iter().position();
    match op.spec_phase() {
        WritePhase::Entry(b) => slice_ok(layout, start, len, b) && b.end == pos && b.spec_num() < n
            && ends_block(op.spec_iter(), b),
        WritePhase::Length(b) => slice_ok(layout, start, len, b) && b.end == pos && b.spec_num() < n
            && ends_block(op.spec_iter(), b),
        WritePhase::Indexed(b, _) => slice_ok(layout, start, len, b) && b.end == pos && b.spec_num() < n
            && ends_block(op.spec_iter(), b),
        WritePhase::BaseBlock(b, _) => slice_ok(layout, start, len, b) && b.end == pos && b.spec_num() < n
            && ends_block(op.spec_iter(), b),
        WritePhase::Piece(b) => slice_ok(layout, start, len, b) && b.end == pos && b.spec_num() < n
            && ends_block(op.spec_iter(), b),
        WritePhase::Gap(b) => slice_ok(layout, start, len, b) && b.spec_num() >= n && b.start > op.spec_file_size(),
        WritePhase::Tail(b) => slice_ok(layout, start, len, b) && b.spec_num() >= n && b.start <= op.spec_file_size(),
        _ => true,
    }
}

/// The bytes of a write's data that slice `b` carries.
pub open spec fn piece_of(data: Seq<u8>, b: Block) -> Seq<u8> {
    data.subrange(b.offset as int, b.offset + (b.end - b.start))
}

/// `post` and `r` come from `pre` by failing with `e`.
pub open spec fn failed(pre: WriteOp, post: WriteOp, r: Action, e: OverlayError) -> bool {
    &&& post.spec_layout() == pre.spec_layout()
    &&& post.spec_start() == pre.spec_start()
    &&& post.spec_data() == pre.spec_data()
    &&& post.spec_file_size() == pre.spec_file_size()
    &&& post.spec_phase() == WritePhase::Failed(e)
    &&& r == Action::Failed(e)
}

/// `post` and `r` come from `pre` by taking the next slice of the write:
/// past the base's full blocks the rest of the data goes to the extra file,
/// after zeros up to it where it starts past the end; within them the
/// block's index entry is asked for.
pub open spec fn write_advanced(pre: WriteOp, post: WriteOp, r: Action) -> bool {
    let layout = pre.spec_layout();
    let rem = pre.spec_iter().remaining();
    let fs = pre.spec_file_size();
    &&& post.spec_layout() == layout
    &&& post.spec_start() == pre.spec_start()
    &&& post.spec_data() == pre.spec_data()
    &&& post.spec_file_size() == fs
    &&& if rem.len() == 0 {
        &&& post.spec_phase() == WritePhase::Done
        &&& r == Action::Finished
        &&& post.spec_iter() == pre.spec_iter()
    } else {
        let b = rem[0];
        &&& post.spec_iter().remaining() == rem.drop_first()
        &&& post.spec_iter().position() == b.end
        &&& if b.spec_num() >= layout.nblocks {
            if b.start > fs {
                &&& post.spec_phase() == WritePhase::Gap(b)
                &&& r == Action::Zeros { file: FileId::Extra, at: (fs - layout.spec_base_region()) as u64, len: (b.start - fs) as u64 }
            } else {
                &&& post.spec_phase() == WritePhase::Tail(b)
                &&& r matches Action::Write { file, at, data }
                &&& file == FileId::Extra
                &&& at == b.start - layout.spec_base_region()
                &&& data@ == pre.spec_data().subrange(b.offset as int, pre.spec_data().len() as int)
            }
        } else {
            &&& post.spec_phase() == WritePhase::Entry(b)
            &&& r == Action::Read { file: FileId::Diff, at: (b.spec_num() * layout.nbytes) as u64, len: layout.nbytes }
        }
    }
}

/// `post` and `r` come from `pre` on `event`.
pub open spec fn write_resumed(pre: WriteOp, event: Event, post: WriteOp, r: Action) -> bool {
    let layout = pre.spec_layout();
    let bs = layout.block_size as int;
    let data = pre.spec_data();
    match pre.spec_phase() {
        WritePhase::Blocks => write_advanced(pre, post, r),
        WritePhase::Entry(b) => match event {
            Event::Bytes(e) if e@.len() == layout.nbytes => {
                let k = be_value(e@) as int;
                match layout.spec_slot_position(k) {
                    None => post.spec_phase() == WritePhase::Length(b) && r == Action::Length { file: FileId::Diff }
                        && post.spec_iter() == pre.spec_iter() && post.spec_file_size() == pre.spec_file_size(),
                    Some(pos) => if pos <= u64::MAX && pos + (b.start as int) % bs <= u64::MAX {
                        &&& post.spec_phase() == WritePhase::Piece(b)
                        &&& post.spec_iter() == pre.spec_iter()
                        &&& post.spec_file_size() == pre.spec_file_size()
                        &&& r matches Action::Write { file, at, data: d }
                        &&& file == FileId::Diff
                        &&& at == pos + (b.start as int) % bs
                        &&& d@ == piece_of(data, b)
                    } else {
                        failed(pre, post, r, OverlayError::CorruptedDiff)
                    },
                }
            },
            _ => failed(pre, post, r, OverlayError::ShortRead),
        },
        WritePhase::Length(b) => match event {
            Event::Length(len) => if layout.spec_position_ok(len as int) {
                &&& post.spec_phase() == WritePhase::Indexed(b, len)
                &&& post.spec_iter() == pre.spec_iter()
                &&& post.spec_file_size() == pre.spec_file_size()
                &&& r matches Action::Write { file, at, data: e }
                &&& file == FileId::Diff
                &&& at == b.spec_num() * layout.nbytes
                &&& e@.len() == layout.nbytes
                &&& be_value(e@) == layout.spec_ordinal(len as int)
            } else {
                failed(pre, post, r, OverlayError::CorruptedDiff)
            },
            _ => failed(pre, post, r, OverlayError::ShortRead),
        },
        WritePhase::Indexed(b, pos) => match event {
            Event::Written => {
                &&& post.spec_iter() == pre.spec_iter()
                &&& post.spec_file_size() == pre.spec_file_size()
                &&& if b.end - b.start == bs {
                    &&& post.spec_phase() == WritePhase::Piece(b)
                    &&& r matches Action::Write { file, at, data: d }
                    &&& file == FileId::Diff
                    &&& at == pos
                    &&& d@ == piece_of(data, b)
                } else {
                    &&& post.spec_phase() == WritePhase::BaseBlock(b, pos)
                    &&& r == Action::Read { file: FileId::Base, at: (b.spec_num() * bs) as u64, len: bs as u64 }
                }
            },
            _ => failed(pre, post, r, OverlayError::ShortRead),
        },
        WritePhase::BaseBlock(b, pos) => match event {
            Event::Bytes(buf) if buf@.len() == bs => {
                &&& post.spec_phase() == WritePhase::Piece(b)
                &&& post.spec_iter() == pre.spec_iter()
                &&& post.spec_file_size() == pre.spec_file_size()
                &&& r matches Action::Write { file, at, data: d }
                &&& file == FileId::Diff
                &&& at == pos
                &&& d@ == overwrite(buf@, (b.start as int) % bs, piece_of(data, b))
            },
            _ => failed(pre, post, r, OverlayError::ShortRead),
        },
        WritePhase::Piece(_) => match event {
            Event::Written => write_advanced(pre, post, r),
            _ => failed(pre, post, r, OverlayError::ShortRead),
        },
        WritePhase::Gap(b) => match event {
            Event::Written => {
                &&& post.spec_phase() == WritePhase::Tail(b)
                &&& post.spec_iter() == pre.spec_iter()
                &&& post.spec_file_size() == b.start
                &&& r matches Action::Write { file, at, data: d }
                &&& file == FileId::Extra
                &&& at == b.start - layout.spec_base_region()
                &&& d@ == data.subrange(b.offset as int, data.len() as int)
            },
            _ => failed(pre, post, r, OverlayError::ShortRead),
        },
        WritePhase::Tail(b) => match event {
            Event::Written => {
                let end = b.start + (data.len() - b.offset);
                &&& post.spec_phase() == WritePhase::Done
                &&& post.spec_iter() == pre.spec_iter()
                &&& post.spec_file_size() == if end > pre.spec_file_size() { end } else { pre.spec_file_size() as int }
                &&& r == Action::Finished
            },
            _ => failed(pre, post, r, OverlayError::ShortRead),
        },
        WritePhase::Done => post == pre && r == Action::Finished,
        WritePhase::Failed(e) => post == pre && r == Action::Failed(e),
    }
}

/// `post` and `r` come from `pre` by taking the next slice, with `out` the
/// bytes read so far.
pub open spec fn advanced_from(pre: ReadOp, post: ReadOp, r: Action, out: Seq<u8>) -> bool {
    let layout = pre.spec_layout();
    let rem = pre.spec_iter().remaining();
    &&& post.spec_out() == out
    &&& post.spec_layout() == layout
    &&& post.spec_start() == pre.spec_start()
    &&& post.spec_iter().block_size() == pre.spec_iter().block_size()
    &&& post.spec_iter().end() == pre.spec_iter().end()
    &&& if rem.len() == 0 {
        &&& post.spec_phase() == ReadPhase::Done
        &&& r == Action::Finished
        &&& post.spec_iter() == pre.spec_iter()
    } else {
        let b = rem[0];
        &&& post.spec_iter().remaining() == rem.drop_first()
        &&& post.spec_iter().position() == b.end
        &&& if b.spec_num() >= layout.nblocks {
            &&& post.spec_phase() == ReadPhase::Bytes(b)
            &&& r == Action::Read { file: FileId::Extra, at: (b.start - layout.spec_base_region()) as u64, len: (b.end - b.start) as u64 }
        } else {
            &&& post.spec_phase() == ReadPhase::Entry(b)
            &&& r == Action::Read { file: FileId::Diff, at: (b.spec_num() * layout.nbytes) as u64, len: layout.nbytes }
        }
    }
}

/// `post` and `r` come from `pre` by taking the next slice.
pub open spec fn advanced(pre: ReadOp, post: ReadOp, r: Action) -> bool {
    advanced_from(pre, post, r, pre.spec_out())
}

/// `post` and `r` come from `pre` by following the entry `k` of slice `b`'s block.
pub open spec fn entry_followed(pre: ReadOp, post: ReadOp, r: Action, b: Block, k: int) -> bool {
    let layout = pre.spec_layout();
    &&& post.spec_out() == pre.spec_out()
    &&& post.spec_iter() == pre.spec_iter()
    &&& match layout.spec_slot_position(k) {
        None => post.spec_phase() == ReadPhase::Bytes(b)
            && r == Action::Read { file: FileId::Base, at: b.start, len: (b.end - b.start) as u64 },
        Some(pos) => if pos + b.start % layout.block_size <= u64::MAX {
            post.spec_phase() == ReadPhase::Bytes(b)
                && r == Action::Read { file: FileId::Diff, at: (pos + b.start % layout.block_size) as u64, len: (b.end - b.start) as u64 }
        } else {
            post.spec_phase() == ReadPhase::Failed(OverlayError::CorruptedDiff)
                && r == Action::Failed(OverlayError::CorruptedDiff)
        },
    }
}

} // verus!
