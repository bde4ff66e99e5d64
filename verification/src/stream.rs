//! Byte-addressable, seekable, buffered access to one partition of a block
//! device, through a single cached block.
//!
//! The stream keeps at most one block resident. Every read and write routes
//! through one "ensure the right block is buffered" step, which flushes the
//! resident block if it is dirty and the cursor has crossed into another
//! block, and then reloads. The contracts speak of the logical medium: the
//! device's blocks with the resident buffer overlaid, so that a flush or a
//! reload never changes what a reader sees.

use crate::device::BlockDevice;
use crate::device::DeviceError;
use crate::device::DeviceEvent;
use vstd::arithmetic::div_mod::lemma_fundamental_div_mod;
use vstd::arithmetic::div_mod::lemma_mod_division_less_than_divisor;
use vstd::arithmetic::div_mod::lemma_div_is_ordered;
use vstd::arithmetic::div_mod::lemma_div_multiples_vanish;
use vstd::arithmetic::mul::lemma_mul_inequality;
use vstd::arithmetic::mul::lemma_mul_is_commutative;
use vstd::pervasive::VecAdditionalExecFns;
use vstd::prelude::*;

verus! {

/// Why a stream operation failed.
#[derive(Clone, Copy, Debug, PartialEq, Eq, Structural)]
pub enum StreamError {
    /// The device rejected or failed a block command.
    Device,
    /// The device reported more data than the block buffer can hold; an
    /// end-of-stream-like size mismatch, distinct from a hard device fault.
    BufferTooSmall { expected: usize, actual: usize },
    /// A relative seek would have moved the cursor below zero.
    InvalidSeek,
    /// An internal cache invariant was found broken.
    Cache,
}

/// Where a seek starts from.
#[derive(Clone, Copy, Debug, PartialEq, Eq, Structural)]
pub enum SeekFrom {
    /// An absolute cursor position, relative to the start of the partition.
    Start(usize),
    /// An offset relative to the current cursor, forward or backward.
    Current(isize),
}

/// A byte position `p` on a medium of `n` blocks of `bs` bytes falls in
/// block `p / bs` at offset `p % bs`, and that block exists.
pub proof fn lemma_pos_block(p: int, bs: int, n: int)
    requires
        0 <= p,
        0 < bs,
        p < n * bs,
    ensures
        0 <= p / bs < n,
        0 <= p % bs < bs,
        p == (p / bs) * bs + (p % bs),
{
    lemma_fundamental_div_mod(p, bs);
    lemma_mod_division_less_than_divisor(p, bs);
    lemma_mul_is_commutative(bs, p / bs);
    assert(0 <= p / bs && p / bs < n) by (nonlinear_arith)
        requires
            p == (p / bs) * bs + (p % bs),
            0 <= p % bs < bs,
            0 <= p,
            p < n * bs,
            0 < bs,
    ;
}

/// A position whose block number is past the last of `n` blocks sits at or
/// past the end of the medium; one whose block exists sits strictly inside.
pub proof fn lemma_pos_vs_len(p: int, bs: int, n: int)
    requires
        0 <= p,
        0 < bs,
        0 <= n,
    ensures
        p / bs >= n ==> p >= n * bs,
        p / bs < n ==> p < n * bs,
{
    lemma_fundamental_div_mod(p, bs);
    lemma_mod_division_less_than_divisor(p, bs);
    assert((p / bs >= n ==> p >= n * bs) && (p / bs < n ==> p < n * bs)) by (nonlinear_arith)
        requires
            p == bs * (p / bs) + (p % bs),
            0 <= p % bs < bs,
            0 < bs,
            0 <= n,
    ;
}

/// A position between the start of block `b` and the start of block `b + 1`
/// lies in block `b`.
pub proof fn lemma_div_in_block(p: int, b: int, bs: int)
    requires
        0 < bs,
        0 <= b,
        b * bs <= p < (b + 1) * bs,
    ensures
        p / bs == b,
        p % bs == p - b * bs,
{
    assert((b + 1) * bs == b * bs + bs) by (nonlinear_arith);
    vstd::arithmetic::div_mod::lemma_fundamental_div_mod_converse(p, bs, b, p - b * bs);
}

/// What one operation appended to a log: the log grown by `b` is the old
/// log followed by `b`.
proof fn lemma_appended_of_add(a: Seq<DeviceEvent>, b: Seq<DeviceEvent>)
    ensures
        (a + b).skip(a.len() as int) =~= b,
        a.is_prefix_of(a + b),
{
    assert(a =~= (a + b).subrange(0, a.len() as int));
}

/// Two operations in a row append first the one's commands, then the
/// other's.
proof fn lemma_appended_chain(a: Seq<DeviceEvent>, b: Seq<DeviceEvent>, c: Seq<DeviceEvent>)
    requires
        a.is_prefix_of(b),
        b.is_prefix_of(c),
    ensures
        c.skip(a.len() as int) =~= b.skip(a.len() as int) + c.skip(b.len() as int),
        a.is_prefix_of(c),
{
    assert(a =~= c.subrange(0, a.len() as int));
}

/// Turn a device's error into the stream's.
pub fn map_device_error(e: DeviceError) -> (r: StreamError)
    ensures
        r == match e {
            DeviceError::BufferTooSmall { expected, actual } => StreamError::BufferTooSmall {
                expected,
                actual,
            },
            DeviceError::Other => StreamError::Device,
        },
{
    match e {
        DeviceError::BufferTooSmall { expected, actual } => StreamError::BufferTooSmall {
            expected,
            actual,
        },
        DeviceError::Other => StreamError::Device,
    }
}

/// What the stream relies on of its device. `BlockDevice::wf` says the same,
/// but its meaning is not available where the device is a type parameter, so
/// the facts are stated here over the trait's spec functions directly.
pub open spec fn dev_ok<D: BlockDevice>(d: D) -> bool {
    &&& d.wf()
    &&& 0 < d.bs()
    &&& forall|i: int| 0 <= i < d.blocks().len() ==> (#[trigger] d.blocks()[i]).len() == d.bs()
    &&& d.blocks().len() * d.bs() <= usize::MAX
}

/// Byte-addressable, seekable access to the partition that starts at byte
/// `partition_start` of a block device, holding at most one block in memory.
pub struct OffsetScsiDevice<D: BlockDevice> {
    device: D,
    block_buffer: Vec<u8>,
    partition_start: usize,
    partition_idx: usize,
    loaded_block_number: usize,
    needs_flush: bool,
    block_size: usize,
}

impl<D: BlockDevice> OffsetScsiDevice<D> {
    /// The device the stream sits on.
    pub closed spec fn dev(&self) -> D {
        self.device
    }

    /// The resident block's bytes; empty when no block is resident.
    pub closed spec fn buf(&self) -> Seq<u8> {
        self.block_buffer@
    }

    /// Absolute byte offset of the partition on the device.
    pub closed spec fn start(&self) -> int {
        self.partition_start as int
    }

    /// The cursor: a byte offset relative to the start of the partition.
    pub closed spec fn cursor(&self) -> int {
        self.partition_idx as int
    }

    /// The device block number the buffer mirrors; meaningful only while a
    /// block is resident.
    pub closed spec fn loaded_block(&self) -> int {
        self.loaded_block_number as int
    }

    /// Whether the buffer has diverged from the device since the resident
    /// block was loaded or last flushed.
    pub closed spec fn dirty(&self) -> bool {
        self.needs_flush
    }

    /// The device's block size, in bytes.
    pub closed spec fn bs(&self) -> int {
        self.block_size as int
    }

    /// Whether a block is resident.
    pub open spec fn loaded(&self) -> bool {
        self.buf().len() > 0
    }

    /// The cursor's absolute byte position on the device.
    pub open spec fn abs_pos(&self) -> int {
        self.start() + self.cursor()
    }

    /// The device block number the cursor falls in.
    pub open spec fn cur_block(&self) -> int {
        self.abs_pos() / self.bs()
    }

    /// The cursor's offset within its block, always in `[0, bs)`.
    pub open spec fn intra(&self) -> int {
        self.abs_pos() % self.bs()
    }

    /// The size of the medium in bytes.
    pub open spec fn dev_len(&self) -> int {
        self.dev().blocks().len() * self.bs()
    }

    /// How many bytes lie at or beyond the cursor.
    pub open spec fn avail(&self) -> int {
        if self.abs_pos() >= self.dev_len() {
            0
        } else {
            self.dev_len() - self.abs_pos()
        }
    }

    /// The stream's invariant: the device is well formed, the buffer is
    /// empty or exactly one block, a dirty buffer is resident and mirrors a
    /// block that exists, and a clean resident buffer agrees with the device.
    pub open spec fn wf(&self) -> bool {
        &&& dev_ok(self.dev())
        &&& self.bs() == self.dev().bs()
        &&& self.buf().len() == 0 || self.buf().len() == self.bs()
        &&& (self.dirty() ==> self.loaded())
        &&& (self.loaded() ==> self.loaded_block() < self.dev().blocks().len())
        &&& (self.loaded() && !self.dirty() ==> self.buf() == self.dev().blocks()[
            self.loaded_block()
        ])
    }

    /// The byte a reader at absolute position `p` sees: the resident buffer
    /// where it overlays the medium, the device's block otherwise.
    pub open spec fn byte_at(&self, p: int) -> u8
        recommends
            0 <= p < self.dev_len(),
    {
        let b = p / self.bs();
        let o = p % self.bs();
        if self.loaded() && b == self.loaded_block() {
            self.buf()[o]
        } else {
            self.dev().blocks()[b][o]
        }
    }

    /// The partition's place and the device's shape are unchanged.
    pub open spec fn same_geometry(pre: Self, post: Self) -> bool {
        &&& post.start() == pre.start()
        &&& post.bs() == pre.bs()
        &&& post.dev().blocks().len() == pre.dev().blocks().len()
    }

    /// The logical medium is unchanged: same geometry, and every byte a
    /// reader sees is the byte it saw before.
    pub open spec fn same_medium(pre: Self, post: Self) -> bool {
        &&& Self::same_geometry(pre, post)
        &&& forall|p: int|
            0 <= p < pre.dev_len() ==> #[trigger] post.byte_at(p) == pre.byte_at(p)
    }

    /// The next `k` bytes at the cursor all lie inside the resident block,
    /// so delivering them needs no device command at all.
    pub open spec fn within_resident(&self, k: int) -> bool {
        &&& self.loaded()
        &&& self.cur_block() == self.loaded_block()
        &&& self.abs_pos() + k <= (self.loaded_block() + 1) * self.bs()
    }

    /// The device commands one operation added to the log: what stands in
    /// `post`'s log after `pre`'s.
    pub open spec fn appended_events(pre: Self, post: Self) -> Seq<DeviceEvent> {
        post.dev().events().skip(pre.dev().events().len() as int)
    }

    /// Open a stream over `device` for the partition that starts at byte
    /// `partition_start`. No block is resident yet and the cursor is at zero.
    pub fn new(device: D, partition_start: usize) -> (r: Self)
        requires
            dev_ok(device),
        ensures
            r.wf(),
            r.dev() == device,
            r.start() == partition_start,
            r.cursor() == 0,
            !r.loaded(),
            !r.dirty(),
            r.loaded_block() == 0,
    {
        let block_size = device.block_size();
        OffsetScsiDevice {
            device,
            block_buffer: Vec::new(),
            partition_start,
            partition_idx: 0,
            loaded_block_number: 0,
            needs_flush: false,
            block_size,
        }
    }

    /// The cursor's absolute byte position on the device.
    pub fn raw_idx(&self) -> (r: usize)
        requires
            self.abs_pos() <= usize::MAX,
        ensures
            r as int == self.abs_pos(),
    {
        self.partition_start + self.partition_idx
    }

    /// The absolute byte offset at which the resident block starts.
    pub fn buffered_block_raw_idx(&self) -> (r: usize)
        requires
            self.wf(),
            self.loaded(),
        ensures
            r as int == self.loaded_block() * self.bs(),
    {
        proof {
            let l = self.loaded_block();
            let n = self.dev().blocks().len() as int;
            let b = self.bs();
            lemma_mul_inequality(l + 1, n, b);
            assert((l + 1) * b == l * b + b) by (nonlinear_arith);
            lemma_mul_is_commutative(b, l);
        }
        self.block_size * self.loaded_block_number
    }

    /// The absolute byte offset at which the cursor's block starts.
    pub fn cur_block_raw_idx(&self) -> (r: usize)
        requires
            self.wf(),
            self.abs_pos() <= usize::MAX,
        ensures
            r as int == self.cur_block() * self.bs(),
            r as int == self.abs_pos() - self.intra(),
    {
        proof {
            lemma_fundamental_div_mod(self.abs_pos(), self.bs());
            lemma_mod_division_less_than_divisor(self.abs_pos(), self.bs());
            lemma_mul_is_commutative(self.bs(), self.cur_block());
        }
        let rel_offset = self.raw_idx() % self.block_size;
        let block_start = self.raw_idx() - rel_offset;
        block_start
    }

    /// The device block number the cursor falls in.
    pub fn cur_block_number(&self) -> (r: usize)
        requires
            self.wf(),
            self.abs_pos() <= usize::MAX,
        ensures
            r as int == self.cur_block(),
    {
        let r = self.cur_block_raw_idx() / self.block_size;
        proof {
            lemma_div_multiples_vanish(self.cur_block(), self.bs());
        }
        r
    }

    /// Advance the cursor by `amt` bytes. Touches neither the device nor the
    /// buffer.
    pub fn consume(&mut self, amt: usize)
        requires
            old(self).cursor() + amt <= usize::MAX,
        ensures
            final(self).cursor() == old(self).cursor() + amt,
            final(self).dev() == old(self).dev(),
            final(self).buf() == old(self).buf(),
            final(self).start() == old(self).start(),
            final(self).bs() == old(self).bs(),
            final(self).dirty() == old(self).dirty(),
            final(self).loaded_block() == old(self).loaded_block(),
            final(self).wf() == old(self).wf(),
    {
        self.partition_idx = self.partition_idx + amt;
    }

    /// Write the resident block back to the device if it is dirty, and clear
    /// the dirty flag. This is the only point at which the device's write
    /// command is ever issued. A clean stream does not touch the device at
    /// all. A failed write leaves the stream dirty and the medium unchanged.
    pub fn flush(&mut self) -> (r: Result<(), StreamError>)
        requires
            old(self).wf(),
        ensures
            final(self).wf(),
            final(self).start() == old(self).start(),
            final(self).bs() == old(self).bs(),
            final(self).cursor() == old(self).cursor(),
            final(self).buf() == old(self).buf(),
            final(self).loaded_block() == old(self).loaded_block(),
            final(self).dev().blocks().len() == old(self).dev().blocks().len(),
            Self::same_medium(*old(self), *final(self)),
            match r {
                Ok(_) => {
                    &&& !final(self).dirty()
                    &&& (old(self).dirty() ==> final(self).dev().events() == old(
                        self,
                    ).dev().events().push(
                        DeviceEvent::Write {
                            block: old(self).loaded_block(),
                            data: old(self).buf(),
                        },
                    ) && final(self).dev().blocks() == old(self).dev().blocks().update(
                        old(self).loaded_block(),
                        old(self).buf(),
                    ))
                    &&& (!old(self).dirty() ==> final(self).dev() == old(self).dev())
                },
                Err(e) => {
                    &&& old(self).dirty()
                    &&& final(self).dirty()
                    &&& (e is Device || e is BufferTooSmall)
                    &&& final(self).dev().blocks() == old(self).dev().blocks()
                    &&& final(self).dev().events() == old(self).dev().events().push(
                        DeviceEvent::Write {
                            block: old(self).loaded_block(),
                            data: old(self).buf(),
                        },
                    )
                },
            },
    {
        if !self.needs_flush {
            return Ok(());
        }
        let block_number = self.loaded_block_number;
        let res = self.device.write_block(block_number, &self.block_buffer);
        match res {
            Ok(_) => {
                self.needs_flush = false;
                proof {
                    self.lemma_flush_preserves_medium(*old(self));
                }
                Ok(())
            },
            Err(e) => Err(map_device_error(e)),
        }
    }

    /// A flush of the dirty resident block leaves every byte of the logical
    /// medium as it was: the device block under the buffer now equals the
    /// buffer, and the overlay hides that block anyway.
    proof fn lemma_flush_preserves_medium(&self, pre: Self)
        requires
            pre.wf(),
            pre.loaded(),
            self.loaded(),
            self.start() == pre.start(),
            self.bs() == pre.bs(),
            self.buf() == pre.buf(),
            self.loaded_block() == pre.loaded_block(),
            self.dev().blocks() == pre.dev().blocks().update(pre.loaded_block(), pre.buf()),
        ensures
            Self::same_medium(pre, *self),
    {
        assert forall|p: int| 0 <= p < pre.dev_len() implies #[trigger] self.byte_at(p)
            == pre.byte_at(p) by {
            lemma_pos_block(p, pre.bs(), pre.dev().blocks().len() as int);
        }
    }

    /// Whether the next buffer fill must load a block: nothing is resident,
    /// or the cursor has crossed out of the resident block.
    pub open spec fn needs_reload(&self) -> bool {
        !self.loaded() || self.cur_block() != self.loaded_block()
    }

    /// The device write a buffer fill issues: exactly one, of the resident
    /// block, when that block is dirty and the cursor has left it; none
    /// otherwise.
    pub open spec fn fill_flush_events(&self) -> Seq<DeviceEvent> {
        if self.dirty() && self.cur_block() != self.loaded_block() {
            seq![DeviceEvent::Write { block: self.loaded_block(), data: self.buf() }]
        } else {
            Seq::empty()
        }
    }

    /// The device read a buffer fill issues: exactly one, of the cursor's
    /// block, when a reload is needed; none otherwise.
    pub open spec fn fill_read_events(&self) -> Seq<DeviceEvent> {
        if self.needs_reload() {
            seq![DeviceEvent::Read { block: self.cur_block() }]
        } else {
            Seq::empty()
        }
    }

    /// In a state whose buffer is clean, every byte a reader sees is the
    /// device's own byte.
    proof fn lemma_clean_sees_device(s: Self, p: int)
        requires
            s.wf(),
            !s.dirty(),
            0 <= p < s.dev_len(),
        ensures
            s.byte_at(p) == s.dev().blocks()[p / s.bs()][p % s.bs()],
    {
        lemma_pos_block(p, s.bs(), s.dev().blocks().len() as int);
    }

    /// Two clean states over the same device content show the same medium.
    proof fn lemma_clean_same_medium(a: Self, b: Self)
        requires
            a.wf(),
            b.wf(),
            !a.dirty(),
            !b.dirty(),
            b.start() == a.start(),
            b.bs() == a.bs(),
            b.dev().blocks() == a.dev().blocks(),
        ensures
            Self::same_medium(a, b),
    {
        assert forall|p: int| 0 <= p < a.dev_len() implies #[trigger] b.byte_at(p) == a.byte_at(
            p,
        ) by {
            Self::lemma_clean_sees_device(a, p);
            Self::lemma_clean_sees_device(b, p);
        }
    }

    /// Showing the same medium is transitive.
    proof fn lemma_same_medium_trans(a: Self, b: Self, c: Self)
        requires
            Self::same_medium(a, b),
            Self::same_medium(b, c),
        ensures
            Self::same_medium(a, c),
    {
        assert forall|p: int| 0 <= p < a.dev_len() implies #[trigger] c.byte_at(p) == a.byte_at(
            p,
        ) by {
            assert(b.byte_at(p) == a.byte_at(p));
            assert(c.byte_at(p) == b.byte_at(p));
        }
    }

    /// Make sure the block under the cursor is resident, flushing and
    /// reloading if the cursor has crossed into another block, and return
    /// how many buffered bytes lie at and beyond the cursor within it.
    ///
    /// `Ok(0)` means end of medium: the device has no block at the cursor.
    /// The logical medium is never changed, a flush and a reload are issued
    /// exactly when needed, and the stream never comes out dirtier than it
    /// went in. When the right block is already resident nothing is issued,
    /// nothing changes and the call cannot fail; a failure is always a
    /// failed device command, either the eviction flush's write or the
    /// reload's read, and a successful reload leaves the stream clean.
    pub fn fill_buf(&mut self) -> (r: Result<usize, StreamError>)
        requires
            old(self).wf(),
            old(self).abs_pos() <= usize::MAX,
        ensures
            final(self).wf(),
            final(self).start() == old(self).start(),
            final(self).bs() == old(self).bs(),
            final(self).cursor() == old(self).cursor(),
            final(self).dev().blocks().len() == old(self).dev().blocks().len(),
            Self::same_medium(*old(self), *final(self)),
            final(self).dirty() ==> old(self).dirty(),
            (old(self).cur_block() >= old(self).dev().blocks().len() && !old(self).dirty())
                ==> r is Ok,
            !old(self).needs_reload() ==> (r is Ok && *final(self) == *old(self)),
            (r is Ok && old(self).needs_reload()) ==> !final(self).dirty(),
            old(self).dev().events().is_prefix_of(final(self).dev().events()),
            ({
                let appended = Self::appended_events(*old(self), *final(self));
                // whatever the outcome, the commands issued are at most the
                // eviction flush of the dirty resident block, with exactly
                // its buffered bytes, and one read of the cursor's block
                &&& forall|j: int|
                    0 <= j < appended.len() ==> ((#[trigger] appended[j]) == DeviceEvent::Read {
                        block: old(self).cur_block(),
                    } || (old(self).dirty() && old(self).cur_block() != old(self).loaded_block()
                        && appended[j] == DeviceEvent::Write {
                        block: old(self).loaded_block(),
                        data: old(self).buf(),
                    }))
                &&& forall|j1: int, j2: int|
                    0 <= j1 < j2 < appended.len() ==> !((#[trigger] appended[j1]) is Write && (
                    #[trigger] appended[j2]) is Write)
            }),
            match r {
                Ok(n) => {
                    &&& (old(self).cur_block() < old(self).dev().blocks().len() ==> {
                        &&& final(self).loaded()
                        &&& final(self).loaded_block() == old(self).cur_block()
                        &&& n as int == final(self).bs() - final(self).intra()
                        &&& 0 < n
                    })
                    &&& (old(self).cur_block() >= old(self).dev().blocks().len() ==> {
                        &&& n == 0
                        &&& !final(self).loaded()
                    })
                    &&& final(self).dev().events() == old(self).dev().events() + old(
                        self,
                    ).fill_flush_events() + old(self).fill_read_events()
                    &&& (old(self).dirty() && old(self).cur_block() != old(self).loaded_block()
                        ==> final(self).dev().blocks()[old(self).loaded_block()] == old(
                        self,
                    ).buf())
                },
                Err(e) => {
                    &&& (e is Device || e is BufferTooSmall)
                    &&& old(self).needs_reload()
                    &&& ({
                        // the eviction flush of the dirty resident block failed
                        &&& old(self).dirty()
                        &&& old(self).cur_block() != old(self).loaded_block()
                        &&& final(self).dirty()
                        &&& final(self).dev().blocks() == old(self).dev().blocks()
                        &&& final(self).dev().events() == old(self).dev().events() + old(
                            self,
                        ).fill_flush_events()
                    } || {
                        // the reload of the cursor's block failed
                        &&& old(self).cur_block() < old(self).dev().blocks().len()
                        &&& !final(self).loaded()
                        &&& !final(self).dirty()
                        &&& final(self).dev().events() == old(self).dev().events() + old(
                            self,
                        ).fill_flush_events() + old(self).fill_read_events()
                    })
                },
            },
    {
        let ghost s0 = *self;
        let cur = self.cur_block_number();
        if cur != self.loaded_block_number {
            match self.flush() {
                Ok(_) => {},
                Err(e) => {
                    proof {
                        assert(self.dev().events() =~= s0.dev().events()
                            + s0.fill_flush_events());
                        lemma_appended_of_add(s0.dev().events(), s0.fill_flush_events());
                        assert(Self::appended_events(s0, *self) =~= s0.fill_flush_events());
                    }
                    return Err(e);
                },
            }
            let ghost s1 = *self;
            self.block_buffer.clear();
            proof {
                Self::lemma_clean_same_medium(s1, *self);
                Self::lemma_same_medium_trans(s0, s1, *self);
            }
        }
        if self.block_buffer.len() == 0 {
            let ghost s2 = *self;
            let res = self.device.read_block(cur, &mut self.block_buffer);
            match res {
                Ok(_n) => {
                    if self.block_buffer.len() == 0 {
                        proof {
                            Self::lemma_clean_same_medium(s2, *self);
                            Self::lemma_same_medium_trans(s0, s2, *self);
                            assert(self.dev().events() =~= s0.dev().events()
                                + s0.fill_flush_events() + s0.fill_read_events());
                            lemma_appended_of_add(
                                s0.dev().events(),
                                s0.fill_flush_events() + s0.fill_read_events(),
                            );
                            assert(s0.dev().events() + s0.fill_flush_events()
                                + s0.fill_read_events() =~= s0.dev().events() + (
                            s0.fill_flush_events() + s0.fill_read_events()));
                            assert(Self::appended_events(s0, *self) =~= s0.fill_flush_events()
                                + s0.fill_read_events());
                        }
                        return Ok(0);
                    }
                    self.loaded_block_number = cur;
                    proof {
                        Self::lemma_clean_same_medium(s2, *self);
                        Self::lemma_same_medium_trans(s0, s2, *self);
                        assert(self.dev().events() =~= s0.dev().events() + s0.fill_flush_events()
                            + s0.fill_read_events());
                        lemma_appended_of_add(
                            s0.dev().events(),
                            s0.fill_flush_events() + s0.fill_read_events(),
                        );
                        assert(s0.dev().events() + s0.fill_flush_events()
                            + s0.fill_read_events() =~= s0.dev().events() + (
                        s0.fill_flush_events() + s0.fill_read_events()));
                        assert(Self::appended_events(s0, *self) =~= s0.fill_flush_events()
                            + s0.fill_read_events());
                    }
                },
                Err(e) => {
                    proof {
                        Self::lemma_clean_same_medium(s2, *self);
                        Self::lemma_same_medium_trans(s0, s2, *self);
                        assert(self.dev().events() =~= s0.dev().events() + s0.fill_flush_events()
                            + s0.fill_read_events());
                        lemma_appended_of_add(
                            s0.dev().events(),
                            s0.fill_flush_events() + s0.fill_read_events(),
                        );
                        assert(s0.dev().events() + s0.fill_flush_events()
                            + s0.fill_read_events() =~= s0.dev().events() + (
                        s0.fill_flush_events() + s0.fill_read_events()));
                        assert(Self::appended_events(s0, *self) =~= s0.fill_flush_events()
                            + s0.fill_read_events());
                    }
                    return Err(map_device_error(e));
                },
            }
        } else {
            proof {
                assert(self.dev().events() =~= s0.dev().events() + s0.fill_flush_events()
                    + s0.fill_read_events());
                lemma_appended_of_add(
                    s0.dev().events(),
                    s0.fill_flush_events() + s0.fill_read_events(),
                );
                assert(s0.dev().events() + s0.fill_flush_events() + s0.fill_read_events()
                    =~= s0.dev().events() + (s0.fill_flush_events() + s0.fill_read_events()));
                assert(Self::appended_events(s0, *self) =~= s0.fill_flush_events()
                    + s0.fill_read_events());
            }
        }
        let off = self.offset_from_cur_block();
        Ok(self.block_size - off)
    }

    /// One buffer fill after some prior steps: if every command so far was
    /// a read or the single eviction flush of the block that was dirty at
    /// the start (`s0`), and the fill from `t0` added at most its own flush
    /// and reload commands, then the combined log still has only reads and
    /// that one eviction flush.
    proof fn lemma_events_step(s0: Self, t0: Self, post: Self)
        requires
            s0.dev().events().is_prefix_of(t0.dev().events()),
            forall|j: int|
                0 <= j < Self::appended_events(s0, t0).len() ==> ((#[trigger] Self::appended_events(
                    s0,
                    t0,
                )[j]) is Read || (s0.dirty() && Self::appended_events(s0, t0)[j]
                    == DeviceEvent::Write { block: s0.loaded_block(), data: s0.buf() })),
            forall|j1: int, j2: int|
                0 <= j1 < j2 < Self::appended_events(s0, t0).len() ==> !((
                #[trigger] Self::appended_events(s0, t0)[j1]) is Write && (
                #[trigger] Self::appended_events(s0, t0)[j2]) is Write),
            t0.dirty() ==> (t0.dev() == s0.dev() && t0.buf() == s0.buf() && t0.loaded_block()
                == s0.loaded_block() && s0.dirty()),
            t0.dev().events().is_prefix_of(post.dev().events()),
            forall|j: int|
                0 <= j < Self::appended_events(t0, post).len() ==> ((#[trigger] Self::appended_events(
                    t0,
                    post,
                )[j]) == DeviceEvent::Read { block: t0.cur_block() } || (t0.dirty()
                    && t0.cur_block() != t0.loaded_block() && Self::appended_events(t0, post)[j]
                    == DeviceEvent::Write { block: t0.loaded_block(), data: t0.buf() })),
            forall|j1: int, j2: int|
                0 <= j1 < j2 < Self::appended_events(t0, post).len() ==> !((
                #[trigger] Self::appended_events(t0, post)[j1]) is Write && (
                #[trigger] Self::appended_events(t0, post)[j2]) is Write),
        ensures
            s0.dev().events().is_prefix_of(post.dev().events()),
            forall|j: int|
                0 <= j < Self::appended_events(s0, post).len() ==> ((#[trigger] Self::appended_events(
                    s0,
                    post,
                )[j]) is Read || (s0.dirty() && Self::appended_events(s0, post)[j]
                    == DeviceEvent::Write { block: s0.loaded_block(), data: s0.buf() })),
            forall|j1: int, j2: int|
                0 <= j1 < j2 < Self::appended_events(s0, post).len() ==> !((
                #[trigger] Self::appended_events(s0, post)[j1]) is Write && (
                #[trigger] Self::appended_events(s0, post)[j2]) is Write),
    {
        lemma_appended_chain(s0.dev().events(), t0.dev().events(), post.dev().events());
        let a = Self::appended_events(s0, t0);
        let b = Self::appended_events(t0, post);
        let c = Self::appended_events(s0, post);
        assert(c =~= a + b);
        if t0.dirty() {
            assert(t0.dev().events() == s0.dev().events());
            assert(a =~= Seq::<DeviceEvent>::empty());
        }
        assert forall|j: int| 0 <= j < c.len() implies ((#[trigger] c[j]) is Read || (s0.dirty()
            && c[j] == DeviceEvent::Write { block: s0.loaded_block(), data: s0.buf() })) by {
            if j < a.len() {
                assert(c[j] == a[j]);
            } else {
                assert(c[j] == b[j - a.len()]);
            }
        }
        assert forall|j1: int, j2: int| 0 <= j1 < j2 < c.len() implies !((#[trigger] c[j1])
            is Write && (#[trigger] c[j2]) is Write) by {
            if j2 < a.len() {
                assert(c[j1] == a[j1] && c[j2] == a[j2]);
            } else if j1 >= a.len() {
                assert(c[j1] == b[j1 - a.len()] && c[j2] == b[j2 - a.len()]);
            } else {
                assert(c[j1] == a[j1] && c[j2] == b[j2 - a.len()]);
                if c[j2] is Write {
                    assert(t0.dirty());
                    assert(a.len() == 0);
                }
            }
        }
    }

    /// Copy bytes from the cursor into `out`, front to back, advancing the
    /// cursor one byte at a time, until `out` is full or the medium ends.
    ///
    /// On success the count is exactly `min(out.len(), avail)`: zero only
    /// when `out` is empty or the cursor is at or past the end of the
    /// medium. The bytes delivered are the logical medium's bytes at the
    /// cursor, the rest of `out` keeps its old contents, and the medium
    /// itself is unchanged. Once the cursor is past the end and nothing is
    /// dirty, a read cannot fail and returns zero bytes, leaving the stream
    /// in the same state; nor can it fail when the requested range lies
    /// inside the resident block, where no device command is needed. The
    /// only device write a read can ever issue is the one eviction flush of
    /// the block that was dirty when it began.
    pub fn read(&mut self, out: &mut Vec<u8>) -> (r: Result<usize, StreamError>)
        requires
            old(self).wf(),
            old(self).abs_pos() <= usize::MAX,
        ensures
            final(self).wf(),
            final(self).start() == old(self).start(),
            Self::same_medium(*old(self), *final(self)),
            final(out)@.len() == old(out)@.len(),
            final(self).dirty() ==> old(self).dirty(),
            (old(self).abs_pos() >= old(self).dev_len() && !old(self).dirty()) ==> r is Ok,
            old(out)@.len() == 0 ==> r is Ok,
            old(self).within_resident(old(out)@.len() as int) ==> (r is Ok && final(self).dev()
                == old(self).dev() && final(self).buf() == old(self).buf() && final(self).dirty()
                == old(self).dirty() && final(self).loaded_block() == old(self).loaded_block()),
            old(self).dev().events().is_prefix_of(final(self).dev().events()),
            ({
                let appended = Self::appended_events(*old(self), *final(self));
                // the only device commands a read may issue are whole-block
                // reads, and at most one write: the eviction flush of the
                // block that was resident and dirty when the read began,
                // with exactly its buffered bytes
                &&& forall|j: int|
                    0 <= j < appended.len() ==> ((#[trigger] appended[j]) is Read || (old(
                        self,
                    ).dirty() && appended[j] == DeviceEvent::Write {
                        block: old(self).loaded_block(),
                        data: old(self).buf(),
                    }))
                &&& forall|j1: int, j2: int|
                    0 <= j1 < j2 < appended.len() ==> !((#[trigger] appended[j1]) is Write && (
                    #[trigger] appended[j2]) is Write)
            }),
            match r {
                Ok(n) => {
                    &&& n as int == vstd::math::min(old(out)@.len() as int, old(self).avail())
                    &&& final(self).cursor() == old(self).cursor() + n
                    &&& forall|i: int|
                        0 <= i < n ==> final(out)@[i] == old(self).byte_at(
                            old(self).abs_pos() + i,
                        )
                    &&& forall|i: int| n <= i < old(out)@.len() ==> final(out)@[i] == old(out)@[i]
                },
                Err(e) => {
                    &&& (e is Device || e is BufferTooSmall)
                    &&& {
                        let k = final(self).cursor() - old(self).cursor();
                        &&& 0 <= k <= old(out)@.len()
                        &&& forall|i: int|
                            0 <= i < k ==> final(out)@[i] == old(self).byte_at(
                                old(self).abs_pos() + i,
                            )
                        &&& forall|i: int|
                            k <= i < old(out)@.len() ==> final(out)@[i] == old(out)@[i]
                    }
                },
            },
    {
        let ghost s0 = *self;
        let needed = out.len();
        let mut output_idx: usize = 0;
        while output_idx < needed
            invariant
                s0 == *old(self),
                output_idx <= needed,
                needed == old(out)@.len(),
                self.wf(),
                out@.len() == needed,
                Self::same_geometry(s0, *self),
                Self::same_medium(s0, *self),
                self.dirty() ==> s0.dirty(),
                self.cursor() == s0.cursor() + output_idx,
                self.abs_pos() <= usize::MAX,
                output_idx > 0 ==> self.abs_pos() <= self.dev_len(),
                forall|i: int|
                    0 <= i < output_idx ==> out@[i] == s0.byte_at(s0.abs_pos() + i),
                forall|i: int| output_idx <= i < needed ==> out@[i] == old(out)@[i],
                s0.dev().events().is_prefix_of(self.dev().events()),
                forall|j: int|
                    0 <= j < Self::appended_events(s0, *self).len() ==> ((
                    #[trigger] Self::appended_events(s0, *self)[j]) is Read || (s0.dirty()
                        && Self::appended_events(s0, *self)[j] == DeviceEvent::Write {
                        block: s0.loaded_block(),
                        data: s0.buf(),
                    })),
                forall|j1: int, j2: int|
                    0 <= j1 < j2 < Self::appended_events(s0, *self).len() ==> !((
                    #[trigger] Self::appended_events(s0, *self)[j1]) is Write && (
                    #[trigger] Self::appended_events(s0, *self)[j2]) is Write),
                self.dirty() ==> (self.dev() == s0.dev() && self.buf() == s0.buf()
                    && self.loaded_block() == s0.loaded_block()),
                s0.within_resident(needed as int) ==> (self.dev() == s0.dev() && self.buf()
                    == s0.buf() && self.dirty() == s0.dirty() && self.loaded_block()
                    == s0.loaded_block() && self.loaded()),
            ensures
                output_idx as int == vstd::math::min(needed as int, s0.avail()),
            decreases needed - output_idx,
        {
            let ghost t0 = *self;
            proof {
                if s0.within_resident(needed as int) {
                    lemma_fundamental_div_mod(s0.abs_pos(), s0.bs());
                    lemma_mod_division_less_than_divisor(s0.abs_pos(), s0.bs());
                    assert(s0.abs_pos() == s0.bs() * s0.loaded_block() + s0.abs_pos() % s0.bs());
                    assert(s0.bs() * s0.loaded_block() == s0.loaded_block() * s0.bs()) by (nonlinear_arith);
                    assert(s0.loaded_block() * s0.bs() <= t0.abs_pos());
                    assert(t0.abs_pos() < (s0.loaded_block() + 1) * s0.bs());
                    lemma_div_in_block(t0.abs_pos(), s0.loaded_block(), s0.bs());
                }
            }
            let res = self.fill_buf();
            proof {
                Self::lemma_same_medium_trans(s0, t0, *self);
                Self::lemma_events_step(s0, t0, *self);
            }
            let avail_bytes = match res {
                Ok(n) => n,
                Err(e) => {
                    proof {
                        lemma_pos_vs_len(t0.abs_pos(), t0.bs(), t0.dev().blocks().len() as int);
                    }
                    return Err(e);
                },
            };
            if avail_bytes == 0 {
                proof {
                    lemma_pos_vs_len(t0.abs_pos(), t0.bs(), t0.dev().blocks().len() as int);
                }
                break;
            }
            proof {
                lemma_pos_vs_len(t0.abs_pos(), t0.bs(), t0.dev().blocks().len() as int);
            }
            let off = self.offset_from_cur_block();
            let byte = self.block_buffer[off];
            let ghost t1 = *self;
            proof {
                lemma_fundamental_div_mod(t1.abs_pos(), t1.bs());
                assert(byte == t1.byte_at(t1.abs_pos()));
                assert(t1.byte_at(t1.abs_pos()) == s0.byte_at(t1.abs_pos()));
            }
            out.set(output_idx, byte);
            output_idx = output_idx + 1;
            self.consume(1);
            proof {
                assert forall|p: int| 0 <= p < s0.dev_len() implies #[trigger] self.byte_at(p)
                    == s0.byte_at(p) by {
                    assert(t1.byte_at(p) == s0.byte_at(p));
                    assert(self.byte_at(p) == t1.byte_at(p));
                }
            }
        }
        Ok(output_idx)
    }

    /// Copy bytes from `input` to the cursor, front to back, advancing the
    /// cursor one byte at a time, until `input` is exhausted or the medium
    /// ends.
    ///
    /// Each byte is compared against the buffered byte it would replace;
    /// only a byte that differs is stored and marks the buffer dirty, so a
    /// write that changes nothing never dirties the stream. On success the
    /// count is exactly `min(input.len(), avail)` after at most that many
    /// passes of its loop, and afterwards the
    /// logical medium holds `input`'s bytes at the written positions and is
    /// untouched everywhere else, the buffer mirrors the block the last
    /// byte landed in, and the dirty flag is set exactly when that block
    /// now differs from the device (or was already dirty and never left).
    /// Once the cursor is past the end and nothing is dirty, a write cannot
    /// fail and writes zero bytes; nor can it fail when the run lies inside
    /// the resident block, where no device command is needed. A write
    /// issues no device write of its own: any write command in the log is
    /// an eviction flush carrying only bytes the logical medium held.
    pub fn write(&mut self, input: &[u8]) -> (r: Result<usize, StreamError>)
        requires
            old(self).wf(),
            old(self).abs_pos() <= usize::MAX,
        ensures
            final(self).wf(),
            final(self).start() == old(self).start(),
            Self::same_geometry(*old(self), *final(self)),
            (old(self).abs_pos() >= old(self).dev_len() && !old(self).dirty()) ==> r is Ok,
            input@.len() == 0 ==> r is Ok,
            old(self).within_resident(input@.len() as int) ==> r is Ok,
            old(self).dev().events().is_prefix_of(final(self).dev().events()),
            ({
                let appended = Self::appended_events(*old(self), *final(self));
                let k = final(self).cursor() - old(self).cursor();
                // a write issues no device write of its own: any write
                // command in the log is an eviction flush, of a block that
                // exists, carrying only bytes the logical medium held there
                // (the old bytes, or input bytes just spliced in)
                forall|j: int|
                    0 <= j < appended.len() ==> match #[trigger] appended[j] {
                        DeviceEvent::Read { block } => true,
                        DeviceEvent::Write { block, data } => {
                            &&& 0 <= block < old(self).dev().blocks().len()
                            &&& data.len() == old(self).bs()
                            &&& forall|o: int|
                                0 <= o < old(self).bs() ==> (#[trigger] data[o]) == old(
                                    self,
                                ).byte_at(block * old(self).bs() + o) || (old(self).abs_pos()
                                    <= block * old(self).bs() + o < old(self).abs_pos() + k
                                    && data[o] == input@[block * old(self).bs() + o - old(
                                    self,
                                ).abs_pos()])
                        },
                    }
            }),
            match r {
                Ok(n) => {
                    &&& n as int == vstd::math::min(input@.len() as int, old(self).avail())
                    &&& final(self).cursor() == old(self).cursor() + n
                    &&& forall|p: int|
                        0 <= p < final(self).dev_len() ==> #[trigger] final(self).byte_at(p) == (
                        if old(self).abs_pos() <= p < old(self).abs_pos() + n {
                            input@[p - old(self).abs_pos()]
                        } else {
                            old(self).byte_at(p)
                        })
                    &&& ((forall|i: int|
                        0 <= i < n ==> input@[i] == old(self).byte_at(old(self).abs_pos() + i))
                        ==> (final(self).dirty() ==> old(self).dirty()))
                    &&& (0 < n && old(self).abs_pos() + n < old(self).dev_len() ==> final(self).loaded() && final(self).loaded_block() == (old(self).abs_pos() + n - 1)
                        / old(self).bs())
                    &&& (0 < n && old(self).abs_pos() + n < old(self).dev_len() ==> (final(self).dirty() <==> ((exists|i: int|
                        0 <= i < n && (old(self).abs_pos() + i) / old(self).bs() == final(self).loaded_block() && #[trigger] input@[i] != old(self).byte_at(
                            old(self).abs_pos() + i,
                        )) || (old(self).dirty() && old(self).loaded() && old(self).cur_block()
                        == old(self).loaded_block() && final(self).loaded_block() == old(
                        self,
                    ).loaded_block()))))
                    &&& (0 < n && old(self).abs_pos() + n < old(self).dev_len() && old(
                        self,
                    ).abs_pos() + n <= (old(self).cur_block() + 1) * old(self).bs() ==> final(self).dev().events() == old(self).dev().events() + old(self).fill_flush_events()
                        + old(self).fill_read_events())
                },
                Err(e) => {
                    &&& (e is Device || e is BufferTooSmall)
                    &&& {
                        let k = final(self).cursor() - old(self).cursor();
                        &&& 0 <= k <= input@.len()
                        &&& forall|p: int|
                            0 <= p < final(self).dev_len() ==> #[trigger] final(self).byte_at(p)
                                == (if old(self).abs_pos() <= p < old(self).abs_pos() + k {
                                input@[p - old(self).abs_pos()]
                            } else {
                                old(self).byte_at(p)
                            })
                        &&& ((forall|i: int|
                            0 <= i < k ==> input@[i] == old(self).byte_at(
                                old(self).abs_pos() + i,
                            )) ==> (final(self).dirty() ==> old(self).dirty()))
                    }
                },
            },
    {
        let ghost s0 = *self;
        let mut written_idx: usize = 0;
        while written_idx < input.len()
            invariant_except_break
                written_idx == 0 ==> *self == s0,
                written_idx > 0 ==> (self.loaded() && self.loaded_block() == (s0.abs_pos()
                    + written_idx - 1) / s0.bs()),
                written_idx > 0 ==> (self.dirty() <==> ((exists|i: int|
                    0 <= i < written_idx && (s0.abs_pos() + i) / s0.bs() == self.loaded_block()
                        && #[trigger] input@[i] != s0.byte_at(s0.abs_pos() + i)) || (s0.dirty()
                    && s0.loaded() && s0.cur_block() == s0.loaded_block() && self.loaded_block()
                    == s0.loaded_block()))),
                (0 < written_idx && s0.abs_pos() + written_idx <= (s0.cur_block() + 1) * s0.bs())
                    ==> self.dev().events() == s0.dev().events() + s0.fill_flush_events()
                    + s0.fill_read_events(),
            invariant
                s0 == *old(self),
                self.wf(),
                Self::same_geometry(s0, *self),
                self.cursor() == s0.cursor() + written_idx,
                written_idx <= input@.len(),
                self.abs_pos() <= usize::MAX,
                written_idx > 0 ==> self.abs_pos() <= self.dev_len(),
                forall|p: int|
                    0 <= p < self.dev_len() ==> #[trigger] self.byte_at(p) == (if s0.abs_pos()
                        <= p < s0.abs_pos() + written_idx {
                        input@[p - s0.abs_pos()]
                    } else {
                        s0.byte_at(p)
                    }),
                (forall|i: int|
                    0 <= i < written_idx ==> input@[i] == s0.byte_at(s0.abs_pos() + i)) ==> (
                self.dirty() ==> s0.dirty()),
                s0.dev().events().is_prefix_of(self.dev().events()),
                forall|j: int|
                    0 <= j < Self::appended_events(s0, *self).len()
                        ==> match #[trigger] Self::appended_events(s0, *self)[j] {
                        DeviceEvent::Read { block } => true,
                        DeviceEvent::Write { block, data } => {
                            &&& 0 <= block < s0.dev().blocks().len()
                            &&& data.len() == s0.bs()
                            &&& forall|o: int|
                                0 <= o < s0.bs() ==> (#[trigger] data[o]) == s0.byte_at(
                                    block * s0.bs() + o,
                                ) || (s0.abs_pos() <= block * s0.bs() + o < s0.abs_pos()
                                    + written_idx && data[o] == input@[block * s0.bs() + o
                                    - s0.abs_pos()])
                        },
                    },
                s0.within_resident(input@.len() as int) ==> (self.loaded() && self.loaded_block()
                    == s0.loaded_block() && self.dev() == s0.dev()),
            ensures
                written_idx as int == vstd::math::min(input@.len() as int, s0.avail()),
                (0 < written_idx && s0.abs_pos() + written_idx < s0.dev_len()) ==> (self.loaded()
                    && self.loaded_block() == (s0.abs_pos() + written_idx - 1) / s0.bs() && (
                self.dirty() <==> ((exists|i: int|
                    0 <= i < written_idx && (s0.abs_pos() + i) / s0.bs() == self.loaded_block()
                        && #[trigger] input@[i] != s0.byte_at(s0.abs_pos() + i)) || (s0.dirty()
                    && s0.loaded() && s0.cur_block() == s0.loaded_block() && self.loaded_block()
                    == s0.loaded_block()))) && (s0.abs_pos() + written_idx <= (s0.cur_block()
                    + 1) * s0.bs() ==> self.dev().events() == s0.dev().events()
                    + s0.fill_flush_events() + s0.fill_read_events())),
            decreases input@.len() - written_idx,
        {
            let ghost t0 = *self;
            proof {
                lemma_fundamental_div_mod(s0.abs_pos(), s0.bs());
                lemma_mod_division_less_than_divisor(s0.abs_pos(), s0.bs());
                assert(s0.bs() * s0.cur_block() == s0.cur_block() * s0.bs())
                    by (nonlinear_arith);
                if s0.within_resident(input@.len() as int) {
                    lemma_div_in_block(t0.abs_pos(), s0.loaded_block(), s0.bs());
                }
                if written_idx > 0 && s0.abs_pos() + written_idx + 1 <= (s0.cur_block() + 1)
                    * s0.bs() {
                    lemma_div_in_block(t0.abs_pos() - 1, s0.cur_block(), s0.bs());
                    lemma_div_in_block(t0.abs_pos(), s0.cur_block(), s0.bs());
                }
            }
            let res = self.fill_buf();
            let ghost t1 = *self;
            proof {
                lemma_appended_chain(s0.dev().events(), t0.dev().events(), self.dev().events());
                let a = Self::appended_events(s0, t0);
                let b = Self::appended_events(t0, t1);
                let c = Self::appended_events(s0, t1);
                assert(c =~= a + b);
                assert forall|j: int|
                    0 <= j < c.len() implies match #[trigger] c[j] {
                    DeviceEvent::Read { block } => true,
                    DeviceEvent::Write { block, data } => {
                        &&& 0 <= block < s0.dev().blocks().len()
                        &&& data.len() == s0.bs()
                        &&& forall|o: int|
                            0 <= o < s0.bs() ==> (#[trigger] data[o]) == s0.byte_at(
                                block * s0.bs() + o,
                            ) || (s0.abs_pos() <= block * s0.bs() + o < s0.abs_pos()
                                + written_idx && data[o] == input@[block * s0.bs() + o
                                - s0.abs_pos()])
                    },
                } by {
                    if j < a.len() {
                        assert(c[j] == a[j]);
                    } else {
                        assert(c[j] == b[j - a.len()]);
                        if c[j] is Write {
                            let blk = t0.loaded_block();
                            assert(t0.dirty());
                            assert forall|o: int| 0 <= o < s0.bs() implies (#[trigger] t0.buf()[o]
                                == s0.byte_at(blk * s0.bs() + o) || (s0.abs_pos() <= blk
                                * s0.bs() + o < s0.abs_pos() + written_idx && t0.buf()[o]
                                == input@[blk * s0.bs() + o - s0.abs_pos()])) by {
                                assert((blk + 1) * s0.bs() == blk * s0.bs() + s0.bs())
                                    by (nonlinear_arith);
                                lemma_div_in_block(blk * s0.bs() + o, blk, s0.bs());
                                lemma_mul_inequality(
                                    blk + 1,
                                    t0.dev().blocks().len() as int,
                                    s0.bs(),
                                );
                                assert(t0.byte_at(blk * s0.bs() + o) == t0.buf()[o]);
                            }
                        }
                    }
                }
            }
            proof {
                assert forall|p: int| 0 <= p < self.dev_len() implies #[trigger] self.byte_at(p)
                    == (if s0.abs_pos() <= p < s0.abs_pos() + written_idx {
                    input@[p - s0.abs_pos()]
                } else {
                    s0.byte_at(p)
                }) by {
                    assert(self.byte_at(p) == t0.byte_at(p));
                }
            }
            let avail_bytes = match res {
                Ok(n) => n,
                Err(e) => {
                    proof {
                        lemma_pos_vs_len(t0.abs_pos(), t0.bs(), t0.dev().blocks().len() as int);
                    }
                    return Err(e);
                },
            };
            if avail_bytes == 0 {
                proof {
                    lemma_pos_vs_len(t0.abs_pos(), t0.bs(), t0.dev().blocks().len() as int);
                }
                break;
            }
            proof {
                lemma_pos_vs_len(t0.abs_pos(), t0.bs(), t0.dev().blocks().len() as int);
            }
            let off = self.offset_from_cur_block();
            let cur_byte = self.block_buffer[off];
            let new_byte = input[written_idx];
            proof {
                lemma_fundamental_div_mod(t1.abs_pos(), t1.bs());
                assert(cur_byte == t1.byte_at(t1.abs_pos()));
            }
            if cur_byte != new_byte {
                self.block_buffer.set(off, new_byte);
                self.needs_flush = true;
            }
            let ghost t2 = *self;
            proof {
                assert forall|p: int| 0 <= p < t1.dev_len() implies #[trigger] t2.byte_at(p) == (
                if p == t1.abs_pos() {
                    new_byte
                } else {
                    t1.byte_at(p)
                }) by {
                    lemma_pos_block(p, t1.bs(), t1.dev().blocks().len() as int);
                    lemma_fundamental_div_mod(t1.abs_pos(), t1.bs());
                    let b = p / t1.bs();
                    let o = p % t1.bs();
                    assert(p == b * t1.bs() + o);
                    assert(t1.abs_pos() == t1.bs() * (t1.abs_pos() / t1.bs()) + t1.intra());
                    if b == t1.loaded_block() && p != t1.abs_pos() {
                        assert(t1.abs_pos() / t1.bs() == t1.loaded_block());
                        assert(o != t1.intra()) by (nonlinear_arith)
                            requires
                                p == b * t1.bs() + o,
                                t1.abs_pos() == t1.bs() * b + t1.intra(),
                                p != t1.abs_pos(),
                        ;
                    }
                }
            }
            written_idx = written_idx + 1;
            self.consume(1);
            proof {
                assert forall|p: int| 0 <= p < self.dev_len() implies #[trigger] self.byte_at(p)
                    == (if s0.abs_pos() <= p < s0.abs_pos() + written_idx {
                    input@[p - s0.abs_pos()]
                } else {
                    s0.byte_at(p)
                }) by {
                    assert(self.byte_at(p) == t2.byte_at(p));
                    assert(t2.byte_at(p) == (if p == t1.abs_pos() {
                        new_byte
                    } else {
                        t1.byte_at(p)
                    }));
                }
                let bsv = s0.bs();
                let bcur = self.loaded_block();
                assert(t1.byte_at(t1.abs_pos()) == s0.byte_at(t1.abs_pos()));
                assert(cur_byte == s0.byte_at(s0.abs_pos() + (written_idx - 1)));
                assert(bcur == (s0.abs_pos() + written_idx - 1) / bsv);
                // the dirty flag after this byte, both ways
                if self.dirty() {
                    if cur_byte != new_byte {
                        assert((s0.abs_pos() + (written_idx - 1)) / bsv == bcur && input@[
                            written_idx - 1
                        ] != s0.byte_at(s0.abs_pos() + (written_idx - 1)));
                    } else {
                        assert(t1.dirty());
                        assert(!t0.needs_reload());
                        if written_idx > 1 {
                            assert(t0.loaded_block() == bcur);
                        }
                    }
                } else {
                    // refute every would-be witness of a differing byte in
                    // the resident block
                    assert forall|i: int|
                        0 <= i < written_idx && (s0.abs_pos() + i) / bsv
                            == bcur implies #[trigger] input@[i] == s0.byte_at(
                        s0.abs_pos() + i,
                    ) by {
                        if i == written_idx - 1 {
                            assert(cur_byte == new_byte);
                        } else {
                            lemma_div_is_ordered(
                                s0.abs_pos() + i,
                                s0.abs_pos() + written_idx - 2,
                                bsv,
                            );
                            lemma_div_is_ordered(
                                s0.abs_pos() + written_idx - 2,
                                s0.abs_pos() + written_idx - 1,
                                bsv,
                            );
                            assert(t0.loaded_block() == bcur);
                            assert(!t0.needs_reload());
                            assert(!t0.dirty());
                        }
                    }
                    // refute carried dirtiness
                    if s0.dirty() && s0.loaded() && s0.cur_block() == s0.loaded_block() && bcur
                        == s0.loaded_block() {
                        if written_idx == 1 {
                            assert(t0 == s0);
                            assert(!t0.needs_reload());
                            assert(false);
                        } else {
                            lemma_div_is_ordered(
                                s0.abs_pos(),
                                s0.abs_pos() + written_idx - 2,
                                bsv,
                            );
                            lemma_div_is_ordered(
                                s0.abs_pos() + written_idx - 2,
                                s0.abs_pos() + written_idx - 1,
                                bsv,
                            );
                            assert(t0.loaded_block() == s0.loaded_block());
                            assert(t0.dirty());
                            assert(!t0.needs_reload());
                            assert(false);
                        }
                    }
                }
                // the commands logged so far, under the grown splice window
                assert(Self::appended_events(s0, *self) == Self::appended_events(s0, t1));
            }
        }
        Ok(written_idx)
    }

    /// Move the cursor, absolutely or relative to where it stands, and
    /// return its new position. A relative seek whose magnitude would move
    /// the cursor below zero fails with `InvalidSeek` and moves nothing.
    /// Seeking touches neither the device nor the buffer; the next read or
    /// write performs any flush and reload the move made necessary.
    pub fn seek(&mut self, pos: SeekFrom) -> (r: Result<usize, StreamError>)
        requires
            pos matches SeekFrom::Current(off) ==> old(self).cursor() + off <= usize::MAX,
        ensures
            final(self).dev() == old(self).dev(),
            final(self).buf() == old(self).buf(),
            final(self).start() == old(self).start(),
            final(self).bs() == old(self).bs(),
            final(self).dirty() == old(self).dirty(),
            final(self).loaded_block() == old(self).loaded_block(),
            final(self).wf() == old(self).wf(),
            match pos {
                SeekFrom::Start(n) => r == Ok::<usize, StreamError>(n) && final(self).cursor()
                    == n,
                SeekFrom::Current(off) => if old(self).cursor() + off >= 0 {
                    &&& final(self).cursor() == old(self).cursor() + off
                    &&& r == Ok::<usize, StreamError>((old(self).cursor() + off) as usize)
                } else {
                    &&& final(self).cursor() == old(self).cursor()
                    &&& r == Err::<usize, StreamError>(StreamError::InvalidSeek)
                },
            },
    {
        match pos {
            SeekFrom::Start(n) => {
                self.partition_idx = n;
                Ok(n)
            },
            SeekFrom::Current(off) => {
                if off < 0 {
                    let mag: usize = if off == isize::MIN {
                        (isize::MAX as usize) + 1
                    } else {
                        (-off) as usize
                    };
                    if mag > self.partition_idx {
                        return Err(StreamError::InvalidSeek);
                    }
                    self.partition_idx = self.partition_idx - mag;
                } else {
                    self.partition_idx = self.partition_idx + (off as usize);
                }
                Ok(self.partition_idx)
            },
        }
    }

    /// Tear the stream down: flush any dirty block, hand the device back,
    /// and report whether the flush succeeded. A dirty block costs exactly
    /// one device write; a clean stream does not touch the device. This is
    /// the explicit form of disposal: a host that cannot observe a failure
    /// from its implicit teardown path should call this first.
    pub fn close(self) -> (r: (Result<(), StreamError>, D))
        requires
            self.wf(),
        ensures
            match r.0 {
                Ok(_) => {
                    &&& (self.dirty() ==> r.1.events() == self.dev().events().push(
                        DeviceEvent::Write { block: self.loaded_block(), data: self.buf() },
                    ) && r.1.blocks() == self.dev().blocks().update(
                        self.loaded_block(),
                        self.buf(),
                    ))
                    &&& (!self.dirty() ==> r.1 == self.dev())
                },
                Err(e) => {
                    &&& self.dirty()
                    &&& (e is Device || e is BufferTooSmall)
                    &&& r.1.blocks() == self.dev().blocks()
                    &&& r.1.events() == self.dev().events().push(
                        DeviceEvent::Write { block: self.loaded_block(), data: self.buf() },
                    )
                },
            },
    {
        let mut s = self;
        let res = s.flush();
        (res, s.device)
    }

    /// Round trip: a value stored at medium position `p` — what `write`'s
    /// contract establishes for each byte it copies — survives every
    /// medium-preserving step — what `seek`, `flush`, `fill_buf` and `read`
    /// guarantee — whether or not such a step flushed or reloaded the
    /// buffer, and is therefore the byte a later read at `p` delivers.
    pub proof fn lemma_round_trip(w: Self, r: Self, p: int, v: u8)
        requires
            0 <= p < w.dev_len(),
            w.byte_at(p) == v,
            Self::same_medium(w, r),
        ensures
            r.byte_at(p) == v,
    {
    }

    /// End of medium is absorbing: a read that found the cursor at or past
    /// the end of a clean stream leaves the cursor, the geometry and the
    /// cleanliness as they were, so by `read`'s contract every later read
    /// again returns zero bytes, without blocking or failing.
    pub proof fn lemma_end_of_medium_persists(pre: Self, post: Self)
        requires
            pre.abs_pos() >= pre.dev_len(),
            !pre.dirty(),
            Self::same_geometry(pre, post),
            post.cursor() == pre.cursor(),
            post.dirty() ==> pre.dirty(),
        ensures
            post.abs_pos() >= post.dev_len(),
            !post.dirty(),
    {
    }

    /// The cursor's position relative to the start of the partition.
    pub fn position(&self) -> (r: usize)
        ensures
            r as int == self.cursor(),
    {
        self.partition_idx
    }

    /// Whether the resident block has unflushed changes.
    pub fn is_dirty(&self) -> (r: bool)
        ensures
            r == self.dirty(),
    {
        self.needs_flush
    }

    /// Whether a block is resident in the buffer.
    pub fn has_resident_block(&self) -> (r: bool)
        ensures
            r == self.loaded(),
    {
        self.block_buffer.len() > 0
    }

    /// The device block number the buffer mirrors; meaningful only while a
    /// block is resident.
    pub fn buffered_block_number(&self) -> (r: usize)
        ensures
            r as int == self.loaded_block(),
    {
        self.loaded_block_number
    }

    /// The cursor's offset within its block.
    pub fn offset_from_cur_block(&self) -> (r: usize)
        requires
            self.wf(),
            self.abs_pos() <= usize::MAX,
        ensures
            r as int == self.intra(),
            (r as int) < self.bs(),
    {
        proof {
            lemma_mod_division_less_than_divisor(self.abs_pos(), self.bs());
        }
        self.raw_idx() - self.cur_block_raw_idx()
    }
}

} // verus!
