//! The block-addressable device the stream sits on: its capability trait,
//! its error type, and a verified in-memory device used by tests.

use vstd::pervasive::VecAdditionalExecFns;
use vstd::prelude::*;

verus! {

/// Why a device rejected or failed a block read or write.
#[derive(Clone, Copy, Debug, PartialEq, Eq, Structural)]
pub enum DeviceError {
    /// The device reported more data than the destination buffer can hold.
    BufferTooSmall { expected: usize, actual: usize },
    /// Any other device or transport fault.
    Other,
}

/// One device command, kept in ghost state so that contracts can say exactly
/// which reads and writes a sequence of stream operations issued, and in what
/// order.
pub enum DeviceEvent {
    /// A whole-block read of the block with this number.
    Read { block: int },
    /// A whole-block write of `data` to the block with this number.
    Write { block: int, data: Seq<u8> },
}

/// A block-addressable storage device: a fixed block size, whole-block reads
/// and whole-block writes. The stream consumes this capability; it never sees
/// inside the device.
pub trait BlockDevice: Sized {
    /// The device's block size, in bytes. The default leaves it
    /// unspecified, for impls outside the verified world; a verified impl
    /// gives it a meaning.
    open spec fn bs(&self) -> int {
        vstd::pervasive::arbitrary()
    }

    /// The content of the medium, one byte sequence per block. The default
    /// leaves it unspecified; a verified impl gives it a meaning.
    open spec fn blocks(&self) -> Seq<Seq<u8>> {
        vstd::pervasive::arbitrary()
    }

    /// Every command issued to the device so far, oldest first. The default
    /// leaves it unspecified; a verified impl gives it a meaning.
    open spec fn events(&self) -> Seq<DeviceEvent> {
        vstd::pervasive::arbitrary()
    }

    /// A well-formed device has a positive block size, every block holds
    /// exactly one block's worth of bytes, and the medium as a whole fits in
    /// a byte address space.
    open spec fn wf(&self) -> bool {
        &&& 0 < self.bs()
        &&& forall|i: int|
            0 <= i < self.blocks().len() ==> (#[trigger] self.blocks()[i]).len() == self.bs()
        &&& self.blocks().len() * self.bs() <= usize::MAX
    }

    /// The block size in bytes; fixed for the device's lifetime.
    fn block_size(&self) -> (r: usize)
        requires
            self.wf(),
        ensures
            r as int == self.bs(),
        ;

    /// Read block `block_number` into `out`, replacing its contents.
    ///
    /// In range, a successful read fills `out` with the whole block. Past the
    /// last block the device reports end of medium: `Ok(0)` with `out` left
    /// empty, never a fault. A fault can only happen in range and leaves
    /// `out` empty and the medium unchanged.
    fn read_block(&mut self, block_number: usize, out: &mut Vec<u8>) -> (r: Result<
        usize,
        DeviceError,
    >)
        requires
            old(self).wf(),
        ensures
            final(self).wf(),
            final(self).bs() == old(self).bs(),
            final(self).blocks() == old(self).blocks(),
            final(self).events() == old(self).events().push(
                DeviceEvent::Read { block: block_number as int },
            ),
            match r {
                Ok(n) => if (block_number as int) < old(self).blocks().len() {
                    n as int == old(self).bs() && final(out)@ == old(self).blocks()[
                        block_number as int
                    ]
                } else {
                    n == 0 && final(out)@.len() == 0
                },
                Err(e) => (block_number as int) < old(self).blocks().len() && final(out)@.len()
                    == 0,
            },
        ;

    /// Overwrite block `block_number` with `data`, which must be exactly one
    /// block of bytes.
    ///
    /// Block writes are atomic: a failed write leaves the whole medium
    /// unchanged.
    fn write_block(&mut self, block_number: usize, data: &Vec<u8>) -> (r: Result<
        usize,
        DeviceError,
    >)
        requires
            old(self).wf(),
            data@.len() == old(self).bs(),
            (block_number as int) < old(self).blocks().len(),
        ensures
            final(self).wf(),
            final(self).bs() == old(self).bs(),
            final(self).events() == old(self).events().push(
                DeviceEvent::Write { block: block_number as int, data: data@ },
            ),
            match r {
                Ok(n) => n as int == old(self).bs() && final(self).blocks() == old(
                    self,
                ).blocks().update(block_number as int, data@),
                Err(e) => final(self).blocks() == old(self).blocks(),
            },
        ;
}

/// A verified in-memory block device: the medium is a vector of blocks held
/// in memory. It backs the tests and demonstrates that the `BlockDevice`
/// contract can be met. A fault can be injected to exercise error paths, and
/// the device counts the read and write commands it has been issued.
pub struct MemDevice {
    block_size: usize,
    data: Vec<Vec<u8>>,
    reads_issued: u64,
    writes_issued: u64,
    next_fault: Option<DeviceError>,
    fault_delay: usize,
    history: Ghost<Seq<DeviceEvent>>,
}

impl MemDevice {
    /// How many read commands this device has been issued (saturating).
    pub closed spec fn reads(&self) -> u64 {
        self.reads_issued
    }

    /// How many write commands this device has been issued (saturating).
    pub closed spec fn writes(&self) -> u64 {
        self.writes_issued
    }

    /// The fault a coming in-range command will report, if one was injected.
    pub closed spec fn fault(&self) -> Option<DeviceError> {
        self.next_fault
    }

    /// How many in-range commands still pass before the injected fault fires.
    pub closed spec fn fault_wait(&self) -> int {
        self.fault_delay as int
    }

    /// A zero-filled device of `block_count` blocks of `block_size` bytes.
    pub fn new(block_size: usize, block_count: usize) -> (r: MemDevice)
        requires
            0 < block_size,
            block_size * block_count <= usize::MAX,
        ensures
            r.wf(),
            r.bs() == block_size,
            r.blocks().len() == block_count,
            forall|i: int, j: int|
                0 <= i < block_count && 0 <= j < block_size ==> r.blocks()[i][j] == 0u8,
            r.events() == Seq::<DeviceEvent>::empty(),
            r.reads() == 0,
            r.writes() == 0,
            r.fault() is None,
    {
        let mut data: Vec<Vec<u8>> = Vec::new();
        let mut i: usize = 0;
        while i < block_count
            invariant
                i <= block_count,
                data@.len() == i,
                forall|bi: int|
                    0 <= bi < i ==> (#[trigger] data@[bi])@ =~= Seq::new(
                        block_size as nat,
                        |j: int| 0u8,
                    ),
            decreases block_count - i,
        {
            let mut block: Vec<u8> = Vec::new();
            let mut j: usize = 0;
            while j < block_size
                invariant
                    j <= block_size,
                    block@ =~= Seq::new(j as nat, |k: int| 0u8),
                decreases block_size - j,
            {
                block.push(0u8);
                j = j + 1;
            }
            data.push(block);
            i = i + 1;
        }
        let r = MemDevice {
            block_size,
            data,
            reads_issued: 0,
            writes_issued: 0,
            next_fault: None,
            fault_delay: 0,
            history: Ghost(Seq::empty()),
        };
        proof {
            assert(forall|i: int|
                0 <= i < block_count ==> (#[trigger] r.blocks()[i]).len() == block_size);
            vstd::arithmetic::mul::lemma_mul_is_commutative(block_count as int, block_size as int);
        }
        r
    }

    /// Make the next in-range read or write command fail with `e`.
    pub fn inject_fault(&mut self, e: DeviceError)
        ensures
            final(self).fault() == Some(e),
            final(self).fault_wait() == 0,
            final(self).bs() == old(self).bs(),
            final(self).blocks() == old(self).blocks(),
            final(self).events() == old(self).events(),
            final(self).reads() == old(self).reads(),
            final(self).writes() == old(self).writes(),
            final(self).wf() == old(self).wf(),
    {
        self.next_fault = Some(e);
        self.fault_delay = 0;
    }

    /// Make the in-range read or write command after the next `skip` of them
    /// fail with `e`.
    pub fn inject_fault_after(&mut self, e: DeviceError, skip: usize)
        ensures
            final(self).fault() == Some(e),
            final(self).fault_wait() == skip,
            final(self).bs() == old(self).bs(),
            final(self).blocks() == old(self).blocks(),
            final(self).events() == old(self).events(),
            final(self).reads() == old(self).reads(),
            final(self).writes() == old(self).writes(),
            final(self).wf() == old(self).wf(),
    {
        self.next_fault = Some(e);
        self.fault_delay = skip;
    }

    /// The byte at `offset` within block `block_number`, or `None` when the
    /// position is off the medium. Lets a test look at what a flush wrote.
    pub fn peek(&self, block_number: usize, offset: usize) -> (r: Option<u8>)
        ensures
            r == if (block_number as int) < self.blocks().len() && (offset as int)
                < self.blocks()[block_number as int].len() {
                Some(self.blocks()[block_number as int][offset as int])
            } else {
                None::<u8>
            },
    {
        if block_number < self.data.len() {
            let block = &self.data[block_number];
            if offset < block.len() {
                return Some(block[offset]);
            }
        }
        None
    }

    /// How many read commands the device has seen (saturating).
    pub fn read_count(&self) -> (r: u64)
        ensures
            r == self.reads(),
    {
        self.reads_issued
    }

    /// How many write commands the device has seen (saturating).
    pub fn write_count(&self) -> (r: u64)
        ensures
            r == self.writes(),
    {
        self.writes_issued
    }
}

impl BlockDevice for MemDevice {
    closed spec fn bs(&self) -> int {
        self.block_size as int
    }

    closed spec fn blocks(&self) -> Seq<Seq<u8>> {
        Seq::new(self.data@.len(), |i: int| self.data@[i]@)
    }

    closed spec fn events(&self) -> Seq<DeviceEvent> {
        self.history@
    }

    fn block_size(&self) -> (r: usize) {
        self.block_size
    }

    fn read_block(&mut self, block_number: usize, out: &mut Vec<u8>) -> (r: Result<
        usize,
        DeviceError,
    >) {
        self.history = Ghost(
            self.history@.push(DeviceEvent::Read { block: block_number as int }),
        );
        if self.reads_issued < u64::MAX {
            self.reads_issued = self.reads_issued + 1;
        }
        out.clear();
        if block_number >= self.data.len() {
            return Ok(0);
        }
        if let Some(e) = self.next_fault {
            if self.fault_delay == 0 {
                self.next_fault = None;
                return Err(e);
            }
            self.fault_delay = self.fault_delay - 1;
        }
        let src = &self.data[block_number];
        let mut i: usize = 0;
        while i < src.len()
            invariant
                i <= src@.len(),
                out@ =~= src@.subrange(0, i as int),
            decreases src@.len() - i,
        {
            let b = src[i];
            out.push(b);
            i = i + 1;
        }
        proof {
            assert(out@ =~= src@);
        }
        Ok(self.block_size)
    }

    fn write_block(&mut self, block_number: usize, data: &Vec<u8>) -> (r: Result<
        usize,
        DeviceError,
    >) {
        self.history = Ghost(
            self.history@.push(DeviceEvent::Write { block: block_number as int, data: data@ }),
        );
        if self.writes_issued < u64::MAX {
            self.writes_issued = self.writes_issued + 1;
        }
        if let Some(e) = self.next_fault {
            if self.fault_delay == 0 {
                self.next_fault = None;
                return Err(e);
            }
            self.fault_delay = self.fault_delay - 1;
        }
        let mut copy: Vec<u8> = Vec::new();
        let mut i: usize = 0;
        while i < data.len()
            invariant
                i <= data@.len(),
                copy@ =~= data@.subrange(0, i as int),
            decreases data@.len() - i,
        {
            let b = data[i];
            copy.push(b);
            i = i + 1;
        }
        proof {
            assert(copy@ =~= data@);
        }
        self.data.set(block_number, copy);
        proof {
            assert(self.blocks() =~= old(self).blocks().update(block_number as int, data@));
        }
        Ok(self.block_size)
    }
}

} // verus!
