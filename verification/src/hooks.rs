//! The command protocol behind the hooked variable service.
//!
//! A call of the service is inspected first: only a call that carries the
//! private vendor identifier and a payload is taken for a command, every
//! other call is to be forwarded to the service of the firmware. A command asks for
//! `len` bytes of physical memory at `src` to be copied to the caller's
//! buffer at `dst`. It is served chunk by chunk, a chunk ending where the
//! destination reaches a page boundary. The session decides what is to be
//! done next; the platform does it and reports back.

use vstd::prelude::*;
use crate::free_list::DropPush;
use crate::identity_page_table::{
    lemma_same_walks_chain,
    lemma_same_walks_refl,
    same_span,
    same_walks_below,
    IdentityPageTable,
    REMAP_SIZE,
    REMAP_SLOTS,
};
use crate::mem_maps::EfiMemMaps;
use crate::phys_mem::{PhysMemory, PAGE_SIZE};
use crate::vtop::as_page_aligned;
use crate::wire::{le_u32, le_u64, read_u32_le, read_u64_le};

verus! {

/// Sentinel that the first field of a command holds.
pub const COMMAND_MAGIC: u32 = 0x2b54_a004;

/// Size of a command on the wire.
pub const COMMAND_SIZE: usize = 32;

/// Length of a vendor identifier.
pub const GUID_SIZE: usize = 16;

/// The command envelope: copy `len` bytes of physical memory at `src` to `dst`.
#[derive(Clone, Copy, Debug, PartialEq, Eq, Structural)]
pub struct MemflowCommand {
    pub magic: u32,
    pub src: u64,
    pub dst: u64,
    pub len: u64,
}

/// Status that the hook returns for a command.
#[derive(Clone, Copy, Debug, PartialEq, Eq, Structural)]
pub enum HookStatus {
    /// At least one chunk was copied.
    Success,
    /// The envelope is malformed.
    InvalidParameter,
    /// No chunk was copied.
    AccessDenied,
}

/// What is to become of a call of the hooked service.
#[derive(Clone, Copy, Debug, PartialEq, Eq, Structural)]
pub enum HookDecision {
    /// Not a command: call the service of the firmware with the same arguments.
    Forward,
    /// A malformed command: return `InvalidParameter`, touch nothing.
    Reject,
    /// A command to serve.
    Service(MemflowCommand),
}

/// The private vendor identifier, byte for byte.
pub open spec fn vendor_guid() -> Seq<u8> {
    seq![
        0x63u8, 0x5a, 0x35, 0x33, 0x78, 0x37, 0x64, 0x79, 0x78, 0x41, 0x56, 0x4a, 0x52, 0x44, 0x31,
        0x39,
    ]
}

/// The command that the first 32 bytes hold: `magic` at offset 0, `src` at
/// 8, `dst` at 16 and `len` at 24, little-endian.
pub open spec fn command_at(bytes: Seq<u8>) -> MemflowCommand {
    MemflowCommand {
        magic: le_u32(bytes, 0) as u32,
        src: le_u64(bytes, 8) as u64,
        dst: le_u64(bytes, 16) as u64,
        len: le_u64(bytes, 24) as u64,
    }
}

impl MemflowCommand {
    /// Whether the command can be served: the sentinel is right, source and
    /// destination are not null, the length is not zero, and neither range
    /// runs past the end of the address space.
    pub open spec fn valid(&self) -> bool {
        &&& self.magic == COMMAND_MAGIC
        &&& self.src != 0
        &&& self.dst != 0
        &&& self.len > 0
        &&& self.src + self.len <= u64::MAX
        &&& self.dst + self.len <= u64::MAX
    }

    /// Whether the command can be served.
    pub fn is_valid(&self) -> (valid: bool)
        ensures
            valid == self.valid(),
    {
        self.magic == COMMAND_MAGIC && self.src != 0 && self.dst != 0 && self.len > 0 && self.len
            <= u64::MAX - self.src && self.len <= u64::MAX - self.dst
    }
}

/// What is to become of a call with these arguments. A call without a name,
/// without the private vendor identifier or without a payload is forwarded.
/// Of the others, the payload must hold a command that can be served.
pub open spec fn decision(name_present: bool, guid: Option<Seq<u8>>, data: Option<Seq<u8>>) -> HookDecision {
    if !name_present || guid is None || data is None || data->0.len() == 0 || guid->0
        != vendor_guid() {
        HookDecision::Forward
    } else if data->0.len() < COMMAND_SIZE || !command_at(data->0).valid() {
        HookDecision::Reject
    } else {
        HookDecision::Service(command_at(data->0))
    }
}

/// Whether `guid` is the private vendor identifier.
pub fn is_vendor_guid(guid: &[u8]) -> (private: bool)
    ensures
        private == (guid@ == vendor_guid()),
{
    if guid.len() != GUID_SIZE {
        return false;
    }
    let same = guid[0] == 0x63 && guid[1] == 0x5a && guid[2] == 0x35 && guid[3] == 0x33 && guid[4]
        == 0x78 && guid[5] == 0x37 && guid[6] == 0x64 && guid[7] == 0x79 && guid[8] == 0x78
        && guid[9] == 0x41 && guid[10] == 0x56 && guid[11] == 0x4a && guid[12] == 0x52 && guid[13]
        == 0x44 && guid[14] == 0x31 && guid[15] == 0x39;
    proof {
        if same {
            assert(guid@ =~= vendor_guid());
        }
    }
    same
}

/// Decodes the command that `data` starts with; `None` when `data` is too
/// short to hold one.
pub fn parse_command(data: &[u8]) -> (command: Option<MemflowCommand>)
    ensures
        command == if data@.len() < COMMAND_SIZE {
            None
        } else {
            Some(command_at(data@))
        },
{
    if data.len() < COMMAND_SIZE {
        return None;
    }
    Some(
        MemflowCommand {
            magic: read_u32_le(data, 0),
            src: read_u64_le(data, 8),
            dst: read_u64_le(data, 16),
            len: read_u64_le(data, 24),
        },
    )
}

/// The view of an optional byte slice.
pub open spec fn bytes_of(data: Option<&[u8]>) -> Option<Seq<u8>> {
    match data {
        Some(bytes) => Some(bytes@),
        None => None,
    }
}

/// Inspects the arguments of a call of the hooked service: whether a name
/// was given, the vendor identifier and the payload.
pub fn inspect_call(name_present: bool, vendor_guid: Option<&[u8]>, data: Option<&[u8]>) -> (decided:
    HookDecision)
    ensures
        decided == decision(name_present, bytes_of(vendor_guid), bytes_of(data)),
{
    if !name_present {
        return HookDecision::Forward;
    }
    match (vendor_guid, data) {
        (Some(guid), Some(payload)) => {
            if payload.len() == 0 || !is_vendor_guid(guid) {
                return HookDecision::Forward;
            }
            match parse_command(payload) {
                Some(command) => {
                    if command.is_valid() {
                        HookDecision::Service(command)
                    } else {
                        HookDecision::Reject
                    }
                },
                None => HookDecision::Reject,
            }
        },
        _ => HookDecision::Forward,
    }
}

/// Whether a chunk starts at `offset`: at the start of the command, or where
/// the destination reaches a page boundary.
pub open spec fn chunk_start(cmd: MemflowCommand, offset: int) -> bool {
    0 <= offset < cmd.len && (offset == 0 || (cmd.dst + offset) % (PAGE_SIZE as int) == 0)
}

/// Length of the chunk that starts at `offset`: up to the next page boundary
/// of the destination, or to the end of the command.
pub open spec fn chunk_len(cmd: MemflowCommand, offset: int) -> int {
    let to_boundary = PAGE_SIZE - (cmd.dst + offset) % (PAGE_SIZE as int);
    if to_boundary < cmd.len - offset {
        to_boundary
    } else {
        cmd.len - offset
    }
}

/// Page base of the source of the chunk that starts at `offset`.
pub open spec fn chunk_source_page(cmd: MemflowCommand, offset: int) -> int {
    (cmd.src + offset) - (cmd.src + offset) % (PAGE_SIZE as int)
}

/// One chunk of a command.
#[derive(Clone, Copy, Debug, PartialEq, Eq, Structural)]
pub struct Chunk {
    /// Offset of the chunk within the command.
    pub offset: u64,
    /// Physical address of the first byte to copy.
    pub src: u64,
    /// Address of the first byte of the destination.
    pub dst: u64,
    /// Number of bytes.
    pub len: u64,
}

/// The chunk of `cmd` that starts at `offset`.
pub open spec fn chunk_at(cmd: MemflowCommand, offset: int) -> Chunk {
    Chunk {
        offset: offset as u64,
        src: (cmd.src + offset) as u64,
        dst: (cmd.dst + offset) as u64,
        len: chunk_len(cmd, offset) as u64,
    }
}

/// The chunk of `cmd` that starts at `offset`.
pub fn next_chunk(cmd: &MemflowCommand, offset: u64) -> (chunk: Chunk)
    requires
        cmd.valid(),
        offset < cmd.len,
    ensures
        chunk == chunk_at(*cmd, offset as int),
        0 < chunk.len <= PAGE_SIZE,
        offset + chunk.len <= cmd.len,
        (cmd.dst + offset + chunk.len) % (PAGE_SIZE as int) == 0 || offset + chunk.len == cmd.len,
{
    let dst: u64 = cmd.dst + offset;
    let to_boundary: u64 = PAGE_SIZE - dst % PAGE_SIZE;
    let left: u64 = cmd.len - offset;
    let len: u64 = if to_boundary < left {
        to_boundary
    } else {
        left
    };
    Chunk { offset, src: cmd.src + offset, dst, len }
}

/// What the session waits for.
#[derive(Clone, Copy, Debug, PartialEq, Eq, Structural)]
pub enum Phase {
    /// The chunk is being zero-filled.
    Zeroing,
    /// Interrupts are being masked and the caller's root read.
    Entering,
    /// The identity root is being installed.
    Switching,
    /// The chunk is being copied.
    Copying,
    /// The caller's root is being installed again.
    Restoring,
    /// Interrupts are being unmasked.
    Leaving,
    /// The command is done.
    Finished,
}

/// What the platform is to do next.
#[derive(Clone, Copy, Debug, PartialEq, Eq, Structural)]
pub enum HookAction {
    /// Return the status to the caller: the command is done.
    Return(HookStatus),
    /// Fill `len` bytes at `dst`, in the caller's address space, with zeros.
    ZeroFill { dst: u64, offset: u64, len: u64 },
    /// Mask interrupts, then report the active root with its flags and the
    /// entry of that root that governs the address `lookup`.
    EnterCritical { lookup: u64 },
    /// Install `root`, the identity root, with `flags` as the active root,
    /// with `entry` in the word at `slot_addr` of that root.
    SwitchRoot { root: u64, flags: u64, slot_addr: u64, entry: u64 },
    /// Copy `len` bytes of physical memory at `src` to `dst`.
    Copy { src: u64, dst: u64, offset: u64, len: u64 },
    /// Install `root` with `flags` as the active root.
    RestoreRoot { root: u64, flags: u64 },
    /// Put interrupts back as they were before they were masked.
    LeaveCritical,
}

/// What the platform reports after an action. Only `EnterCritical` asks for
/// values; after every other action the fields are ignored.
#[derive(Clone, Copy, Debug, PartialEq, Eq, Structural)]
pub struct HookReply {
    /// The active root.
    pub root: u64,
    /// The flags of the active root.
    pub flags: u64,
    /// The entry of the active root that was asked for.
    pub entry: u64,
}

/// The phase and the action with which the chunk at `offset` starts, or with
/// which the command ends when no chunk is left: a chunk whose source page
/// is usable memory is copied, any other is zero-filled.
pub open spec fn dispatched(cmd: MemflowCommand, offset: int, status: HookStatus, maps: EfiMemMaps) -> (
    Phase,
    HookAction,
) {
    if offset >= cmd.len {
        (Phase::Finished, HookAction::Return(status))
    } else if maps.mapped(chunk_source_page(cmd, offset) as u64) {
        (Phase::Entering, HookAction::EnterCritical { lookup: (cmd.dst + offset) as u64 })
    } else {
        (
            Phase::Zeroing,
            HookAction::ZeroFill {
                dst: (cmd.dst + offset) as u64,
                offset: offset as u64,
                len: chunk_len(cmd, offset) as u64,
            },
        )
    }
}

/// A command that is being served.
pub struct HookSession {
    /// The command.
    pub cmd: MemflowCommand,
    /// Offset of the chunk in progress; the length of the command at the end.
    pub offset: u64,
    /// `Success` once a chunk was copied, `AccessDenied` before.
    pub status: HookStatus,
    /// What the session waits for.
    pub phase: Phase,
    /// The caller's root, saved when the critical section was entered.
    pub saved_root: u64,
    /// The flags of the caller's root.
    pub saved_flags: u64,
    /// Address of the chunk's destination under the identity root.
    pub remapped: u64,
    /// The remapping slot that the session holds between remapping and release.
    pub handle: Option<DropPush<usize>>,
}

impl HookSession {
    /// The remapping slot that the session holds, if it holds one.
    pub open spec fn lent(&self) -> Option<usize> {
        match self.handle {
            Some(handle) => Some(handle@),
            None => None,
        }
    }

    /// Whether the session holds a remapping slot in this phase.
    pub open spec fn holds_slot(phase: Phase) -> bool {
        phase == Phase::Switching || phase == Phase::Copying || phase == Phase::Restoring
    }

    /// The session is consistent with the table it works on: it stands at
    /// the start of a chunk until it has finished, and it holds a slot, which
    /// is then not free, exactly between remapping and release.
    pub open spec fn wf(&self, table: &IdentityPageTable) -> bool {
        &&& self.cmd.valid()
        &&& self.phase != Phase::Finished ==> chunk_start(self.cmd, self.offset as int)
        &&& self.phase == Phase::Finished ==> self.offset == self.cmd.len
        &&& self.status == HookStatus::Success || self.status == HookStatus::AccessDenied
        &&& Self::holds_slot(self.phase) <==> self.lent() is Some
        &&& self.lent() is Some ==> table.identity_top() <= self.lent()->0 < REMAP_SLOTS
            && !table.free_slots().contains(self.lent()->0)
    }

    /// How the session and the table stand after the reply to the action
    /// that the session waited for, and the action that follows.
    pub open spec fn advanced(
        before: HookSession,
        table_before: IdentityPageTable,
        maps: EfiMemMaps,
        reply: HookReply,
        after: HookSession,
        table_after: IdentityPageTable,
        action: HookAction,
    ) -> bool {
        let cmd = before.cmd;
        let chunk = chunk_at(cmd, before.offset as int);
        &&& after.cmd == cmd
        &&& table_after.root() == table_before.root()
        &&& table_after.free_frames() == table_before.free_frames()
        &&& table_after.identity_top() == table_before.identity_top()
        &&& same_walks_below(
            table_before.memory(),
            table_after.memory(),
            table_before.root(),
            table_before.identity_top(),
        )
        &&& match before.phase {
            Phase::Zeroing | Phase::Leaving => {
                &&& after.offset == before.offset + chunk.len
                &&& after.status == before.status
                &&& (after.phase, action) == dispatched(cmd, after.offset as int, after.status, maps)
                &&& table_after.free_slots() == table_before.free_slots()
                &&& table_after.memory() == table_before.memory()
                &&& after.lent() is None
            },
            Phase::Entering => {
                &&& after.offset == before.offset
                &&& after.status == before.status
                &&& after.saved_root == reply.root
                &&& after.saved_flags == reply.flags
                &&& if same_span(chunk.dst, chunk.len) && table_before.free_slots().len() > 0 {
                    let slot = table_before.free_slots().last();
                    &&& after.phase == Phase::Switching
                    &&& after.lent() == Some(slot)
                    &&& table_after.free_slots() == table_before.free_slots().drop_last()
                    &&& after.remapped == slot * REMAP_SIZE + chunk.dst % REMAP_SIZE
                    &&& action == (HookAction::SwitchRoot {
                        root: table_before.root(),
                        flags: 0,
                        slot_addr: (table_before.root() + 8 * slot) as u64,
                        entry: reply.entry,
                    })
                    &&& forall|x: u64|
                        #[trigger] table_after.memory().read_spec(x) == if x == table_before.root()
                            + 8 * slot {
                            reply.entry
                        } else {
                            table_before.memory().read_spec(x)
                        }
                } else {
                    &&& after.phase == Phase::Leaving
                    &&& after.lent() is None
                    &&& table_after.free_slots() == table_before.free_slots()
                    &&& table_after.memory() == table_before.memory()
                    &&& action == HookAction::LeaveCritical
                }
            },
            Phase::Switching => {
                &&& after.offset == before.offset
                &&& after.status == before.status
                &&& after.saved_root == before.saved_root
                &&& after.saved_flags == before.saved_flags
                &&& after.remapped == before.remapped
                &&& after.lent() == before.lent()
                &&& after.phase == Phase::Copying
                &&& table_after.free_slots() == table_before.free_slots()
                &&& table_after.memory() == table_before.memory()
                &&& action == (HookAction::Copy {
                    src: chunk.src,
                    dst: before.remapped,
                    offset: before.offset,
                    len: chunk.len,
                })
            },
            Phase::Copying => {
                &&& after.offset == before.offset
                &&& after.status == before.status
                &&& after.saved_root == before.saved_root
                &&& after.saved_flags == before.saved_flags
                &&& after.lent() == before.lent()
                &&& after.phase == Phase::Restoring
                &&& table_after.free_slots() == table_before.free_slots()
                &&& table_after.memory() == table_before.memory()
                &&& action == (HookAction::RestoreRoot {
                    root: before.saved_root,
                    flags: before.saved_flags,
                })
            },
            Phase::Restoring => {
                &&& after.offset == before.offset
                &&& after.status == HookStatus::Success
                &&& after.lent() is None
                &&& after.phase == Phase::Leaving
                &&& table_after.free_slots() == table_before.free_slots().push(before.lent()->0)
                &&& table_after.memory() == table_before.memory()
                &&& action == HookAction::LeaveCritical
            },
            Phase::Finished => {
                &&& after.offset == before.offset
                &&& after.status == before.status
                &&& after.phase == Phase::Finished
                &&& after.lent() is None
                &&& table_after.free_slots() == table_before.free_slots()
                &&& table_after.memory() == table_before.memory()
                &&& action == HookAction::Return(before.status)
            },
        }
    }

    /// Starts the chunk at the session's offset, or ends the command when no
    /// chunk is left.
    fn dispatch(&mut self, maps: &EfiMemMaps) -> (action: HookAction)
        requires
            old(self).cmd.valid(),
            old(self).offset <= old(self).cmd.len,
        ensures
            (final(self).phase, action) == dispatched(
                old(self).cmd,
                old(self).offset as int,
                old(self).status,
                *maps,
            ),
            final(self).cmd == old(self).cmd,
            final(self).offset == old(self).offset,
            final(self).status == old(self).status,
            final(self).saved_root == old(self).saved_root,
            final(self).saved_flags == old(self).saved_flags,
            final(self).remapped == old(self).remapped,
            final(self).lent() == old(self).lent(),
    {
        if self.offset >= self.cmd.len {
            self.phase = Phase::Finished;
            return HookAction::Return(self.status);
        }
        let chunk = next_chunk(&self.cmd, self.offset);
        if maps.is_mapped(as_page_aligned(chunk.src)) {
            self.phase = Phase::Entering;
            HookAction::EnterCritical { lookup: chunk.dst }
        } else {
            self.phase = Phase::Zeroing;
            HookAction::ZeroFill { dst: chunk.dst, offset: chunk.offset, len: chunk.len }
        }
    }

    /// Opens a session for `cmd` and returns it with the first action.
    pub fn begin(cmd: MemflowCommand, maps: &EfiMemMaps) -> (started: (HookSession, HookAction))
        requires
            cmd.valid(),
        ensures
            started.0.cmd == cmd,
            started.0.offset == 0,
            started.0.status == HookStatus::AccessDenied,
            started.0.lent() is None,
            (started.0.phase, started.1) == dispatched(cmd, 0, HookStatus::AccessDenied, *maps),
    {
        let mut session = HookSession {
            cmd,
            offset: 0,
            status: HookStatus::AccessDenied,
            phase: Phase::Finished,
            saved_root: 0,
            saved_flags: 0,
            remapped: 0,
            handle: None,
        };
        let action = session.dispatch(maps);
        (session, action)
    }

    /// Takes the platform's reply to the action that the session waited for
    /// and returns the action that follows. Between masking and unmasking of
    /// interrupts the order is fixed: remap the chunk's destination, install
    /// the identity root, copy, install the caller's root again, release the
    /// slot. When the destination cannot be remapped, the chunk is left as
    /// it is and interrupts are unmasked at once.
    pub fn advance(
        &mut self,
        table: &mut IdentityPageTable,
        maps: &EfiMemMaps,
        reply: HookReply,
    ) -> (action: HookAction)
        requires
            old(table).wf(),
            old(self).wf(old(table)),
        ensures
            final(table).wf(),
            final(self).wf(final(table)),
            Self::advanced(*old(self), *old(table), *maps, reply, *final(self), *final(table), action),
    {
        proof {
            lemma_same_walks_refl(table.memory(), table.root(), table.identity_top());
        }
        match self.phase {
            Phase::Zeroing | Phase::Leaving => {
                let chunk = next_chunk(&self.cmd, self.offset);
                self.offset = self.offset + chunk.len;
                self.dispatch(maps)
            },
            Phase::Entering => {
                let chunk = next_chunk(&self.cmd, self.offset);
                self.saved_root = reply.root;
                self.saved_flags = reply.flags;
                let root: u64 = table.dtb_addr();
                proof {
                    table.lemma_wf_root();
                }
                match table.remap_entry(chunk.dst, chunk.len, reply.entry) {
                    Ok((handle, remapped)) => {
                        let slot: usize = *handle.deref();
                        self.handle = Some(handle);
                        self.remapped = remapped;
                        self.phase = Phase::Switching;
                        HookAction::SwitchRoot {
                            root,
                            flags: 0,
                            slot_addr: root + 8 * (slot as u64),
                            entry: reply.entry,
                        }
                    },
                    Err(_) => {
                        self.phase = Phase::Leaving;
                        HookAction::LeaveCritical
                    },
                }
            },
            Phase::Switching => {
                let chunk = next_chunk(&self.cmd, self.offset);
                self.phase = Phase::Copying;
                HookAction::Copy {
                    src: chunk.src,
                    dst: self.remapped,
                    offset: self.offset,
                    len: chunk.len,
                }
            },
            Phase::Copying => {
                self.phase = Phase::Restoring;
                HookAction::RestoreRoot { root: self.saved_root, flags: self.saved_flags }
            },
            Phase::Restoring => {
                match self.handle.take() {
                    Some(handle) => {
                        table.release(handle);
                    },
                    None => {},
                }
                self.status = HookStatus::Success;
                self.phase = Phase::Leaving;
                HookAction::LeaveCritical
            },
            Phase::Finished => HookAction::Return(self.status),
        }
    }
}

/// The bytes `dest` with `len` bytes from `offset` on set to zero.
pub open spec fn zero_filled(dest: Seq<u8>, offset: int, len: int) -> Seq<u8> {
    Seq::new(
        dest.len(),
        |i: int|
            if offset <= i < offset + len {
                0u8
            } else {
                dest[i]
            },
    )
}

/// The bytes `dest` with `len` bytes from `offset` on taken from `source`.
pub open spec fn copied_over(dest: Seq<u8>, source: Seq<u8>, offset: int, len: int) -> Seq<u8> {
    Seq::new(
        dest.len(),
        |i: int|
            if offset <= i < offset + len && i < source.len() {
                source[i]
            } else {
                dest[i]
            },
    )
}

/// A platform to serve a command on: the active root with its flags, the
/// interrupt flag, and the two buffers of the command. `source` holds the
/// physical memory from the command's `src` on, `dest` the caller's buffer
/// from its `dst` on.
pub struct SimPlatform {
    /// The active page-table root.
    pub root: u64,
    /// The flags of the active root.
    pub flags: u64,
    /// Whether interrupts are enabled.
    pub interrupts_enabled: bool,
    /// Whether interrupts were enabled when they were masked last.
    pub resume_interrupts: bool,
    /// What every entry of the active root reads as.
    pub root_entry: u64,
    /// The physical memory that the command reads.
    pub source: Vec<u8>,
    /// The buffer that the command fills.
    pub dest: Vec<u8>,
}

impl SimPlatform {
    /// How the platform stands after `action`, and what it reports.
    pub open spec fn performed(
        before: SimPlatform,
        action: HookAction,
        after: SimPlatform,
        reply: HookReply,
    ) -> bool {
        &&& after.root_entry == before.root_entry
        &&& after.source@ == before.source@
        &&& after.dest@.len() == before.dest@.len()
        &&& match action {
            HookAction::Return(_) => {
                &&& after.root == before.root
                &&& after.flags == before.flags
                &&& after.interrupts_enabled == before.interrupts_enabled
                &&& after.resume_interrupts == before.resume_interrupts
                &&& after.dest@ == before.dest@
            },
            HookAction::ZeroFill { dst, offset, len } => {
                &&& after.root == before.root
                &&& after.flags == before.flags
                &&& after.interrupts_enabled == before.interrupts_enabled
                &&& after.resume_interrupts == before.resume_interrupts
                &&& after.dest@ == zero_filled(before.dest@, offset as int, len as int)
            },
            HookAction::EnterCritical { lookup } => {
                &&& after.root == before.root
                &&& after.flags == before.flags
                &&& !after.interrupts_enabled
                &&& after.resume_interrupts == before.interrupts_enabled
                &&& after.dest@ == before.dest@
                &&& reply == (HookReply {
                    root: before.root,
                    flags: before.flags,
                    entry: before.root_entry,
                })
            },
            HookAction::SwitchRoot { root, flags, slot_addr, entry } => {
                &&& after.root == root
                &&& after.flags == flags
                &&& after.interrupts_enabled == before.interrupts_enabled
                &&& after.resume_interrupts == before.resume_interrupts
                &&& after.dest@ == before.dest@
            },
            HookAction::Copy { src, dst, offset, len } => {
                &&& after.root == before.root
                &&& after.flags == before.flags
                &&& after.interrupts_enabled == before.interrupts_enabled
                &&& after.resume_interrupts == before.resume_interrupts
                &&& after.dest@ == copied_over(
                    before.dest@,
                    before.source@,
                    offset as int,
                    len as int,
                )
            },
            HookAction::RestoreRoot { root, flags } => {
                &&& after.root == root
                &&& after.flags == flags
                &&& after.interrupts_enabled == before.interrupts_enabled
                &&& after.resume_interrupts == before.resume_interrupts
                &&& after.dest@ == before.dest@
            },
            HookAction::LeaveCritical => {
                &&& after.root == before.root
                &&& after.flags == before.flags
                &&& after.interrupts_enabled == before.resume_interrupts
                &&& after.resume_interrupts == before.resume_interrupts
                &&& after.dest@ == before.dest@
            },
        }
    }

    /// A platform with the given root and buffers, interrupts enabled.
    pub fn new(root: u64, flags: u64, root_entry: u64, source: Vec<u8>, dest: Vec<u8>) -> (platform:
        SimPlatform)
        ensures
            platform.root == root,
            platform.flags == flags,
            platform.interrupts_enabled,
            platform.root_entry == root_entry,
            platform.source@ == source@,
            platform.dest@ == dest@,
    {
        SimPlatform {
            root,
            flags,
            interrupts_enabled: true,
            resume_interrupts: true,
            root_entry,
            source,
            dest,
        }
    }

    /// Sets `len` bytes of the destination from `offset` on to zero.
    fn fill(&mut self, offset: u64, len: u64)
        ensures
            final(self).dest@ == zero_filled(old(self).dest@, offset as int, len as int),
            final(self).root == old(self).root,
            final(self).flags == old(self).flags,
            final(self).interrupts_enabled == old(self).interrupts_enabled,
            final(self).resume_interrupts == old(self).resume_interrupts,
            final(self).root_entry == old(self).root_entry,
            final(self).source@ == old(self).source@,
    {
        let mut done: u64 = 0;
        while done < len
            invariant
                done <= len,
                self.dest@ == zero_filled(old(self).dest@, offset as int, done as int),
                self.root == old(self).root,
                self.flags == old(self).flags,
                self.interrupts_enabled == old(self).interrupts_enabled,
                self.resume_interrupts == old(self).resume_interrupts,
                self.root_entry == old(self).root_entry,
                self.source@ == old(self).source@,
            decreases len - done,
        {
            let total: usize = self.dest.len();
            if done <= u64::MAX - offset && offset + done < total as u64 {
                self.dest.set((offset + done) as usize, 0u8);
            }
            done += 1;
        }
    }

    /// Copies `len` bytes from `offset` on from the source to the destination.
    fn copy(&mut self, offset: u64, len: u64)
        ensures
            final(self).dest@ == copied_over(
                old(self).dest@,
                old(self).source@,
                offset as int,
                len as int,
            ),
            final(self).root == old(self).root,
            final(self).flags == old(self).flags,
            final(self).interrupts_enabled == old(self).interrupts_enabled,
            final(self).resume_interrupts == old(self).resume_interrupts,
            final(self).root_entry == old(self).root_entry,
            final(self).source@ == old(self).source@,
    {
        let mut done: u64 = 0;
        while done < len
            invariant
                done <= len,
                self.dest@ == copied_over(
                    old(self).dest@,
                    old(self).source@,
                    offset as int,
                    done as int,
                ),
                self.root == old(self).root,
                self.flags == old(self).flags,
                self.interrupts_enabled == old(self).interrupts_enabled,
                self.resume_interrupts == old(self).resume_interrupts,
                self.root_entry == old(self).root_entry,
                self.source@ == old(self).source@,
            decreases len - done,
        {
            let total: usize = self.dest.len();
            let held: usize = self.source.len();
            if done <= u64::MAX - offset && offset + done < total as u64 && offset + done
                < held as u64 {
                let byte: u8 = self.source[(offset + done) as usize];
                self.dest.set((offset + done) as usize, byte);
            }
            done += 1;
        }
    }

    /// Performs `action` and reports what the session asked for.
    pub fn perform(&mut self, action: HookAction) -> (reply: HookReply)
        ensures
            Self::performed(*old(self), action, *final(self), reply),
    {
        let reply = HookReply { root: self.root, flags: self.flags, entry: self.root_entry };
        match action {
            HookAction::Return(_) => {},
            HookAction::ZeroFill { dst, offset, len } => {
                self.fill(offset, len);
            },
            HookAction::EnterCritical { lookup } => {
                self.resume_interrupts = self.interrupts_enabled;
                self.interrupts_enabled = false;
            },
            HookAction::SwitchRoot { root, flags, slot_addr, entry } => {
                self.root = root;
                self.flags = flags;
            },
            HookAction::Copy { src, dst, offset, len } => {
                self.copy(offset, len);
            },
            HookAction::RestoreRoot { root, flags } => {
                self.root = root;
                self.flags = flags;
            },
            HookAction::LeaveCritical => {
                self.interrupts_enabled = self.resume_interrupts;
            },
        }
        reply
    }
}

/// Whether the source page of the chunk at `offset` is usable memory.
pub open spec fn chunk_mapped(cmd: MemflowCommand, maps: EfiMemMaps, offset: int) -> bool {
    maps.mapped(chunk_source_page(cmd, offset) as u64)
}

/// Whether the chunk at `offset` is copied when `free_slots` remapping slots
/// are free: its source page is usable memory, a slot is free, and the
/// destination of the chunk and its end lie in the span of one root entry.
pub open spec fn copies(cmd: MemflowCommand, maps: EfiMemMaps, free_slots: nat, offset: int) -> bool {
    &&& chunk_mapped(cmd, maps, offset)
    &&& free_slots > 0
    &&& same_span((cmd.dst + offset) as u64, chunk_len(cmd, offset) as u64)
}

/// Byte `i` of the destination once the chunk at `offset`, which holds it,
/// is served: zero when the source page is not usable memory, the byte of
/// the source when the chunk is copied, and as it was before otherwise.
pub open spec fn served_byte(
    cmd: MemflowCommand,
    maps: EfiMemMaps,
    free_slots: nat,
    source: Seq<u8>,
    dest: Seq<u8>,
    offset: int,
    i: int,
) -> u8 {
    if !chunk_mapped(cmd, maps, offset) {
        0
    } else if copies(cmd, maps, free_slots, offset) {
        source[i]
    } else {
        dest[i]
    }
}

/// Whether byte `i` of the command belongs to a chunk.
pub open spec fn covered(cmd: MemflowCommand, i: int) -> bool {
    exists|offset: int| #[trigger]
        chunk_start(cmd, offset) && offset <= i < offset + chunk_len(cmd, offset)
}

/// Whether `dest` and `status` are what serving `cmd` gives, `before` being
/// the destination before and `free_slots` the number of free slots: every
/// byte of the command belongs to a chunk, every chunk was served, and the
/// status is `Success` exactly when a chunk was copied, `AccessDenied` else.
pub open spec fn served(
    cmd: MemflowCommand,
    maps: EfiMemMaps,
    free_slots: nat,
    source: Seq<u8>,
    before: Seq<u8>,
    dest: Seq<u8>,
    status: HookStatus,
) -> bool {
    &&& dest.len() == cmd.len
    &&& forall|i: int| 0 <= i < cmd.len ==> #[trigger] covered(cmd, i)
    &&& forall|offset: int, i: int|
        chunk_start(cmd, offset) && offset <= i < offset + chunk_len(cmd, offset) ==> dest[i]
            == #[trigger] served_byte(cmd, maps, free_slots, source, before, offset, i)
    &&& status == HookStatus::Success <==> exists|offset: int|
        chunk_start(cmd, offset) && #[trigger] copies(cmd, maps, free_slots, offset)
    &&& status == HookStatus::Success || status == HookStatus::AccessDenied
}

/// A chunk ends before the next one starts: no chunk starts inside another.
pub proof fn lemma_chunks_apart(cmd: MemflowCommand, first: int, second: int)
    requires
        chunk_start(cmd, first),
        chunk_start(cmd, second),
        first < second,
    ensures
        first + chunk_len(cmd, first) <= second,
{
    let page = PAGE_SIZE as int;
    let a = cmd.dst + first;
    let b = cmd.dst + second;
    assert(a / page < b / page);
}

/// When no source page of a command is usable memory, serving it fills the
/// whole destination with zeros and gives `AccessDenied`.
pub proof fn lemma_unmapped_is_zero_filled(
    cmd: MemflowCommand,
    maps: EfiMemMaps,
    free_slots: nat,
    source: Seq<u8>,
    before: Seq<u8>,
    dest: Seq<u8>,
    status: HookStatus,
)
    requires
        served(cmd, maps, free_slots, source, before, dest, status),
        forall|offset: int| #[trigger]
            chunk_start(cmd, offset) ==> !chunk_mapped(cmd, maps, offset),
    ensures
        status == HookStatus::AccessDenied,
        forall|i: int| 0 <= i < cmd.len ==> dest[i] == 0,
{
    assert forall|i: int| 0 <= i < cmd.len implies dest[i] == 0 by {
        assert(covered(cmd, i));
        let offset = choose|offset: int| #[trigger]
            chunk_start(cmd, offset) && offset <= i < offset + chunk_len(cmd, offset);
        assert(dest[i] == served_byte(cmd, maps, free_slots, source, before, offset, i));
    }
}

/// When every chunk of a command is copied, serving it makes the destination
/// equal to the source and gives `Success`.
pub proof fn lemma_mapped_is_copied(
    cmd: MemflowCommand,
    maps: EfiMemMaps,
    free_slots: nat,
    source: Seq<u8>,
    before: Seq<u8>,
    dest: Seq<u8>,
    status: HookStatus,
)
    requires
        cmd.valid(),
        served(cmd, maps, free_slots, source, before, dest, status),
        forall|offset: int| #[trigger]
            chunk_start(cmd, offset) ==> copies(cmd, maps, free_slots, offset),
    ensures
        status == HookStatus::Success,
        forall|i: int| 0 <= i < cmd.len ==> dest[i] == source[i],
{
    assert(chunk_start(cmd, 0));
    assert forall|i: int| 0 <= i < cmd.len implies dest[i] == source[i] by {
        assert(covered(cmd, i));
        let offset = choose|offset: int| #[trigger]
            chunk_start(cmd, offset) && offset <= i < offset + chunk_len(cmd, offset);
        assert(dest[i] == served_byte(cmd, maps, free_slots, source, before, offset, i));
    }
}

/// Whether the chunk at `offset` is settled in the destination in this
/// phase of a session that stands at `at`.
pub open spec fn settled(phase: Phase, at: int, offset: int) -> bool {
    offset < at || (offset == at && (phase == Phase::Restoring || phase == Phase::Leaving))
}

/// Whether the chunk at `offset` has entered the status in this phase of a
/// session that stands at `at`.
pub open spec fn counted(phase: Phase, at: int, offset: int) -> bool {
    offset < at || (offset == at && phase == Phase::Leaving)
}

/// What holds between two steps of serving a command on a platform: the
/// chunks before the session's offset are served, the rest of the
/// destination is untouched, and root, flags and interrupt flag are those
/// from before the command except inside the critical section, where
/// interrupts are masked and the root is the caller's or the identity root
/// by the phase.
pub open spec fn serving(
    session: HookSession,
    action: HookAction,
    table: IdentityPageTable,
    platform: SimPlatform,
    maps: EfiMemMaps,
    start: SimPlatform,
    slots: Seq<usize>,
    tables: PhysMemory,
) -> bool {
    let cmd = session.cmd;
    let at = session.offset as int;
    let len = chunk_len(cmd, at);
    let phase = session.phase;
    let free = slots.len();
    &&& table.wf()
    &&& session.wf(&table)
    &&& forall|x: u64|
        slots.len() == 0 || x != table.root() + 8 * slots.last() ==> #[trigger] table.memory().read_spec(
            x,
        ) == tables.read_spec(x)
    &&& same_walks_below(tables, table.memory(), table.root(), table.identity_top())
    &&& platform.source@ == start.source@
    &&& platform.dest@.len() == cmd.len
    &&& start.dest@.len() == cmd.len
    &&& start.source@.len() == cmd.len
    &&& forall|offset: int| #[trigger]
        chunk_start(cmd, offset) && offset < at ==> offset + chunk_len(cmd, offset) <= at
    &&& forall|i: int| 0 <= i < at ==> #[trigger] covered(cmd, i)
    &&& forall|offset: int, i: int|
        chunk_start(cmd, offset) && settled(phase, at, offset) && offset <= i < offset + chunk_len(
            cmd,
            offset,
        ) ==> platform.dest@[i] == #[trigger] served_byte(
            cmd,
            maps,
            free,
            start.source@,
            start.dest@,
            offset,
            i,
        )
    &&& forall|i: int|
        (if phase == Phase::Restoring || phase == Phase::Leaving {
            at + len
        } else {
            at
        }) <= i < cmd.len ==> #[trigger] platform.dest@[i] == start.dest@[i]
    &&& session.status == HookStatus::Success <==> exists|offset: int|
        chunk_start(cmd, offset) && counted(phase, at, offset) && #[trigger] copies(
            cmd,
            maps,
            free,
            offset,
        )
    &&& match phase {
        Phase::Zeroing => {
            &&& platform.root == start.root
            &&& platform.flags == start.flags
            &&& platform.interrupts_enabled == start.interrupts_enabled
            &&& table.free_slots() == slots
            &&& !chunk_mapped(cmd, maps, at)
            &&& action == (HookAction::ZeroFill {
                dst: (cmd.dst + at) as u64,
                offset: at as u64,
                len: len as u64,
            })
        },
        Phase::Entering => {
            &&& platform.root == start.root
            &&& platform.flags == start.flags
            &&& platform.interrupts_enabled == start.interrupts_enabled
            &&& table.free_slots() == slots
            &&& chunk_mapped(cmd, maps, at)
            &&& action is EnterCritical
        },
        Phase::Switching => {
            &&& platform.root == start.root
            &&& platform.flags == start.flags
            &&& !platform.interrupts_enabled
            &&& platform.resume_interrupts == start.interrupts_enabled
            &&& session.saved_root == start.root
            &&& session.saved_flags == start.flags
            &&& slots.len() > 0
            &&& table.free_slots() == slots.drop_last()
            &&& session.lent() == Some(slots.last())
            &&& copies(cmd, maps, free, at)
            &&& action is SwitchRoot
            &&& action->SwitchRoot_root == table.root()
            &&& action->SwitchRoot_flags == 0
        },
        Phase::Copying => {
            &&& platform.root == table.root()
            &&& platform.flags == 0
            &&& !platform.interrupts_enabled
            &&& platform.resume_interrupts == start.interrupts_enabled
            &&& session.saved_root == start.root
            &&& session.saved_flags == start.flags
            &&& slots.len() > 0
            &&& table.free_slots() == slots.drop_last()
            &&& session.lent() == Some(slots.last())
            &&& copies(cmd, maps, free, at)
            &&& action is Copy
            &&& action->Copy_offset == at
            &&& action->Copy_len == len
        },
        Phase::Restoring => {
            &&& platform.root == table.root()
            &&& platform.flags == 0
            &&& !platform.interrupts_enabled
            &&& platform.resume_interrupts == start.interrupts_enabled
            &&& slots.len() > 0
            &&& table.free_slots() == slots.drop_last()
            &&& session.lent() == Some(slots.last())
            &&& copies(cmd, maps, free, at)
            &&& action == (HookAction::RestoreRoot { root: start.root, flags: start.flags })
        },
        Phase::Leaving => {
            &&& platform.root == start.root
            &&& platform.flags == start.flags
            &&& !platform.interrupts_enabled
            &&& platform.resume_interrupts == start.interrupts_enabled
            &&& table.free_slots() == slots
            &&& chunk_mapped(cmd, maps, at)
            &&& action == HookAction::LeaveCritical
        },
        Phase::Finished => {
            &&& platform.root == start.root
            &&& platform.flags == start.flags
            &&& platform.interrupts_enabled == start.interrupts_enabled
            &&& table.free_slots() == slots
            &&& action == HookAction::Return(session.status)
        },
    }
}

/// Rank of a phase within the service of one chunk: the number of steps
/// that are left at most until the chunk is done.
pub open spec fn phase_rank(phase: Phase) -> int {
    match phase {
        Phase::Entering => 5,
        Phase::Switching => 4,
        Phase::Copying => 3,
        Phase::Restoring => 2,
        Phase::Leaving => 1,
        Phase::Zeroing => 1,
        Phase::Finished => 0,
    }
}

/// Serves `cmd` on `platform`: opens a session and lets the platform perform
/// one action after the other until the session returns a status. Root,
/// flags and interrupt flag of the platform are afterwards what they were
/// before, and so are the free remapping slots.
pub fn run_command(
    table: &mut IdentityPageTable,
    maps: &EfiMemMaps,
    platform: &mut SimPlatform,
    cmd: MemflowCommand,
) -> (status: HookStatus)
    requires
        old(table).wf(),
        cmd.valid(),
        old(platform).source@.len() == cmd.len,
        old(platform).dest@.len() == cmd.len,
    ensures
        final(table).wf(),
        final(table).root() == old(table).root(),
        final(table).free_slots() == old(table).free_slots(),
        final(table).free_frames() == old(table).free_frames(),
        final(table).identity_top() == old(table).identity_top(),
        same_walks_below(
            old(table).memory(),
            final(table).memory(),
            old(table).root(),
            old(table).identity_top(),
        ),
        final(platform).root == old(platform).root,
        final(platform).flags == old(platform).flags,
        final(platform).interrupts_enabled == old(platform).interrupts_enabled,
        final(platform).source@ == old(platform).source@,
        served(
            cmd,
            *maps,
            old(table).free_slots().len(),
            old(platform).source@,
            old(platform).dest@,
            final(platform).dest@,
            status,
        ),
        forall|x: u64|
            old(table).free_slots().len() == 0 || x != old(table).root() + 8 * old(
                table,
            ).free_slots().last() ==> #[trigger] final(table).memory().read_spec(x) == old(
                table,
            ).memory().read_spec(x),
{
    let ghost start = *platform;
    let ghost slots = table.free_slots();
    let ghost tables = table.memory();
    proof {
        lemma_same_walks_refl(tables, table.root(), table.identity_top());
    }
    let (mut session, mut action) = HookSession::begin(cmd, maps);
    loop
        invariant
            session.cmd == cmd,
            start == *old(platform),
            slots == old(table).free_slots(),
            tables == old(table).memory(),
            table.root() == old(table).root(),
            table.free_frames() == old(table).free_frames(),
            table.identity_top() == old(table).identity_top(),
            serving(session, action, *table, *platform, *maps, start, slots, tables),
        ensures
            session.phase == Phase::Finished,
            serving(session, action, *table, *platform, *maps, start, slots, tables),
            table.root() == old(table).root(),
            table.free_frames() == old(table).free_frames(),
            table.identity_top() == old(table).identity_top(),
            session.cmd == cmd,
        decreases cmd.len - session.offset, phase_rank(session.phase),
    {
        if session.phase == Phase::Finished {
            break ;
        }
        let ghost phase = session.phase;
        let ghost at = session.offset as int;
        let ghost earlier = table.memory();
        let reply = platform.perform(action);
        action = session.advance(table, maps, reply);
        proof {
            let now = session.offset as int;
            lemma_same_walks_chain(
                tables,
                earlier,
                table.memory(),
                table.root(),
                table.identity_top(),
                table.identity_top(),
            );
            let free = slots.len();
            if phase == Phase::Restoring {
                assert(slots.drop_last().push(slots.last()) =~= slots);
            }
            if phase == Phase::Zeroing || phase == Phase::Leaving {
                assert forall|offset: int| #[trigger]
                    chunk_start(cmd, offset) && offset < now implies offset + chunk_len(
                    cmd,
                    offset,
                ) <= now by {
                    if offset > at {
                        lemma_chunks_apart(cmd, at, offset);
                    }
                }
                assert forall|i: int| 0 <= i < now implies #[trigger] covered(cmd, i) by {}
                assert forall|offset: int|
                    chunk_start(cmd, offset) && counted(session.phase, now, offset) implies counted(
                    phase,
                    at,
                    offset,
                ) || (offset == at && phase == Phase::Zeroing) by {
                    if offset > at {
                        lemma_chunks_apart(cmd, at, offset);
                    }
                }
            }
            assert forall|offset: int, i: int|
                chunk_start(cmd, offset) && settled(session.phase, now, offset) && offset <= i
                    < offset + chunk_len(cmd, offset) implies platform.dest@[i]
                == #[trigger] served_byte(
                cmd,
                *maps,
                free,
                start.source@,
                start.dest@,
                offset,
                i,
            ) by {
                if offset > at {
                    lemma_chunks_apart(cmd, at, offset);
                }
            }
        }
    }
    proof {
        assert forall|offset: int|
            chunk_start(cmd, offset) implies counted(Phase::Finished, cmd.len as int, offset) by {}
        assert forall|offset: int|
            chunk_start(cmd, offset) implies settled(Phase::Finished, cmd.len as int, offset) by {}
    }
    session.status
}

/// How a call of the hooked service ended.
#[derive(Clone, Copy, Debug, PartialEq, Eq, Structural)]
pub enum HookOutcome {
    /// The call is no command: it goes to the service of the firmware unchanged.
    Forwarded,
    /// The call was a command and this is its status.
    Returned(HookStatus),
}

/// The hook, on a platform: inspects the call and serves the command that
/// it carries. A call that is forwarded or rejected leaves the table and
/// the platform as they are.
pub fn hook_set_variable(
    table: &mut IdentityPageTable,
    maps: &EfiMemMaps,
    platform: &mut SimPlatform,
    name_present: bool,
    vendor_guid: Option<&[u8]>,
    data: Option<&[u8]>,
) -> (outcome: HookOutcome)
    requires
        old(table).wf(),
        decision(name_present, bytes_of(vendor_guid), bytes_of(data)) matches HookDecision::Service(
            cmd,
        ) ==> old(platform).source@.len() == cmd.len && old(platform).dest@.len() == cmd.len,
    ensures
        final(table).wf(),
        final(table).root() == old(table).root(),
        final(table).free_slots() == old(table).free_slots(),
        same_walks_below(
            old(table).memory(),
            final(table).memory(),
            old(table).root(),
            old(table).identity_top(),
        ),
        final(platform).root == old(platform).root,
        final(platform).flags == old(platform).flags,
        final(platform).interrupts_enabled == old(platform).interrupts_enabled,
        final(platform).source@ == old(platform).source@,
        match decision(name_present, bytes_of(vendor_guid), bytes_of(data)) {
            HookDecision::Forward => {
                &&& outcome == HookOutcome::Forwarded
                &&& final(platform).dest@ == old(platform).dest@
                &&& final(table).memory() == old(table).memory()
            },
            HookDecision::Reject => {
                &&& outcome == HookOutcome::Returned(HookStatus::InvalidParameter)
                &&& final(platform).dest@ == old(platform).dest@
                &&& final(table).memory() == old(table).memory()
            },
            HookDecision::Service(cmd) => {
                &&& outcome is Returned
                &&& forall|x: u64|
                    old(table).free_slots().len() == 0 || x != old(table).root() + 8 * old(
                        table,
                    ).free_slots().last() ==> #[trigger] final(table).memory().read_spec(x)
                        == old(table).memory().read_spec(x)
                &&& served(
                    cmd,
                    *maps,
                    old(table).free_slots().len(),
                    old(platform).source@,
                    old(platform).dest@,
                    final(platform).dest@,
                    outcome->Returned_0,
                )
            },
        },
{
    proof {
        lemma_same_walks_refl(table.memory(), table.root(), table.identity_top());
    }
    match inspect_call(name_present, vendor_guid, data) {
        HookDecision::Forward => HookOutcome::Forwarded,
        HookDecision::Reject => HookOutcome::Returned(HookStatus::InvalidParameter),
        HookDecision::Service(cmd) => HookOutcome::Returned(
            run_command(table, maps, platform, cmd),
        ),
    }
}

} // verus!
