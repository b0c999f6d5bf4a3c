//! Mapping of device memory at addresses that suit huge pages.
//!
//! A mapping of 2 MiB or more is placed on a 2 MiB boundary, one of 1 GiB or
//! more on a 1 GiB boundary, so that page faults can insert huge entries: more
//! address space than needed is reserved, the mapping replaces the aligned part
//! of the reservation, and the rest is given back. Where that is not possible
//! the mapping is placed wherever the system likes.
//!
//! This module decides; its caller makes the system calls. A [`Mapper`] says
//! which call comes next, and is told how it went.

use vstd::prelude::*;

verus! {

/// 2 MiB.
pub const SZ_2M: u64 = 0x20_0000;

/// 1 GiB.
pub const SZ_1G: u64 = 0x4000_0000;

/// Protection bit: the mapping can be read.
pub const PROT_READ: i32 = 1;

/// Protection bit: the mapping can be written.
pub const PROT_WRITE: i32 = 2;

/// Protection bit: code in the mapping can be run.
pub const PROT_EXEC: i32 = 4;

/// Whether a protection has no bits but those for reading, writing and running:
/// these are the three lowest bits.
pub open spec fn known_protection(prot: i32) -> bool {
    0 <= prot <= PROT_READ + PROT_WRITE + PROT_EXEC
}

/// Why a mapping request is refused.
#[derive(Clone, Copy, Debug, PartialEq, Eq, Structural)]
pub enum MapError {
    /// The sum of the offsets does not fit a file offset.
    BadOffset,
    /// The length does not fit the address space.
    BadLength,
}

/// A stretch of mapped memory.
#[derive(Debug)]
pub struct MmapRegion {
    addr: usize,
    len: usize,
}

/// A system call that the caller is to make.
#[derive(Clone, Copy, Debug, PartialEq, Eq, Structural)]
pub enum MapAction {
    /// Reserve `len` bytes of inaccessible private anonymous address space,
    /// without backing store, anywhere.
    Reserve { len: usize },
    /// Map the file from `offset` at exactly `addr`, shared, with protection
    /// `prot`, in place of what is there.
    PlaceAt { addr: usize, len: usize, prot: i32, offset: i64 },
    /// Unmap. A failure is of no consequence.
    Unmap { addr: usize, len: usize },
    /// Ask for huge pages. A failure is of no consequence.
    AdviseHuge { addr: usize, len: usize },
    /// Map the file from `offset`, shared, with protection `prot`, anywhere.
    MapAnywhere { len: usize, prot: i32, offset: i64 },
}

/// How a system call went.
#[derive(Clone, Copy, Debug, PartialEq, Eq, Structural)]
pub enum MapEvent {
    /// Address space was reserved or mapped at `addr`.
    Mapped { addr: usize },
    /// Nothing was reserved or mapped.
    Failed,
    /// An unmap or an advice is through, whatever came of it.
    Finished,
}

/// How far a mapping has come.
#[derive(Clone, Copy, Debug, PartialEq, Eq, Structural)]
pub enum MapPhase {
    /// Address space is to be reserved.
    Reserve,
    /// Address space is reserved at `base`; the file is to be mapped into it.
    Place { base: usize },
    /// The file is mapped; what is reserved in front of it is to be unmapped.
    TrimHead { base: usize },
    /// What is reserved behind the file is to be unmapped.
    TrimTail { base: usize },
    /// Only the file is mapped; huge pages are to be asked for.
    Advise { base: usize },
    /// The file could not be mapped into the reservation, which is to be
    /// unmapped.
    Release { base: usize },
    /// The file is to be mapped anywhere.
    Plain,
    /// The file is mapped at `addr`.
    Done { addr: usize },
    /// The file could not be mapped.
    Failed,
}

/// A mapping in the making.
#[derive(Debug)]
pub struct Mapper {
    len: usize,
    prot: i32,
    offset: i64,
    align: usize,
    phase: MapPhase,
}

/// What a mapping in the making is about: the length, the protection, the file
/// offset, the alignment (0 if none is sought), and how far it has come.
pub struct MapperView {
    pub len: int,
    pub prot: i32,
    pub offset: int,
    pub align: int,
    pub phase: MapPhase,
}

/// The alignment that suits a mapping of `len` bytes; 0 if none does.
pub open spec fn huge_alignment(len: int) -> int {
    if len >= SZ_1G {
        SZ_1G as int
    } else if len >= SZ_2M {
        SZ_2M as int
    } else {
        0
    }
}

/// The first multiple of `align` from `base` on.
pub open spec fn align_up(base: int, align: int) -> int {
    if base % align == 0 {
        base
    } else {
        base - base % align + align
    }
}

impl MapperView {
    /// Size of the reservation: room for the mapping at any start.
    pub open spec fn reserve_len(self) -> int {
        self.len + self.align
    }

    /// Where the mapping goes in a reservation at `base`.
    pub open spec fn aligned(self, base: usize) -> int {
        align_up(base as int, self.align)
    }

    /// Bytes of the reservation in front of the mapping.
    pub open spec fn head(self, base: usize) -> int {
        self.aligned(base) - base
    }

    /// Bytes of the reservation behind the mapping.
    pub open spec fn tail(self, base: usize) -> int {
        self.reserve_len() - self.head(base) - self.len
    }

    pub open spec fn wf(self) -> bool {
        &&& 0 <= self.len <= isize::MAX
        &&& known_protection(self.prot)
        &&& 0 <= self.offset <= i64::MAX
        &&& self.align == 0 || (self.align == huge_alignment(self.len) && self.offset % self.align
            == 0)
        &&& match self.phase {
            MapPhase::Reserve => self.align > 0,
            MapPhase::Place { base }
            | MapPhase::TrimHead { base }
            | MapPhase::TrimTail { base }
            | MapPhase::Advise { base }
            | MapPhase::Release { base } => self.align > 0 && base + self.reserve_len()
                <= usize::MAX,
            MapPhase::Plain => true,
            MapPhase::Done { addr } => addr + self.len <= usize::MAX,
            MapPhase::Failed => true,
        }
    }

    /// The system call that comes next.
    pub open spec fn action(self) -> Option<MapAction> {
        match self.phase {
            MapPhase::Reserve => Some(MapAction::Reserve { len: self.reserve_len() as usize }),
            MapPhase::Place { base } => Some(
                MapAction::PlaceAt {
                    addr: self.aligned(base) as usize,
                    len: self.len as usize,
                    prot: self.prot,
                    offset: self.offset as i64,
                },
            ),
            MapPhase::TrimHead { base } => Some(
                MapAction::Unmap { addr: base, len: self.head(base) as usize },
            ),
            MapPhase::TrimTail { base } => Some(
                MapAction::Unmap {
                    addr: (self.aligned(base) + self.len) as usize,
                    len: self.tail(base) as usize,
                },
            ),
            MapPhase::Advise { base } => Some(
                MapAction::AdviseHuge {
                    addr: self.aligned(base) as usize,
                    len: self.len as usize,
                },
            ),
            MapPhase::Release { base } => Some(
                MapAction::Unmap { addr: base, len: self.reserve_len() as usize },
            ),
            MapPhase::Plain => Some(
                MapAction::MapAnywhere {
                    len: self.len as usize,
                    prot: self.prot,
                    offset: self.offset as i64,
                },
            ),
            MapPhase::Done { .. } => None,
            MapPhase::Failed => None,
        }
    }

    /// Whether the next system call can go like that: memory is mapped inside
    /// the address space, and at the address that was asked for, if one was.
    pub open spec fn accepts(self, event: MapEvent) -> bool {
        match (self.phase, event) {
            (MapPhase::Reserve, MapEvent::Mapped { addr }) => addr + self.reserve_len()
                <= usize::MAX,
            (MapPhase::Place { base }, MapEvent::Mapped { addr }) => addr == self.aligned(base),
            (MapPhase::Plain, MapEvent::Mapped { addr }) => addr + self.len <= usize::MAX,
            (MapPhase::Reserve, MapEvent::Failed) => true,
            (MapPhase::Place { .. }, MapEvent::Failed) => true,
            (MapPhase::Plain, MapEvent::Failed) => true,
            (MapPhase::TrimHead { .. }, MapEvent::Finished) => true,
            (MapPhase::TrimTail { .. }, MapEvent::Finished) => true,
            (MapPhase::Advise { .. }, MapEvent::Finished) => true,
            (MapPhase::Release { .. }, MapEvent::Finished) => true,
            _ => false,
        }
    }

    /// What follows once the head of a reservation at `base` is gone.
    pub open spec fn after_head(self, base: usize) -> MapPhase {
        if self.tail(base) > 0 {
            MapPhase::TrimTail { base }
        } else {
            MapPhase::Advise { base }
        }
    }

    /// What follows when the next system call went like that.
    pub open spec fn next_phase(self, event: MapEvent) -> MapPhase {
        match (self.phase, event) {
            (MapPhase::Reserve, MapEvent::Mapped { addr }) => MapPhase::Place { base: addr },
            (MapPhase::Reserve, _) => MapPhase::Plain,
            (MapPhase::Place { base }, MapEvent::Mapped { .. }) => if self.head(base) > 0 {
                MapPhase::TrimHead { base }
            } else {
                self.after_head(base)
            },
            (MapPhase::Place { base }, _) => MapPhase::Release { base },
            (MapPhase::TrimHead { base }, _) => self.after_head(base),
            (MapPhase::TrimTail { base }, _) => MapPhase::Advise { base },
            (MapPhase::Advise { base }, _) => MapPhase::Done { addr: self.aligned(base) as usize },
            (MapPhase::Release { .. }, _) => MapPhase::Plain,
            (MapPhase::Plain, MapEvent::Mapped { addr }) => MapPhase::Done { addr },
            (MapPhase::Plain, _) => MapPhase::Failed,
            (MapPhase::Done { addr }, _) => MapPhase::Done { addr },
            (MapPhase::Failed, _) => MapPhase::Failed,
        }
    }

    /// The mapping after the next system call went like that.
    pub open spec fn next(self, event: MapEvent) -> MapperView {
        MapperView { phase: self.next_phase(event), ..self }
    }
}

impl View for Mapper {
    type V = MapperView;

    closed spec fn view(&self) -> MapperView {
        MapperView {
            len: self.len as int,
            prot: self.prot,
            offset: self.offset as int,
            align: self.align as int,
            phase: self.phase,
        }
    }
}

/// Where a mapping goes in a reservation: on the boundary, inside the
/// reservation, with less than one alignment in front of it.
pub proof fn placement_is_aligned(mapper: MapperView, base: usize)
    requires
        mapper.wf(),
        mapper.align > 0,
    ensures
        mapper.aligned(base) % mapper.align == 0,
        0 <= mapper.head(base) < mapper.align,
        0 < mapper.tail(base) <= mapper.align,
        base <= mapper.aligned(base),
        mapper.aligned(base) + mapper.len + mapper.tail(base) == base + mapper.reserve_len(),
{
    assert(mapper.align == 0x20_0000 || mapper.align == 0x4000_0000);
}

impl MapperView {
    /// Whether the address `a` is held: reserved or mapped so far, and not yet
    /// given back.
    pub open spec fn holds(self, a: int) -> bool {
        match self.phase {
            MapPhase::Reserve | MapPhase::Plain | MapPhase::Failed => false,
            MapPhase::Place { base } | MapPhase::TrimHead { base } | MapPhase::Release { base } => {
                base <= a < base + self.reserve_len()
            },
            MapPhase::TrimTail { base } => self.aligned(base) <= a < base + self.reserve_len(),
            MapPhase::Advise { base } => self.aligned(base) <= a < self.aligned(base) + self.len,
            MapPhase::Done { addr } => addr <= a < addr + self.len,
        }
    }

    /// An upper bound on the system calls that are left.
    pub open spec fn calls_left(self) -> nat {
        match self.phase {
            MapPhase::Reserve => 5,
            MapPhase::Place { .. } => 4,
            MapPhase::TrimHead { .. } => 3,
            MapPhase::TrimTail { .. } => 2,
            MapPhase::Advise { .. } => 1,
            MapPhase::Release { .. } => 2,
            MapPhase::Plain => 1,
            MapPhase::Done { .. } => 0,
            MapPhase::Failed => 0,
        }
    }
}

/// The addresses that a system call names, if it replaces or gives up what is
/// there.
pub open spec fn overwrites(action: MapAction, a: int) -> bool {
    match action {
        MapAction::PlaceAt { addr, len, .. } => addr <= a < addr + len,
        MapAction::Unmap { addr, len } => addr <= a < addr + len,
        _ => false,
    }
}

/// Whether the address `a` is held after a system call that went like `event`,
/// if `held` says whether it was before.
pub open spec fn held_after(action: MapAction, event: MapEvent, held: bool, a: int) -> bool {
    match (action, event) {
        (MapAction::Reserve { len }, MapEvent::Mapped { addr }) => held || addr <= a < addr + len,
        (MapAction::MapAnywhere { len, .. }, MapEvent::Mapped { addr }) => held || addr <= a < addr
            + len,
        (MapAction::Unmap { addr, len }, _) => held && !(addr <= a < addr + len),
        _ => held,
    }
}

/// No mapping of others is touched: a system call replaces or unmaps only
/// addresses that are held.
pub proof fn only_held_addresses_are_overwritten(mapper: MapperView, a: int)
    requires
        mapper.wf(),
        mapper.action() is Some,
        overwrites(mapper.action()->0, a),
    ensures
        mapper.holds(a),
{
    match mapper.phase {
        MapPhase::Place { base }
        | MapPhase::TrimHead { base }
        | MapPhase::TrimTail { base }
        | MapPhase::Release { base } => {
            placement_is_aligned(mapper, base);
        },
        _ => {},
    }
}

/// No address space is lost track of: after each system call, exactly the
/// addresses are held that the calls so far have mapped and not unmapped. In
/// particular a finished mapping holds just its region, and a failed one
/// nothing.
pub proof fn held_addresses_are_accounted_for(mapper: MapperView, event: MapEvent, a: int)
    requires
        mapper.wf(),
        mapper.accepts(event),
    ensures
        mapper.action() is Some,
        mapper.next(event).holds(a) <==> held_after(
            mapper.action()->0,
            event,
            mapper.holds(a),
            a,
        ),
{
    match mapper.phase {
        MapPhase::Place { base }
        | MapPhase::TrimHead { base }
        | MapPhase::TrimTail { base }
        | MapPhase::Advise { base }
        | MapPhase::Release { base } => {
            placement_is_aligned(mapper, base);
        },
        _ => {},
    }
}

/// A mapping comes to an end: every system call brings it closer, and it stops
/// only when it is done or has failed.
pub proof fn mapping_ends(mapper: MapperView, event: MapEvent)
    requires
        mapper.wf(),
    ensures
        mapper.accepts(event) ==> mapper.next(event).calls_left() < mapper.calls_left(),
        mapper.action() is None <==> mapper.phase is Done || mapper.phase is Failed,
        mapper.action() is None <==> mapper.calls_left() == 0,
{
    match mapper.phase {
        MapPhase::Place { base } | MapPhase::TrimHead { base } => {
            placement_is_aligned(mapper, base);
        },
        _ => {},
    }
}

/// Once the file is mapped on a boundary inside its reservation, it stays
/// there, whatever comes of the trimming and the advice.
pub proof fn aligned_place_is_kept(mapper: MapperView, event: MapEvent, base: usize)
    requires
        mapper.wf(),
        mapper.accepts(event),
        mapper.phase == (MapPhase::TrimHead { base }) || mapper.phase == (MapPhase::TrimTail {
            base,
        }) || mapper.phase == (MapPhase::Advise { base }),
    ensures
        match mapper.next_phase(event) {
            MapPhase::TrimTail { base: b } => b == base,
            MapPhase::Advise { base: b } => b == base,
            MapPhase::Done { addr } => addr == mapper.aligned(base) && addr as int % mapper.align
                == 0,
            _ => false,
        },
{
    placement_is_aligned(mapper, base);
}

/// Trouble with the aligned place never fails a mapping: it fails only if the
/// file could not be mapped anywhere.
pub proof fn only_plain_mapping_fails(mapper: MapperView, event: MapEvent)
    requires
        mapper.wf(),
        mapper.accepts(event),
    ensures
        mapper.next_phase(event) is Failed <==> mapper.phase is Plain && event is Failed,
{
}

/// The alignment that is sought: 1 GiB from 1 GiB on, 2 MiB from 2 MiB on, and
/// none below that.
pub proof fn alignment_goes_by_length(len: int)
    ensures
        len >= 0x4000_0000 ==> huge_alignment(len) == 0x4000_0000,
        0x20_0000 <= len < 0x4000_0000 ==> huge_alignment(len) == 0x20_0000,
        len < 0x20_0000 ==> huge_alignment(len) == 0,
{
}

/// A longer mapping never gets a smaller alignment, and no mapping gets one that
/// is larger than itself.
pub proof fn alignment_grows_with_length(len: int, longer: int)
    requires
        0 <= len <= longer,
    ensures
        0 <= huge_alignment(len) <= huge_alignment(longer),
        huge_alignment(len) <= len,
{
}

/// Known protections are those without a bit from the fourth on.
pub proof fn protection_has_three_bits(prot: i32)
    ensures
        known_protection(prot) <==> prot & !7i32 == 0,
        known_protection(prot) <==> 0 <= prot < 8,
{
    assert(prot & !7i32 == 0 <==> 0 <= prot < 8) by (bit_vector);
}

/// A mapping in the making is valid exactly if its length and offset are in range,
/// its protection is known, it seeks the alignment that goes with its length, for
/// a multiple of it as offset, or none, it goes through a reservation only if it
/// seeks one, and what it holds ends inside the address space.
pub proof fn valid_mapper(mapper: MapperView)
    ensures
        mapper.wf() <==> {
            &&& 0 <= mapper.len <= isize::MAX
            &&& 0 <= mapper.offset <= i64::MAX
            &&& 0 <= mapper.prot < 8
            &&& {
                ||| mapper.align == 0
                ||| mapper.align == 0x20_0000 && 0x20_0000 <= mapper.len < 0x4000_0000
                    && mapper.offset % 0x20_0000 == 0
                ||| mapper.align == 0x4000_0000 && 0x4000_0000 <= mapper.len && mapper.offset
                    % 0x4000_0000 == 0
            }
            &&& match mapper.phase {
                MapPhase::Reserve => mapper.align > 0,
                MapPhase::Place { base }
                | MapPhase::TrimHead { base }
                | MapPhase::TrimTail { base }
                | MapPhase::Advise { base }
                | MapPhase::Release { base } => mapper.align > 0 && base + mapper.len
                    + mapper.align <= usize::MAX,
                MapPhase::Plain => true,
                MapPhase::Done { addr } => addr + mapper.len <= usize::MAX,
                MapPhase::Failed => true,
            }
        },
{
}

/// Rounding up gives a multiple of the alignment, not below the start and less
/// than one alignment above it. There is only one such number.
pub proof fn rounding_up_is_least(base: int, align: int, other: int)
    requires
        0 <= base,
        align == 0x20_0000 || align == 0x4000_0000,
    ensures
        align_up(base, align) % align == 0,
        base <= align_up(base, align) < base + align,
        base <= other < base + align && other % align == 0 ==> other == align_up(base, align),
{
}

/// What the system calls are.
///
/// - The reservation is one alignment longer than the mapping.
/// - The file goes to the first multiple of the alignment in the reservation,
///   and the advice is for the same place.
/// - The first unmapping gives back what is in front of that place, the second
///   what is behind the file, up to the end of the reservation.
/// - If the file could not be mapped there, all of the reservation is given back,
///   and the file is mapped anywhere.
pub proof fn calls_are_placed(mapper: MapperView)
    requires
        mapper.wf(),
    ensures
        match (mapper.phase, mapper.action()) {
            (MapPhase::Reserve, Some(MapAction::Reserve { len })) => len == mapper.len
                + mapper.align,
            (MapPhase::Place { base }, Some(MapAction::PlaceAt { addr, len, prot, offset })) => {
                &&& base <= addr < base + mapper.align
                &&& addr as int % mapper.align == 0
                &&& len == mapper.len
                &&& prot == mapper.prot
                &&& offset == mapper.offset
            },
            (MapPhase::TrimHead { base }, Some(MapAction::Unmap { addr, len })) => {
                &&& addr == base
                &&& len < mapper.align
                &&& (base + len) % mapper.align == 0
            },
            (MapPhase::TrimTail { base }, Some(MapAction::Unmap { addr, len })) => {
                &&& base <= addr - mapper.len < base + mapper.align
                &&& (addr - mapper.len) % mapper.align == 0
                &&& addr + len == base + mapper.len + mapper.align
            },
            (MapPhase::Advise { base }, Some(MapAction::AdviseHuge { addr, len })) => {
                &&& base <= addr < base + mapper.align
                &&& addr as int % mapper.align == 0
                &&& len == mapper.len
            },
            (MapPhase::Release { base }, Some(MapAction::Unmap { addr, len })) => {
                &&& addr == base
                &&& len == mapper.len + mapper.align
            },
            (MapPhase::Plain, Some(MapAction::MapAnywhere { len, prot, offset })) => {
                &&& len == mapper.len
                &&& prot == mapper.prot
                &&& offset == mapper.offset
            },
            (MapPhase::Done { .. }, None) => true,
            (MapPhase::Failed, None) => true,
            _ => false,
        },
{
    match mapper.phase {
        MapPhase::Place { base }
        | MapPhase::TrimHead { base }
        | MapPhase::TrimTail { base }
        | MapPhase::Advise { base }
        | MapPhase::Release { base } => {
            placement_is_aligned(mapper, base);
            assert((base + mapper.head(base)) == mapper.aligned(base));
        },
        _ => {},
    }
}

/// How a system call can have gone: one that maps has failed or has mapped
/// something that ends inside the address space, and at the address that was
/// asked for, if one was; one that does not map is through.
pub proof fn outcomes_fit_calls(mapper: MapperView, event: MapEvent)
    requires
        mapper.wf(),
    ensures
        mapper.accepts(event) <==> match (mapper.action(), event) {
            (Some(MapAction::Reserve { len }), MapEvent::Mapped { addr }) => addr + len
                <= usize::MAX,
            (Some(MapAction::MapAnywhere { len, .. }), MapEvent::Mapped { addr }) => addr + len
                <= usize::MAX,
            (Some(MapAction::PlaceAt { addr: wanted, .. }), MapEvent::Mapped { addr }) => addr
                == wanted,
            (Some(MapAction::Reserve { .. }), MapEvent::Failed) => true,
            (Some(MapAction::MapAnywhere { .. }), MapEvent::Failed) => true,
            (Some(MapAction::PlaceAt { .. }), MapEvent::Failed) => true,
            (Some(MapAction::Unmap { .. }), MapEvent::Finished) => true,
            (Some(MapAction::AdviseHuge { .. }), MapEvent::Finished) => true,
            _ => false,
        },
{
    match mapper.phase {
        MapPhase::Place { base } => {
            placement_is_aligned(mapper, base);
        },
        _ => {},
    }
}

/// What follows a system call.
///
/// A reservation is mapped into; without one the file is mapped anywhere. Once
/// the file is in the reservation, what is in front of it is unmapped, if there
/// is anything, that is, if the reservation does not start on a boundary; then
/// what is behind it; then huge pages are asked for, and the mapping is done, on
/// the boundary. If the file could not be mapped into the reservation, that is
/// given up, and the file is mapped anywhere. Only if that fails, too, the
/// mapping has failed.
pub proof fn calls_follow_each_other(mapper: MapperView, event: MapEvent)
    requires
        mapper.wf(),
        mapper.accepts(event),
    ensures
        mapper.next(event).len == mapper.len,
        mapper.next(event).prot == mapper.prot,
        mapper.next(event).offset == mapper.offset,
        mapper.next(event).align == mapper.align,
        match (mapper.phase, event, mapper.next(event).phase) {
            (MapPhase::Reserve, MapEvent::Mapped { addr }, MapPhase::Place { base }) => base
                == addr,
            (MapPhase::Reserve, MapEvent::Failed, MapPhase::Plain) => true,
            (
                MapPhase::Place { base },
                MapEvent::Mapped { .. },
                MapPhase::TrimHead { base: b },
            ) => b == base && base as int % mapper.align != 0,
            (
                MapPhase::Place { base },
                MapEvent::Mapped { .. },
                MapPhase::TrimTail { base: b },
            ) => b == base && base as int % mapper.align == 0,
            (MapPhase::Place { base }, MapEvent::Failed, MapPhase::Release { base: b }) => b
                == base,
            (MapPhase::TrimHead { base }, MapEvent::Finished, MapPhase::TrimTail { base: b }) => b
                == base,
            (MapPhase::TrimTail { base }, MapEvent::Finished, MapPhase::Advise { base: b }) => b
                == base,
            (MapPhase::Advise { base }, MapEvent::Finished, MapPhase::Done { addr }) => {
                &&& base <= addr < base + mapper.align
                &&& addr as int % mapper.align == 0
            },
            (MapPhase::Release { .. }, MapEvent::Finished, MapPhase::Plain) => true,
            (MapPhase::Plain, MapEvent::Mapped { addr }, MapPhase::Done { addr: a }) => a == addr,
            (MapPhase::Plain, MapEvent::Failed, MapPhase::Failed) => true,
            _ => false,
        },
{
    match mapper.phase {
        MapPhase::Place { base }
        | MapPhase::TrimHead { base }
        | MapPhase::TrimTail { base }
        | MapPhase::Advise { base } => {
            placement_is_aligned(mapper, base);
            assert(mapper.align == 0x20_0000 || mapper.align == 0x4000_0000);
        },
        _ => {},
    }
}

/// The file is mapped as it was asked for: every system call that maps it has
/// the length, the protection and the offset of the request, and the protection
/// has no unknown bits.
pub proof fn file_is_mapped_as_requested(mapper: MapperView, event: MapEvent)
    requires
        mapper.wf(),
    ensures
        match mapper.action() {
            Some(MapAction::PlaceAt { len, prot, offset, .. })
            | Some(MapAction::MapAnywhere { len, prot, offset }) => {
                &&& len == mapper.len
                &&& prot == mapper.prot
                &&& offset == mapper.offset
                &&& known_protection(prot)
            },
            _ => true,
        },
        mapper.next(event).len == mapper.len,
        mapper.next(event).prot == mapper.prot,
        mapper.next(event).offset == mapper.offset,
{
}

/// Whether a protection has no bits but those for reading, writing and running.
pub fn protection_is_known(prot: i32) -> (known: bool)
    ensures
        known <==> known_protection(prot),
        known <==> prot & !(PROT_READ | PROT_WRITE | PROT_EXEC) == 0,
{
    assert(prot & !(1i32 | 2 | 4) == 0 <==> 0 <= prot <= 7) by (bit_vector);
    prot & !(PROT_READ | PROT_WRITE | PROT_EXEC) == 0
}

/// The sum of two offsets, as a file offset, if it and the length `len` of the
/// mapping are in range.
pub fn request_offset(len: u64, offset1: u64, offset2: u64) -> (offset: Result<i64, MapError>)
    ensures
        offset1 + offset2 > i64::MAX ==> offset == Err::<i64, MapError>(MapError::BadOffset),
        offset1 + offset2 <= i64::MAX && len > isize::MAX ==> offset == Err::<i64, MapError>(
            MapError::BadLength,
        ),
        offset1 + offset2 <= i64::MAX && len <= isize::MAX ==> {
            &&& offset is Ok
            &&& offset->Ok_0 == offset1 + offset2
        },
{
    let offset: u64 = match offset1.checked_add(offset2) {
        Some(offset) => offset,
        None => return Err(MapError::BadOffset),
    };
    if offset > i64::MAX as u64 {
        return Err(MapError::BadOffset);
    }
    if len > isize::MAX as u64 {
        return Err(MapError::BadLength);
    }
    Ok(offset as i64)
}

impl MmapRegion {
    /// Address of the first byte.
    pub closed spec fn start(&self) -> int {
        self.addr as int
    }

    /// Size in bytes.
    pub closed spec fn size(&self) -> int {
        self.len as int
    }

    /// The region lies inside the address space, and its size fits `isize`.
    pub open spec fn wf(&self) -> bool {
        &&& self.size() <= isize::MAX
        &&& self.start() + self.size() <= usize::MAX
    }

    /// Address of the first byte.
    pub fn addr(&self) -> (addr: usize)
        ensures
            addr == self.start(),
    {
        self.addr
    }

    /// Size in bytes. It fits `isize`.
    pub fn len(&self) -> (len: usize)
        requires
            self.wf(),
        ensures
            len == self.size(),
            len <= isize::MAX,
    {
        self.len
    }

    /// Alignment that lets page faults of a mapping of `len` bytes insert huge
    /// entries; 0 if the mapping is too small for any.
    pub fn alignment_for_len(len: u64) -> (align: u64)
        ensures
            len >= 0x4000_0000 ==> align == 0x4000_0000,
            0x20_0000 <= len < 0x4000_0000 ==> align == 0x20_0000,
            len < 0x20_0000 ==> align == 0,
            align == huge_alignment(len as int),
    {
        if len >= SZ_1G {
            SZ_1G
        } else if len >= SZ_2M {
            SZ_2M
        } else {
            0
        }
    }

    /// Starts a shared mapping of `len` bytes of a file, from the sum of the
    /// two offsets, with protection `prot`.
    ///
    /// An aligned place is sought if the length is large enough for one and
    /// the file offset is a multiple of the alignment.
    ///
    /// A request whose offset or length is out of range is refused, whatever
    /// its protection; any other must not have unknown protection bits.
    pub fn mmap(len: u64, prot: i32, offset1: u64, offset2: u64) -> (mapper: Result<
        Mapper,
        MapError,
    >)
        requires
            offset1 + offset2 <= i64::MAX && len <= isize::MAX ==> known_protection(prot),
        ensures
            mapper matches Ok(mapper) ==> {
                let offset = offset1 + offset2;
                &&& mapper@.len == len
                &&& mapper@.prot == prot
                &&& mapper@.offset == offset
                &&& len >= 0x4000_0000 && offset % 0x4000_0000 == 0 ==> mapper@.align
                    == 0x4000_0000 && mapper@.phase is Reserve
                &&& 0x20_0000 <= len < 0x4000_0000 && offset % 0x20_0000 == 0 ==> mapper@.align
                    == 0x20_0000 && mapper@.phase is Reserve
                &&& len >= 0x4000_0000 && offset % 0x4000_0000 != 0 ==> mapper@.align == 0
                    && mapper@.phase is Plain
                &&& 0x20_0000 <= len < 0x4000_0000 && offset % 0x20_0000 != 0 ==> mapper@.align
                    == 0 && mapper@.phase is Plain
                &&& len < 0x20_0000 ==> mapper@.align == 0 && mapper@.phase is Plain
            },
            offset1 + offset2 > i64::MAX ==> mapper == Err::<Mapper, MapError>(MapError::BadOffset),
            offset1 + offset2 <= i64::MAX && len > isize::MAX ==> mapper == Err::<Mapper, MapError>(
                MapError::BadLength,
            ),
            offset1 + offset2 <= i64::MAX && len <= isize::MAX ==> {
                let offset = offset1 + offset2;
                let align = huge_alignment(len as int);
                &&& mapper is Ok
                &&& mapper->Ok_0@.wf()
                &&& mapper->Ok_0@ == if align > 0 && offset % align == 0 {
                    MapperView { len: len as int, prot, offset, align, phase: MapPhase::Reserve }
                } else {
                    MapperView { len: len as int, prot, offset, align: 0, phase: MapPhase::Plain }
                }
            },
    {
        let offset: i64 = match request_offset(len, offset1, offset2) {
            Ok(offset) => offset,
            Err(error) => return Err(error),
        };
        let align = Self::alignment_for_len(len);
        let mapper = if align > 0 && offset as u64 % align == 0 {
            Mapper {
                len: len as usize,
                prot,
                offset,
                align: align as usize,
                phase: MapPhase::Reserve,
            }
        } else {
            Mapper { len: len as usize, prot, offset, align: 0, phase: MapPhase::Plain }
        };
        Ok(mapper)
    }
}

impl Mapper {
    /// Where the mapping goes in a reservation at `base`.
    fn aligned(&self, base: usize) -> (aligned: usize)
        requires
            self@.wf(),
            self@.align > 0,
            base + self@.reserve_len() <= usize::MAX,
        ensures
            aligned == self@.aligned(base),
    {
        proof {
            placement_is_aligned(self@, base);
        }
        assert(self.align == 0x20_0000 || self.align == 0x4000_0000);
        let rest: usize = base % self.align;
        if rest == 0 {
            base
        } else {
            base - rest + self.align
        }
    }

    /// The phase.
    pub fn phase(&self) -> (phase: MapPhase)
        ensures
            phase == self@.phase,
    {
        self.phase
    }

    /// The alignment sought; 0 if none is.
    pub fn alignment(&self) -> (align: usize)
        ensures
            align == self@.align,
    {
        self.align
    }

    /// The system call that comes next; none once the mapping is done or has
    /// failed.
    pub fn action(&self) -> (action: Option<MapAction>)
        requires
            self@.wf(),
        ensures
            action == self@.action(),
    {
        match self.phase {
            MapPhase::Reserve => Some(MapAction::Reserve { len: self.len + self.align }),
            MapPhase::Place { base } => Some(
                MapAction::PlaceAt {
                    addr: self.aligned(base),
                    len: self.len,
                    prot: self.prot,
                    offset: self.offset,
                },
            ),
            MapPhase::TrimHead { base } => Some(
                MapAction::Unmap { addr: base, len: self.head(base) },
            ),
            MapPhase::TrimTail { base } => {
                proof {
                    placement_is_aligned(self@, base);
                }
                Some(
                    MapAction::Unmap {
                        addr: self.aligned(base) + self.len,
                        len: self.tail(base),
                    },
                )
            },
            MapPhase::Advise { base } => Some(
                MapAction::AdviseHuge { addr: self.aligned(base), len: self.len },
            ),
            MapPhase::Release { base } => Some(
                MapAction::Unmap { addr: base, len: self.len + self.align },
            ),
            MapPhase::Plain => Some(
                MapAction::MapAnywhere { len: self.len, prot: self.prot, offset: self.offset },
            ),
            MapPhase::Done { .. } => None,
            MapPhase::Failed => None,
        }
    }

    /// Bytes of the reservation in front of the mapping.
    fn head(&self, base: usize) -> (head: usize)
        requires
            self@.wf(),
            self@.align > 0,
            base + self@.reserve_len() <= usize::MAX,
        ensures
            head == self@.head(base),
    {
        proof {
            placement_is_aligned(self@, base);
        }
        self.aligned(base) - base
    }

    /// Bytes of the reservation behind the mapping.
    fn tail(&self, base: usize) -> (tail: usize)
        requires
            self@.wf(),
            self@.align > 0,
            base + self@.reserve_len() <= usize::MAX,
        ensures
            tail == self@.tail(base),
    {
        proof {
            placement_is_aligned(self@, base);
        }
        self.len + self.align - self.head(base) - self.len
    }

    /// Whether the next system call can have gone like that.
    pub fn accepts(&self, event: MapEvent) -> (accepted: bool)
        requires
            self@.wf(),
        ensures
            accepted == self@.accepts(event),
    {
        match (self.phase, event) {
            (MapPhase::Reserve, MapEvent::Mapped { addr }) => addr <= usize::MAX - (self.len
                + self.align),
            (MapPhase::Place { base }, MapEvent::Mapped { addr }) => addr == self.aligned(base),
            (MapPhase::Plain, MapEvent::Mapped { addr }) => addr <= usize::MAX - self.len,
            (MapPhase::Reserve, MapEvent::Failed) => true,
            (MapPhase::Place { .. }, MapEvent::Failed) => true,
            (MapPhase::Plain, MapEvent::Failed) => true,
            (MapPhase::TrimHead { .. }, MapEvent::Finished) => true,
            (MapPhase::TrimTail { .. }, MapEvent::Finished) => true,
            (MapPhase::Advise { .. }, MapEvent::Finished) => true,
            (MapPhase::Release { .. }, MapEvent::Finished) => true,
            _ => false,
        }
    }

    /// What follows once the head of a reservation at `base` is gone.
    fn after_head(&self, base: usize) -> (phase: MapPhase)
        requires
            self@.wf(),
            self@.align > 0,
            base + self@.reserve_len() <= usize::MAX,
        ensures
            phase == self@.after_head(base),
    {
        if self.tail(base) > 0 {
            MapPhase::TrimTail { base }
        } else {
            MapPhase::Advise { base }
        }
    }

    /// Takes note of how the next system call went.
    pub fn advance(&mut self, event: MapEvent)
        requires
            old(self)@.wf(),
            old(self)@.accepts(event),
        ensures
            final(self)@ == old(self)@.next(event),
            final(self)@.wf(),
    {
        let phase = match (self.phase, event) {
            (MapPhase::Reserve, MapEvent::Mapped { addr }) => MapPhase::Place { base: addr },
            (MapPhase::Reserve, _) => MapPhase::Plain,
            (MapPhase::Place { base }, MapEvent::Mapped { .. }) => if self.head(base) > 0 {
                MapPhase::TrimHead { base }
            } else {
                self.after_head(base)
            },
            (MapPhase::Place { base }, _) => MapPhase::Release { base },
            (MapPhase::TrimHead { base }, _) => self.after_head(base),
            (MapPhase::TrimTail { base }, _) => MapPhase::Advise { base },
            (MapPhase::Advise { base }, _) => {
                proof {
                    placement_is_aligned(self@, base);
                }
                MapPhase::Done { addr: self.aligned(base) }
            },
            (MapPhase::Release { .. }, _) => MapPhase::Plain,
            (MapPhase::Plain, MapEvent::Mapped { addr }) => MapPhase::Done { addr },
            (MapPhase::Plain, _) => MapPhase::Failed,
            (MapPhase::Done { addr }, _) => MapPhase::Done { addr },
            (MapPhase::Failed, _) => MapPhase::Failed,
        };
        self.phase = phase;
    }

    /// The mapped region, once the mapping is done.
    pub fn region(&self) -> (region: Option<MmapRegion>)
        requires
            self@.wf(),
        ensures
            match self@.phase {
                MapPhase::Done { addr } => {
                    &&& region is Some
                    &&& region->0.start() == addr
                    &&& region->0.size() == self@.len
                    &&& region->0.wf()
                },
                _ => region is None,
            },
    {
        match self.phase {
            MapPhase::Done { addr } => Some(MmapRegion { addr, len: self.len }),
            _ => None,
        }
    }
}

} // verus!
