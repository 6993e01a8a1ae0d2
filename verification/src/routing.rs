//! Coupling-owned spatial records for distributed SPH-CFD exchange, and their
//! little-endian wire format.
//!
//! Floating-point quantities (positions, velocities, volumes, forces) travel as
//! their IEEE-754 bit patterns (`f64::to_bits`), so every record here is plain
//! integer data and the wire format is exactly the little-endian bytes of those
//! bit patterns.

use vstd::prelude::*;
use vstd::bytes::*;
use vstd::slice::slice_subrange;

verus! {

/// Bytes in one encoded parcel frame: id, owner rank, centre, velocity, volume.
pub const PARCEL_BYTES: usize = 8 + 4 + 3 * 8 + 3 * 8 + 8;

/// Bytes in one encoded force frame: id, owner rank, force.
pub const FORCE_BYTES: usize = 8 + 4 + 3 * 8;

/// One SPH parcel routed to the CFD rank that owns its centre.
/// `center`, `velocity` and `volume` hold `f64` bit patterns.
#[derive(Clone, Copy, Debug, PartialEq, Eq)]
pub struct RoutedParcel {
    pub id: u64,
    pub sph_owner: i32,
    pub center: [u64; 3],
    pub velocity: [u64; 3],
    pub volume: u64,
}

/// The fluid load on one parcel, routed back to its SPH owner.
/// `force` holds `f64` bit patterns.
#[derive(Clone, Copy, Debug, PartialEq, Eq)]
pub struct RoutedParcelForce {
    pub id: u64,
    pub sph_owner: i32,
    pub force: [u64; 3],
}

/// Why a routing or decoding step refused its input.
#[derive(Clone, Copy, Debug, PartialEq, Eq)]
pub enum RoutingError {
    /// No CFD rank owns the centre of the parcel with this id.
    OutsideDomain { id: u64 },
    /// A parcel payload did not have `PARCEL_BYTES` bytes; `len` is what it had.
    ParcelPayloadSize { len: usize },
    /// A decoded parcel's id differs from the entity id of its frame.
    ParcelIdMismatch,
    /// A force payload did not have `FORCE_BYTES` bytes.
    ForcePayloadSize,
    /// A decoded force's id differs from the entity id of its frame.
    ForceIdMismatch,
}

/// One outgoing record: the bytes of a parcel or force, addressed to a rank of
/// the peer role and tagged with the id of the entity it carries.
#[derive(Clone, Debug, PartialEq, Eq)]
pub struct RoutedRecord {
    pub destination: i32,
    pub entity_id: u64,
    pub payload: Vec<u8>,
}

/// One record delivered to this rank: its source rank, entity id and bytes.
#[derive(Clone, Debug, PartialEq, Eq)]
pub struct ReceivedRecord {
    pub source: i32,
    pub entity_id: u64,
    pub payload: Vec<u8>,
}

/// All force contributions that arrived for one parcel, in arrival order.
/// `sph_owner` is the owner named by the first contribution.
#[derive(Clone, Debug, PartialEq, Eq)]
pub struct ForceGroup {
    pub id: u64,
    pub sph_owner: i32,
    pub forces: Vec<[u64; 3]>,
}

// ---------------------------------------------------------------------------
// Wire format
// ---------------------------------------------------------------------------

/// Little-endian bytes of an `i32` (its two's-complement `u32` bits).
pub open spec fn i32_le_bytes(v: i32) -> Seq<u8> {
    spec_u32_to_le_bytes(v as u32)
}

/// The `u64` stored little-endian in `b[at..at + 8]`.
pub open spec fn u64_at(b: Seq<u8>, at: int) -> u64 {
    spec_u64_from_le_bytes(b.subrange(at, at + 8))
}

/// The `i32` stored little-endian in `b[at..at + 4]`.
pub open spec fn i32_at(b: Seq<u8>, at: int) -> i32 {
    spec_u32_from_le_bytes(b.subrange(at, at + 4)) as i32
}

/// The frame of a parcel: id, owner, centre, velocity, volume, each little-endian.
pub open spec fn parcel_bytes(p: RoutedParcel) -> Seq<u8> {
    spec_u64_to_le_bytes(p.id) + i32_le_bytes(p.sph_owner) + spec_u64_to_le_bytes(p.center[0])
        + spec_u64_to_le_bytes(p.center[1]) + spec_u64_to_le_bytes(p.center[2])
        + spec_u64_to_le_bytes(p.velocity[0]) + spec_u64_to_le_bytes(p.velocity[1])
        + spec_u64_to_le_bytes(p.velocity[2]) + spec_u64_to_le_bytes(p.volume)
}

/// The parcel that a frame of `PARCEL_BYTES` bytes holds.
pub open spec fn parcel_from_bytes(b: Seq<u8>) -> RoutedParcel {
    RoutedParcel {
        id: u64_at(b, 0),
        sph_owner: i32_at(b, 8),
        center: [u64_at(b, 12), u64_at(b, 20), u64_at(b, 28)],
        velocity: [u64_at(b, 36), u64_at(b, 44), u64_at(b, 52)],
        volume: u64_at(b, 60),
    }
}

/// The frame of a force: id, owner, force, each little-endian.
pub open spec fn force_bytes(f: RoutedParcelForce) -> Seq<u8> {
    spec_u64_to_le_bytes(f.id) + i32_le_bytes(f.sph_owner) + spec_u64_to_le_bytes(f.force[0])
        + spec_u64_to_le_bytes(f.force[1]) + spec_u64_to_le_bytes(f.force[2])
}

/// The force that a frame of `FORCE_BYTES` bytes holds.
pub open spec fn force_from_bytes(b: Seq<u8>) -> RoutedParcelForce {
    RoutedParcelForce {
        id: u64_at(b, 0),
        sph_owner: i32_at(b, 8),
        force: [u64_at(b, 12), u64_at(b, 20), u64_at(b, 28)],
    }
}

/// What decoding a parcel payload gives: the parcel, or the size error.
pub open spec fn parcel_payload_result(b: Seq<u8>) -> Result<RoutedParcel, RoutingError> {
    if b.len() != PARCEL_BYTES {
        Err(RoutingError::ParcelPayloadSize { len: b.len() as usize })
    } else {
        Ok(parcel_from_bytes(b))
    }
}

/// What decoding a force payload gives: the force, or the size error.
pub open spec fn force_payload_result(b: Seq<u8>) -> Result<RoutedParcelForce, RoutingError> {
    if b.len() != FORCE_BYTES {
        Err(RoutingError::ForcePayloadSize)
    } else {
        Ok(force_from_bytes(b))
    }
}

/// Reads the little-endian `u64` at `*at` and moves the cursor past it.
pub fn take_u64(bytes: &[u8], at: &mut usize) -> (value: u64)
    requires
        *old(at) + 8 <= bytes@.len(),
    ensures
        value == u64_at(bytes@, *old(at) as int),
        *final(at) == *old(at) + 8,
{
    let start = *at;
    let len = bytes.len();
    assert(start + 8 <= len);
    let value = u64_from_le_bytes(slice_subrange(bytes, start, start + 8));
    *at = start + 8;
    value
}

/// Reads the little-endian `i32` at `*at` and moves the cursor past it.
pub fn take_i32(bytes: &[u8], at: &mut usize) -> (value: i32)
    requires
        *old(at) + 4 <= bytes@.len(),
    ensures
        value == i32_at(bytes@, *old(at) as int),
        *final(at) == *old(at) + 4,
{
    let start = *at;
    let len = bytes.len();
    assert(start + 4 <= len);
    let raw = u32_from_le_bytes(slice_subrange(bytes, start, start + 4));
    *at = start + 4;
    #[verifier::truncate]
    (raw as i32)
}

fn put_u64(bytes: &mut Vec<u8>, value: u64)
    ensures
        final(bytes)@ == old(bytes)@ + spec_u64_to_le_bytes(value),
{
    let mut le = u64_to_le_bytes(value);
    bytes.append(&mut le);
}

fn put_i32(bytes: &mut Vec<u8>, value: i32)
    ensures
        final(bytes)@ == old(bytes)@ + i32_le_bytes(value),
{
    let mut le = u32_to_le_bytes(value as u32);
    bytes.append(&mut le);
}

/// Encodes a parcel as its `PARCEL_BYTES`-byte frame.
pub fn encode_parcel(parcel: RoutedParcel) -> (bytes: Vec<u8>)
    ensures
        bytes@ == parcel_bytes(parcel),
        bytes@.len() == PARCEL_BYTES,
        bytes@.subrange(0, 8) == spec_u64_to_le_bytes(parcel.id),
        bytes@.subrange(8, 12) == spec_u32_to_le_bytes(parcel.sph_owner as u32),
        bytes@.subrange(12, 20) == spec_u64_to_le_bytes(parcel.center[0]),
        bytes@.subrange(20, 28) == spec_u64_to_le_bytes(parcel.center[1]),
        bytes@.subrange(28, 36) == spec_u64_to_le_bytes(parcel.center[2]),
        bytes@.subrange(36, 44) == spec_u64_to_le_bytes(parcel.velocity[0]),
        bytes@.subrange(44, 52) == spec_u64_to_le_bytes(parcel.velocity[1]),
        bytes@.subrange(52, 60) == spec_u64_to_le_bytes(parcel.velocity[2]),
        bytes@.subrange(60, 68) == spec_u64_to_le_bytes(parcel.volume),
{
    let mut bytes: Vec<u8> = Vec::with_capacity(PARCEL_BYTES);
    put_u64(&mut bytes, parcel.id);
    put_i32(&mut bytes, parcel.sph_owner);
    put_u64(&mut bytes, parcel.center[0]);
    put_u64(&mut bytes, parcel.center[1]);
    put_u64(&mut bytes, parcel.center[2]);
    put_u64(&mut bytes, parcel.velocity[0]);
    put_u64(&mut bytes, parcel.velocity[1]);
    put_u64(&mut bytes, parcel.velocity[2]);
    put_u64(&mut bytes, parcel.volume);
    proof {
        lemma_parcel_bytes_len(parcel);
        lemma_parcel_frame_layout(parcel);
    }
    bytes
}

/// Decodes a parcel frame; refuses a payload that is not `PARCEL_BYTES` long.
pub fn decode_parcel(bytes: &[u8]) -> (res: Result<RoutedParcel, RoutingError>)
    ensures
        res == parcel_payload_result(bytes@),
        res is Ok <==> bytes@.len() == PARCEL_BYTES,
        bytes@.len() != PARCEL_BYTES ==> res == Err::<RoutedParcel, RoutingError>(
            RoutingError::ParcelPayloadSize { len: bytes@.len() as usize },
        ),
        res matches Ok(p) ==> {
            &&& p.id == spec_u64_from_le_bytes(bytes@.subrange(0, 8))
            &&& p.sph_owner == spec_u32_from_le_bytes(bytes@.subrange(8, 12)) as i32
            &&& p.center[0] == spec_u64_from_le_bytes(bytes@.subrange(12, 20))
            &&& p.center[1] == spec_u64_from_le_bytes(bytes@.subrange(20, 28))
            &&& p.center[2] == spec_u64_from_le_bytes(bytes@.subrange(28, 36))
            &&& p.velocity[0] == spec_u64_from_le_bytes(bytes@.subrange(36, 44))
            &&& p.velocity[1] == spec_u64_from_le_bytes(bytes@.subrange(44, 52))
            &&& p.velocity[2] == spec_u64_from_le_bytes(bytes@.subrange(52, 60))
            &&& p.volume == spec_u64_from_le_bytes(bytes@.subrange(60, 68))
        },
{
    if bytes.len() != PARCEL_BYTES {
        return Err(RoutingError::ParcelPayloadSize { len: bytes.len() });
    }
    let mut at: usize = 0;
    let id = take_u64(bytes, &mut at);
    let sph_owner = take_i32(bytes, &mut at);
    let c0 = take_u64(bytes, &mut at);
    let c1 = take_u64(bytes, &mut at);
    let c2 = take_u64(bytes, &mut at);
    let v0 = take_u64(bytes, &mut at);
    let v1 = take_u64(bytes, &mut at);
    let v2 = take_u64(bytes, &mut at);
    let volume = take_u64(bytes, &mut at);
    Ok(RoutedParcel { id, sph_owner, center: [c0, c1, c2], velocity: [v0, v1, v2], volume })
}

/// Encodes a force as its `FORCE_BYTES`-byte frame.
pub fn encode_force(force: RoutedParcelForce) -> (bytes: Vec<u8>)
    ensures
        bytes@ == force_bytes(force),
        bytes@.len() == FORCE_BYTES,
        bytes@.subrange(0, 8) == spec_u64_to_le_bytes(force.id),
        bytes@.subrange(8, 12) == spec_u32_to_le_bytes(force.sph_owner as u32),
        bytes@.subrange(12, 20) == spec_u64_to_le_bytes(force.force[0]),
        bytes@.subrange(20, 28) == spec_u64_to_le_bytes(force.force[1]),
        bytes@.subrange(28, 36) == spec_u64_to_le_bytes(force.force[2]),
{
    let mut bytes: Vec<u8> = Vec::with_capacity(FORCE_BYTES);
    put_u64(&mut bytes, force.id);
    put_i32(&mut bytes, force.sph_owner);
    put_u64(&mut bytes, force.force[0]);
    put_u64(&mut bytes, force.force[1]);
    put_u64(&mut bytes, force.force[2]);
    proof {
        lemma_force_bytes_len(force);
        lemma_force_frame_layout(force);
    }
    bytes
}

/// Decodes a force frame; refuses a payload that is not `FORCE_BYTES` long.
pub fn decode_force(bytes: &[u8]) -> (res: Result<RoutedParcelForce, RoutingError>)
    ensures
        res == force_payload_result(bytes@),
        res is Ok <==> bytes@.len() == FORCE_BYTES,
        bytes@.len() != FORCE_BYTES ==> res == Err::<RoutedParcelForce, RoutingError>(
            RoutingError::ForcePayloadSize,
        ),
        res matches Ok(f) ==> {
            &&& f.id == spec_u64_from_le_bytes(bytes@.subrange(0, 8))
            &&& f.sph_owner == spec_u32_from_le_bytes(bytes@.subrange(8, 12)) as i32
            &&& f.force[0] == spec_u64_from_le_bytes(bytes@.subrange(12, 20))
            &&& f.force[1] == spec_u64_from_le_bytes(bytes@.subrange(20, 28))
            &&& f.force[2] == spec_u64_from_le_bytes(bytes@.subrange(28, 36))
        },
{
    if bytes.len() != FORCE_BYTES {
        return Err(RoutingError::ForcePayloadSize);
    }
    let mut at: usize = 0;
    let id = take_u64(bytes, &mut at);
    let sph_owner = take_i32(bytes, &mut at);
    let f0 = take_u64(bytes, &mut at);
    let f1 = take_u64(bytes, &mut at);
    let f2 = take_u64(bytes, &mut at);
    Ok(RoutedParcelForce { id, sph_owner, force: [f0, f1, f2] })
}


// ---------------------------------------------------------------------------
// Routing parcels to the CFD side
// ---------------------------------------------------------------------------

/// `r` carries parcel `p` to the rank `owner` names.
pub open spec fn routed_to_owner(r: RoutedRecord, owner: Option<i32>, p: RoutedParcel) -> bool {
    &&& owner == Some(r.destination)
    &&& r.entity_id == p.id
    &&& r.payload@ == parcel_bytes(p)
}

/// `k` is the first position at which no rank owns the parcel.
pub open spec fn first_unowned(owners: Seq<Option<i32>>, k: int) -> bool {
    &&& 0 <= k < owners.len()
    &&& owners[k] is None
    &&& forall|j: int| 0 <= j < k ==> owners[j] is Some
}

/// Addresses each parcel to the CFD rank that owns its centre (`owners[i]` is
/// the owner of `parcels[i]`'s centre, if any), in order. The first parcel
/// that no rank owns stops the routing with `OutsideDomain`.
pub fn route_parcels(owners: &[Option<i32>], parcels: &[RoutedParcel]) -> (res: Result<
    Vec<RoutedRecord>,
    RoutingError,
>)
    requires
        owners@.len() == parcels@.len(),
    ensures
        res is Ok <==> forall|i: int| 0 <= i < owners@.len() ==> (#[trigger] owners@[i]) is Some,
        res matches Ok(records) ==> forall|i: int|
            0 <= i < parcels@.len() ==> {
                &&& owners@[i] == Some((#[trigger] records@[i]).destination)
                &&& records@[i].entity_id == parcels@[i].id
                &&& records@[i].payload@ == parcel_bytes(parcels@[i])
            },
        res matches Err(e) ==> exists|k: int|
            {
                &&& 0 <= k < owners@.len()
                &&& (#[trigger] owners@[k]) is None
                &&& forall|j: int| 0 <= j < k ==> owners@[j] is Some
                &&& e == RoutingError::OutsideDomain { id: parcels@[k].id }
            },
        match res {
            Ok(records) => {
                &&& records@.len() == parcels@.len()
                &&& forall|i: int|
                    0 <= i < parcels@.len() ==> routed_to_owner(
                        #[trigger] records@[i],
                        owners@[i],
                        parcels@[i],
                    )
            },
            Err(e) => exists|k: int|
                first_unowned(owners@, k) && e == RoutingError::OutsideDomain {
                    id: parcels@[k].id,
                },
        },
{
    let n = parcels.len();
    let mut records: Vec<RoutedRecord> = Vec::new();
    let mut i: usize = 0;
    while i < n
        invariant
            n == parcels@.len(),
            owners@.len() == n,
            i <= n,
            records@.len() == i,
            forall|j: int| 0 <= j < i ==> owners@[j] is Some,
            forall|j: int|
                0 <= j < i ==> routed_to_owner(#[trigger] records@[j], owners@[j], parcels@[j]),
        decreases n - i,
    {
        let parcel = parcels[i];
        match owners[i] {
            Some(destination) => {
                let payload = encode_parcel(parcel);
                records.push(RoutedRecord { destination, entity_id: parcel.id, payload });
            },
            None => {
                assert(first_unowned(owners@, i as int));
                return Err(RoutingError::OutsideDomain { id: parcel.id });
            },
        }
        i = i + 1;
    }
    Ok(records)
}

/// What one received record gives as a parcel: the decoded parcel, the size
/// error, or `ParcelIdMismatch` when the frame's entity id is not the parcel's.
pub open spec fn parcel_record_result(r: ReceivedRecord) -> Result<RoutedParcel, RoutingError> {
    match parcel_payload_result(r.payload@) {
        Ok(p) => if p.id == r.entity_id {
            Ok(p)
        } else {
            Err(RoutingError::ParcelIdMismatch)
        },
        Err(e) => Err(e),
    }
}

/// Decodes every received parcel record, in order; the first record that
/// fails gives the error.
pub fn decode_parcels(records: &[ReceivedRecord]) -> (res: Result<Vec<RoutedParcel>, RoutingError>)
    ensures
        res matches Ok(parcels) ==> forall|i: int|
            0 <= i < records@.len() ==> {
                &&& (#[trigger] records@[i]).payload@.len() == PARCEL_BYTES
                &&& parcels@[i].id == records@[i].entity_id
            },
        (forall|i: int|
            0 <= i < records@.len() ==> {
                &&& (#[trigger] records@[i]).payload@.len() == PARCEL_BYTES
                &&& spec_u64_from_le_bytes(records@[i].payload@.subrange(0, 8))
                    == records@[i].entity_id
            }) ==> res is Ok,
        match res {
            Ok(parcels) => {
                &&& parcels@.len() == records@.len()
                &&& forall|i: int|
                    0 <= i < records@.len() ==> parcel_record_result(#[trigger] records@[i])
                        == Ok::<RoutedParcel, RoutingError>(parcels@[i])
            },
            Err(e) => exists|k: int|
                {
                    &&& 0 <= k < records@.len()
                    &&& parcel_record_result(#[trigger] records@[k]) == Err::<
                        RoutedParcel,
                        RoutingError,
                    >(e)
                    &&& forall|j: int| 0 <= j < k ==> parcel_record_result(records@[j]) is Ok
                },
        },
{
    let n = records.len();
    let mut parcels: Vec<RoutedParcel> = Vec::new();
    let mut i: usize = 0;
    while i < n
        invariant
            n == records@.len(),
            i <= n,
            parcels@.len() == i,
            forall|j: int|
                0 <= j < i ==> parcel_record_result(#[trigger] records@[j]) == Ok::<
                    RoutedParcel,
                    RoutingError,
                >(parcels@[j]),
        decreases n - i,
    {
        let record = &records[i];
        let parcel = match decode_parcel(record.payload.as_slice()) {
            Ok(parcel) => parcel,
            Err(e) => {
                assert(parcel_record_result(records@[i as int]) == Err::<RoutedParcel, RoutingError>(e));
                return Err(e);
            },
        };
        if parcel.id != record.entity_id {
            assert(parcel_record_result(records@[i as int]) == Err::<RoutedParcel, RoutingError>(
                RoutingError::ParcelIdMismatch,
            ));
            return Err(RoutingError::ParcelIdMismatch);
        }
        parcels.push(parcel);
        i = i + 1;
    }
    Ok(parcels)
}

// ---------------------------------------------------------------------------
// Routing forces back to the SPH side
// ---------------------------------------------------------------------------

/// `r` carries force `f` to the SPH rank that owns the parcel.
pub open spec fn routed_to_sph_owner(r: RoutedRecord, f: RoutedParcelForce) -> bool {
    &&& r.destination == f.sph_owner
    &&& r.entity_id == f.id
    &&& r.payload@ == force_bytes(f)
}

/// Addresses each force to the SPH rank that owns its parcel, in order.
pub fn route_forces(forces: &[RoutedParcelForce]) -> (records: Vec<RoutedRecord>)
    ensures
        records@.len() == forces@.len(),
        forall|i: int|
            0 <= i < forces@.len() ==> routed_to_sph_owner(#[trigger] records@[i], forces@[i]),
        forall|i: int|
            0 <= i < forces@.len() ==> {
                &&& (#[trigger] records@[i]).destination == forces@[i].sph_owner
                &&& records@[i].entity_id == forces@[i].id
                &&& records@[i].payload@ == force_bytes(forces@[i])
            },
{
    let n = forces.len();
    let mut records: Vec<RoutedRecord> = Vec::new();
    let mut i: usize = 0;
    while i < n
        invariant
            n == forces@.len(),
            i <= n,
            records@.len() == i,
            forall|j: int| 0 <= j < i ==> routed_to_sph_owner(#[trigger] records@[j], forces@[j]),
        decreases n - i,
    {
        let force = forces[i];
        let payload = encode_force(force);
        records.push(RoutedRecord { destination: force.sph_owner, entity_id: force.id, payload });
        i = i + 1;
    }
    records
}


// ---------------------------------------------------------------------------
// Gathering the force contributions of each parcel
// ---------------------------------------------------------------------------

/// What one received record gives as a force: the decoded force, the size
/// error, or `ForceIdMismatch` when the frame's entity id is not the force's.
pub open spec fn force_record_result(r: ReceivedRecord) -> Result<RoutedParcelForce, RoutingError> {
    match force_payload_result(r.payload@) {
        Ok(f) => if f.id == r.entity_id {
            Ok(f)
        } else {
            Err(RoutingError::ForceIdMismatch)
        },
        Err(e) => Err(e),
    }
}

/// The forces that the records' payloads hold, in arrival order.
pub open spec fn received_forces(records: Seq<ReceivedRecord>) -> Seq<RoutedParcelForce> {
    records.map_values(|r: ReceivedRecord| force_from_bytes(r.payload@))
}

/// The predicate "is a contribution to the parcel `id`".
pub open spec fn has_id(id: u64) -> spec_fn(RoutedParcelForce) -> bool {
    |f: RoutedParcelForce| f.id == id
}

/// The contributions to parcel `id`, in arrival order.
pub open spec fn contributions(fs: Seq<RoutedParcelForce>, id: u64) -> Seq<RoutedParcelForce> {
    fs.filter(has_id(id))
}

/// The force vectors of a sequence of contributions.
pub open spec fn force_vectors(fs: Seq<RoutedParcelForce>) -> Seq<[u64; 3]> {
    fs.map_values(|f: RoutedParcelForce| f.force)
}

/// `g` gathers exactly the contributions to its parcel, in arrival order, and
/// names the owner given by the first of them.
pub open spec fn is_group_of(fs: Seq<RoutedParcelForce>, g: ForceGroup) -> bool {
    let c = contributions(fs, g.id);
    &&& c.len() > 0
    &&& g.sph_owner == c[0].sph_owner
    &&& g.forces@ == force_vectors(c)
}

/// Some group in `gs` is the group of parcel `id`.
pub open spec fn has_group(gs: Seq<ForceGroup>, id: u64) -> bool {
    exists|i: int| 0 <= i < gs.len() && #[trigger] gs[i].id == id
}

/// Some record in `rs` carries entity `id`.
pub open spec fn has_record(rs: Seq<ReceivedRecord>, id: u64) -> bool {
    exists|k: int| 0 <= k < rs.len() && #[trigger] rs[k].entity_id == id
}

/// `gs` holds one group per parcel that contributed in `fs`, in increasing
/// parcel id.
pub open spec fn is_grouping(fs: Seq<RoutedParcelForce>, gs: Seq<ForceGroup>) -> bool {
    &&& forall|i: int, j: int| 0 <= i < j < gs.len() ==> #[trigger] gs[i].id < #[trigger] gs[j].id
    &&& forall|i: int| 0 <= i < gs.len() ==> is_group_of(fs, #[trigger] gs[i])
    &&& forall|k: int| 0 <= k < fs.len() ==> has_group(gs, #[trigger] fs[k].id)
}

proof fn lemma_force_vectors_push(c: Seq<RoutedParcelForce>, f: RoutedParcelForce)
    ensures
        force_vectors(c.push(f)) == force_vectors(c).push(f.force),
{
    assert(force_vectors(c.push(f)) =~= force_vectors(c).push(f.force));
}

proof fn lemma_no_contributions(fs: Seq<RoutedParcelForce>, id: u64)
    requires
        forall|k: int| 0 <= k < fs.len() ==> fs[k].id != id,
    ensures
        contributions(fs, id).len() == 0,
{
    let c = contributions(fs, id);
    if c.len() > 0 {
        fs.lemma_filter_pred(has_id(id), 0);
        assert(c.contains(c[0]));
        fs.lemma_filter_contains_rev(has_id(id), c[0]);
        let k = choose|k: int| 0 <= k < fs.len() && fs[k] == c[0];
        assert(fs[k].id == id);
    }
}

proof fn lemma_contributions_push(fs: Seq<RoutedParcelForce>, f: RoutedParcelForce, id: u64)
    ensures
        contributions(fs.push(f), id) == if f.id == id {
            contributions(fs, id).push(f)
        } else {
            contributions(fs, id)
        },
{
    fs.lemma_filter_push(f, has_id(id));
}

proof fn lemma_extend_group(
    fs: Seq<RoutedParcelForce>,
    gs: Seq<ForceGroup>,
    p: int,
    f: RoutedParcelForce,
    g: ForceGroup,
)
    requires
        is_grouping(fs, gs),
        0 <= p < gs.len(),
        gs[p].id == f.id,
        g.id == f.id,
        g.sph_owner == gs[p].sph_owner,
        g.forces@ == gs[p].forces@.push(f.force),
    ensures
        is_grouping(fs.push(f), gs.update(p, g)),
{
    let fs2 = fs.push(f);
    let gs2 = gs.update(p, g);
    assert forall|i: int| 0 <= i < gs2.len() implies is_group_of(fs2, #[trigger] gs2[i]) by {
        lemma_contributions_push(fs, f, gs2[i].id);
        if i == p {
            lemma_force_vectors_push(contributions(fs, f.id), f);
            assert(is_group_of(fs, gs[p]));
        } else {
            assert(is_group_of(fs, gs[i]));
            if i < p {
                assert(gs[i].id < gs[p].id);
            } else {
                assert(gs[p].id < gs[i].id);
            }
        }
    }
    assert forall|k: int| 0 <= k < fs2.len() implies has_group(gs2, #[trigger] fs2[k].id) by {
        if k < fs.len() {
            assert(fs2[k] == fs[k]);
            assert(has_group(gs, fs[k].id));
            let i = choose|i: int| 0 <= i < gs.len() && #[trigger] gs[i].id == fs[k].id;
            assert(gs2[i].id == fs[k].id);
        } else {
            assert(gs2[p].id == fs2[k].id);
        }
    }
    assert forall|i: int, j: int| 0 <= i < j < gs2.len() implies #[trigger] gs2[i].id
        < #[trigger] gs2[j].id by {
        assert(gs[i].id < gs[j].id);
    }
}

proof fn lemma_new_group(
    fs: Seq<RoutedParcelForce>,
    gs: Seq<ForceGroup>,
    p: int,
    f: RoutedParcelForce,
    g: ForceGroup,
)
    requires
        is_grouping(fs, gs),
        0 <= p <= gs.len(),
        forall|i: int| 0 <= i < p ==> #[trigger] gs[i].id < f.id,
        p < gs.len() ==> f.id < gs[p].id,
        g.id == f.id,
        g.sph_owner == f.sph_owner,
        g.forces@ == seq![f.force],
    ensures
        is_grouping(fs.push(f), gs.insert(p, g)),
{
    let fs2 = fs.push(f);
    let gs2 = gs.insert(p, g);
    assert forall|i: int| 0 <= i < gs.len() implies #[trigger] gs[i].id != f.id by {
        if p < gs.len() && p < i {
            assert(gs[p].id < gs[i].id);
        }
    }
    assert forall|k: int| 0 <= k < fs.len() implies fs[k].id != f.id by {
        assert(has_group(gs, fs[k].id));
    }
    lemma_no_contributions(fs, f.id);
    assert forall|i: int| 0 <= i < gs2.len() implies is_group_of(fs2, #[trigger] gs2[i]) by {
        lemma_contributions_push(fs, f, gs2[i].id);
        if i == p {
            assert(contributions(fs2, f.id) =~= seq![f]);
            assert(force_vectors(seq![f]) =~= seq![f.force]);
        } else if i < p {
            assert(gs2[i] == gs[i]);
            assert(is_group_of(fs, gs[i]));
        } else {
            assert(gs2[i] == gs[i - 1]);
            assert(is_group_of(fs, gs[i - 1]));
        }
    }
    assert forall|k: int| 0 <= k < fs2.len() implies has_group(gs2, #[trigger] fs2[k].id) by {
        if k < fs.len() {
            assert(fs2[k] == fs[k]);
            assert(has_group(gs, fs[k].id));
            let i = choose|i: int| 0 <= i < gs.len() && #[trigger] gs[i].id == fs[k].id;
            if i < p {
                assert(gs2[i].id == fs[k].id);
            } else {
                assert(gs2[i + 1].id == fs[k].id);
            }
        } else {
            assert(gs2[p].id == fs2[k].id);
        }
    }
    assert forall|i: int, j: int| 0 <= i < j < gs2.len() implies #[trigger] gs2[i].id
        < #[trigger] gs2[j].id by {
        if j < p {
            assert(gs[i].id < gs[j].id);
        } else if j == p {
            assert(gs[i].id < f.id);
        } else if i < p {
            assert(gs2[j] == gs[j - 1]);
            assert(gs[i].id < f.id);
            assert(f.id < gs[p].id);
            if p < j - 1 {
                assert(gs[p].id < gs[j - 1].id);
            }
        } else if i == p {
            assert(gs2[j] == gs[j - 1]);
            if p < j - 1 {
                assert(gs[p].id < gs[j - 1].id);
            }
        } else {
            assert(gs[i - 1].id < gs[j - 1].id);
        }
    }
}

/// Decodes the received force records and gathers the contributions of each
/// parcel: one group per parcel id, in increasing id, each holding that
/// parcel's force vectors in arrival order and the owner of its first
/// contribution. The first record that fails to decode, or whose entity id is
/// not its force's id, gives the error.
pub fn group_forces(records: &[ReceivedRecord]) -> (res: Result<Vec<ForceGroup>, RoutingError>)
    ensures
        res is Ok <==> forall|i: int|
            0 <= i < records@.len() ==> {
                &&& (#[trigger] records@[i]).payload@.len() == FORCE_BYTES
                &&& spec_u64_from_le_bytes(records@[i].payload@.subrange(0, 8))
                    == records@[i].entity_id
            },
        res matches Ok(groups) ==> {
            &&& forall|i: int, j: int|
                0 <= i < j < groups@.len() ==> #[trigger] groups@[i].id < #[trigger] groups@[j].id
            &&& forall|i: int|
                0 <= i < groups@.len() ==> (#[trigger] groups@[i]).forces@.len() >= 1
            &&& forall|k: int|
                0 <= k < records@.len() ==> has_group(groups@, (#[trigger] records@[k]).entity_id)
            &&& forall|i: int|
                0 <= i < groups@.len() ==> has_record(records@, (#[trigger] groups@[i]).id)
        },
        match res {
            Ok(groups) => {
                &&& forall|i: int|
                    0 <= i < records@.len() ==> force_record_result(#[trigger] records@[i]) is Ok
                &&& is_grouping(received_forces(records@), groups@)
            },
            Err(e) => exists|k: int|
                {
                    &&& 0 <= k < records@.len()
                    &&& force_record_result(#[trigger] records@[k]) == Err::<
                        RoutedParcelForce,
                        RoutingError,
                    >(e)
                    &&& forall|j: int| 0 <= j < k ==> force_record_result(records@[j]) is Ok
                },
        },
{
    let n = records.len();
    let mut groups: Vec<ForceGroup> = Vec::new();
    let ghost mut seen: Seq<RoutedParcelForce> = Seq::empty();
    let mut i: usize = 0;
    while i < n
        invariant
            n == records@.len(),
            i <= n,
            seen.len() == i,
            forall|j: int|
                0 <= j < i ==> force_record_result(#[trigger] records@[j]) == Ok::<
                    RoutedParcelForce,
                    RoutingError,
                >(seen[j]),
            is_grouping(seen, groups@),
        decreases n - i,
    {
        let record = &records[i];
        let force = match decode_force(record.payload.as_slice()) {
            Ok(force) => force,
            Err(e) => {
                assert(force_record_result(records@[i as int]) == Err::<
                    RoutedParcelForce,
                    RoutingError,
                >(e));
                return Err(e);
            },
        };
        if force.id != record.entity_id {
            assert(force_record_result(records@[i as int]) == Err::<
                RoutedParcelForce,
                RoutingError,
            >(RoutingError::ForceIdMismatch));
            return Err(RoutingError::ForceIdMismatch);
        }
        let ghost old_groups = groups@;
        let mut p: usize = 0;
        while p < groups.len() && groups[p].id < force.id
            invariant
                groups@ == old_groups,
                p <= groups@.len(),
                forall|j: int| 0 <= j < p ==> #[trigger] groups@[j].id < force.id,
            decreases groups@.len() - p,
        {
            p = p + 1;
        }
        if p < groups.len() && groups[p].id == force.id {
            let mut group = groups.remove(p);
            group.forces.push(force.force);
            let ghost g = group;
            groups.insert(p, group);
            proof {
                assert(groups@ =~= old_groups.update(p as int, g));
                lemma_extend_group(seen, old_groups, p as int, force, g);
            }
        } else {
            let mut forces: Vec<[u64; 3]> = Vec::new();
            forces.push(force.force);
            let group = ForceGroup { id: force.id, sph_owner: force.sph_owner, forces };
            let ghost g = group;
            groups.insert(p, group);
            proof {
                assert(g.forces@ =~= seq![force.force]);
                lemma_new_group(seen, old_groups, p as int, force, g);
            }
        }
        proof {
            seen = seen.push(force);
        }
        i = i + 1;
    }
    assert(seen =~= received_forces(records@));
    proof {
        let fs = received_forces(records@);
        assert forall|k: int| 0 <= k < fs.len() implies (#[trigger] fs[k]).id
            == records@[k].entity_id by {
            assert(force_record_result(records@[k]) == Ok::<RoutedParcelForce, RoutingError>(
                seen[k],
            ));
        }
        assert forall|i: int| 0 <= i < groups@.len() implies (
        #[trigger] groups@[i]).forces@.len() >= 1 by {
            assert(is_group_of(fs, groups@[i]));
        }
        assert forall|k: int| 0 <= k < records@.len() implies has_group(
            groups@,
            (#[trigger] records@[k]).entity_id,
        ) by {
            assert(fs[k].id == records@[k].entity_id);
            assert(has_group(groups@, fs[k].id));
        }
        assert forall|i: int| 0 <= i < groups@.len() implies has_record(
            records@,
            (#[trigger] groups@[i]).id,
        ) by {
            let id = groups@[i].id;
            assert(is_group_of(fs, groups@[i]));
            let c = contributions(fs, id);
            fs.lemma_filter_pred(has_id(id), 0);
            assert(c.contains(c[0]));
            fs.lemma_filter_contains_rev(has_id(id), c[0]);
            let k = choose|k: int| 0 <= k < fs.len() && fs[k] == c[0];
            assert(fs[k].id == records@[k].entity_id);
            assert(records@[k].entity_id == id);
        }
    }
    Ok(groups)
}


// ---------------------------------------------------------------------------
// Laws across routing, delivery and decoding
// ---------------------------------------------------------------------------

/// Parcel records delivered as they were routed (same entity ids, same bytes,
/// any source ranks) decode to exactly the parcels that were routed, in order.
pub proof fn lemma_route_then_decode_parcels(
    owners: Seq<Option<i32>>,
    parcels: Seq<RoutedParcel>,
    routed: Seq<RoutedRecord>,
    received: Seq<ReceivedRecord>,
)
    requires
        routed.len() == parcels.len(),
        owners.len() == parcels.len(),
        received.len() == routed.len(),
        forall|i: int| 0 <= i < parcels.len() ==> routed_to_owner(#[trigger] routed[i], owners[i], parcels[i]),
        forall|i: int|
            0 <= i < routed.len() ==> (#[trigger] received[i]).entity_id == routed[i].entity_id
                && received[i].payload@ == routed[i].payload@,
    ensures
        forall|i: int|
            0 <= i < received.len() ==> parcel_record_result(#[trigger] received[i]) == Ok::<
                RoutedParcel,
                RoutingError,
            >(parcels[i]),
{
    assert forall|i: int| 0 <= i < received.len() implies parcel_record_result(
        #[trigger] received[i],
    ) == Ok::<RoutedParcel, RoutingError>(parcels[i]) by {
        assert(routed_to_owner(routed[i], owners[i], parcels[i]));
        lemma_decode_encode_parcel(parcels[i]);
    }
}

/// Force records delivered as they were routed decode without error, and the
/// forces they hold are exactly the forces that were routed, in order.
pub proof fn lemma_route_then_decode_forces(
    forces: Seq<RoutedParcelForce>,
    routed: Seq<RoutedRecord>,
    received: Seq<ReceivedRecord>,
)
    requires
        routed.len() == forces.len(),
        received.len() == routed.len(),
        forall|i: int| 0 <= i < forces.len() ==> routed_to_sph_owner(#[trigger] routed[i], forces[i]),
        forall|i: int|
            0 <= i < routed.len() ==> (#[trigger] received[i]).entity_id == routed[i].entity_id
                && received[i].payload@ == routed[i].payload@,
    ensures
        forall|i: int|
            0 <= i < received.len() ==> force_record_result(#[trigger] received[i]) == Ok::<
                RoutedParcelForce,
                RoutingError,
            >(forces[i]),
        received_forces(received) == forces,
{
    assert forall|i: int| 0 <= i < received.len() implies force_record_result(
        #[trigger] received[i],
    ) == Ok::<RoutedParcelForce, RoutingError>(forces[i]) by {
        assert(routed_to_sph_owner(routed[i], forces[i]));
        lemma_decode_encode_force(forces[i]);
    }
    assert forall|i: int| 0 <= i < received.len() implies received_forces(received)[i]
        == forces[i] by {
        assert(force_record_result(received[i]) == Ok::<RoutedParcelForce, RoutingError>(
            forces[i],
        ));
        lemma_decode_encode_force(forces[i]);
    }
    assert(received_forces(received) =~= forces);
}

proof fn lemma_single_contribution(fs: Seq<RoutedParcelForce>, id: u64)
    requires
        forall|i: int, j: int| 0 <= i < j < fs.len() ==> fs[i].id != fs[j].id,
    ensures
        contributions(fs, id).len() <= 1,
    decreases fs.len(),
{
    if fs.len() > 0 {
        let rest = fs.drop_last();
        let x = fs.last();
        assert(fs =~= rest.push(x));
        lemma_single_contribution(rest, id);
        lemma_contributions_push(rest, x, id);
        if x.id == id {
            assert forall|k: int| 0 <= k < rest.len() implies rest[k].id != id by {
                assert(fs[k].id != fs[fs.len() - 1].id);
            }
            lemma_no_contributions(rest, id);
        }
    }
}

/// When every contribution comes from a different parcel, gathering gives one
/// group per contribution, each holding exactly one force vector.
pub proof fn lemma_distinct_ids_one_group_each(fs: Seq<RoutedParcelForce>, gs: Seq<ForceGroup>)
    requires
        is_grouping(fs, gs),
        forall|i: int, j: int| 0 <= i < j < fs.len() ==> fs[i].id != fs[j].id,
    ensures
        gs.len() == fs.len(),
        forall|i: int| 0 <= i < gs.len() ==> (#[trigger] gs[i]).forces@.len() == 1,
{
    let fid = fs.map_values(|f: RoutedParcelForce| f.id);
    let gid = gs.map_values(|g: ForceGroup| g.id);
    assert forall|i: int| 0 <= i < gs.len() implies (#[trigger] gs[i]).forces@.len() == 1 by {
        assert(is_group_of(fs, gs[i]));
        lemma_single_contribution(fs, gs[i].id);
    }
    assert(fid.no_duplicates()) by {
        assert forall|i: int, j: int| 0 <= i < fid.len() && 0 <= j < fid.len() && i != j implies fid[i]
            != fid[j] by {
            if i < j {
                assert(fs[i].id != fs[j].id);
            } else {
                assert(fs[j].id != fs[i].id);
            }
        }
    }
    assert(gid.no_duplicates()) by {
        assert forall|i: int, j: int| 0 <= i < gid.len() && 0 <= j < gid.len() && i != j implies gid[i]
            != gid[j] by {
            if i < j {
                assert(gs[i].id < gs[j].id);
            } else {
                assert(gs[j].id < gs[i].id);
            }
        }
    }
    assert forall|x: u64| fid.to_set().contains(x) implies gid.to_set().contains(x) by {
        assert(fid.contains(x));
        let k = choose|k: int| 0 <= k < fid.len() && fid[k] == x;
        assert(has_group(gs, fs[k].id));
        let i = choose|i: int| 0 <= i < gs.len() && #[trigger] gs[i].id == fs[k].id;
        assert(gid[i] == x);
    }
    assert forall|x: u64| gid.to_set().contains(x) implies fid.to_set().contains(x) by {
        assert(gid.contains(x));
        let i = choose|i: int| 0 <= i < gid.len() && gid[i] == x;
        assert(is_group_of(fs, gs[i]));
        let c = contributions(fs, x);
        fs.lemma_filter_pred(has_id(x), 0);
        assert(c.contains(c[0]));
        fs.lemma_filter_contains_rev(has_id(x), c[0]);
        let k = choose|k: int| 0 <= k < fs.len() && fs[k] == c[0];
        assert(fid[k] == x);
    }
    assert(fid.to_set() =~= gid.to_set());
    fid.unique_seq_to_set();
    gid.unique_seq_to_set();
}

// ---------------------------------------------------------------------------
// Wire-format laws
// ---------------------------------------------------------------------------

proof fn lemma_parcel_bytes_len(p: RoutedParcel)
    ensures
        parcel_bytes(p).len() == PARCEL_BYTES,
{
    lemma_auto_spec_u64_to_from_le_bytes();
    lemma_auto_spec_u32_to_from_le_bytes();
    assert(spec_u64_to_le_bytes(p.id).len() == 8);
    assert(spec_u64_to_le_bytes(p.center[0]).len() == 8);
    assert(spec_u64_to_le_bytes(p.center[1]).len() == 8);
    assert(spec_u64_to_le_bytes(p.center[2]).len() == 8);
    assert(spec_u64_to_le_bytes(p.velocity[0]).len() == 8);
    assert(spec_u64_to_le_bytes(p.velocity[1]).len() == 8);
    assert(spec_u64_to_le_bytes(p.velocity[2]).len() == 8);
    assert(spec_u64_to_le_bytes(p.volume).len() == 8);
    assert(spec_u32_to_le_bytes(p.sph_owner as u32).len() == 4);
}

proof fn lemma_force_bytes_len(f: RoutedParcelForce)
    ensures
        force_bytes(f).len() == FORCE_BYTES,
{
    lemma_auto_spec_u64_to_from_le_bytes();
    lemma_auto_spec_u32_to_from_le_bytes();
    assert(spec_u64_to_le_bytes(f.id).len() == 8);
    assert(spec_u64_to_le_bytes(f.force[0]).len() == 8);
    assert(spec_u64_to_le_bytes(f.force[1]).len() == 8);
    assert(spec_u64_to_le_bytes(f.force[2]).len() == 8);
    assert(spec_u32_to_le_bytes(f.sph_owner as u32).len() == 4);
}

proof fn lemma_i32_bits_roundtrip(v: i32, x: u32)
    ensures
        (v as u32) as i32 == v,
        (x as i32) as u32 == x,
{
    assert((v as u32) as i32 == v) by (bit_vector);
    assert((x as i32) as u32 == x) by (bit_vector);
}

/// Decoding the frame of a parcel gives the parcel back.
pub proof fn lemma_decode_encode_parcel(p: RoutedParcel)
    ensures
        parcel_payload_result(parcel_bytes(p)) == Ok::<RoutedParcel, RoutingError>(p),
{
    lemma_auto_spec_u64_to_from_le_bytes();
    lemma_auto_spec_u32_to_from_le_bytes();
    lemma_parcel_bytes_len(p);
    lemma_i32_bits_roundtrip(p.sph_owner, 0);
    let b = parcel_bytes(p);
    assert(b.subrange(0, 8) =~= spec_u64_to_le_bytes(p.id));
    assert(b.subrange(8, 12) =~= i32_le_bytes(p.sph_owner));
    assert(b.subrange(12, 20) =~= spec_u64_to_le_bytes(p.center[0]));
    assert(b.subrange(20, 28) =~= spec_u64_to_le_bytes(p.center[1]));
    assert(b.subrange(28, 36) =~= spec_u64_to_le_bytes(p.center[2]));
    assert(b.subrange(36, 44) =~= spec_u64_to_le_bytes(p.velocity[0]));
    assert(b.subrange(44, 52) =~= spec_u64_to_le_bytes(p.velocity[1]));
    assert(b.subrange(52, 60) =~= spec_u64_to_le_bytes(p.velocity[2]));
    assert(b.subrange(60, 68) =~= spec_u64_to_le_bytes(p.volume));
    let q = parcel_from_bytes(b);
    assert(q.center =~= p.center);
    assert(q.velocity =~= p.velocity);
}

/// Every frame of `PARCEL_BYTES` bytes is the frame of the parcel it decodes to.
pub proof fn lemma_encode_decode_parcel(b: Seq<u8>)
    requires
        b.len() == PARCEL_BYTES,
    ensures
        parcel_bytes(parcel_from_bytes(b)) == b,
{
    lemma_auto_spec_u64_to_from_le_bytes();
    lemma_auto_spec_u32_to_from_le_bytes();
    let q = parcel_from_bytes(b);
    lemma_i32_bits_roundtrip(0, spec_u32_from_le_bytes(b.subrange(8, 12)));
    assert(spec_u64_to_le_bytes(spec_u64_from_le_bytes(b.subrange(0, 8))) == b.subrange(0, 8));
    assert(spec_u32_to_le_bytes(spec_u32_from_le_bytes(b.subrange(8, 12))) == b.subrange(8, 12));
    assert(spec_u64_to_le_bytes(spec_u64_from_le_bytes(b.subrange(12, 20))) == b.subrange(12, 20));
    assert(spec_u64_to_le_bytes(spec_u64_from_le_bytes(b.subrange(20, 28))) == b.subrange(20, 28));
    assert(spec_u64_to_le_bytes(spec_u64_from_le_bytes(b.subrange(28, 36))) == b.subrange(28, 36));
    assert(spec_u64_to_le_bytes(spec_u64_from_le_bytes(b.subrange(36, 44))) == b.subrange(36, 44));
    assert(spec_u64_to_le_bytes(spec_u64_from_le_bytes(b.subrange(44, 52))) == b.subrange(44, 52));
    assert(spec_u64_to_le_bytes(spec_u64_from_le_bytes(b.subrange(52, 60))) == b.subrange(52, 60));
    assert(spec_u64_to_le_bytes(spec_u64_from_le_bytes(b.subrange(60, 68))) == b.subrange(60, 68));
    assert(parcel_bytes(q) =~= b);
}

/// Decoding the frame of a force gives the force back.
pub proof fn lemma_decode_encode_force(f: RoutedParcelForce)
    ensures
        force_payload_result(force_bytes(f)) == Ok::<RoutedParcelForce, RoutingError>(f),
{
    lemma_auto_spec_u64_to_from_le_bytes();
    lemma_auto_spec_u32_to_from_le_bytes();
    lemma_force_bytes_len(f);
    lemma_i32_bits_roundtrip(f.sph_owner, 0);
    let b = force_bytes(f);
    assert(b.subrange(0, 8) =~= spec_u64_to_le_bytes(f.id));
    assert(b.subrange(8, 12) =~= i32_le_bytes(f.sph_owner));
    assert(b.subrange(12, 20) =~= spec_u64_to_le_bytes(f.force[0]));
    assert(b.subrange(20, 28) =~= spec_u64_to_le_bytes(f.force[1]));
    assert(b.subrange(28, 36) =~= spec_u64_to_le_bytes(f.force[2]));
    let q = force_from_bytes(b);
    assert(q.force =~= f.force);
}

/// Every frame of `FORCE_BYTES` bytes is the frame of the force it decodes to.
pub proof fn lemma_encode_decode_force(b: Seq<u8>)
    requires
        b.len() == FORCE_BYTES,
    ensures
        force_bytes(force_from_bytes(b)) == b,
{
    lemma_auto_spec_u64_to_from_le_bytes();
    lemma_auto_spec_u32_to_from_le_bytes();
    let q = force_from_bytes(b);
    lemma_i32_bits_roundtrip(0, spec_u32_from_le_bytes(b.subrange(8, 12)));
    assert(spec_u64_to_le_bytes(spec_u64_from_le_bytes(b.subrange(0, 8))) == b.subrange(0, 8));
    assert(spec_u32_to_le_bytes(spec_u32_from_le_bytes(b.subrange(8, 12))) == b.subrange(8, 12));
    assert(spec_u64_to_le_bytes(spec_u64_from_le_bytes(b.subrange(12, 20))) == b.subrange(12, 20));
    assert(spec_u64_to_le_bytes(spec_u64_from_le_bytes(b.subrange(20, 28))) == b.subrange(20, 28));
    assert(spec_u64_to_le_bytes(spec_u64_from_le_bytes(b.subrange(28, 36))) == b.subrange(28, 36));
    assert(force_bytes(q) =~= b);
}

/// The parcel frame layout, field by field: id at bytes 0..8, owner at 8..12,
/// `center[k]` at `12 + 8k`, `velocity[k]` at `36 + 8k`, volume at 60..68, each
/// little-endian.
pub proof fn lemma_parcel_frame_layout(p: RoutedParcel)
    ensures
        parcel_bytes(p).len() == PARCEL_BYTES,
        parcel_bytes(p).subrange(0, 8) == spec_u64_to_le_bytes(p.id),
        parcel_bytes(p).subrange(8, 12) == spec_u32_to_le_bytes(p.sph_owner as u32),
        parcel_bytes(p).subrange(12, 20) == spec_u64_to_le_bytes(p.center[0]),
        parcel_bytes(p).subrange(20, 28) == spec_u64_to_le_bytes(p.center[1]),
        parcel_bytes(p).subrange(28, 36) == spec_u64_to_le_bytes(p.center[2]),
        parcel_bytes(p).subrange(36, 44) == spec_u64_to_le_bytes(p.velocity[0]),
        parcel_bytes(p).subrange(44, 52) == spec_u64_to_le_bytes(p.velocity[1]),
        parcel_bytes(p).subrange(52, 60) == spec_u64_to_le_bytes(p.velocity[2]),
        parcel_bytes(p).subrange(60, 68) == spec_u64_to_le_bytes(p.volume),
{
    lemma_auto_spec_u64_to_from_le_bytes();
    lemma_auto_spec_u32_to_from_le_bytes();
    lemma_parcel_bytes_len(p);
    let b = parcel_bytes(p);
    assert(b.subrange(0, 8) =~= spec_u64_to_le_bytes(p.id));
    assert(b.subrange(8, 12) =~= i32_le_bytes(p.sph_owner));
    assert(b.subrange(12, 20) =~= spec_u64_to_le_bytes(p.center[0]));
    assert(b.subrange(20, 28) =~= spec_u64_to_le_bytes(p.center[1]));
    assert(b.subrange(28, 36) =~= spec_u64_to_le_bytes(p.center[2]));
    assert(b.subrange(36, 44) =~= spec_u64_to_le_bytes(p.velocity[0]));
    assert(b.subrange(44, 52) =~= spec_u64_to_le_bytes(p.velocity[1]));
    assert(b.subrange(52, 60) =~= spec_u64_to_le_bytes(p.velocity[2]));
    assert(b.subrange(60, 68) =~= spec_u64_to_le_bytes(p.volume));
}

/// The parcel a frame decodes to reads each field from its own slot: id at
/// bytes 0..8, owner at 8..12, `center[k]` at `12 + 8k`, `velocity[k]` at
/// `36 + 8k`, volume at 60..68, each little-endian.
pub proof fn lemma_parcel_frame_fields(b: Seq<u8>)
    requires
        b.len() == PARCEL_BYTES,
    ensures
        parcel_payload_result(b) is Ok,
        parcel_payload_result(b) matches Ok(p) ==> {
            &&& p.id == spec_u64_from_le_bytes(b.subrange(0, 8))
            &&& p.sph_owner == spec_u32_from_le_bytes(b.subrange(8, 12)) as i32
            &&& p.center[0] == spec_u64_from_le_bytes(b.subrange(12, 20))
            &&& p.center[1] == spec_u64_from_le_bytes(b.subrange(20, 28))
            &&& p.center[2] == spec_u64_from_le_bytes(b.subrange(28, 36))
            &&& p.velocity[0] == spec_u64_from_le_bytes(b.subrange(36, 44))
            &&& p.velocity[1] == spec_u64_from_le_bytes(b.subrange(44, 52))
            &&& p.velocity[2] == spec_u64_from_le_bytes(b.subrange(52, 60))
            &&& p.volume == spec_u64_from_le_bytes(b.subrange(60, 68))
        },
{
}

/// The force frame layout, field by field: id at bytes 0..8, owner at 8..12,
/// `force[k]` at `12 + 8k`, each little-endian.
pub proof fn lemma_force_frame_layout(f: RoutedParcelForce)
    ensures
        force_bytes(f).len() == FORCE_BYTES,
        force_bytes(f).subrange(0, 8) == spec_u64_to_le_bytes(f.id),
        force_bytes(f).subrange(8, 12) == spec_u32_to_le_bytes(f.sph_owner as u32),
        force_bytes(f).subrange(12, 20) == spec_u64_to_le_bytes(f.force[0]),
        force_bytes(f).subrange(20, 28) == spec_u64_to_le_bytes(f.force[1]),
        force_bytes(f).subrange(28, 36) == spec_u64_to_le_bytes(f.force[2]),
{
    lemma_auto_spec_u64_to_from_le_bytes();
    lemma_auto_spec_u32_to_from_le_bytes();
    lemma_force_bytes_len(f);
    let b = force_bytes(f);
    assert(b.subrange(0, 8) =~= spec_u64_to_le_bytes(f.id));
    assert(b.subrange(8, 12) =~= i32_le_bytes(f.sph_owner));
    assert(b.subrange(12, 20) =~= spec_u64_to_le_bytes(f.force[0]));
    assert(b.subrange(20, 28) =~= spec_u64_to_le_bytes(f.force[1]));
    assert(b.subrange(28, 36) =~= spec_u64_to_le_bytes(f.force[2]));
}

/// The force a frame decodes to reads each field from its own slot: id at
/// bytes 0..8, owner at 8..12, `force[k]` at `12 + 8k`, each little-endian.
pub proof fn lemma_force_frame_fields(b: Seq<u8>)
    requires
        b.len() == FORCE_BYTES,
    ensures
        force_payload_result(b) is Ok,
        force_payload_result(b) matches Ok(f) ==> {
            &&& f.id == spec_u64_from_le_bytes(b.subrange(0, 8))
            &&& f.sph_owner == spec_u32_from_le_bytes(b.subrange(8, 12)) as i32
            &&& f.force[0] == spec_u64_from_le_bytes(b.subrange(12, 20))
            &&& f.force[1] == spec_u64_from_le_bytes(b.subrange(20, 28))
            &&& f.force[2] == spec_u64_from_le_bytes(b.subrange(28, 36))
        },
{
}

/// A correctly sized parcel record is accepted exactly when the id in its
/// frame (bytes 0..8) equals its entity id; otherwise it gives
/// `ParcelIdMismatch`.
pub proof fn lemma_parcel_record_id_check(r: ReceivedRecord)
    requires
        r.payload@.len() == PARCEL_BYTES,
    ensures
        spec_u64_from_le_bytes(r.payload@.subrange(0, 8)) == r.entity_id ==> parcel_record_result(r) is Ok,
        spec_u64_from_le_bytes(r.payload@.subrange(0, 8)) != r.entity_id ==> parcel_record_result(r)
            == Err::<RoutedParcel, RoutingError>(RoutingError::ParcelIdMismatch),
        parcel_record_result(r) matches Ok(p) ==> p.id == r.entity_id,
{
}

/// A correctly sized force record is accepted exactly when the id in its frame
/// (bytes 0..8) equals its entity id; otherwise it gives `ForceIdMismatch`.
pub proof fn lemma_force_record_id_check(r: ReceivedRecord)
    requires
        r.payload@.len() == FORCE_BYTES,
    ensures
        spec_u64_from_le_bytes(r.payload@.subrange(0, 8)) == r.entity_id ==> force_record_result(r) is Ok,
        spec_u64_from_le_bytes(r.payload@.subrange(0, 8)) != r.entity_id ==> force_record_result(r)
            == Err::<RoutedParcelForce, RoutingError>(RoutingError::ForceIdMismatch),
        force_record_result(r) matches Ok(f) ==> f.id == r.entity_id,
{
}

/// Each force that `group_forces` gathers from a correctly sized record holds
/// the record's frame fields: id at bytes 0..8, owner at 8..12, `force[k]` at
/// `12 + 8k`, each little-endian.
pub proof fn lemma_received_force_fields(records: Seq<ReceivedRecord>, i: int)
    requires
        0 <= i < records.len(),
        records[i].payload@.len() == FORCE_BYTES,
    ensures
        ({
            let f = received_forces(records)[i];
            let b = records[i].payload@;
            &&& f.id == spec_u64_from_le_bytes(b.subrange(0, 8))
            &&& f.sph_owner == spec_u32_from_le_bytes(b.subrange(8, 12)) as i32
            &&& f.force[0] == spec_u64_from_le_bytes(b.subrange(12, 20))
            &&& f.force[1] == spec_u64_from_le_bytes(b.subrange(20, 28))
            &&& f.force[2] == spec_u64_from_le_bytes(b.subrange(28, 36))
        }),
{
}

/// A parcel record of the wrong size is refused with its actual length, and a
/// force record of the wrong size with `ForcePayloadSize`.
pub proof fn lemma_record_size_check(r: ReceivedRecord)
    ensures
        r.payload@.len() != PARCEL_BYTES ==> parcel_record_result(r) == Err::<
            RoutedParcel,
            RoutingError,
        >(RoutingError::ParcelPayloadSize { len: r.payload@.len() as usize }),
        r.payload@.len() != FORCE_BYTES ==> force_record_result(r) == Err::<
            RoutedParcelForce,
            RoutingError,
        >(RoutingError::ForcePayloadSize),
{
}

} // verus!
