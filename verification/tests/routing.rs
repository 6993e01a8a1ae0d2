use sph_cfd::routing::{
    decode_force, decode_parcel, decode_parcels, encode_force, encode_parcel, group_forces,
    route_forces, route_parcels, take_i32, take_u64, ForceGroup, ReceivedRecord, RoutedParcel,
    RoutedParcelForce, RoutedRecord, RoutingError, FORCE_BYTES, PARCEL_BYTES,
};

fn bits3(v: [f64; 3]) -> [u64; 3] {
    [v[0].to_bits(), v[1].to_bits(), v[2].to_bits()]
}

fn parcel(id: u64, owner: i32, x: f64) -> RoutedParcel {
    RoutedParcel {
        id,
        sph_owner: owner,
        center: bits3([x, 0.5, 0.5]),
        velocity: bits3([0.02, 0.0, -1.5]),
        volume: 1.0e-6f64.to_bits(),
    }
}

fn force(id: u64, owner: i32, f: [f64; 3]) -> RoutedParcelForce {
    RoutedParcelForce { id, sph_owner: owner, force: bits3(f) }
}

fn deliver(source: i32, records: &[RoutedRecord]) -> Vec<ReceivedRecord> {
    records
        .iter()
        .map(|r| ReceivedRecord { source, entity_id: r.entity_id, payload: r.payload.clone() })
        .collect()
}

#[test]
fn frame_sizes_match_the_wire_layout() {
    assert_eq!(PARCEL_BYTES, 68);
    assert_eq!(FORCE_BYTES, 36);
    assert_eq!(encode_parcel(parcel(1, 0, 0.25)).len(), PARCEL_BYTES);
    assert_eq!(encode_force(force(1, 0, [1.0, 2.0, 3.0])).len(), FORCE_BYTES);
}

#[test]
fn parcel_frame_is_little_endian_fields_in_order() {
    let p = parcel(0x0102_0304_0506_0708, -2, 0.25);
    let bytes = encode_parcel(p);
    assert_eq!(&bytes[0..8], &[8, 7, 6, 5, 4, 3, 2, 1]);
    assert_eq!(&bytes[8..12], &[0xfe, 0xff, 0xff, 0xff]);
    assert_eq!(&bytes[12..20], &0.25f64.to_le_bytes());
    assert_eq!(&bytes[36..44], &0.02f64.to_le_bytes());
    assert_eq!(&bytes[60..68], &1.0e-6f64.to_le_bytes());
}

#[test]
fn parcel_roundtrip() {
    let p = parcel(500, 3, 0.875);
    assert_eq!(decode_parcel(&encode_parcel(p)), Ok(p));
}

#[test]
fn force_roundtrip() {
    let f = force(77, -1, [1.5, -2.25, 1.0e-9]);
    assert_eq!(decode_force(&encode_force(f)), Ok(f));
    let back = decode_force(&encode_force(f)).unwrap();
    assert_eq!(f64::from_bits(back.force[1]), -2.25);
}

#[test]
fn frame_roundtrip_from_bytes() {
    let bytes: Vec<u8> = (0..68u8).map(|b| b.wrapping_mul(37)).collect();
    let p = decode_parcel(&bytes).unwrap();
    assert_eq!(encode_parcel(p), bytes);
    let fbytes: Vec<u8> = (0..36u8).map(|b| b.wrapping_mul(91)).collect();
    let f = decode_force(&fbytes).unwrap();
    assert_eq!(encode_force(f), fbytes);
}

#[test]
fn wrong_payload_sizes_are_refused() {
    assert_eq!(decode_parcel(&[0u8; 67]), Err(RoutingError::ParcelPayloadSize { len: 67 }));
    assert_eq!(decode_parcel(&[]), Err(RoutingError::ParcelPayloadSize { len: 0 }));
    assert_eq!(decode_force(&[0u8; 37]), Err(RoutingError::ForcePayloadSize));
}

#[test]
fn take_reads_and_advances() {
    let bytes = [0xaa, 1, 0, 0, 0, 0, 0, 0, 0, 0xff, 0xff, 0xff, 0xff];
    let mut at = 1;
    assert_eq!(take_u64(&bytes, &mut at), 1);
    assert_eq!(at, 9);
    assert_eq!(take_i32(&bytes, &mut at), -1);
    assert_eq!(at, 13);
    let mut at = 0;
    assert_eq!(take_u64(&bytes, &mut at), 0x0000_0000_0000_01aa);
}

#[test]
fn take_i32_reads_extremes() {
    let bytes = [0, 0, 0, 0x80, 0xff, 0xff, 0xff, 0x7f];
    let mut at = 0;
    assert_eq!(take_i32(&bytes, &mut at), i32::MIN);
    assert_eq!(take_i32(&bytes, &mut at), i32::MAX);
}

#[test]
fn route_parcels_addresses_each_owner() {
    let parcels = vec![parcel(500, 0, 0.1), parcel(501, 1, 0.9)];
    let records = route_parcels(&[Some(0), Some(4)], &parcels).unwrap();
    assert_eq!(records.len(), 2);
    assert_eq!(records[0].destination, 0);
    assert_eq!(records[1].destination, 4);
    assert_eq!(records[1].entity_id, 501);
    assert_eq!(records[1].payload, encode_parcel(parcels[1]));
}

#[test]
fn route_parcels_stops_at_first_parcel_outside_domain() {
    let parcels = vec![parcel(1, 0, 0.1), parcel(2, 0, 7.0), parcel(3, 0, 9.0)];
    assert_eq!(
        route_parcels(&[Some(0), None, None], &parcels),
        Err(RoutingError::OutsideDomain { id: 2 })
    );
    assert_eq!(route_parcels(&[], &[]), Ok(Vec::new()));
}

#[test]
fn routed_parcels_decode_on_the_cfd_side() {
    let parcels = vec![parcel(500, 0, 0.1), parcel(501, 1, 0.6), parcel(502, 2, 0.9)];
    let records = route_parcels(&[Some(0), Some(1), Some(1)], &parcels).unwrap();
    let received = deliver(3, &records);
    assert_eq!(decode_parcels(&received), Ok(parcels));
}

#[test]
fn decode_parcels_reports_id_mismatch_and_size() {
    let p = parcel(9, 0, 0.5);
    let good = ReceivedRecord { source: 0, entity_id: 9, payload: encode_parcel(p) };
    let wrong_id = ReceivedRecord { source: 0, entity_id: 10, payload: encode_parcel(p) };
    let short = ReceivedRecord { source: 0, entity_id: 9, payload: vec![0; 5] };
    assert_eq!(
        decode_parcels(&[good.clone(), wrong_id.clone(), short.clone()]),
        Err(RoutingError::ParcelIdMismatch)
    );
    assert_eq!(
        decode_parcels(&[good, short, wrong_id]),
        Err(RoutingError::ParcelPayloadSize { len: 5 })
    );
}

#[test]
fn route_forces_returns_to_sph_owner() {
    let forces = vec![force(5, 2, [1.0, 0.0, 0.0]), force(6, 0, [0.0, 1.0, 0.0])];
    let records = route_forces(&forces);
    assert_eq!(records.len(), 2);
    assert_eq!(records[0].destination, 2);
    assert_eq!(records[1].destination, 0);
    assert_eq!(records[0].entity_id, 5);
    assert_eq!(records[1].payload, encode_force(forces[1]));
}

#[test]
fn group_forces_gathers_by_id_in_increasing_order() {
    let forces = vec![
        force(9, 1, [1.0, 0.0, 0.0]),
        force(4, 0, [0.0, 2.0, 0.0]),
        force(9, 3, [0.5, 0.0, 0.0]),
        force(7, 2, [0.0, 0.0, 3.0]),
        force(4, 5, [0.0, 0.25, 0.0]),
    ];
    let groups = group_forces(&deliver(1, &route_forces(&forces))).unwrap();
    assert_eq!(
        groups,
        vec![
            ForceGroup {
                id: 4,
                sph_owner: 0,
                forces: vec![bits3([0.0, 2.0, 0.0]), bits3([0.0, 0.25, 0.0])],
            },
            ForceGroup { id: 7, sph_owner: 2, forces: vec![bits3([0.0, 0.0, 3.0])] },
            ForceGroup {
                id: 9,
                sph_owner: 1,
                forces: vec![bits3([1.0, 0.0, 0.0]), bits3([0.5, 0.0, 0.0])],
            },
        ]
    );
}

#[test]
fn group_forces_with_distinct_ids_gives_one_group_each() {
    let forces: Vec<RoutedParcelForce> =
        (0..6).map(|k| force(100 - k, k as i32, [k as f64, 0.0, 0.0])).collect();
    let groups = group_forces(&deliver(0, &route_forces(&forces))).unwrap();
    assert_eq!(groups.len(), forces.len());
    assert!(groups.iter().all(|g| g.forces.len() == 1));
    assert!(groups.windows(2).all(|w| w[0].id < w[1].id));
    assert_eq!(group_forces(&[]), Ok(Vec::new()));
}

#[test]
fn group_forces_reports_first_bad_record() {
    let f = force(3, 0, [1.0, 1.0, 1.0]);
    let good = ReceivedRecord { source: 0, entity_id: 3, payload: encode_force(f) };
    let wrong_id = ReceivedRecord { source: 0, entity_id: 4, payload: encode_force(f) };
    let short = ReceivedRecord { source: 0, entity_id: 3, payload: vec![1, 2, 3] };
    assert_eq!(
        group_forces(&[good.clone(), wrong_id.clone(), short.clone()]),
        Err(RoutingError::ForceIdMismatch)
    );
    assert_eq!(group_forces(&[good, short, wrong_id]), Err(RoutingError::ForcePayloadSize));
}
