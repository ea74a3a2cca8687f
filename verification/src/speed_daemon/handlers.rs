//! What the server does with each announcement and sighting a client sends.
use vstd::prelude::*;

use crate::speed_daemon::errors::SpeedDaemonError;
use crate::speed_daemon::message::{InboundMessageType, InboundView};
use crate::speed_daemon::state::{sightings_of, Db, PlateRoadKey};
use crate::speed_daemon::types::{Plate, PlateRoadStruct, Road, Timestamp, TimestampCameraStruct, TimestampCameraView};

verus! {

/// The dispatcher table after `client` took over each road of `roads`.
pub open spec fn with_dispatcher(m: Map<u16, u64>, roads: Seq<u16>, client: u64) -> Map<u16, u64>
    decreases roads.len(),
{
    if roads.len() == 0 {
        m
    } else {
        with_dispatcher(m, roads.drop_last(), client).insert(roads.last(), client)
    }
}

/// Client `client_addr` announces itself as a camera. A client that already
/// did is refused.
pub fn handle_i_am_camera(
    client_addr: u64,
    new_camera: InboundMessageType,
    shared_db: &mut Db,
) -> (r: Result<(), SpeedDaemonError>)
    requires
        old(shared_db).wf(),
    ensures
        final(shared_db).wf(),
        old(shared_db)@.cameras.contains_key(client_addr) ==> (r matches Err(
            SpeedDaemonError::DuplicateCamera,
        ) && final(shared_db)@ == old(shared_db)@),
        !old(shared_db)@.cameras.contains_key(client_addr) ==> (r is Ok && final(shared_db)@.cameras
            == old(shared_db)@.cameras.insert(client_addr, new_camera@)
            && final(shared_db)@.dispatchers == old(shared_db)@.dispatchers
            && final(shared_db)@.observations == old(shared_db)@.observations
            && final(shared_db)@.issued_days == old(shared_db)@.issued_days),
{
    if let Some(_existing_camera) = shared_db.get_current_camera(client_addr) {
        return Err(SpeedDaemonError::DuplicateCamera);
    }
    shared_db.add_camera(client_addr, new_camera);
    Ok(())
}

/// Client `client_addr` announces itself as the dispatcher of `roads`. A
/// client that is a camera or already a dispatcher is refused; otherwise it
/// becomes the dispatcher of each of the roads.
pub fn handle_i_am_dispatcher(roads: Vec<Road>, client_addr: u64, shared_db: &mut Db) -> (r: Result<
    (),
    SpeedDaemonError,
>)
    requires
        old(shared_db).wf(),
    ensures
        final(shared_db).wf(),
        ({
            let refused = old(shared_db)@.cameras.contains_key(client_addr) || exists|road: u16|
                #[trigger] old(shared_db)@.dispatchers.contains_key(road)
                    && old(shared_db)@.dispatchers[road] == client_addr;
            &&& refused ==> (r matches Err(SpeedDaemonError::DuplicateDispatcher)
                && final(shared_db)@ == old(shared_db)@)
            &&& !refused ==> (r is Ok && final(shared_db)@.dispatchers == with_dispatcher(
                old(shared_db)@.dispatchers,
                roads@,
                client_addr,
            ) && final(shared_db)@.cameras == old(shared_db)@.cameras
                && final(shared_db)@.observations == old(shared_db)@.observations
                && final(shared_db)@.issued_days == old(shared_db)@.issued_days)
        }),
{
    if let Some(_existing_camera) = shared_db.get_current_camera(client_addr) {
        return Err(SpeedDaemonError::DuplicateDispatcher);
    }
    if shared_db.ticket_dispatcher_already_exists(client_addr) {
        return Err(SpeedDaemonError::DuplicateDispatcher);
    }
    let mut i: usize = 0;
    while i < roads.len()
        invariant
            shared_db.wf(),
            i <= roads@.len(),
            shared_db@.dispatchers == with_dispatcher(
                old(shared_db)@.dispatchers,
                roads@.subrange(0, i as int),
                client_addr,
            ),
            shared_db@.cameras == old(shared_db)@.cameras,
            shared_db@.observations == old(shared_db)@.observations,
            shared_db@.issued_days == old(shared_db)@.issued_days,
        decreases roads.len() - i,
    {
        shared_db.add_ticket_dispatcher(roads[i], client_addr);
        proof {
            let next = roads@.subrange(0, i + 1);
            assert(next.drop_last() =~= roads@.subrange(0, i as int));
        }
        i = i + 1;
    }
    proof {
        assert(roads@.subrange(0, roads@.len() as int) =~= roads@);
    }
    Ok(())
}

/// The plate and road a sighting is filed under: the plate on the road of
/// the reporting camera (an empty plate on road zero when the client's
/// announcement was not a camera).
pub open spec fn sighting_key(plate: Seq<char>, camera: InboundView) -> PlateRoadKey {
    match camera {
        InboundView::IAmCamera { road, .. } => (plate, road),
        _ => (Seq::empty(), 0),
    }
}

/// Camera `client_addr` saw `new_plate` at `new_timestamp`. When the client
/// announced a camera, the sighting is recorded and the plate and road are
/// returned, to be checked for tickets; otherwise nothing happens.
pub fn handle_plate(
    client_addr: u64,
    new_plate: Plate,
    new_timestamp: Timestamp,
    shared_db: &mut Db,
) -> (r: Option<PlateRoadStruct>)
    requires
        old(shared_db).wf(),
    ensures
        final(shared_db).wf(),
        !old(shared_db)@.cameras.contains_key(client_addr) ==> (r is None && final(shared_db)@
            == old(shared_db)@),
        old(shared_db)@.cameras.contains_key(client_addr) ==> ({
            let camera = old(shared_db)@.cameras[client_addr];
            let key = sighting_key(new_plate@, camera);
            &&& r matches Some(pr) && pr@ == key
            &&& final(shared_db)@.observations == old(shared_db)@.observations.insert(
                key,
                sightings_of(old(shared_db)@, key).push(
                    TimestampCameraView { timestamp: new_timestamp, camera },
                ),
            )
            &&& final(shared_db)@.cameras == old(shared_db)@.cameras
            &&& final(shared_db)@.dispatchers == old(shared_db)@.dispatchers
            &&& final(shared_db)@.issued_days == old(shared_db)@.issued_days
        }),
{
    if let Some(current_camera) = shared_db.get_current_camera(client_addr) {
        let mut new_plate_road = PlateRoadStruct::new(String::new(), 0);
        if let InboundMessageType::IAmCamera { road, .. } = current_camera {
            new_plate_road = PlateRoadStruct { plate: new_plate, road };
        }
        let new_ts_camera = TimestampCameraStruct { timestamp: new_timestamp, camera: current_camera };
        proof {
            assert(new_plate_road@ =~= sighting_key(new_plate@, new_ts_camera.camera@));
        }
        shared_db.add_plate_road_timestamp_camera(new_plate_road.clone(), new_ts_camera);
        Some(new_plate_road)
    } else {
        None
    }
}

} // verus!
