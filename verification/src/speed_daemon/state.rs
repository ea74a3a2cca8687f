//! The shared state of the speed daemon: which client is a camera, which
//! dispatcher serves which road, the sightings of every plate on every road
//! and the days on which each plate was already ticketed, on any road.
use vstd::prelude::*;

use crate::assoc::{
    assoc_map, keys_unique, lemma_assoc_empty, lemma_assoc_index, lemma_assoc_push,
    lemma_assoc_update,
};
use vstd::arithmetic::div_mod::lemma_div_is_ordered;

use crate::speed_daemon::message::{InboundMessageType, InboundView, OutboundMessageType, OutboundView};
use crate::speed_daemon::types::{Day, PlateRoadStruct, Road, TimestampCameraStruct, TimestampCameraView};

verus! {

/// The key of a plate on a road, as values.
pub type PlateRoadKey = (Seq<char>, u16);

/// The mathematical value of the daemon's state.
pub struct DbView {
    /// The dispatcher (a client id) that receives the tickets of each road.
    pub dispatchers: Map<u16, u64>,
    /// The camera announced by each client.
    pub cameras: Map<u64, InboundView>,
    /// The sightings of each plate on each road, in the order they arrived.
    pub observations: Map<PlateRoadKey, Seq<TimestampCameraView>>,
    /// The days for which each plate was ticketed, on any road, in order.
    pub issued_days: Map<Seq<char>, Seq<u32>>,
}

/// The state of the daemon. Clients are named by integer ids chosen by the
/// caller (one per connection).
pub struct Db {
    dispatchers: Vec<(Road, u64)>,
    current_camera: Vec<(u64, InboundMessageType)>,
    plate_road_timestamp_camera: Vec<(PlateRoadStruct, Vec<TimestampCameraStruct>)>,
    issued_tickets_day: Vec<(String, Vec<Day>)>,
}

// ---------------- the ticketing rule ----------------

/// The mile marker of a camera (zero for a message that is not a camera).
pub open spec fn camera_mile(c: InboundView) -> u16 {
    match c {
        InboundView::IAmCamera { mile, .. } => mile,
        _ => 0,
    }
}

/// The speed limit of a camera (zero for a message that is not a camera).
pub open spec fn camera_limit(c: InboundView) -> u16 {
    match c {
        InboundView::IAmCamera { limit, .. } => limit,
        _ => 0,
    }
}

/// The road of a camera (zero for a message that is not a camera).
pub open spec fn camera_road(c: InboundView) -> u16 {
    match c {
        InboundView::IAmCamera { road, .. } => road,
        _ => 0,
    }
}

pub open spec fn abs_diff(a: int, b: int) -> nat {
    if a >= b {
        (a - b) as nat
    } else {
        (b - a) as nat
    }
}

/// The average speed in miles per hour between two sightings: the distance
/// times 3600 over the elapsed seconds, rounded to the nearest integer
/// (halves up). Two sightings at the same second give `u32::MAX` when the
/// miles differ and zero when they do not.
pub open spec fn average_speed(o1: TimestampCameraView, o2: TimestampCameraView) -> nat {
    let d = abs_diff(camera_mile(o1.camera) as int, camera_mile(o2.camera) as int);
    let t = abs_diff(o1.timestamp as int, o2.timestamp as int);
    if t == 0 {
        if d == 0 {
            0
        } else {
            u32::MAX as nat
        }
    } else {
        (7200 * d + t) / (2 * t)
    }
}

/// The day of a timestamp: `floor(timestamp / 86400)`.
pub open spec fn day_of(ts: u32) -> u32 {
    ts / 86400
}

/// The ticket for a pair of sightings: mile 1 and timestamp 1 belong to the
/// earlier sighting, and the speed is in hundredths of a mile per hour,
/// truncated to 16 bits.
pub open spec fn ticket_for(
    key: PlateRoadKey,
    o1: TimestampCameraView,
    o2: TimestampCameraView,
    speed: nat,
) -> OutboundView {
    let m1 = camera_mile(o1.camera);
    let m2 = camera_mile(o2.camera);
    let swap = o1.timestamp > o2.timestamp;
    OutboundView::Ticket {
        plate: key.0,
        road: key.1,
        mile1: if swap { m2 } else { m1 },
        timestamp1: if swap { o2.timestamp } else { o1.timestamp },
        mile2: if swap { m1 } else { m2 },
        timestamp2: if swap { o1.timestamp } else { o2.timestamp },
        speed: ((speed * 100) % 65536) as u16,
    }
}

/// The tickets issued so far in a scan over pairs of sightings, and the
/// ticketed days.
pub struct TicketScan {
    pub tickets: Seq<OutboundView>,
    pub days: Seq<u32>,
}

/// The day of the earlier of two sightings.
pub open spec fn pair_first_day(o1: TimestampCameraView, o2: TimestampCameraView) -> u32 {
    day_of(if o1.timestamp > o2.timestamp { o2.timestamp } else { o1.timestamp })
}

/// The day of the later of two sightings.
pub open spec fn pair_last_day(o1: TimestampCameraView, o2: TimestampCameraView) -> u32 {
    day_of(if o1.timestamp > o2.timestamp { o1.timestamp } else { o2.timestamp })
}

/// The days `lo`, `lo + 1`, ..., `hi`, in order.
pub open spec fn day_span(lo: u32, hi: u32) -> Seq<u32> {
    Seq::new((hi - lo + 1) as nat, |k: int| (lo + k) as u32)
}

/// None of `days` lies in `lo..=hi`.
pub open spec fn span_free(days: Seq<u32>, lo: u32, hi: u32) -> bool {
    forall|k: int| 0 <= k < days.len() ==> !(lo <= #[trigger] days[k] <= hi)
}

/// The pair of sightings `i < j` is ticketed when its average speed exceeds
/// the limit and none of the days from the earlier sighting's day to the
/// later one's was ticketed yet; all those days are then recorded.
pub open spec fn scan_step(
    key: PlateRoadKey,
    obs: Seq<TimestampCameraView>,
    limit: u16,
    i: int,
    j: int,
    st: TicketScan,
) -> TicketScan {
    let speed = average_speed(obs[i], obs[j]);
    let lo = pair_first_day(obs[i], obs[j]);
    let hi = pair_last_day(obs[i], obs[j]);
    if speed > limit && span_free(st.days, lo, hi) {
        TicketScan {
            tickets: st.tickets.push(ticket_for(key, obs[i], obs[j], speed)),
            days: st.days + day_span(lo, hi),
        }
    } else {
        st
    }
}

/// The pairs `(i, i + 1)`, ..., `(i, j - 1)`, in that order.
pub open spec fn scan_row(
    key: PlateRoadKey,
    obs: Seq<TimestampCameraView>,
    limit: u16,
    i: int,
    j: int,
    st: TicketScan,
) -> TicketScan
    decreases j - i,
{
    if j <= i + 1 {
        st
    } else {
        scan_step(key, obs, limit, i, j - 1, scan_row(key, obs, limit, i, j - 1, st))
    }
}

/// The rows of pairs that start at sightings `0`, ..., `i - 1`.
pub open spec fn scan_rows(
    key: PlateRoadKey,
    obs: Seq<TimestampCameraView>,
    limit: u16,
    i: int,
    st: TicketScan,
) -> TicketScan
    decreases i,
{
    if i <= 0 {
        st
    } else {
        scan_row(key, obs, limit, i - 1, obs.len() as int, scan_rows(key, obs, limit, i - 1, st))
    }
}

/// Every pair of sightings of one plate on one road, compared against the
/// limit of the first sighting's camera, starting from the days already
/// ticketed. Fewer than two sightings give no ticket.
pub open spec fn ticket_scan(
    key: PlateRoadKey,
    obs: Seq<TimestampCameraView>,
    days: Seq<u32>,
) -> TicketScan {
    let start = TicketScan { tickets: Seq::empty(), days };
    if obs.len() < 2 {
        start
    } else {
        scan_rows(key, obs, camera_limit(obs[0].camera), obs.len() as int, start)
    }
}

/// The days already ticketed for a plate, on any road.
pub open spec fn days_of(v: DbView, plate: Seq<char>) -> Seq<u32> {
    if v.issued_days.contains_key(plate) {
        v.issued_days[plate]
    } else {
        Seq::empty()
    }
}

/// The sightings of a plate on a road.
pub open spec fn sightings_of(v: DbView, key: PlateRoadKey) -> Seq<TimestampCameraView> {
    if v.observations.contains_key(key) {
        v.observations[key]
    } else {
        Seq::empty()
    }
}

/// What a ticket check on a plate and road gives in state `v`.
pub open spec fn check_plate(v: DbView, key: PlateRoadKey) -> TicketScan {
    ticket_scan(key, sightings_of(v, key), days_of(v, key.0))
}

// ---------------- the representation ----------------

pub open spec fn ticket_views(v: Seq<OutboundMessageType>) -> Seq<OutboundView> {
    v.map_values(|t: OutboundMessageType| t@)
}

pub open spec fn sighting_views(v: Seq<TimestampCameraStruct>) -> Seq<TimestampCameraView> {
    v.map_values(|o: TimestampCameraStruct| o@)
}

impl Db {
    pub closed spec fn camera_seq(&self) -> Seq<(u64, InboundView)> {
        self.current_camera@.map_values(|e: (u64, InboundMessageType)| (e.0, e.1@))
    }

    pub closed spec fn sighting_seq(&self) -> Seq<(PlateRoadKey, Seq<TimestampCameraView>)> {
        self.plate_road_timestamp_camera@.map_values(
            |e: (PlateRoadStruct, Vec<TimestampCameraStruct>)| (e.0@, sighting_views(e.1@)),
        )
    }

    pub closed spec fn day_seq(&self) -> Seq<(Seq<char>, Seq<u32>)> {
        self.issued_tickets_day@.map_values(|e: (String, Vec<Day>)| (e.0@, e.1@))
    }

    /// The tables hold each key once, and every plate with an entry was
    /// sighted at least once.
    pub closed spec fn wf(&self) -> bool {
        &&& keys_unique(self.dispatchers@)
        &&& keys_unique(self.camera_seq())
        &&& keys_unique(self.sighting_seq())
        &&& keys_unique(self.day_seq())
        &&& forall|i: int|
            0 <= i < self.plate_road_timestamp_camera@.len()
                ==> #[trigger] self.plate_road_timestamp_camera@[i].1@.len() > 0
        &&& forall|i: int|
            0 <= i < self.issued_tickets_day@.len()
                ==> #[trigger] self.issued_tickets_day@[i].1@.no_duplicates()
    }
}

impl View for Db {
    type V = DbView;

    closed spec fn view(&self) -> DbView {
        DbView {
            dispatchers: assoc_map(self.dispatchers@),
            cameras: assoc_map(self.camera_seq()),
            observations: assoc_map(self.sighting_seq()),
            issued_days: assoc_map(self.day_seq()),
        }
    }
}

fn find_plate_road<V>(v: &Vec<(PlateRoadStruct, V)>, key: &PlateRoadStruct) -> (r: Option<usize>)
    ensures
        match r {
            Some(i) => i < v@.len() && v@[i as int].0@ == key@,
            None => forall|i: int| 0 <= i < v@.len() ==> v@[i].0@ != key@,
        },
{
    let mut i: usize = 0;
    while i < v.len()
        invariant
            i <= v@.len(),
            forall|k: int| 0 <= k < i ==> v@[k].0@ != key@,
        decreases v.len() - i,
    {
        if v[i].0.road == key.road && v[i].0.plate == key.plate {
            return Some(i);
        }
        i = i + 1;
    }
    None
}

fn find_plate<V>(v: &Vec<(String, V)>, plate: &String) -> (r: Option<usize>)
    ensures
        match r {
            Some(i) => i < v@.len() && v@[i as int].0@ == plate@,
            None => forall|i: int| 0 <= i < v@.len() ==> v@[i].0@ != plate@,
        },
{
    let mut i: usize = 0;
    while i < v.len()
        invariant
            i <= v@.len(),
            forall|k: int| 0 <= k < i ==> v@[k].0@ != plate@,
        decreases v.len() - i,
    {
        if v[i].0 == *plate {
            return Some(i);
        }
        i = i + 1;
    }
    None
}

fn find_client<V>(v: &Vec<(u64, V)>, client: u64) -> (r: Option<usize>)
    ensures
        match r {
            Some(i) => i < v@.len() && v@[i as int].0 == client,
            None => forall|i: int| 0 <= i < v@.len() ==> v@[i].0 != client,
        },
{
    let mut i: usize = 0;
    while i < v.len()
        invariant
            i <= v@.len(),
            forall|k: int| 0 <= k < i ==> v@[k].0 != client,
        decreases v.len() - i,
    {
        if v[i].0 == client {
            return Some(i);
        }
        i = i + 1;
    }
    None
}

fn find_road(v: &Vec<(Road, u64)>, road: Road) -> (r: Option<usize>)
    ensures
        match r {
            Some(i) => i < v@.len() && v@[i as int].0 == road,
            None => forall|i: int| 0 <= i < v@.len() ==> v@[i].0 != road,
        },
{
    let mut i: usize = 0;
    while i < v.len()
        invariant
            i <= v@.len(),
            forall|k: int| 0 <= k < i ==> v@[k].0 != road,
        decreases v.len() - i,
    {
        if v[i].0 == road {
            return Some(i);
        }
        i = i + 1;
    }
    None
}

fn days_free(days: &Vec<Day>, lo: Day, hi: Day) -> (r: bool)
    ensures
        r == span_free(days@, lo, hi),
{
    let mut i: usize = 0;
    while i < days.len()
        invariant
            i <= days@.len(),
            forall|k: int| 0 <= k < i ==> !(lo <= #[trigger] days@[k] <= hi),
        decreases days.len() - i,
    {
        if lo <= days[i] && days[i] <= hi {
            return false;
        }
        i = i + 1;
    }
    true
}

fn push_span(days: &mut Vec<Day>, lo: Day, hi: Day)
    requires
        lo <= hi,
    ensures
        final(days)@ == old(days)@ + day_span(lo, hi),
{
    let mut d: u64 = lo as u64;
    while d <= hi as u64
        invariant
            lo <= d <= hi + 1,
            days@ == old(days)@ + day_span(lo, hi).subrange(0, d - lo),
        decreases hi + 1 - d,
    {
        days.push(d as u32);
        d = d + 1;
        assert(days@ =~= old(days)@ + day_span(lo, hi).subrange(0, d - lo));
    }
    assert(day_span(lo, hi).subrange(0, (hi - lo + 1) as int) =~= day_span(lo, hi));
}

fn mile_of(c: &InboundMessageType) -> (m: u16)
    ensures
        m == camera_mile(c@),
{
    match c {
        InboundMessageType::IAmCamera { mile, .. } => *mile,
        _ => 0,
    }
}

fn limit_of(c: &InboundMessageType) -> (m: u16)
    ensures
        m == camera_limit(c@),
{
    match c {
        InboundMessageType::IAmCamera { limit, .. } => *limit,
        _ => 0,
    }
}

/// The average speed between two sightings, as `average_speed` states it.
pub fn calculate_average_speed(
    observation1: &TimestampCameraStruct,
    observation2: &TimestampCameraStruct,
) -> (s: u32)
    ensures
        s == average_speed(observation1@, observation2@),
{
    let m1 = mile_of(&observation1.camera);
    let m2 = mile_of(&observation2.camera);
    let distance: u64 = if m1 >= m2 {
        (m1 - m2) as u64
    } else {
        (m2 - m1) as u64
    };
    let t1 = observation1.timestamp;
    let t2 = observation2.timestamp;
    let time: u64 = if t1 >= t2 {
        (t1 - t2) as u64
    } else {
        (t2 - t1) as u64
    };
    if time == 0 {
        if distance == 0 {
            0
        } else {
            u32::MAX
        }
    } else {
        let s = (7200 * distance + time) / (2 * time);
        proof {
            assert(s <= 3600 * distance + 1) by (nonlinear_arith)
                requires
                    s == (7200 * distance + time) / (2 * time),
                    time >= 1,
            ;
        }
        s as u32
    }
}

fn copy_days(days: &Vec<Day>) -> (r: Vec<Day>)
    ensures
        r@ == days@,
{
    let mut r: Vec<Day> = Vec::new();
    let mut i: usize = 0;
    while i < days.len()
        invariant
            i <= days@.len(),
            r@ == days@.subrange(0, i as int),
        decreases days.len() - i,
    {
        r.push(days[i]);
        i = i + 1;
        assert(r@ =~= days@.subrange(0, i as int));
    }
    assert(r@ =~= days@);
    r
}

impl Db {
    pub fn new() -> (db: Db)
        ensures
            db.wf(),
            db@.dispatchers == Map::<u16, u64>::empty(),
            db@.cameras == Map::<u64, InboundView>::empty(),
            db@.observations == Map::<PlateRoadKey, Seq<TimestampCameraView>>::empty(),
            db@.issued_days == Map::<Seq<char>, Seq<u32>>::empty(),
    {
        let db = Db {
            dispatchers: Vec::new(),
            current_camera: Vec::new(),
            plate_road_timestamp_camera: Vec::new(),
            issued_tickets_day: Vec::new(),
        };
        proof {
            lemma_assoc_empty(db.dispatchers@);
            lemma_assoc_empty(db.camera_seq());
            lemma_assoc_empty(db.sighting_seq());
            lemma_assoc_empty(db.day_seq());
        }
        db
    }

    /// Records that `plate_road` was seen as `ts_camera`, after the
    /// sightings already recorded for it.
    pub fn add_plate_road_timestamp_camera(
        &mut self,
        plate_road: PlateRoadStruct,
        ts_camera: TimestampCameraStruct,
    )
        requires
            old(self).wf(),
        ensures
            final(self).wf(),
            final(self)@.observations == old(self)@.observations.insert(
                plate_road@,
                sightings_of(old(self)@, plate_road@).push(ts_camera@),
            ),
            final(self)@.issued_days == old(self)@.issued_days,
            final(self)@.cameras == old(self)@.cameras,
            final(self)@.dispatchers == old(self)@.dispatchers,
    {
        let ghost old_seq = self.sighting_seq();
        let ghost key = plate_road@;
        let ghost obs = ts_camera@;
        match find_plate_road(&self.plate_road_timestamp_camera, &plate_road) {
            Some(i) => {
                proof {
                    lemma_assoc_index(old_seq, i as int);
                }
                let (k, mut list) = self.plate_road_timestamp_camera.remove(i);
                let ghost old_list = list@;
                list.push(ts_camera);
                self.plate_road_timestamp_camera.insert(i, (k, list));
                proof {
                    assert(sighting_views(list@) =~= sighting_views(old_list).push(obs));
                    assert(self.sighting_seq() =~= old_seq.update(
                        i as int,
                        (old_seq[i as int].0, sighting_views(old_list).push(obs)),
                    ));
                    lemma_assoc_update(old_seq, i as int, sighting_views(old_list).push(obs));
                    assert forall|j: int|
                        0 <= j < self.plate_road_timestamp_camera@.len() implies #[trigger] self.plate_road_timestamp_camera@[j].1@.len()
                        > 0 by {
                        if j != i {
                            assert(self.plate_road_timestamp_camera@[j] == old(
                                self,
                            ).plate_road_timestamp_camera@[j]);
                        }
                    }
                }
            },
            None => {
                let mut list: Vec<TimestampCameraStruct> = Vec::new();
                list.push(ts_camera);
                self.plate_road_timestamp_camera.push((plate_road, list));
                proof {
                    assert(sighting_views(list@) =~= Seq::<TimestampCameraView>::empty().push(
                        obs,
                    ));
                    assert(self.sighting_seq() =~= old_seq.push(
                        (key, Seq::<TimestampCameraView>::empty().push(obs)),
                    ));
                    assert forall|j: int| 0 <= j < old_seq.len() implies old_seq[j].0 != key by {
                        assert(old_seq[j].0 == old(self).plate_road_timestamp_camera@[j].0@);
                    }
                    lemma_assoc_push(old_seq, key, Seq::<TimestampCameraView>::empty().push(obs));
                    assert forall|j: int|
                        0 <= j < self.plate_road_timestamp_camera@.len() implies #[trigger] self.plate_road_timestamp_camera@[j].1@.len()
                        > 0 by {
                        if j < old_seq.len() {
                            assert(self.plate_road_timestamp_camera@[j] == old(
                                self,
                            ).plate_road_timestamp_camera@[j]);
                        }
                    }
                }
            },
        }
        proof {
            assert(self.camera_seq() =~= old(self).camera_seq());
            assert(self.day_seq() =~= old(self).day_seq());
        }
    }

    /// Announces `new_camera` as the camera of client `addr`.
    pub fn add_camera(&mut self, addr: u64, new_camera: InboundMessageType)
        requires
            old(self).wf(),
        ensures
            final(self).wf(),
            final(self)@.cameras == old(self)@.cameras.insert(addr, new_camera@),
            final(self)@.observations == old(self)@.observations,
            final(self)@.issued_days == old(self)@.issued_days,
            final(self)@.dispatchers == old(self)@.dispatchers,
    {
        let ghost old_seq = self.camera_seq();
        let ghost cam = new_camera@;
        match find_client(&self.current_camera, addr) {
            Some(i) => {
                self.current_camera.set(i, (addr, new_camera));
                proof {
                    assert(self.camera_seq() =~= old_seq.update(i as int, (addr, cam)));
                    lemma_assoc_update(old_seq, i as int, cam);
                }
            },
            None => {
                self.current_camera.push((addr, new_camera));
                proof {
                    assert(self.camera_seq() =~= old_seq.push((addr, cam)));
                    lemma_assoc_push(old_seq, addr, cam);
                }
            },
        }
        proof {
            assert(self.sighting_seq() =~= old(self).sighting_seq());
            assert(self.day_seq() =~= old(self).day_seq());
        }
    }

    /// The camera announced by client `addr`, if any.
    pub fn get_current_camera(&self, addr: u64) -> (r: Option<InboundMessageType>)
        requires
            self.wf(),
        ensures
            match r {
                Some(c) => self@.cameras.contains_key(addr) && c@ == self@.cameras[addr],
                None => !self@.cameras.contains_key(addr),
            },
    {
        match find_client(&self.current_camera, addr) {
            Some(i) => {
                proof {
                    lemma_assoc_index(self.camera_seq(), i as int);
                }
                Some(self.current_camera[i].1.clone())
            },
            None => {
                proof {
                    assert forall|j: int| 0 <= j < self.camera_seq().len() implies self.camera_seq()[j].0
                        != addr by {
                        assert(self.camera_seq()[j].0 == self.current_camera@[j].0);
                    }
                }
                None
            },
        }
    }

    /// Makes client `addr` the dispatcher of `road`, replacing the one
    /// it had.
    pub fn add_ticket_dispatcher(&mut self, road: Road, addr: u64)
        requires
            old(self).wf(),
        ensures
            final(self).wf(),
            final(self)@.dispatchers == old(self)@.dispatchers.insert(road, addr),
            final(self)@.cameras == old(self)@.cameras,
            final(self)@.observations == old(self)@.observations,
            final(self)@.issued_days == old(self)@.issued_days,
    {
        let ghost old_seq = self.dispatchers@;
        match find_road(&self.dispatchers, road) {
            Some(i) => {
                self.dispatchers.set(i, (road, addr));
                proof {
                    lemma_assoc_update(old_seq, i as int, addr);
                }
            },
            None => {
                self.dispatchers.push((road, addr));
                proof {
                    lemma_assoc_push(old_seq, road, addr);
                }
            },
        }
        proof {
            assert(self.camera_seq() =~= old(self).camera_seq());
            assert(self.sighting_seq() =~= old(self).sighting_seq());
            assert(self.day_seq() =~= old(self).day_seq());
        }
    }

    /// The dispatcher of `road`, if one was announced.
    pub fn get_ticket_dispatcher(&self, road: Road) -> (r: Option<u64>)
        requires
            self.wf(),
        ensures
            match r {
                Some(c) => self@.dispatchers.contains_key(road) && c == self@.dispatchers[road],
                None => !self@.dispatchers.contains_key(road),
            },
    {
        match find_road(&self.dispatchers, road) {
            Some(i) => {
                proof {
                    lemma_assoc_index(self.dispatchers@, i as int);
                }
                Some(self.dispatchers[i].1)
            },
            None => None,
        }
    }

    /// Whether client `addr` is the dispatcher of some road.
    pub fn ticket_dispatcher_already_exists(&self, addr: u64) -> (r: bool)
        requires
            self.wf(),
        ensures
            r == exists|road: u16| #[trigger]
                self@.dispatchers.contains_key(road) && self@.dispatchers[road] == addr,
    {
        let mut i: usize = 0;
        while i < self.dispatchers.len()
            invariant
                self.wf(),
                i <= self.dispatchers@.len(),
                forall|k: int| 0 <= k < i ==> self.dispatchers@[k].1 != addr,
            decreases self.dispatchers.len() - i,
        {
            if self.dispatchers[i].1 == addr {
                proof {
                    lemma_assoc_index(self.dispatchers@, i as int);
                    let road = self.dispatchers@[i as int].0;
                    assert(self@.dispatchers.contains_key(road));
                }
                return true;
            }
            i = i + 1;
        }
        proof {
            assert forall|road: u16| #[trigger]
                self@.dispatchers.contains_key(road) implies self@.dispatchers[road] != addr by {
                let k = choose|k: int|
                    0 <= k < self.dispatchers@.len() && self.dispatchers@[k].0 == road;
                lemma_assoc_index(self.dispatchers@, k);
            }
        }
        false
    }
}

impl Db {
    /// Checks every pair of sightings of `plate_road` for speeding, in the
    /// order `(0, 1), (0, 2), ..., (1, 2), ...`, even when the sightings are
    /// not from adjacent cameras, and returns the tickets issued. At most one
    /// ticket is issued per plate and day, whatever the road: every day from
    /// the earlier sighting's day to the later one's is recorded for the plate
    /// with each ticket, and a pair whose days include one recorded for the
    /// plate gets none.
    pub fn get_ticket_for_plate(&mut self, plate_road: &PlateRoadStruct) -> (r: Vec<
        OutboundMessageType,
    >)
        requires
            old(self).wf(),
        ensures
            final(self).wf(),
            ticket_views(r@) == check_plate(old(self)@, plate_road@).tickets,
            final(self)@.issued_days == (if check_plate(old(self)@, plate_road@).tickets.len()
                == 0 {
                old(self)@.issued_days
            } else {
                old(self)@.issued_days.insert(
                    plate_road@.0,
                    check_plate(old(self)@, plate_road@).days,
                )
            }),
            final(self)@.observations == old(self)@.observations,
            final(self)@.cameras == old(self)@.cameras,
            final(self)@.dispatchers == old(self)@.dispatchers,
    {
        let ghost key = plate_road@;
        let ghost old_days = self.day_seq();
        let mut tickets: Vec<OutboundMessageType> = Vec::new();
        let oi = match find_plate_road(&self.plate_road_timestamp_camera, plate_road) {
            Some(oi) => oi,
            None => {
                proof {
                    assert forall|j: int| 0 <= j < self.sighting_seq().len() implies self.sighting_seq()[j].0
                        != key by {
                        assert(self.sighting_seq()[j].0
                            == self.plate_road_timestamp_camera@[j].0@);
                    }
                    assert(ticket_views(tickets@) =~= Seq::<OutboundView>::empty());
                }
                return tickets;
            },
        };
        proof {
            lemma_assoc_index(self.sighting_seq(), oi as int);
        }
        let didx = find_plate(&self.issued_tickets_day, &plate_road.plate);
        let mut days: Vec<Day> = match didx {
            Some(k) => copy_days(&self.issued_tickets_day[k].1),
            None => Vec::new(),
        };
        proof {
            match didx {
                Some(k) => {
                    lemma_assoc_index(old_days, k as int);
                },
                None => {
                    assert forall|j: int| 0 <= j < old_days.len() implies old_days[j].0 != key.0 by {
                        assert(old_days[j].0 == self.issued_tickets_day@[j].0@);
                    }
                    assert(days@ =~= Seq::<u32>::empty());
                },
            }
            assert(days@ == days_of(self@, key.0));
            if let Some(k) = didx {
                assert(self.issued_tickets_day@[k as int].1@.no_duplicates());
            }
            lemma_ticket_scan(key, sightings_of(self@, key), days@);
        }
        let obs = &self.plate_road_timestamp_camera[oi].1;
        let ghost ov = sighting_views(obs@);
        let ghost start = TicketScan { tickets: Seq::empty(), days: days@ };
        let n = obs.len();
        if n < 2 {
            proof {
                assert(ticket_views(tickets@) =~= Seq::<OutboundView>::empty());
            }
            return tickets;
        }
        let limit = limit_of(&obs[0].camera);
        proof {
            assert(ticket_views(tickets@) =~= Seq::<OutboundView>::empty());
        }
        let mut i: usize = 0;
        while i < n
            invariant
                n == obs@.len(),
                ov == sighting_views(obs@),
                key == plate_road@,
                n >= 2,
                limit == camera_limit(ov[0].camera),
                i <= n,
                (TicketScan { tickets: ticket_views(tickets@), days: days@ }) == scan_rows(
                    key,
                    ov,
                    limit,
                    i as int,
                    start,
                ),
            decreases n - i,
        {
            let mut j: usize = i + 1;
            while j < n
                invariant
                    n == obs@.len(),
                    ov == sighting_views(obs@),
                    key == plate_road@,
                    i < n,
                    i + 1 <= j <= n,
                    (TicketScan { tickets: ticket_views(tickets@), days: days@ }) == scan_row(
                        key,
                        ov,
                        limit,
                        i as int,
                        j as int,
                        scan_rows(key, ov, limit, i as int, start),
                    ),
                decreases n - j,
            {
                let ghost before = TicketScan { tickets: ticket_views(tickets@), days: days@ };
                let o1 = &obs[i];
                let o2 = &obs[j];
                let speed = calculate_average_speed(o1, o2);
                let t1 = o1.timestamp;
                let t2 = o2.timestamp;
                let swap = t1 > t2;
                let first: u32 = if swap {
                    t2
                } else {
                    t1
                };
                let last: u32 = if swap {
                    t1
                } else {
                    t2
                };
                let lo: Day = first / 86400;
                let hi: Day = last / 86400;
                proof {
                    lemma_div_is_ordered(first as int, last as int, 86400);
                }
                if speed > limit as u32 && days_free(&days, lo, hi) {
                    let m1 = mile_of(&o1.camera);
                    let m2 = mile_of(&o2.camera);
                    let ticket = OutboundMessageType::Ticket {
                        plate: plate_road.plate.clone(),
                        road: plate_road.road,
                        mile1: if swap {
                            m2
                        } else {
                            m1
                        },
                        timestamp1: if swap {
                            t2
                        } else {
                            t1
                        },
                        mile2: if swap {
                            m1
                        } else {
                            m2
                        },
                        timestamp2: if swap {
                            t1
                        } else {
                            t2
                        },
                        speed: ((speed as u64 * 100) % 65536) as u16,
                    };
                    let ghost tv = ticket@;
                    tickets.push(ticket);
                    push_span(&mut days, lo, hi);
                    proof {
                        assert(ticket_views(tickets@) =~= before.tickets.push(tv));
                        assert(ov[i as int] == obs@[i as int]@);
                        assert(ov[j as int] == obs@[j as int]@);
                        let want = ticket_for(key, ov[i as int], ov[j as int], speed as nat);
                        assert(tv == want);
                    }
                }
                j = j + 1;
            }
            i = i + 1;
        }
        proof {
            assert(sightings_of(old(self)@, key) == ov);
        }
        if tickets.len() > 0 {
            let ghost final_days = days@;
            match didx {
                Some(k) => {
                    self.issued_tickets_day.set(k, (plate_road.plate.clone(), days));
                    proof {
                        assert(self.day_seq() =~= old_days.update(
                            k as int,
                            (old_days[k as int].0, final_days),
                        ));
                        lemma_assoc_update(old_days, k as int, final_days);
                        assert forall|q: int| 0 <= q < self.issued_tickets_day@.len() implies #[trigger] self.issued_tickets_day@[q].1@.no_duplicates() by {
                            if q != k {
                                assert(self.issued_tickets_day@[q] == old(self).issued_tickets_day@[q]);
                            }
                        }
                    }
                },
                None => {
                    self.issued_tickets_day.push((plate_road.plate.clone(), days));
                    proof {
                        assert(self.day_seq() =~= old_days.push((key.0, final_days)));
                        assert forall|q: int| 0 <= q < old_days.len() implies old_days[q].0 != key.0 by {
                            assert(old_days[q].0 == old(self).issued_tickets_day@[q].0@);
                        }
                        lemma_assoc_push(old_days, key.0, final_days);
                        assert forall|q: int| 0 <= q < self.issued_tickets_day@.len() implies #[trigger] self.issued_tickets_day@[q].1@.no_duplicates() by {
                            if q < old_days.len() {
                                assert(self.issued_tickets_day@[q] == old(self).issued_tickets_day@[q]);
                            }
                        }
                    }
                },
            }
        }
        proof {
            assert(self.camera_seq() =~= old(self).camera_seq());
            assert(self.sighting_seq() =~= old(self).sighting_seq());
        }
        tickets
    }
}

// ---------------- laws of the ticketing rule ----------------

/// Ticket `t` belongs to a pair `i < j` of the sightings whose average
/// speed exceeds `limit`.
pub open spec fn ticket_justified(
    key: PlateRoadKey,
    obs: Seq<TimestampCameraView>,
    limit: u16,
    t: OutboundView,
) -> bool {
    exists|i: int, j: int|
        0 <= i < j < obs.len() && average_speed(obs[i], obs[j]) > limit && t == ticket_for(
            key,
            obs[i],
            obs[j],
            average_speed(obs[i], obs[j]),
        )
}

/// The day of a ticket's first sighting.
pub open spec fn ticket_first_day(t: OutboundView) -> u32 {
    match t {
        OutboundView::Ticket { timestamp1, .. } => day_of(timestamp1),
        _ => 0,
    }
}

/// The day of a ticket's second sighting.
pub open spec fn ticket_last_day(t: OutboundView) -> u32 {
    match t {
        OutboundView::Ticket { timestamp2, .. } => day_of(timestamp2),
        _ => 0,
    }
}

/// The tickets' day ranges do not meet, and none holds a day of `base`.
pub open spec fn spans_apart(tickets: Seq<OutboundView>, base: Seq<u32>) -> bool {
    &&& forall|k1: int, k2: int|
        #![trigger tickets[k1], tickets[k2]]
        0 <= k1 < k2 < tickets.len() ==> ticket_last_day(tickets[k1]) < ticket_first_day(
            tickets[k2],
        ) || ticket_last_day(tickets[k2]) < ticket_first_day(tickets[k1])
    &&& forall|k: int, b: int|
        #![trigger tickets[k], base[b]]
        0 <= k < tickets.len() && 0 <= b < base.len() ==> !(ticket_first_day(tickets[k])
            <= base[b] <= ticket_last_day(tickets[k]))
}

/// Every day of every ticket's range is among `days`.
pub open spec fn spans_recorded(tickets: Seq<OutboundView>, days: Seq<u32>) -> bool {
    forall|k: int, d: u32|
        #![trigger tickets[k], days.contains(d)]
        0 <= k < tickets.len() && ticket_first_day(tickets[k]) <= d <= ticket_last_day(tickets[k])
            ==> days.contains(d)
}

pub open spec fn scan_inv(
    key: PlateRoadKey,
    obs: Seq<TimestampCameraView>,
    limit: u16,
    base: Seq<u32>,
    st: TicketScan,
) -> bool {
    &&& st.days.no_duplicates()
    &&& base.len() <= st.days.len()
    &&& st.days.subrange(0, base.len() as int) == base
    &&& forall|k: int|
        0 <= k < st.tickets.len() ==> ticket_justified(key, obs, limit, #[trigger] st.tickets[k])
    &&& forall|k: int|
        0 <= k < st.tickets.len() ==> ticket_first_day(#[trigger] st.tickets[k])
            <= ticket_last_day(st.tickets[k])
    &&& spans_recorded(st.tickets, st.days)
    &&& spans_apart(st.tickets, base)
}

proof fn lemma_span(lo: u32, hi: u32)
    requires
        lo <= hi,
    ensures
        day_span(lo, hi).len() == hi - lo + 1,
        forall|k: int| 0 <= k < day_span(lo, hi).len() ==> #[trigger] day_span(lo, hi)[k] == lo + k,
{
}

proof fn lemma_scan_step(
    key: PlateRoadKey,
    obs: Seq<TimestampCameraView>,
    limit: u16,
    base: Seq<u32>,
    i: int,
    j: int,
    st: TicketScan,
)
    requires
        scan_inv(key, obs, limit, base, st),
        0 <= i < j < obs.len(),
    ensures
        scan_inv(key, obs, limit, base, scan_step(key, obs, limit, i, j, st)),
{
    let speed = average_speed(obs[i], obs[j]);
    let lo = pair_first_day(obs[i], obs[j]);
    let hi = pair_last_day(obs[i], obs[j]);
    if speed > limit && span_free(st.days, lo, hi) {
        let nt = scan_step(key, obs, limit, i, j, st);
        let t = ticket_for(key, obs[i], obs[j], speed);
        let span = day_span(lo, hi);
        let n = st.days.len();
        let a = obs[i].timestamp;
        let b = obs[j].timestamp;
        if a > b {
            lemma_div_is_ordered(b as int, a as int, 86400);
        } else {
            lemma_div_is_ordered(a as int, b as int, 86400);
        }
        lemma_span(lo, hi);
        assert(ticket_first_day(t) == lo && ticket_last_day(t) == hi);
        assert(nt.tickets[st.tickets.len() as int] == t);
        assert forall|k: int| 0 <= k < st.tickets.len() implies nt.tickets[k] == st.tickets[k] by {}
        assert forall|k: int| 0 <= k < n implies nt.days[k] == st.days[k] by {}
        assert forall|k: int| 0 <= k < span.len() implies nt.days[n + k] == span[k] by {}
        assert(nt.days.subrange(0, base.len() as int) =~= st.days.subrange(0, base.len() as int));
        assert forall|x: int, y: int| 0 <= x < nt.days.len() && 0 <= y < nt.days.len() && x != y implies nt.days[x]
            != nt.days[y] by {
            if x < n && y >= n {
                assert(nt.days[y] == span[y - n]);
                assert(!(lo <= st.days[x] <= hi));
            } else if y < n && x >= n {
                assert(nt.days[x] == span[x - n]);
                assert(!(lo <= st.days[y] <= hi));
            } else if x >= n && y >= n {
                assert(nt.days[x] == span[x - n]);
                assert(nt.days[y] == span[y - n]);
            }
        }
        assert forall|k: int| 0 <= k < nt.tickets.len() implies ticket_justified(
            key,
            obs,
            limit,
            #[trigger] nt.tickets[k],
        ) by {
            if k == st.tickets.len() {
                assert(nt.tickets[k] == ticket_for(key, obs[i], obs[j], speed));
            } else {
                assert(nt.tickets[k] == st.tickets[k]);
            }
        }
        assert forall|k: int| 0 <= k < nt.tickets.len() implies ticket_first_day(
            #[trigger] nt.tickets[k],
        ) <= ticket_last_day(nt.tickets[k]) by {
            if k < st.tickets.len() {
                assert(nt.tickets[k] == st.tickets[k]);
            }
        }
        assert forall|k: int, d: u32|
            #![trigger nt.tickets[k], nt.days.contains(d)]
            0 <= k < nt.tickets.len() && ticket_first_day(nt.tickets[k]) <= d <= ticket_last_day(
                nt.tickets[k],
            ) implies nt.days.contains(d) by {
            if k < st.tickets.len() {
                assert(nt.tickets[k] == st.tickets[k]);
                assert(st.tickets[k] == st.tickets[k]);
                assert(st.days.contains(d));
                let m = choose|m: int| 0 <= m < n && st.days[m] == d;
                assert(nt.days[m] == d);
            } else {
                assert(nt.days[n + (d - lo)] == d);
            }
        }
        assert forall|k1: int, k2: int|
            0 <= k1 < k2 < nt.tickets.len() implies ticket_last_day(#[trigger] nt.tickets[k1])
            < ticket_first_day(#[trigger] nt.tickets[k2]) || ticket_last_day(nt.tickets[k2])
            < ticket_first_day(nt.tickets[k1]) by {
            if k2 < st.tickets.len() {
                assert(nt.tickets[k1] == st.tickets[k1]);
                assert(nt.tickets[k2] == st.tickets[k2]);
                assert(st.tickets[k1] == st.tickets[k1] && st.tickets[k2] == st.tickets[k2]);
            } else {
                let u = st.tickets[k1];
                assert(nt.tickets[k1] == u);
                assert(nt.tickets[k2] == t);
                assert(ticket_first_day(u) <= ticket_last_day(u));
                if !(ticket_last_day(u) < lo || hi < ticket_first_day(u)) {
                    let d: u32 = if lo > ticket_first_day(u) { lo } else { ticket_first_day(u) };
                    assert(st.days.contains(d));
                    let m = choose|m: int| 0 <= m < n && st.days[m] == d;
                    assert(!(lo <= st.days[m] <= hi));
                }
            }
        }
        assert forall|k: int, bi: int|
            0 <= k < nt.tickets.len() && 0 <= bi < base.len() implies !(ticket_first_day(
                #[trigger] nt.tickets[k],
            ) <= #[trigger] base[bi] <= ticket_last_day(nt.tickets[k])) by {
            assert(base[bi] == st.days.subrange(0, base.len() as int)[bi]);
            assert(base[bi] == st.days[bi]);
            if k < st.tickets.len() {
                assert(nt.tickets[k] == st.tickets[k]);
                assert(st.tickets[k] == st.tickets[k]);
            } else {
                assert(!(lo <= st.days[bi] <= hi));
            }
        }
    }
}

proof fn lemma_scan_row(
    key: PlateRoadKey,
    obs: Seq<TimestampCameraView>,
    limit: u16,
    base: Seq<u32>,
    i: int,
    j: int,
    st: TicketScan,
)
    requires
        scan_inv(key, obs, limit, base, st),
        0 <= i,
        j <= obs.len(),
    ensures
        scan_inv(key, obs, limit, base, scan_row(key, obs, limit, i, j, st)),
    decreases j - i,
{
    if j > i + 1 {
        lemma_scan_row(key, obs, limit, base, i, j - 1, st);
        lemma_scan_step(key, obs, limit, base, i, j - 1, scan_row(key, obs, limit, i, j - 1, st));
    }
}

proof fn lemma_scan_rows(
    key: PlateRoadKey,
    obs: Seq<TimestampCameraView>,
    limit: u16,
    base: Seq<u32>,
    i: int,
    st: TicketScan,
)
    requires
        scan_inv(key, obs, limit, base, st),
        i <= obs.len(),
    ensures
        scan_inv(key, obs, limit, base, scan_rows(key, obs, limit, i, st)),
    decreases i,
{
    if i > 0 {
        lemma_scan_rows(key, obs, limit, base, i - 1, st);
        lemma_scan_row(
            key,
            obs,
            limit,
            base,
            i - 1,
            obs.len() as int,
            scan_rows(key, obs, limit, i - 1, st),
        );
    }
}

proof fn lemma_ticket_scan(key: PlateRoadKey, obs: Seq<TimestampCameraView>, days: Seq<u32>)
    requires
        days.no_duplicates(),
    ensures
        obs.len() >= 2 ==> scan_inv(
            key,
            obs,
            camera_limit(obs[0].camera),
            days,
            ticket_scan(key, obs, days),
        ),
        obs.len() < 2 ==> ticket_scan(key, obs, days).tickets.len() == 0 && ticket_scan(
            key,
            obs,
            days,
        ).days == days,
        ticket_scan(key, obs, days).days.no_duplicates(),
{
    let start = TicketScan { tickets: Seq::empty(), days };
    assert(days.subrange(0, days.len() as int) =~= days);
    if obs.len() >= 2 {
        lemma_scan_rows(key, obs, camera_limit(obs[0].camera), days, obs.len() as int, start);
    }
}

/// Law: checking a plate on a road issues tickets only for pairs of its
/// sightings whose average speed exceeds the speed limit; every ticket is for
/// that plate and road and lists the earlier sighting first; every day from a
/// ticket's first sighting to its second is recorded, after the days recorded
/// before for the plate; and no day is ticketed twice: the day ranges of two
/// tickets do not meet, and none holds a day recorded for the plate before the
/// check, on whichever road.
pub proof fn law_tickets_sound(v: DbView, key: PlateRoadKey)
    requires
        days_of(v, key.0).no_duplicates(),
    ensures
        ({
            let obs = sightings_of(v, key);
            let base = days_of(v, key.0);
            let sc = check_plate(v, key);
            &&& sc.days.no_duplicates()
            &&& base.len() <= sc.days.len()
            &&& sc.days.subrange(0, base.len() as int) == base
            &&& forall|k: int|
                0 <= k < sc.tickets.len() ==> ticket_justified(
                    key,
                    obs,
                    camera_limit(obs[0].camera),
                    #[trigger] sc.tickets[k],
                )
            &&& forall|k: int|
                0 <= k < sc.tickets.len() ==> (#[trigger] sc.tickets[k] matches OutboundView::Ticket {
                    plate,
                    road,
                    timestamp1,
                    timestamp2,
                    ..
                } && plate == key.0 && road == key.1 && timestamp1 <= timestamp2)
            &&& spans_recorded(sc.tickets, sc.days)
            &&& spans_apart(sc.tickets, base)
        }),
{
    let obs = sightings_of(v, key);
    let days = days_of(v, key.0);
    lemma_ticket_scan(key, obs, days);
    let sc = check_plate(v, key);
    if obs.len() < 2 {
        assert(days.subrange(0, days.len() as int) =~= days);
    } else {
        let limit = camera_limit(obs[0].camera);
        assert forall|k: int| 0 <= k < sc.tickets.len() implies (#[trigger] sc.tickets[k] matches OutboundView::Ticket {
            plate,
            road,
            timestamp1,
            timestamp2,
            ..
        } && plate == key.0 && road == key.1 && timestamp1 <= timestamp2) by {
            assert(ticket_justified(key, obs, limit, sc.tickets[k]));
            let (i, j) = choose|i: int, j: int|
                0 <= i < j < obs.len() && average_speed(obs[i], obs[j]) > limit && sc.tickets[k]
                    == ticket_for(key, obs[i], obs[j], average_speed(obs[i], obs[j]));
        }
    }
}

/// Law: each ticket issued by a check reports two sightings of the plate on
/// the road in time order: `mile1` and `timestamp1` are the mile of the camera
/// and the time of one sighting, `mile2` and `timestamp2` those of another,
/// and the first is not later than the second.
pub proof fn law_ticket_in_time_order(v: DbView, key: PlateRoadKey)
    requires
        days_of(v, key.0).no_duplicates(),
    ensures
        ({
            let obs = sightings_of(v, key);
            let sc = check_plate(v, key);
            forall|k: int|
                0 <= k < sc.tickets.len() ==> exists|a: int, b: int|
                    #![trigger obs[a], obs[b]]
                    0 <= a < obs.len() && 0 <= b < obs.len() && a != b && obs[a].timestamp
                        <= obs[b].timestamp && (#[trigger] sc.tickets[k] matches OutboundView::Ticket {
                        plate,
                        road,
                        mile1,
                        timestamp1,
                        mile2,
                        timestamp2,
                        ..
                    } && plate == key.0 && road == key.1 && mile1 == camera_mile(obs[a].camera)
                        && timestamp1 == obs[a].timestamp && mile2 == camera_mile(obs[b].camera)
                        && timestamp2 == obs[b].timestamp)
        }),
{
    let obs = sightings_of(v, key);
    let days = days_of(v, key.0);
    lemma_ticket_scan(key, obs, days);
    let sc = check_plate(v, key);
    if obs.len() >= 2 {
        let limit = camera_limit(obs[0].camera);
        assert forall|k: int| 0 <= k < sc.tickets.len() implies exists|a: int, b: int|
            #![trigger obs[a], obs[b]]
            0 <= a < obs.len() && 0 <= b < obs.len() && a != b && obs[a].timestamp
                <= obs[b].timestamp && (#[trigger] sc.tickets[k] matches OutboundView::Ticket {
                plate,
                road,
                mile1,
                timestamp1,
                mile2,
                timestamp2,
                ..
            } && plate == key.0 && road == key.1 && mile1 == camera_mile(obs[a].camera)
                && timestamp1 == obs[a].timestamp && mile2 == camera_mile(obs[b].camera)
                && timestamp2 == obs[b].timestamp) by {
            assert(ticket_justified(key, obs, limit, sc.tickets[k]));
            let (i, j) = choose|i: int, j: int|
                0 <= i < j < obs.len() && average_speed(obs[i], obs[j]) > limit && sc.tickets[k]
                    == ticket_for(key, obs[i], obs[j], average_speed(obs[i], obs[j]));
            if obs[i].timestamp > obs[j].timestamp {
                assert(obs[j] == obs[j] && obs[i] == obs[i]);
            } else {
                assert(obs[i] == obs[i] && obs[j] == obs[j]);
            }
        }
    }
}

/// `mph` is `miles` over `seconds`, in miles per hour, rounded to the
/// nearest integer with halves up.
pub open spec fn rounded_mph(mph: int, miles: int, seconds: int) -> bool {
    2 * seconds * mph <= 7200 * miles + seconds < 2 * seconds * (mph + 1)
}

proof fn lemma_rounded_quotient(d: int, t: int, v: int)
    requires
        t > 0,
        d >= 0,
        v == (7200 * d + t) / (2 * t),
    ensures
        rounded_mph(v, d, t),
{
    assert(2 * t * v <= 7200 * d + t < 2 * t * (v + 1)) by (nonlinear_arith)
        requires
            t > 0,
            d >= 0,
            v == (7200 * d + t) / (2 * t),
    ;
}

/// Law: a ticket's speed is the average speed between its two sightings:
/// when its timestamps differ, there is a whole number of miles per hour `v`,
/// above the limit of the road's first camera, that is the distance between
/// `mile1` and `mile2` over the time between `timestamp1` and `timestamp2`
/// rounded to the nearest integer (halves up), and `speed` is `100 * v` kept
/// within 16 bits.
pub proof fn law_ticket_speed(v: DbView, key: PlateRoadKey)
    requires
        days_of(v, key.0).no_duplicates(),
    ensures
        ({
            let obs = sightings_of(v, key);
            let sc = check_plate(v, key);
            forall|k: int|
                0 <= k < sc.tickets.len() ==> (#[trigger] sc.tickets[k] matches OutboundView::Ticket {
                    mile1,
                    timestamp1,
                    mile2,
                    timestamp2,
                    speed,
                    ..
                } && (timestamp1 < timestamp2 ==> exists|mph: int|
                    mph > camera_limit(obs[0].camera) && speed == (mph * 100) % 65536
                        && #[trigger] rounded_mph(
                        mph,
                        abs_diff(mile1 as int, mile2 as int) as int,
                        timestamp2 - timestamp1,
                    )))
        }),
{
    let obs = sightings_of(v, key);
    let days = days_of(v, key.0);
    lemma_ticket_scan(key, obs, days);
    let sc = check_plate(v, key);
    if obs.len() >= 2 {
        let limit = camera_limit(obs[0].camera);
        assert forall|k: int| 0 <= k < sc.tickets.len() implies (#[trigger] sc.tickets[k] matches OutboundView::Ticket {
            mile1,
            timestamp1,
            mile2,
            timestamp2,
            speed,
            ..
        } && (timestamp1 < timestamp2 ==> exists|mph: int|
            mph > camera_limit(obs[0].camera) && speed == (mph * 100) % 65536
                && #[trigger] rounded_mph(
                mph,
                abs_diff(mile1 as int, mile2 as int) as int,
                timestamp2 - timestamp1,
            ))) by {
            assert(ticket_justified(key, obs, limit, sc.tickets[k]));
            let (i, j) = choose|i: int, j: int|
                0 <= i < j < obs.len() && average_speed(obs[i], obs[j]) > limit && sc.tickets[k]
                    == ticket_for(key, obs[i], obs[j], average_speed(obs[i], obs[j]));
            let m1 = camera_mile(obs[i].camera) as int;
            let m2 = camera_mile(obs[j].camera) as int;
            let d = abs_diff(m1, m2) as int;
            let t = abs_diff(obs[i].timestamp as int, obs[j].timestamp as int) as int;
            let sp = average_speed(obs[i], obs[j]) as int;
            assert(abs_diff(m2, m1) == abs_diff(m1, m2));
            let tk = sc.tickets[k];
            assert(tk is Ticket);
            assert(tk->timestamp1 <= tk->timestamp2);
            assert(tk->timestamp2 - tk->timestamp1 == t);
            assert(abs_diff(tk->mile1 as int, tk->mile2 as int) == d);
            assert(tk->speed == (sp * 100) % 65536);
            if t > 0 {
                lemma_rounded_quotient(d, t, sp);
                assert(sp > limit);
                assert(rounded_mph(sp, d, t));
            }
        }
    }
}

/// Law: at most one ticket per plate and day, whatever the road. Take a check
/// of a plate on a road in state `v`, and a later state `w` in which the days
/// recorded for that plate are those the check left (as
/// `get_ticket_for_plate` records them, whatever sightings came since): no
/// ticket of a check of the same plate in `w`, on that road or another, covers
/// a day that a ticket of the first check covered.
pub proof fn law_one_ticket_per_day(v: DbView, w: DbView, key: PlateRoadKey, later: PlateRoadKey)
    requires
        later.0 == key.0,
        days_of(v, key.0).no_duplicates(),
        days_of(w, key.0) == check_plate(v, key).days,
    ensures
        forall|k1: int, k2: int|
            #![trigger check_plate(v, key).tickets[k1], check_plate(w, later).tickets[k2]]
            0 <= k1 < check_plate(v, key).tickets.len() && 0 <= k2 < check_plate(
                w,
                later,
            ).tickets.len() ==> ticket_last_day(check_plate(v, key).tickets[k1])
                < ticket_first_day(check_plate(w, later).tickets[k2]) || ticket_last_day(
                check_plate(w, later).tickets[k2],
            ) < ticket_first_day(check_plate(v, key).tickets[k1]),
{
    law_tickets_sound(v, key);
    law_tickets_sound(w, later);
    let first = check_plate(v, key);
    let second = check_plate(w, later);
    let base = days_of(w, key.0);
    assert forall|k1: int, k2: int|
        0 <= k1 < first.tickets.len() && 0 <= k2 < second.tickets.len() implies ticket_last_day(
        #[trigger] first.tickets[k1],
    ) < ticket_first_day(#[trigger] second.tickets[k2]) || ticket_last_day(second.tickets[k2])
        < ticket_first_day(first.tickets[k1]) by {
        let t1 = first.tickets[k1];
        let t2 = second.tickets[k2];
        assert(ticket_first_day(t1) <= ticket_last_day(t1)) by {
            assert(t1 matches OutboundView::Ticket { timestamp1, timestamp2, .. } && timestamp1
                <= timestamp2);
            let a = t1->timestamp1;
            let b = t1->timestamp2;
            lemma_div_is_ordered(a as int, b as int, 86400);
        }
        assert(ticket_first_day(t2) <= ticket_last_day(t2)) by {
            assert(t2 matches OutboundView::Ticket { timestamp1, timestamp2, .. } && timestamp1
                <= timestamp2);
            let a = t2->timestamp1;
            let b = t2->timestamp2;
            lemma_div_is_ordered(a as int, b as int, 86400);
        }
        if !(ticket_last_day(t1) < ticket_first_day(t2) || ticket_last_day(t2) < ticket_first_day(
            t1,
        )) {
            let d: u32 = if ticket_first_day(t1) > ticket_first_day(t2) {
                ticket_first_day(t1)
            } else {
                ticket_first_day(t2)
            };
            assert(first.days.contains(d));
            let m = choose|m: int| 0 <= m < base.len() && base[m] == d;
            assert(!(ticket_first_day(t2) <= base[m] <= ticket_last_day(t2)));
        }
    }
}

impl Db {
    /// The days recorded for any plate hold no day twice.
    pub proof fn lemma_days_distinct(&self, plate: Seq<char>)
        requires
            self.wf(),
        ensures
            days_of(self@, plate).no_duplicates(),
    {
        if self@.issued_days.contains_key(plate) {
            let k = choose|k: int| 0 <= k < self.day_seq().len() && self.day_seq()[k].0 == plate;
            lemma_assoc_index(self.day_seq(), k);
            assert(self.issued_tickets_day@[k].1@.no_duplicates());
        }
    }
}

impl Default for Db {
    fn default() -> (db: Self)
        ensures
            db.wf(),
            db@.dispatchers == Map::<u16, u64>::empty(),
            db@.cameras == Map::<u64, InboundView>::empty(),
            db@.observations == Map::<PlateRoadKey, Seq<TimestampCameraView>>::empty(),
            db@.issued_days == Map::<Seq<char>, Seq<u32>>::empty(),
    {
        Self::new()
    }
}

} // verus!
