//! Domain types of the speed daemon.
use vstd::prelude::*;

use core::cmp::Ordering;
use vstd::std_specs::cmp::PartialEqSpecImpl;
use vstd::std_specs::cmp::PartialOrdSpecImpl;

use crate::speed_daemon::message::{InboundMessageType, InboundView};

verus! {

pub type Road = u16;

pub type Mile = u16;

pub type Limit = u16;

pub type Timestamp = u32;

pub type Speed = u16;

pub type Plate = String;

/// A day number: `timestamp / 86400`.
pub type Day = u32;

/// One sighting of a plate: when it was seen and by which camera.
#[derive(Debug, Eq)]
pub struct TimestampCameraStruct {
    pub timestamp: Timestamp,
    pub camera: InboundMessageType,
}

/// The mathematical value of a sighting.
pub struct TimestampCameraView {
    pub timestamp: u32,
    pub camera: InboundView,
}

impl View for TimestampCameraStruct {
    type V = TimestampCameraView;

    open spec fn view(&self) -> TimestampCameraView {
        TimestampCameraView { timestamp: self.timestamp, camera: self.camera@ }
    }
}

impl Clone for TimestampCameraStruct {
    fn clone(&self) -> (r: Self)
        ensures
            r@ == self@,
    {
        TimestampCameraStruct { timestamp: self.timestamp, camera: self.camera.clone() }
    }
}

/// Sightings are equal when their timestamps are.
impl PartialEq for TimestampCameraStruct {
    fn eq(&self, other: &Self) -> (r: bool) {
        self.timestamp == other.timestamp
    }
}

impl PartialEqSpecImpl for TimestampCameraStruct {
    open spec fn obeys_eq_spec() -> bool {
        true
    }

    open spec fn eq_spec(&self, other: &Self) -> bool {
        self.timestamp == other.timestamp
    }
}

/// Sightings are ordered by their timestamps.
impl PartialOrd for TimestampCameraStruct {
    fn partial_cmp(&self, other: &Self) -> (r: Option<Ordering>) {
        if self.timestamp < other.timestamp {
            Some(Ordering::Less)
        } else if self.timestamp == other.timestamp {
            Some(Ordering::Equal)
        } else {
            Some(Ordering::Greater)
        }
    }
}

impl PartialOrdSpecImpl for TimestampCameraStruct {
    open spec fn obeys_partial_cmp_spec() -> bool {
        true
    }

    open spec fn partial_cmp_spec(&self, other: &Self) -> Option<Ordering> {
        if self.timestamp < other.timestamp {
            Some(Ordering::Less)
        } else if self.timestamp == other.timestamp {
            Some(Ordering::Equal)
        } else {
            Some(Ordering::Greater)
        }
    }
}

/// A plate on a road: the key under which sightings are collected.
#[derive(Debug, Eq, Hash, PartialEq)]
pub struct PlateRoadStruct {
    pub plate: Plate,
    pub road: Road,
}

impl View for PlateRoadStruct {
    type V = (Seq<char>, u16);

    open spec fn view(&self) -> (Seq<char>, u16) {
        (self.plate@, self.road)
    }
}

impl Clone for PlateRoadStruct {
    fn clone(&self) -> (r: Self)
        ensures
            r@ == self@,
    {
        PlateRoadStruct { plate: self.plate.clone(), road: self.road }
    }
}

impl PlateRoadStruct {
    pub fn new(plate: Plate, road: Road) -> (r: Self)
        ensures
            r.plate == plate,
            r.road == road,
    {
        Self { plate, road }
    }
}

} // verus!
