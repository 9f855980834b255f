//! Domain types shared by the source and the pipeline.
use vstd::prelude::*;

verus! {

/// What kind of sensor produced the reading.
#[derive(Debug, Clone, Copy, PartialEq, Eq, Structural)]
pub enum ReadingKind {
    Ultrasonic,
    Imu,
}

/// One sensor sample. `seq` is the source-assigned monotonic sequence
/// number the deduplicator reasons about; `ts_ns` is nanoseconds since the
/// source started. `values` holds the payload (one distance for an
/// ultrasonic reading, accelerometer and gyroscope axes for an IMU
/// reading); the pipeline never looks inside it, so its representation is
/// left to the caller.
#[derive(Debug, Clone, PartialEq)]
pub struct SensorReading<V> {
    pub seq: u64,
    pub ts_ns: u64,
    pub kind: ReadingKind,
    pub values: V,
}

/// What the source pushes downstream.
#[derive(Debug, Clone, PartialEq)]
pub enum SourceEvent<V> {
    Reading(SensorReading<V>),
    Disconnected,
}

} // verus!
