//! The data model: stored records, write inputs, and the derived series
//! shapes handed to the wire layer.
//!
//! Real-valued measurements (temperature, humidity) are carried as the
//! IEEE-754 bit pattern of the 32-bit float they stand for; the library
//! never interprets those bits, it only stores and moves them, so the wire
//! layer can convert losslessly in both directions.

use vstd::prelude::*;

use crate::instant::Instant;

verus! {

/// A persisted reading. The identifier is assigned by the store on insert
/// and unique; the instant is assigned on insert and immutable; each of the
/// four measurements is independently optional.
#[derive(Clone, Copy, Debug, PartialEq, Eq, Structural)]
pub struct PlantMetricEntity {
    pub id: i32,
    pub recorded_at: Instant,
    /// Temperature as f32 bits, if measured.
    pub temperature: Option<u32>,
    /// Relative humidity as f32 bits, if measured.
    pub humidity: Option<u32>,
    /// Light level, if measured.
    pub light: Option<i32>,
    /// Soil moisture, if measured.
    pub soil_moisture: Option<i32>,
}

/// A write request: all four measurements are required on insert, and the
/// recording instant is assigned by the server, never by the client.
#[derive(Clone, Copy, Debug, PartialEq, Eq, Structural)]
pub struct PlantMetricInsert {
    /// Temperature as f32 bits.
    pub temperature: u32,
    /// Relative humidity as f32 bits.
    pub humidity: u32,
    pub light: i32,
    pub soil_moisture: i32,
}

/// The closed set of metrics a series can be asked for.
#[derive(Clone, Copy, Debug, PartialEq, Eq, Structural)]
pub enum MetricName {
    Temperature,
    Humidity,
    Light,
    SoilMoisture,
}

/// Requested order of a series by recording instant.
#[derive(Clone, Copy, Debug, PartialEq, Eq, Structural)]
pub enum SortOrder {
    Ascending,
    Descending,
}

/// One measurement value: real-valued metrics carry f32 bits, counted
/// metrics a signed integer.
#[derive(Clone, Copy, Debug, PartialEq, Eq, Structural)]
pub enum MetricValue {
    /// IEEE-754 bits of an f32 (temperature, humidity).
    Real(u32),
    /// A plain integer (light, soil moisture).
    Integer(i32),
}

/// One point of a series: a recording instant and the value measured then.
#[derive(Clone, Copy, Debug, PartialEq, Eq, Structural)]
pub struct DataEntry<T> {
    pub time: Instant,
    pub data: T,
}

/// A series point with its instant already rendered for the wire.
#[derive(Clone, Debug)]
pub struct SerializedDataEntry<T> {
    pub time: String,
    pub data: T,
}

/// Which metrics a bundle request asks for.
#[derive(Clone, Copy, Debug, PartialEq, Eq, Structural)]
pub struct MetricSelection {
    pub temperature: bool,
    pub humidity: bool,
    pub light: bool,
    pub soil_moisture: bool,
}

/// A bundle of per-metric series. A metric that was not requested is
/// `None` and must be omitted from the wire form entirely; a requested
/// metric with no data is `Some` of an empty series and is emitted empty.
#[derive(Clone, Debug)]
pub struct TimeseriesData {
    pub temperature: Option<Vec<DataEntry<MetricValue>>>,
    pub humidity: Option<Vec<DataEntry<MetricValue>>>,
    pub light: Option<Vec<DataEntry<MetricValue>>>,
    pub soil_moisture: Option<Vec<DataEntry<MetricValue>>>,
}

/// The named metric's column of a record, as stored: absent when the row
/// does not carry that measurement.
pub open spec fn metric_field(rec: PlantMetricEntity, m: MetricName) -> Option<MetricValue> {
    match m {
        MetricName::Temperature => match rec.temperature {
            Some(b) => Some(MetricValue::Real(b)),
            None => None,
        },
        MetricName::Humidity => match rec.humidity {
            Some(b) => Some(MetricValue::Real(b)),
            None => None,
        },
        MetricName::Light => match rec.light {
            Some(v) => Some(MetricValue::Integer(v)),
            None => None,
        },
        MetricName::SoilMoisture => match rec.soil_moisture {
            Some(v) => Some(MetricValue::Integer(v)),
            None => None,
        },
    }
}

/// Reads the named metric's column of a record.
pub fn metric_field_of(rec: &PlantMetricEntity, m: MetricName) -> (r: Option<MetricValue>)
    ensures
        r == metric_field(*rec, m),
{
    match m {
        MetricName::Temperature => match rec.temperature {
            Some(b) => Some(MetricValue::Real(b)),
            None => None,
        },
        MetricName::Humidity => match rec.humidity {
            Some(b) => Some(MetricValue::Real(b)),
            None => None,
        },
        MetricName::Light => match rec.light {
            Some(v) => Some(MetricValue::Integer(v)),
            None => None,
        },
        MetricName::SoilMoisture => match rec.soil_moisture {
            Some(v) => Some(MetricValue::Integer(v)),
            None => None,
        },
    }
}

} // verus!
