//! Data quality types: health scores, anomalies and trends.
//!
//! Ratios and severities are held in thousandths (1000 stands for 1.0).
use vstd::prelude::*;
use super::now_micros;

verus! {

/// Quality score for a dataset, table, or column.
#[derive(Debug)]
pub struct QualityScore {
    /// Overall score (0–100).
    pub score: u8,
    /// Completeness: ratio of non-null values, in thousandths.
    pub completeness: u32,
    /// Uniqueness: ratio of distinct values, in thousandths.
    pub uniqueness: u32,
    /// Consistency: ratio of values matching expected patterns, in thousandths.
    pub consistency: u32,
    /// Freshness: how recent the data is, in thousandths (0 = stale, 1000 = fresh).
    pub freshness: u32,
    /// Accuracy: estimated correctness, in thousandths.
    pub accuracy: u32,
    /// When this score was computed.
    pub computed_at: u64,
    /// Target (schema node name, field name, or "overall").
    pub target: String,
}

/// The overall score of five ratios in thousandths: their mean as a percentage,
/// rounded down, and at most 255.
pub open spec fn overall_score(c: u32, u: u32, co: u32, f: u32, a: u32) -> u8 {
    let s = (c + u + co + f + a) / 50;
    if s > 255 {
        255
    } else {
        s as u8
    }
}

impl QualityScore {
    /// Compute the overall score from the five dimensions, at the current time.
    pub fn compute(target: &str, completeness: u32, uniqueness: u32, consistency: u32, freshness: u32, accuracy: u32) -> (r: QualityScore)
        ensures
            r.score == overall_score(completeness, uniqueness, consistency, freshness, accuracy),
            r.completeness == completeness,
            r.uniqueness == uniqueness,
            r.consistency == consistency,
            r.freshness == freshness,
            r.accuracy == accuracy,
            r.target@ == target@,
    {
        let sum: u64 = completeness as u64 + uniqueness as u64 + consistency as u64 + freshness as u64
            + accuracy as u64;
        let s = sum / 50;
        let score: u8 = if s > 255 {
            255
        } else {
            s as u8
        };
        QualityScore {
            score,
            completeness,
            uniqueness,
            consistency,
            freshness,
            accuracy,
            computed_at: now_micros(),
            target: target.to_owned(),
        }
    }

    /// Whether the score is below a threshold.
    pub fn is_degraded(&self, threshold: u8) -> (r: bool)
        ensures
            r == (self.score < threshold),
    {
        self.score < threshold
    }
}

/// Types of anomalies.
#[derive(Debug, Clone, Copy, PartialEq, Eq, Structural)]
pub enum AnomalyType {
    /// Statistical outlier (z-score > 3).
    Outlier,
    /// Sudden spike in null values.
    NullSpike,
    /// Value outside expected range.
    OutOfRange,
    /// Pattern break (expected format violated).
    PatternBreak,
    /// Duplicate where uniqueness expected.
    Duplicate,
    /// Type mismatch (string in numeric column).
    TypeMismatch,
    /// Sudden volume change.
    VolumeAnomaly,
}

/// A detected anomaly in the data.
#[derive(Debug)]
pub struct AnomalyRecord {
    /// Unique anomaly ID.
    pub id: String,
    /// What type of anomaly.
    pub anomaly_type: AnomalyType,
    /// Severity in thousandths (0 = minor, 1000 = critical).
    pub severity: u32,
    /// Which field/column/record.
    pub target: String,
    /// Human-readable description.
    pub description: String,
    /// The anomalous value(s).
    pub values: Vec<String>,
    /// When detected.
    pub detected_at: u64,
    /// Whether this anomaly has been reviewed.
    pub reviewed: bool,
}

/// Trend direction for a metric.
#[derive(Debug, Clone, Copy, PartialEq, Eq, Structural)]
pub enum Trend {
    Improving,
    Stable,
    Degrading,
    Unknown,
}

/// A health metric tracked over time; values in thousandths.
#[derive(Debug)]
pub struct HealthMetric {
    /// Metric name.
    pub name: String,
    /// Current value.
    pub value: i64,
    /// Previous value (for trend detection).
    pub previous: Option<i64>,
    /// Trend direction.
    pub trend: Trend,
    /// When recorded.
    pub recorded_at: u64,
}

} // verus!
