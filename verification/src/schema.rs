//! The entity shapes handed to readers: per-key and per-button counter rows,
//! per-day summaries, and the bundles returned by the date and range queries.
//!
//! Each executable shape has an abstract counterpart built from sequences and
//! unbounded integers; the query contracts are stated over those.

use vstd::prelude::*;

verus! {

/// One per-day, per-key counter row as handed to readers.
#[derive(Debug, Clone)]
pub struct KeyStat {
    pub key_name: String,
    pub key_code: Option<i32>,
    pub count: i64,
}

/// One per-day, per-button counter row as handed to readers.
#[derive(Debug, Clone)]
pub struct MouseStat {
    pub button: String,
    pub count: i64,
}

/// One day's derived totals as handed to readers.
#[derive(Debug, Clone)]
pub struct DaySummary {
    pub date: String,
    pub total_keys: i64,
    pub total_clicks: i64,
}

/// The full statistics bundle for the current day.
#[derive(Debug, Clone)]
pub struct TodayStats {
    pub date: String,
    pub total_keys: i64,
    pub total_clicks: i64,
    pub top_keys: Vec<KeyStat>,
    pub mouse_stats: Vec<MouseStat>,
}

/// The full statistics bundle for one date or one date range.
#[derive(Debug, Clone)]
pub struct DateStats {
    pub date: String,
    pub total_keys: i64,
    pub total_clicks: i64,
    pub key_stats: Vec<KeyStat>,
    pub mouse_stats: Vec<MouseStat>,
}

/// Abstract form of a [`KeyStat`].
pub struct KeyStatRec {
    pub name: Seq<char>,
    pub code: Option<i32>,
    pub count: int,
}

/// Abstract form of a [`MouseStat`].
pub struct MouseStatRec {
    pub button: Seq<char>,
    pub count: int,
}

/// Abstract form of a [`DaySummary`].
pub struct DaySummaryRec {
    pub date: Seq<char>,
    pub total_keys: int,
    pub total_clicks: int,
}

/// Abstract form of a [`DateStats`] or [`TodayStats`].
pub struct DateStatsRec {
    pub date: Seq<char>,
    pub total_keys: int,
    pub total_clicks: int,
    pub key_stats: Seq<KeyStatRec>,
    pub mouse_stats: Seq<MouseStatRec>,
}

impl View for KeyStat {
    type V = KeyStatRec;

    open spec fn view(&self) -> KeyStatRec {
        KeyStatRec { name: self.key_name@, code: self.key_code, count: self.count as int }
    }
}

impl View for MouseStat {
    type V = MouseStatRec;

    open spec fn view(&self) -> MouseStatRec {
        MouseStatRec { button: self.button@, count: self.count as int }
    }
}

impl View for DaySummary {
    type V = DaySummaryRec;

    open spec fn view(&self) -> DaySummaryRec {
        DaySummaryRec {
            date: self.date@,
            total_keys: self.total_keys as int,
            total_clicks: self.total_clicks as int,
        }
    }
}

impl View for DateStats {
    type V = DateStatsRec;

    open spec fn view(&self) -> DateStatsRec {
        DateStatsRec {
            date: self.date@,
            total_keys: self.total_keys as int,
            total_clicks: self.total_clicks as int,
            key_stats: self.key_stats@.map_values(|k: KeyStat| k@),
            mouse_stats: self.mouse_stats@.map_values(|m: MouseStat| m@),
        }
    }
}

impl View for TodayStats {
    type V = DateStatsRec;

    open spec fn view(&self) -> DateStatsRec {
        DateStatsRec {
            date: self.date@,
            total_keys: self.total_keys as int,
            total_clicks: self.total_clicks as int,
            key_stats: self.top_keys@.map_values(|k: KeyStat| k@),
            mouse_stats: self.mouse_stats@.map_values(|m: MouseStat| m@),
        }
    }
}

} // verus!
