//! The unit of persistence: one logged activity record.

use vstd::prelude::*;
use vstd::string::*;

use crate::category::PomodoroType;
use crate::time::{from_total_secs, total_secs, ts_total_secs, ts_valid, Timestamp};

verus! {

/// One logged time-boxed activity.
///
/// `duration_minutes` is an independent field: it is preserved verbatim
/// and never re-derived from the two timestamps, which may legitimately
/// disagree with it. `notes` absent is distinct from present in memory;
/// on disk the empty string stands for absent, so a well-formed record
/// never carries `Some` of an empty string.
pub struct Pomodoro {
    pub id: String,
    pub name: String,
    pub pomodoro_type: PomodoroType,
    pub start_time: Timestamp,
    pub end_time: Timestamp,
    pub duration_minutes: u32,
    pub notes: Option<String>,
}

/// The mathematical content of a record: its text fields as character
/// sequences, everything else as plain values.
pub struct RecordView {
    pub id: Seq<char>,
    pub name: Seq<char>,
    pub pomodoro_type: PomodoroType,
    pub start_time: Timestamp,
    pub end_time: Timestamp,
    pub duration_minutes: u32,
    pub notes: Option<Seq<char>>,
}

impl View for Pomodoro {
    type V = RecordView;

    open spec fn view(&self) -> RecordView {
        RecordView {
            id: self.id@,
            name: self.name@,
            pomodoro_type: self.pomodoro_type,
            start_time: self.start_time,
            end_time: self.end_time,
            duration_minutes: self.duration_minutes,
            notes: match self.notes {
                Some(s) => Some(s@),
                None => None,
            },
        }
    }
}

/// A record the store can carry: timestamps in range, and notes never
/// present-but-empty (the wire format cannot tell that from absent).
pub open spec fn record_valid(v: RecordView) -> bool {
    &&& ts_valid(v.start_time)
    &&& ts_valid(v.end_time)
    &&& (v.notes matches Some(s) ==> s.len() > 0)
}

impl Clone for Pomodoro {
    /// Clones a record; the copy carries exactly the same values.
    fn clone(&self) -> (r: Self)
        ensures
            r == *self,
    {
        Pomodoro {
            id: self.id.clone(),
            name: self.name.clone(),
            pomodoro_type: self.pomodoro_type,
            start_time: self.start_time,
            end_time: self.end_time,
            duration_minutes: self.duration_minutes,
            notes: match &self.notes {
                Some(s) => Some(s.clone()),
                None => None,
            },
        }
    }
}

/// Relies on uuid's Uuid::new_v4 and its hyphenated rendering: a fresh
/// random identifier, always 36 characters long.
#[verifier::external_body]
fn fresh_id() -> (r: String)
    ensures
        r@.len() == 36,
{
    uuid::Uuid::new_v4().to_string()
}

impl Pomodoro {
    /// A record for an activity that just finished at `end_time`: its
    /// start lies exactly `duration_minutes` before its end. The id is
    /// freshly generated and non-empty.
    pub fn new(name: String, pomodoro_type: PomodoroType, duration_minutes: u32, end_time: Timestamp) -> (r: Self)
        requires
            ts_valid(end_time),
            ts_total_secs(end_time) >= duration_minutes * 60,
        ensures
            r@.id.len() == 36,
            r@.name == name@,
            r@.pomodoro_type == pomodoro_type,
            r@.end_time == end_time,
            ts_total_secs(r@.start_time) == ts_total_secs(end_time) - duration_minutes * 60,
            ts_valid(r@.start_time),
            r@.duration_minutes == duration_minutes,
            r@.notes is None,
    {
        let total = total_secs(&end_time);
        proof {
            assert(duration_minutes * 60 <= 0xffffffffu64 * 60) by (nonlinear_arith)
                requires
                    duration_minutes <= 0xffffffffu64,
            ;
        }
        let start_total = total - (duration_minutes as u64) * 60;
        let start_time = from_total_secs(start_total);
        Pomodoro {
            id: fresh_id(),
            name,
            pomodoro_type,
            start_time,
            end_time,
            duration_minutes,
            notes: None,
        }
    }

    /// The same record with the given notes; empty notes are recorded
    /// as absent, since the wire format cannot tell the two apart.
    pub fn with_notes(self, notes: Option<String>) -> (r: Self)
        ensures
            r@.id == self@.id,
            r@.name == self@.name,
            r@.pomodoro_type == self@.pomodoro_type,
            r@.start_time == self@.start_time,
            r@.end_time == self@.end_time,
            r@.duration_minutes == self@.duration_minutes,
            r@.notes == (match notes {
                Some(s) => if s@.len() == 0 { None } else { Some(s@) },
                None => None::<Seq<char>>,
            }),
    {
        let normalized = match notes {
            Some(s) => if s.as_str().unicode_len() == 0 {
                None
            } else {
                Some(s)
            },
            None => None,
        };
        Pomodoro { notes: normalized, ..self }
    }

    /// Decides `record_valid`.
    pub fn is_valid(&self) -> (r: bool)
        ensures
            r == record_valid(self@),
    {
        let notes_ok = match &self.notes {
            Some(s) => s.as_str().unicode_len() > 0,
            None => true,
        };
        crate::time::is_valid_timestamp(&self.start_time) && crate::time::is_valid_timestamp(
            &self.end_time,
        ) && notes_ok
    }

    /// A record with caller-supplied timestamps; the id is freshly
    /// generated and non-empty. Empty notes are recorded as absent.
    pub fn manual(
        name: String,
        pomodoro_type: PomodoroType,
        start_time: Timestamp,
        end_time: Timestamp,
        duration_minutes: u32,
        notes: Option<String>,
    ) -> (r: Self)
        ensures
            r@.id.len() == 36,
            r@.name == name@,
            r@.pomodoro_type == pomodoro_type,
            r@.start_time == start_time,
            r@.end_time == end_time,
            r@.duration_minutes == duration_minutes,
            r@.notes == (match notes {
                Some(s) => if s@.len() == 0 { None } else { Some(s@) },
                None => None::<Seq<char>>,
            }),
    {
        let r = Pomodoro {
            id: fresh_id(),
            name,
            pomodoro_type,
            start_time,
            end_time,
            duration_minutes,
            notes: None,
        };
        r.with_notes(notes)
    }
}

} // verus!
