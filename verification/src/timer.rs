//! The in-memory countdown state machine and user settings. The timer
//! holds plain counters; the surrounding application drives it from
//! its clock and user commands.

use vstd::prelude::*;

verus! {

/// What the timer is doing right now.
#[derive(Clone, Copy, Debug, PartialEq, Eq, Structural)]
pub enum TimerState {
    Idle,
    Running,
    Paused,
    Break,
}

/// The timer as reported to the user interface.
#[derive(Clone, Copy, Debug, PartialEq, Eq, Structural)]
pub struct TimerStatus {
    pub state: TimerState,
    pub remaining_seconds: u32,
    pub is_break: bool,
    pub completed_count: u32,
}

/// The timer's full state, durations included.
#[derive(Clone, Copy, Debug, PartialEq, Eq, Structural)]
pub struct TimerData {
    pub state: TimerState,
    pub remaining_seconds: u32,
    pub is_break: bool,
    pub completed_count: u32,
    pub work_duration: u32,
    pub break_duration: u32,
}

/// User preferences, in minutes and toggles.
#[derive(Clone, Copy, Debug, PartialEq, Eq, Structural)]
pub struct Settings {
    pub work_duration_minutes: u32,
    pub short_break_minutes: u32,
    pub long_break_minutes: u32,
    pub pomodoros_until_long_break: u32,
    pub sound_enabled: bool,
    pub notifications_enabled: bool,
}

impl Default for Settings {
    /// 25-minute work, 5-minute short break, 15-minute long break,
    /// long break every 4 pomodoros, sound and notifications on.
    fn default() -> (r: Self)
        ensures
            r == (Settings {
                work_duration_minutes: 25,
                short_break_minutes: 5,
                long_break_minutes: 15,
                pomodoros_until_long_break: 4,
                sound_enabled: true,
                notifications_enabled: true,
            }),
    {
        Settings {
            work_duration_minutes: 25,
            short_break_minutes: 5,
            long_break_minutes: 15,
            pomodoros_until_long_break: 4,
            sound_enabled: true,
            notifications_enabled: true,
        }
    }
}

impl Default for TimerData {
    /// Idle at a full 25-minute work period, nothing completed.
    fn default() -> (r: Self)
        ensures
            r == (TimerData {
                state: TimerState::Idle,
                remaining_seconds: 1500,
                is_break: false,
                completed_count: 0,
                work_duration: 1500,
                break_duration: 300,
            }),
    {
        TimerData {
            state: TimerState::Idle,
            remaining_seconds: 1500,
            is_break: false,
            completed_count: 0,
            work_duration: 1500,
            break_duration: 300,
        }
    }
}

impl TimerData {
    /// The user-facing slice of the state.
    pub fn to_status(&self) -> (r: TimerStatus)
        ensures
            r.state == self.state,
            r.remaining_seconds == self.remaining_seconds,
            r.is_break == self.is_break,
            r.completed_count == self.completed_count,
    {
        TimerStatus {
            state: self.state,
            remaining_seconds: self.remaining_seconds,
            is_break: self.is_break,
            completed_count: self.completed_count,
        }
    }

    /// Starts a work period: durations are taken from the settings and
    /// the timer runs from the full work duration.
    pub fn start(&mut self, settings: &Settings)
        requires
            settings.work_duration_minutes * 60 <= u32::MAX,
            settings.short_break_minutes * 60 <= u32::MAX,
        ensures
            final(self).work_duration == settings.work_duration_minutes * 60,
            final(self).break_duration == settings.short_break_minutes * 60,
            final(self).remaining_seconds == settings.work_duration_minutes * 60,
            final(self).state == TimerState::Running,
            final(self).is_break == false,
            final(self).completed_count == old(self).completed_count,
    {
        self.work_duration = settings.work_duration_minutes * 60;
        self.break_duration = settings.short_break_minutes * 60;
        self.remaining_seconds = self.work_duration;
        self.state = TimerState::Running;
        self.is_break = false;
    }

    /// Pauses a running timer; any other state is left alone.
    pub fn pause(&mut self)
        ensures
            old(self).state == TimerState::Running ==> *final(self) == (TimerData {
                state: TimerState::Paused,
                ..*old(self)
            }),
            old(self).state != TimerState::Running ==> *final(self) == *old(self),
    {
        if self.state == TimerState::Running {
            self.state = TimerState::Paused;
        }
    }

    /// Resumes a paused timer; any other state is left alone.
    pub fn resume(&mut self)
        ensures
            old(self).state == TimerState::Paused ==> *final(self) == (TimerData {
                state: TimerState::Running,
                ..*old(self)
            }),
            old(self).state != TimerState::Paused ==> *final(self) == *old(self),
    {
        if self.state == TimerState::Paused {
            self.state = TimerState::Running;
        }
    }

    /// Stops the timer: idle again at a full work period.
    pub fn stop(&mut self, settings: &Settings)
        requires
            settings.work_duration_minutes * 60 <= u32::MAX,
        ensures
            final(self).state == TimerState::Idle,
            final(self).remaining_seconds == settings.work_duration_minutes * 60,
            final(self).is_break == false,
            final(self).completed_count == old(self).completed_count,
            final(self).work_duration == old(self).work_duration,
            final(self).break_duration == old(self).break_duration,
    {
        self.state = TimerState::Idle;
        self.remaining_seconds = settings.work_duration_minutes * 60;
        self.is_break = false;
    }

    /// Ends a break early; outside a break nothing changes.
    pub fn skip_break(&mut self, settings: &Settings)
        requires
            settings.work_duration_minutes * 60 <= u32::MAX,
        ensures
            old(self).is_break ==> *final(self) == (TimerData {
                state: TimerState::Idle,
                remaining_seconds: (settings.work_duration_minutes * 60) as u32,
                is_break: false,
                ..*old(self)
            }),
            !old(self).is_break ==> *final(self) == *old(self),
    {
        if self.is_break {
            self.state = TimerState::Idle;
            self.remaining_seconds = settings.work_duration_minutes * 60;
            self.is_break = false;
        }
    }

    /// Counts one more completed pomodoro.
    pub fn record_completion(&mut self)
        requires
            old(self).completed_count < u32::MAX,
        ensures
            *final(self) == (TimerData {
                completed_count: (old(self).completed_count + 1) as u32,
                ..*old(self)
            }),
    {
        self.completed_count = self.completed_count + 1;
    }

    /// Applies new settings to the stored durations, as saving the
    /// settings does; the running state is untouched.
    pub fn apply_settings(&mut self, settings: &Settings)
        requires
            settings.work_duration_minutes * 60 <= u32::MAX,
            settings.short_break_minutes * 60 <= u32::MAX,
        ensures
            *final(self) == (TimerData {
                work_duration: (settings.work_duration_minutes * 60) as u32,
                break_duration: (settings.short_break_minutes * 60) as u32,
                ..*old(self)
            }),
    {
        self.work_duration = settings.work_duration_minutes * 60;
        self.break_duration = settings.short_break_minutes * 60;
    }
}

} // verus!
