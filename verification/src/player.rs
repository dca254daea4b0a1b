//! The player's state between frames: which frame shows, what is toggled on, where the
//! frame is moved to in no-clip mode, and how keys and the frame timer change it.

use vstd::prelude::*;
use crate::ui::{Key, next_index, prev_index, spec_next_index, spec_prev_index, lemma_next_prev_index};

verus! {

/// What the player's loop does after a key: go on, stop playing, restart the frame timer,
/// or change the playback speed (by 0.1, up to 4 or down to 0.1).
#[derive(Debug, Clone, Copy, PartialEq, Eq, Structural)]
pub enum PlayerEffect {
    Continue,
    Quit,
    RestartTimer,
    SpeedUp,
    SlowDown,
}

/// The player's state. `frame` is the frame shown, one of `frame_count`; `loop_count` how
/// many times playback went past the last frame.
#[derive(Debug, Clone, Copy, PartialEq, Eq, Structural)]
pub struct PlayerState {
    pub frame: usize,
    pub frame_count: usize,
    pub playing: bool,
    pub show_info: bool,
    pub minimal: bool,
    pub noclip: bool,
    pub off_x: i16,
    pub off_y: i16,
    pub help: bool,
    pub loop_count: usize,
}

/// Whether `key` is the character `lower` or `upper`.
pub open spec fn is_letter_key(key: Key, lower: char, upper: char) -> bool {
    key == Key::Char(lower) || key == Key::Char(upper)
}

/// Whether a key (with Ctrl held or not) quits: Ctrl-C, Esc, `q` or `Q`.
pub open spec fn quits(key: Key, ctrl: bool) -> bool {
    (key == Key::Char('c') && ctrl) || key == Key::Esc || is_letter_key(key, 'q', 'Q')
}

impl PlayerState {
    /// A well-formed state shows one of its frames, and it has at least one.
    pub open spec fn wf(self) -> bool {
        self.frame_count > 0 && self.frame < self.frame_count
    }

    /// The state after the toggles and moves a key makes, before the no-clip and stepping
    /// keys are applied.
    pub open spec fn after_toggles(self, key: Key) -> Self {
        let s1 = if key == Key::Char(' ') { PlayerState { playing: !self.playing, ..self } } else { self };
        let s2 = if is_letter_key(key, 'r', 'R') { PlayerState { frame: 0, loop_count: 0, ..s1 } } else { s1 };
        let s3 = if is_letter_key(key, 'i', 'I') { PlayerState { show_info: !s2.show_info, ..s2 } } else { s2 };
        let s4 = if is_letter_key(key, 'm', 'M') { PlayerState { minimal: !s3.minimal, ..s3 } } else { s3 };
        if is_letter_key(key, 'n', 'N') {
            if s4.noclip {
                PlayerState { noclip: false, off_x: 0, off_y: 0, ..s4 }
            } else {
                PlayerState { noclip: true, ..s4 }
            }
        } else {
            s4
        }
    }

    /// The state after the arrows: in no-clip mode they move the frame by one cell; when
    /// paused outside it, Right and Left step to the next and previous frame, wrapping.
    pub open spec fn after_arrows(self, key: Key) -> Self {
        if self.noclip {
            if key == Key::Up {
                PlayerState { off_y: (self.off_y - 1) as i16, ..self }
            } else if key == Key::Down {
                PlayerState { off_y: (self.off_y + 1) as i16, ..self }
            } else if key == Key::Left {
                PlayerState { off_x: (self.off_x - 1) as i16, ..self }
            } else if key == Key::Right {
                PlayerState { off_x: (self.off_x + 1) as i16, ..self }
            } else {
                self
            }
        } else if !self.playing && key == Key::Right {
            PlayerState { frame: spec_next_index(self.frame as int, self.frame_count as int) as usize, ..self }
        } else if !self.playing && key == Key::Left {
            PlayerState { frame: spec_prev_index(self.frame as int, self.frame_count as int) as usize, ..self }
        } else {
            self
        }
    }

    /// The state and effect after one key press. With help shown, any key closes it; `?`
    /// opens it; Ctrl-C, Esc and `q` quit; the other keys go through the toggles, then the
    /// arrows; `s` speeds up and `f` slows down.
    pub open spec fn after_key(self, key: Key, ctrl: bool) -> (Self, PlayerEffect) {
        if self.help {
            (PlayerState { help: false, ..self }, PlayerEffect::Continue)
        } else if key == Key::Char('?') {
            (PlayerState { help: true, ..self }, PlayerEffect::Continue)
        } else if quits(key, ctrl) {
            (self, PlayerEffect::Quit)
        } else {
            let s = self.after_toggles(key).after_arrows(key);
            let e = if is_letter_key(key, 'r', 'R') {
                PlayerEffect::RestartTimer
            } else if is_letter_key(key, 's', 'S') {
                PlayerEffect::SpeedUp
            } else if is_letter_key(key, 'f', 'F') {
                PlayerEffect::SlowDown
            } else {
                PlayerEffect::Continue
            };
            (s, e)
        }
    }

    /// Whether a key press keeps the no-clip offsets within 16 bits (moving past them
    /// overflows).
    pub open spec fn key_in_range(self, key: Key, ctrl: bool) -> bool {
        !self.help && key != Key::Char('?') && !quits(key, ctrl) ==> {
            let s = self.after_toggles(key);
            s.noclip ==> {
                &&& key == Key::Up ==> s.off_y > i16::MIN
                &&& key == Key::Down ==> s.off_y < i16::MAX
                &&& key == Key::Left ==> s.off_x > i16::MIN
                &&& key == Key::Right ==> s.off_x < i16::MAX
            }
        }
    }

    /// The state after the frame timer ran out: the next frame, or the first one with one
    /// more loop counted after the last.
    pub open spec fn after_tick(self) -> Self {
        if self.frame + 1 >= self.frame_count {
            PlayerState { frame: 0, loop_count: (self.loop_count + 1) as usize, ..self }
        } else {
            PlayerState { frame: (self.frame + 1) as usize, ..self }
        }
    }

    /// The player's state when playback starts: on the first frame, playing, no offsets and
    /// no help; `None` when there are no frames.
    pub fn new(frame_count: usize, show_info: bool, minimal: bool, noclip: bool) -> (r: Option<Self>)
        ensures
            r.is_none() == (frame_count == 0),
            r.is_some() ==> r.unwrap() == (PlayerState {
                frame: 0,
                frame_count,
                playing: true,
                show_info,
                minimal,
                noclip,
                off_x: 0,
                off_y: 0,
                help: false,
                loop_count: 0,
            }),
    {
        if frame_count == 0 {
            return None;
        }
        Some(PlayerState {
            frame: 0,
            frame_count,
            playing: true,
            show_info,
            minimal,
            noclip,
            off_x: 0,
            off_y: 0,
            help: false,
            loop_count: 0,
        })
    }

    /// Whether a key press keeps the no-clip offsets within 16 bits.
    pub fn accepts_key(&self, key: Key, ctrl: bool) -> (r: bool)
        ensures
            r == self.key_in_range(key, ctrl),
    {
        if self.help || key == Key::Char('?') || (key == Key::Char('c') && ctrl) || key == Key::Esc
            || key == Key::Char('q') || key == Key::Char('Q') {
            return true;
        }
        let noclip = if key == Key::Char('n') || key == Key::Char('N') { !self.noclip } else { self.noclip };
        if !noclip {
            return true;
        }
        match key {
            Key::Up => self.off_y > i16::MIN,
            Key::Down => self.off_y < i16::MAX,
            Key::Left => self.off_x > i16::MIN,
            Key::Right => self.off_x < i16::MAX,
            _ => true,
        }
    }

    /// Handles one key press (`ctrl`: whether Ctrl was held).
    pub fn on_key(&mut self, key: Key, ctrl: bool) -> (e: PlayerEffect)
        requires
            old(self).wf(),
            old(self).key_in_range(key, ctrl),
        ensures
            final(self).wf(),
            (*final(self), e) == old(self).after_key(key, ctrl),
    {
        if self.help {
            self.help = false;
            return PlayerEffect::Continue;
        }
        if key == Key::Char('?') {
            self.help = true;
            return PlayerEffect::Continue;
        }
        if (key == Key::Char('c') && ctrl) || key == Key::Esc || key == Key::Char('q') || key == Key::Char('Q') {
            return PlayerEffect::Quit;
        }
        if key == Key::Char(' ') {
            self.playing = !self.playing;
        }
        if key == Key::Char('r') || key == Key::Char('R') {
            self.frame = 0;
            self.loop_count = 0;
        }
        if key == Key::Char('i') || key == Key::Char('I') {
            self.show_info = !self.show_info;
        }
        if key == Key::Char('m') || key == Key::Char('M') {
            self.minimal = !self.minimal;
        }
        if key == Key::Char('n') || key == Key::Char('N') {
            self.noclip = !self.noclip;
            if !self.noclip {
                self.off_x = 0;
                self.off_y = 0;
            }
        }
        if self.noclip {
            if key == Key::Up {
                self.off_y = self.off_y - 1;
            }
            if key == Key::Down {
                self.off_y = self.off_y + 1;
            }
            if key == Key::Left {
                self.off_x = self.off_x - 1;
            }
            if key == Key::Right {
                self.off_x = self.off_x + 1;
            }
        } else if !self.playing {
            if key == Key::Right {
                self.frame = next_index(self.frame, self.frame_count);
            }
            if key == Key::Left {
                self.frame = prev_index(self.frame, self.frame_count);
            }
        }
        if key == Key::Char('r') || key == Key::Char('R') {
            PlayerEffect::RestartTimer
        } else if key == Key::Char('s') || key == Key::Char('S') {
            PlayerEffect::SpeedUp
        } else if key == Key::Char('f') || key == Key::Char('F') {
            PlayerEffect::SlowDown
        } else {
            PlayerEffect::Continue
        }
    }

    /// Advances to the next frame once the current one has shown for its delay.
    pub fn tick(&mut self)
        requires
            old(self).wf(),
            old(self).frame + 1 >= old(self).frame_count ==> old(self).loop_count < usize::MAX,
        ensures
            final(self).wf(),
            *final(self) == old(self).after_tick(),
    {
        let next = self.frame + 1;
        if next >= self.frame_count {
            self.frame = 0;
            self.loop_count = self.loop_count + 1;
        } else {
            self.frame = next;
        }
    }
}

/// The state after `n` runs of the frame timer.
pub open spec fn ticks(s: PlayerState, n: nat) -> PlayerState
    decreases n,
{
    if n == 0 { s } else { ticks(s, (n - 1) as nat).after_tick() }
}

/// Pressing space twice leaves the player as it was: pausing and resuming undo each other.
pub proof fn lemma_pause_resume(s: PlayerState, ctrl: bool)
    requires
        s.wf(),
        !s.help,
    ensures
        s.after_key(Key::Char(' '), ctrl).1 == PlayerEffect::Continue,
        s.after_key(Key::Char(' '), ctrl).0.after_key(Key::Char(' '), ctrl).0 == s,
{
}

/// While paused outside no-clip mode, stepping forward then back, or back then forward,
/// returns to the same frame.
pub proof fn lemma_step_undone(s: PlayerState, ctrl: bool)
    requires
        s.wf(),
        !s.help,
        !s.noclip,
        !s.playing,
    ensures
        s.after_key(Key::Right, ctrl).0.after_key(Key::Left, ctrl).0 == s,
        s.after_key(Key::Left, ctrl).0.after_key(Key::Right, ctrl).0 == s,
        s.after_key(Key::Right, ctrl).0.wf(),
        s.after_key(Key::Left, ctrl).0.wf(),
{
    lemma_next_prev_index(s.frame as int, s.frame_count as int);
    let n = spec_next_index(s.frame as int, s.frame_count as int);
    let p = spec_prev_index(s.frame as int, s.frame_count as int);
    lemma_next_prev_index(n, s.frame_count as int);
    lemma_next_prev_index(p, s.frame_count as int);
}

/// In no-clip mode, moving the frame one way then the other puts it back.
pub proof fn lemma_move_undone(s: PlayerState, ctrl: bool)
    requires
        s.wf(),
        !s.help,
        s.noclip,
        i16::MIN < s.off_x < i16::MAX,
        i16::MIN < s.off_y < i16::MAX,
    ensures
        s.after_key(Key::Up, ctrl).0.after_key(Key::Down, ctrl).0 == s,
        s.after_key(Key::Down, ctrl).0.after_key(Key::Up, ctrl).0 == s,
        s.after_key(Key::Left, ctrl).0.after_key(Key::Right, ctrl).0 == s,
        s.after_key(Key::Right, ctrl).0.after_key(Key::Left, ctrl).0 == s,
{
}

/// Leaving no-clip mode centers the frame again: both offsets go back to zero.
pub proof fn lemma_noclip_off_recenters(s: PlayerState, ctrl: bool)
    requires
        !s.help,
        s.noclip,
    ensures
        !s.after_key(Key::Char('n'), ctrl).0.noclip,
        s.after_key(Key::Char('n'), ctrl).0.off_x == 0,
        s.after_key(Key::Char('n'), ctrl).0.off_y == 0,
{
}

/// Restarting goes back to the first frame and forgets the loops played.
pub proof fn lemma_restart(s: PlayerState, ctrl: bool)
    requires
        s.wf(),
        !s.help,
    ensures
        s.after_key(Key::Char('r'), ctrl).0.frame == 0,
        s.after_key(Key::Char('r'), ctrl).0.loop_count == 0,
        s.after_key(Key::Char('r'), ctrl).1 == PlayerEffect::RestartTimer,
{
}

/// While help shows, a key only closes it.
pub proof fn lemma_help_closes(s: PlayerState, key: Key, ctrl: bool)
    requires
        s.help,
    ensures
        s.after_key(key, ctrl) == ((PlayerState { help: false, ..s }), PlayerEffect::Continue),
{
}

/// From the first frame, `k` timer runs (fewer than the frames) show frame `k`, and as many
/// runs as there are frames come back to the first frame with one more loop counted.
pub proof fn lemma_full_loop(s: PlayerState, k: nat)
    requires
        s.wf(),
        s.frame == 0,
        k <= s.frame_count,
        s.loop_count < usize::MAX,
    ensures
        k < s.frame_count ==> ticks(s, k) == (PlayerState { frame: k as usize, ..s }),
        k == s.frame_count ==> ticks(s, k) == (PlayerState { loop_count: (s.loop_count + 1) as usize, ..s }),
    decreases k,
{
    if k > 0 {
        lemma_full_loop(s, (k - 1) as nat);
    }
}

/// Something the player's loop reacts to: a key press (with Ctrl held or not), or the
/// shown frame's delay running out.
#[derive(Debug, Clone, Copy, PartialEq, Eq, Structural)]
pub enum PlayerEvent {
    Press(Key, bool),
    FrameDue,
}

/// The state after the player reacted to each event in turn (a quitting key leaves the
/// state as it was).
pub open spec fn after_events(s: PlayerState, events: Seq<PlayerEvent>) -> PlayerState
    decreases events.len(),
{
    if events.len() == 0 {
        s
    } else {
        let prev = after_events(s, events.drop_last());
        match events.last() {
            PlayerEvent::Press(key, ctrl) => prev.after_key(key, ctrl).0,
            PlayerEvent::FrameDue => prev.after_tick(),
        }
    }
}

/// One key press or one timer run keeps the frame shown among the frames.
pub proof fn lemma_event_keeps_frame(s: PlayerState, ev: PlayerEvent)
    requires
        s.wf(),
    ensures
        (match ev {
            PlayerEvent::Press(key, ctrl) => s.after_key(key, ctrl).0,
            PlayerEvent::FrameDue => s.after_tick(),
        }).wf(),
        (match ev {
            PlayerEvent::Press(key, ctrl) => s.after_key(key, ctrl).0,
            PlayerEvent::FrameDue => s.after_tick(),
        }).frame_count == s.frame_count,
{
    lemma_next_prev_index(s.frame as int, s.frame_count as int);
}

/// Whatever keys are pressed and however often the frame timer runs, the player always
/// shows one of the animation's frames, and the number of frames never changes.
pub proof fn lemma_events_keep_frame(s: PlayerState, events: Seq<PlayerEvent>)
    requires
        s.wf(),
    ensures
        after_events(s, events).wf(),
        after_events(s, events).frame_count == s.frame_count,
    decreases events.len(),
{
    if events.len() > 0 {
        lemma_events_keep_frame(s, events.drop_last());
        lemma_event_keeps_frame(after_events(s, events.drop_last()), events.last());
    }
}

/// With help closed, `i` and `m` (in either case) each flip one display mode, the
/// information line or the minimal view, and change nothing else; pressing the key twice
/// leaves the player as it was. Space flips pausing the same way.
pub proof fn lemma_toggle_keys(s: PlayerState, ctrl: bool)
    requires
        s.wf(),
        !s.help,
    ensures
        s.after_key(Key::Char('m'), ctrl) == ((PlayerState { minimal: !s.minimal, ..s }), PlayerEffect::Continue),
        s.after_key(Key::Char('M'), ctrl) == ((PlayerState { minimal: !s.minimal, ..s }), PlayerEffect::Continue),
        s.after_key(Key::Char('i'), ctrl) == ((PlayerState { show_info: !s.show_info, ..s }), PlayerEffect::Continue),
        s.after_key(Key::Char('I'), ctrl) == ((PlayerState { show_info: !s.show_info, ..s }), PlayerEffect::Continue),
        s.after_key(Key::Char(' '), ctrl) == ((PlayerState { playing: !s.playing, ..s }), PlayerEffect::Continue),
        s.after_key(Key::Char('m'), ctrl).0.after_key(Key::Char('m'), ctrl).0 == s,
        s.after_key(Key::Char('i'), ctrl).0.after_key(Key::Char('i'), ctrl).0 == s,
        s.after_key(Key::Char('m'), ctrl).0.minimal != s.minimal,
        s.after_key(Key::Char('i'), ctrl).0.show_info != s.show_info,
        s.after_key(Key::Char(' '), ctrl).0.playing != s.playing,
{
}

/// With help closed, Esc, `q`, `Q` and Ctrl-C quit, `s` speeds up and `f` slows down
/// (in either case), and none of them changes the player's state; `?` only opens help,
/// and `r` only goes back to the first frame with no loop counted.
pub proof fn lemma_command_keys(s: PlayerState, ctrl: bool)
    requires
        s.wf(),
        !s.help,
    ensures
        s.after_key(Key::Esc, ctrl) == (s, PlayerEffect::Quit),
        s.after_key(Key::Char('q'), ctrl) == (s, PlayerEffect::Quit),
        s.after_key(Key::Char('Q'), ctrl) == (s, PlayerEffect::Quit),
        s.after_key(Key::Char('c'), true) == (s, PlayerEffect::Quit),
        s.after_key(Key::Char('s'), ctrl) == (s, PlayerEffect::SpeedUp),
        s.after_key(Key::Char('S'), ctrl) == (s, PlayerEffect::SpeedUp),
        s.after_key(Key::Char('f'), ctrl) == (s, PlayerEffect::SlowDown),
        s.after_key(Key::Char('F'), ctrl) == (s, PlayerEffect::SlowDown),
        s.after_key(Key::Char('?'), ctrl) == ((PlayerState { help: true, ..s }), PlayerEffect::Continue),
        s.after_key(Key::Char('r'), ctrl) == ((PlayerState { frame: 0, loop_count: 0, ..s }), PlayerEffect::RestartTimer),
        s.after_key(Key::Char('R'), ctrl) == ((PlayerState { frame: 0, loop_count: 0, ..s }), PlayerEffect::RestartTimer),
{
}

/// While playing outside no-clip mode, the arrows change nothing; while paused, Right shows
/// the next frame (the first after the last) and Left the previous one (the last before
/// the first).
pub proof fn lemma_arrow_keys(s: PlayerState, ctrl: bool)
    requires
        s.wf(),
        !s.help,
        !s.noclip,
    ensures
        s.playing ==> s.after_key(Key::Right, ctrl) == (s, PlayerEffect::Continue),
        s.playing ==> s.after_key(Key::Left, ctrl) == (s, PlayerEffect::Continue),
        !s.playing ==> s.after_key(Key::Right, ctrl).0
            == (PlayerState { frame: (if s.frame + 1 < s.frame_count { s.frame + 1 } else { 0 }) as usize, ..s }),
        !s.playing ==> s.after_key(Key::Left, ctrl).0
            == (PlayerState { frame: (if s.frame > 0 { s.frame - 1 } else { s.frame_count - 1 }) as usize, ..s }),
{
    if s.frame + 1 < s.frame_count {
        vstd::arithmetic::div_mod::lemma_small_mod((s.frame + 1) as nat, s.frame_count as nat);
    } else {
        vstd::arithmetic::div_mod::lemma_mod_self_0(s.frame_count as int);
    }
}

/// In no-clip mode the arrows move the frame one cell, Up and Down along the rows, Left
/// and Right along the columns, and change nothing else; `n` leaves no-clip mode.
/// Outside it, `n` enters no-clip mode without moving the frame.
pub proof fn lemma_noclip_keys(s: PlayerState, ctrl: bool)
    requires
        s.wf(),
        !s.help,
        i16::MIN < s.off_x < i16::MAX,
        i16::MIN < s.off_y < i16::MAX,
    ensures
        s.noclip ==> s.after_key(Key::Up, ctrl) == ((PlayerState { off_y: (s.off_y - 1) as i16, ..s }), PlayerEffect::Continue),
        s.noclip ==> s.after_key(Key::Down, ctrl) == ((PlayerState { off_y: (s.off_y + 1) as i16, ..s }), PlayerEffect::Continue),
        s.noclip ==> s.after_key(Key::Left, ctrl) == ((PlayerState { off_x: (s.off_x - 1) as i16, ..s }), PlayerEffect::Continue),
        s.noclip ==> s.after_key(Key::Right, ctrl) == ((PlayerState { off_x: (s.off_x + 1) as i16, ..s }), PlayerEffect::Continue),
        s.noclip ==> s.after_key(Key::Up, ctrl).0.off_y < s.off_y,
        s.noclip ==> s.after_key(Key::Right, ctrl).0.off_x > s.off_x,
        !s.noclip ==> s.after_key(Key::Char('n'), ctrl) == ((PlayerState { noclip: true, ..s }), PlayerEffect::Continue),
        s.noclip ==> s.after_key(Key::Char('N'), ctrl) == ((PlayerState { noclip: false, off_x: 0, off_y: 0, ..s }), PlayerEffect::Continue),
{
}

} // verus!
