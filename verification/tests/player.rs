use askey::player::{PlayerEffect, PlayerState};
use askey::ui::Key;

fn state(frames: usize) -> PlayerState {
    PlayerState::new(frames, false, false, false).unwrap()
}

#[test]
fn no_frames_no_player() {
    assert!(PlayerState::new(0, true, true, true).is_none());
}

#[test]
fn player_starts_on_the_first_frame_playing() {
    let s = PlayerState::new(3, true, false, true).unwrap();
    assert_eq!(s.frame, 0);
    assert_eq!(s.frame_count, 3);
    assert!(s.playing);
    assert!(s.show_info);
    assert!(!s.minimal);
    assert!(s.noclip);
    assert_eq!((s.off_x, s.off_y, s.loop_count), (0, 0, 0));
    assert!(!s.help);
}

#[test]
fn space_pauses_and_resumes() {
    let mut s = state(3);
    let before = s;
    assert_eq!(s.on_key(Key::Char(' '), false), PlayerEffect::Continue);
    assert!(!s.playing);
    assert_eq!(s.on_key(Key::Char(' '), false), PlayerEffect::Continue);
    assert_eq!(s, before);
}

#[test]
fn stepping_while_paused_wraps() {
    let mut s = state(3);
    s.on_key(Key::Char(' '), false);
    s.on_key(Key::Left, false);
    assert_eq!(s.frame, 2);
    s.on_key(Key::Right, false);
    assert_eq!(s.frame, 0);
    s.on_key(Key::Right, false);
    s.on_key(Key::Left, false);
    assert_eq!(s.frame, 0);
}

#[test]
fn arrows_do_not_step_while_playing() {
    let mut s = state(3);
    s.on_key(Key::Right, false);
    assert_eq!(s.frame, 0);
}

#[test]
fn quitting_keys() {
    let mut s = state(2);
    assert_eq!(s.on_key(Key::Char('q'), false), PlayerEffect::Quit);
    assert_eq!(s.on_key(Key::Char('Q'), false), PlayerEffect::Quit);
    assert_eq!(s.on_key(Key::Esc, false), PlayerEffect::Quit);
    assert_eq!(s.on_key(Key::Char('c'), true), PlayerEffect::Quit);
    assert_eq!(s.on_key(Key::Char('c'), false), PlayerEffect::Continue);
}

#[test]
fn restart_resets_frame_and_loops() {
    let mut s = state(2);
    s.tick();
    s.tick();
    assert_eq!((s.frame, s.loop_count), (0, 1));
    s.tick();
    assert_eq!(s.on_key(Key::Char('R'), false), PlayerEffect::RestartTimer);
    assert_eq!((s.frame, s.loop_count), (0, 0));
}

#[test]
fn speed_keys() {
    let mut s = state(1);
    assert_eq!(s.on_key(Key::Char('s'), false), PlayerEffect::SpeedUp);
    assert_eq!(s.on_key(Key::Char('F'), false), PlayerEffect::SlowDown);
}

#[test]
fn toggles() {
    let mut s = state(1);
    s.on_key(Key::Char('i'), false);
    assert!(s.show_info);
    s.on_key(Key::Char('M'), false);
    assert!(s.minimal);
    s.on_key(Key::Char('I'), false);
    assert!(!s.show_info);
}

#[test]
fn help_opens_and_any_key_closes_it() {
    let mut s = state(2);
    s.on_key(Key::Char('?'), false);
    assert!(s.help);
    assert_eq!(s.on_key(Key::Char('q'), false), PlayerEffect::Continue);
    assert!(!s.help);
    assert_eq!(s.frame, 0);
}

#[test]
fn noclip_moves_and_recenters() {
    let mut s = state(2);
    s.on_key(Key::Char('n'), false);
    assert!(s.noclip);
    s.on_key(Key::Up, false);
    s.on_key(Key::Left, false);
    s.on_key(Key::Left, false);
    assert_eq!((s.off_x, s.off_y), (-2, -1));
    s.on_key(Key::Right, false);
    s.on_key(Key::Down, false);
    assert_eq!((s.off_x, s.off_y), (-1, 0));
    s.on_key(Key::Char('N'), false);
    assert!(!s.noclip);
    assert_eq!((s.off_x, s.off_y), (0, 0));
}

#[test]
fn offsets_at_their_limit_refuse_to_move_further() {
    let mut s = state(1);
    s.on_key(Key::Char('n'), false);
    s.off_y = i16::MIN;
    assert!(!s.accepts_key(Key::Up, false));
    assert!(s.accepts_key(Key::Down, false));
    s.off_x = i16::MAX;
    assert!(!s.accepts_key(Key::Right, false));
    assert!(s.accepts_key(Key::Char('n'), false));
    s.on_key(Key::Char('n'), false);
    assert!(s.accepts_key(Key::Up, false));
}

#[test]
fn timer_advances_and_counts_loops() {
    let mut s = state(3);
    s.tick();
    assert_eq!(s.frame, 1);
    s.tick();
    assert_eq!(s.frame, 2);
    s.tick();
    assert_eq!((s.frame, s.loop_count), (0, 1));
}

#[test]
fn any_keys_and_ticks_keep_a_frame_shown() {
    let mut s = state(3);
    let keys = [
        Key::Char(' '), Key::Right, Key::Right, Key::Right, Key::Left, Key::Char('n'), Key::Up, Key::Char('n'),
        Key::Char('r'), Key::Char('?'), Key::Left, Key::Char(' '), Key::Char('x'),
    ];
    for (i, k) in keys.iter().enumerate() {
        s.on_key(*k, false);
        assert!(s.frame < s.frame_count);
        if i % 2 == 0 {
            s.tick();
            assert!(s.frame < s.frame_count);
        }
        assert_eq!(s.frame_count, 3);
    }
}
