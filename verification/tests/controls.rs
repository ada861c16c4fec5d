use ascii_maze::controls::{Controls, Key, Signal};

#[test]
fn nothing_is_held_at_the_start() {
    let c = Controls::new();
    assert_eq!(c, Controls { forward: false, backward: false, left: false, right: false });
}

#[test]
fn a_press_sets_and_a_release_clears_the_flag_of_its_key() {
    let mut c = Controls::new();
    assert!(!c.handle(Signal::Press(Key::Up)));
    assert_eq!(c, Controls { forward: true, backward: false, left: false, right: false });
    assert!(!c.handle(Signal::Press(Key::Left)));
    assert_eq!(c, Controls { forward: true, backward: false, left: true, right: false });
    assert!(!c.handle(Signal::Press(Key::Down)));
    assert!(!c.handle(Signal::Press(Key::Right)));
    assert_eq!(c, Controls { forward: true, backward: true, left: true, right: true });
    assert!(!c.handle(Signal::Release(Key::Up)));
    assert_eq!(c, Controls { forward: false, backward: true, left: true, right: true });
    assert!(!c.handle(Signal::Release(Key::Right)));
    assert!(!c.handle(Signal::Release(Key::Down)));
    assert!(!c.handle(Signal::Release(Key::Left)));
    assert_eq!(c, Controls::new());
}

#[test]
fn only_a_press_of_the_quit_key_ends_the_session() {
    let mut c = Controls::new();
    c.handle(Signal::Press(Key::Up));
    let held = c;
    assert!(c.handle(Signal::Press(Key::Quit)));
    assert_eq!(c, held);
    assert!(!c.handle(Signal::Release(Key::Quit)));
    assert_eq!(c, held);
}

#[test]
fn other_keys_change_nothing() {
    let mut c = Controls::new();
    c.handle(Signal::Press(Key::Right));
    let held = c;
    assert!(!c.handle(Signal::Press(Key::Other)));
    assert!(!c.handle(Signal::Release(Key::Other)));
    assert_eq!(c, held);
}

#[test]
fn a_signal_that_comes_twice_does_what_it_does_once() {
    let keys = [Key::Up, Key::Down, Key::Left, Key::Right, Key::Quit, Key::Other];
    for key in keys {
        for signal in [Signal::Press(key), Signal::Release(key)] {
            for bits in 0..16 {
                let start = Controls {
                    forward: bits & 1 != 0,
                    backward: bits & 2 != 0,
                    left: bits & 4 != 0,
                    right: bits & 8 != 0,
                };
                let mut once = start;
                once.handle(signal);
                let mut twice = start;
                twice.handle(signal);
                twice.handle(signal);
                assert_eq!(once, twice);
            }
        }
    }
}
