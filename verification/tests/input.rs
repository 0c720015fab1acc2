use game::host_api::{Input, InputState};
use game::input::{set_key, swap, update, Key, KeyEvent};
use game::runner;

fn input() -> Input {
    Input { old: InputState::default(), new: InputState::default(), time_per_frame: 16_667 }
}

#[test]
fn no_key_is_down_at_first() {
    let s = InputState::default();
    assert!(!s.up && !s.down && !s.left && !s.right && !s.sword);
}

#[test]
fn key_goes_down_and_comes_up() {
    let mut i = input();
    update(&mut i, &KeyEvent::KeyDown(Some(Key::Up)));
    update(&mut i, &KeyEvent::KeyDown(Some(Key::S)));
    assert_eq!(i.new, InputState { up: true, down: false, left: false, right: false, sword: true });
    update(&mut i, &KeyEvent::KeyUp(Some(Key::Up)));
    assert_eq!(i.new, InputState { up: false, down: false, left: false, right: false, sword: true });
    assert_eq!(i.old, InputState::default());
    assert_eq!(i.time_per_frame, 16_667);
}

#[test]
fn every_key_has_its_flag() {
    let cases = [
        (Key::Up, InputState { up: true, down: false, left: false, right: false, sword: false }),
        (Key::Down, InputState { up: false, down: true, left: false, right: false, sword: false }),
        (Key::Left, InputState { up: false, down: false, left: true, right: false, sword: false }),
        (Key::Right, InputState { up: false, down: false, left: false, right: true, sword: false }),
        (Key::S, InputState { up: false, down: false, left: false, right: false, sword: true }),
    ];
    for (key, state) in cases {
        let mut i = input();
        update(&mut i, &KeyEvent::KeyDown(Some(key)));
        assert_eq!(i.new, state);
        let mut s = state;
        set_key(&mut s, key, false);
        assert_eq!(s, InputState::default());
    }
}

#[test]
fn other_events_change_nothing() {
    let mut i = input();
    update(&mut i, &KeyEvent::KeyDown(Some(Key::Left)));
    let before = i;
    update(&mut i, &KeyEvent::Other);
    update(&mut i, &KeyEvent::KeyDown(None));
    update(&mut i, &KeyEvent::KeyUp(None));
    assert_eq!(i, before);
}

#[test]
fn swap_starts_the_next_frame_from_this_one() {
    let mut i = input();
    update(&mut i, &KeyEvent::KeyDown(Some(Key::Right)));
    swap(&mut i);
    assert!(i.old.right && i.new.right);
    update(&mut i, &KeyEvent::KeyUp(Some(Key::Right)));
    assert!(i.old.right && !i.new.right);
    swap(&mut i);
    assert!(!i.old.right && !i.new.right);
}

#[test]
fn earlier_host_only_sees_direction_keys_go_down() {
    let mut i = runner::Input::default();
    assert_eq!(i.new, runner::State::default());
    i.update(&KeyEvent::KeyDown(Some(Key::Up)));
    i.update(&KeyEvent::KeyDown(Some(Key::Left)));
    i.update(&KeyEvent::KeyDown(Some(Key::S)));
    i.update(&KeyEvent::KeyUp(Some(Key::Up)));
    i.update(&KeyEvent::Other);
    assert_eq!(i.new, runner::State { up: true, down: false, left: true, right: false });
    assert_eq!(i.old, runner::State::default());
    i.update(&KeyEvent::KeyDown(Some(Key::Down)));
    i.update(&KeyEvent::KeyDown(Some(Key::Right)));
    i.swap();
    assert_eq!(i.old, runner::State { up: true, down: true, left: true, right: true });
    assert_eq!(i.new, i.old);
}

struct Recorder {
    lines: std::cell::RefCell<Vec<String>>,
    shown: usize,
    pitch: usize,
    sounds: usize,
}

impl game::host_api::HostApi for Recorder {
    fn print(&self, val: &str) {
        self.lines.borrow_mut().push(val.to_string());
    }

    fn println(&self, val: &str) {
        self.lines.borrow_mut().push(format!("{}\n", val));
    }

    fn update_canvas(&mut self, buffer: &[u8], pitch: usize) {
        self.shown = buffer.len();
        self.pitch = pitch;
    }

    fn generate_audio(&mut self) {
        self.sounds += 1;
    }

    fn load_bmp(&self, path: &str) -> game::host_api::Bitmap {
        game::host_api::Bitmap {
            align_x: 0,
            align_y: 0,
            width: path.len(),
            height: 0,
            pixels: vec![],
        }
    }
}

#[test]
fn host_can_be_any_type_that_offers_its_services() {
    let mut recorder =
        Recorder { lines: std::cell::RefCell::new(vec![]), shown: 0, pitch: 0, sounds: 0 };
    {
        let host: &mut dyn game::host_api::HostApi = &mut recorder;
        host.print("a");
        host.println("b");
        host.update_canvas(&[0; 16], 8);
        host.generate_audio();
        assert_eq!(host.load_bmp("abc").width, 3);
    }
    assert_eq!(*recorder.lines.borrow(), vec!["a".to_string(), "b\n".to_string()]);
    assert_eq!((recorder.shown, recorder.pitch, recorder.sounds), (16, 8, 1));
}
