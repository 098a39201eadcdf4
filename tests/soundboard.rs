use global_hotkey::hotkey::{Code, HotKey, Modifiers};
use soundboard::config::{hotkey_ids, select_devices, Config, KeybindConfig, SoundConfig};
use soundboard::dispatch::{play_commands, HandlerMap, HotkeyEvent, KeyState, SinkCommand};
use soundboard::sound::{SeekError, SeekPos, Sound};

fn names(xs: &[&str]) -> Vec<String> {
    xs.iter().map(|s| s.to_string()).collect()
}

fn pressed(id: u32) -> HotkeyEvent {
    HotkeyEvent { id, state: KeyState::Pressed }
}

fn released(id: u32) -> HotkeyEvent {
    HotkeyEvent { id, state: KeyState::Released }
}

fn bytes_of(s: &Sound) -> Vec<u8> {
    let mut c = s.cursor();
    let mut out = Vec::new();
    let mut buf = [0u8; 4];
    loop {
        let n = c.read(&mut buf);
        if n == 0 {
            break;
        }
        out.extend_from_slice(&buf[..n]);
    }
    out
}

fn sample_map() -> (HandlerMap, Vec<Sound>) {
    let sounds = vec![Sound::new(vec![1, 2, 3]), Sound::new(vec![9, 8])];
    let map = HandlerMap::from_bindings(&vec![10, 20], &sounds);
    (map, sounds)
}

#[test]
fn every_binding_has_its_entry() {
    let (map, _) = sample_map();
    assert!(map.contains(10));
    assert!(map.contains(20));
    assert!(!map.contains(30));
    assert_eq!(bytes_of(map.dispatch(pressed(10)).unwrap()), vec![1, 2, 3]);
    assert_eq!(bytes_of(map.dispatch(pressed(20)).unwrap()), vec![9, 8]);
}

#[test]
fn later_binding_wins_on_repeated_id() {
    let sounds = vec![Sound::new(vec![1]), Sound::new(vec![2])];
    let map = HandlerMap::from_bindings(&vec![5, 5], &sounds);
    assert_eq!(bytes_of(map.dispatch(pressed(5)).unwrap()), vec![2]);
}

#[test]
fn presses_play_in_order() {
    let (map, _) = sample_map();
    let events = [pressed(20), pressed(10), pressed(20)];
    let played: Vec<Vec<u8>> = events.iter().filter_map(|e| map.dispatch(*e)).map(bytes_of).collect();
    assert_eq!(played, vec![vec![9, 8], vec![1, 2, 3], vec![9, 8]]);
}

#[test]
fn releases_never_play() {
    let (map, _) = sample_map();
    assert!(map.dispatch(released(10)).is_none());
    assert!(map.dispatch(released(20)).is_none());
    assert!(map.dispatch(released(30)).is_none());
}

#[test]
fn unmapped_id_is_ignored() {
    let (map, _) = sample_map();
    assert!(map.dispatch(pressed(30)).is_none());
    assert_eq!(bytes_of(map.dispatch(pressed(10)).unwrap()), vec![1, 2, 3]);
}

#[test]
fn empty_map_plays_nothing() {
    let map = HandlerMap::from_bindings(&vec![], &vec![]);
    assert!(map.dispatch(pressed(0)).is_none());
}

#[test]
fn play_stops_each_sink_before_queueing() {
    let cmds = play_commands(2);
    assert_eq!(
        cmds,
        vec![
            SinkCommand::Stop(0),
            SinkCommand::Append(0),
            SinkCommand::Play(0),
            SinkCommand::Stop(1),
            SinkCommand::Append(1),
            SinkCommand::Play(1),
        ]
    );
}

#[test]
fn play_on_no_sinks_does_nothing() {
    assert!(play_commands(0).is_empty());
}

#[test]
fn two_cursors_read_independently() {
    let s = Sound::new(vec![1, 2, 3, 4, 5]);
    let mut a = s.cursor();
    let mut b = s.cursor();
    let mut two = [0u8; 2];
    let mut three = [0u8; 3];
    assert_eq!(a.read(&mut two), 2);
    assert_eq!(two, [1, 2]);
    assert_eq!(b.read(&mut three), 3);
    assert_eq!(three, [1, 2, 3]);
    assert_eq!(a.read(&mut three), 3);
    assert_eq!(three, [3, 4, 5]);
    assert_eq!(b.read(&mut three), 2);
    assert_eq!(three, [4, 5, 5]);
    assert_eq!(a.read(&mut two), 0);
    assert_eq!(a.position(), 5);
    assert_eq!(b.position(), 5);
    assert_eq!(bytes_of(&s), vec![1, 2, 3, 4, 5]);
    assert_eq!(s.len(), 5);
}

#[test]
fn shared_sound_keeps_bytes() {
    let s = Sound::new(vec![7, 7, 1]);
    let t = s.share();
    assert_eq!(bytes_of(&t), vec![7, 7, 1]);
}

#[test]
fn empty_sound_reads_nothing() {
    let s = Sound::new(vec![]);
    let mut c = s.cursor();
    let mut buf = [5u8; 3];
    assert_eq!(c.read(&mut buf), 0);
    assert_eq!(buf, [5, 5, 5]);
}

#[test]
fn seek_moves_and_refuses() {
    let s = Sound::new(vec![1, 2, 3, 4]);
    let mut c = s.cursor();
    assert_eq!(c.seek(SeekPos::End(-1)), Ok(3));
    let mut buf = [0u8; 4];
    assert_eq!(c.read(&mut buf), 1);
    assert_eq!(buf[0], 4);
    assert_eq!(c.seek(SeekPos::Current(-5)), Err(SeekError::BeforeStart));
    assert_eq!(c.position(), 4);
    assert_eq!(c.seek(SeekPos::Start(10)), Ok(10));
    assert_eq!(c.read(&mut buf), 0);
    assert_eq!(c.seek(SeekPos::Start(u64::MAX)), Ok(u64::MAX));
    assert_eq!(c.seek(SeekPos::Current(1)), Err(SeekError::Overflow));
    assert_eq!(c.seek(SeekPos::Start(1)), Ok(1));
    assert_eq!(c.read(&mut buf), 3);
    assert_eq!(&buf[..3], &[2, 3, 4]);
}

#[test]
fn devices_selected_by_name_in_available_order() {
    let available = names(&["Speakers", "HDMI", "USB Headset"]);
    let wanted = names(&["USB Headset", "Speakers", "Missing"]);
    assert_eq!(select_devices(&available, &wanted), vec![0, 2]);
}

fn click_config(devices: &[&str]) -> Config {
    Config {
        sounds: vec![SoundConfig {
            path: "click.mp3".to_string(),
            keybind: KeybindConfig { modifiers: Modifiers::CONTROL | Modifiers::ALT, key: Code::KeyK },
        }],
        output_devices: names(devices),
    }
}

#[test]
fn one_sound_one_device_plays_once() {
    let config = click_config(&["Speakers"]);
    let sinks = select_devices(&names(&["Speakers"]), &config.output_devices);
    assert_eq!(sinks, vec![0]);
    let hotkeys = config.hotkeys();
    assert_eq!(hotkeys.len(), 1);
    let ids = hotkey_ids(&hotkeys);
    let expected = HotKey::new(Some(Modifiers::CONTROL | Modifiers::ALT), Code::KeyK).id();
    assert_eq!(ids, vec![expected]);
    let click = Sound::new(vec![0xFF, 0xFB, 0x90]);
    let map = HandlerMap::from_bindings(&ids, &vec![click]);
    let chosen = map.dispatch(pressed(ids[0])).unwrap();
    assert_eq!(bytes_of(chosen), vec![0xFF, 0xFB, 0x90]);
    assert_eq!(
        play_commands(sinks.len()),
        vec![SinkCommand::Stop(0), SinkCommand::Append(0), SinkCommand::Play(0)]
    );
}

#[test]
fn missing_device_opens_no_sink() {
    let config = click_config(&["USB Headset"]);
    let sinks = select_devices(&names(&["Speakers"]), &config.output_devices);
    assert!(sinks.is_empty());
    let ids = hotkey_ids(&config.hotkeys());
    let map = HandlerMap::from_bindings(&ids, &vec![Sound::new(vec![1])]);
    assert!(map.dispatch(pressed(ids[0])).is_some());
    assert!(play_commands(sinks.len()).is_empty());
}

#[test]
fn same_key_combination_gets_same_id() {
    let bind = || KeybindConfig { modifiers: Modifiers::CONTROL | Modifiers::ALT, key: Code::KeyK };
    let config = Config {
        sounds: vec![
            SoundConfig { path: "a.mp3".to_string(), keybind: bind() },
            SoundConfig { path: "b.mp3".to_string(), keybind: bind() },
        ],
        output_devices: vec![],
    };
    let ids = hotkey_ids(&config.hotkeys());
    assert_eq!(ids.len(), 2);
    assert_eq!(ids[0], ids[1]);
}

#[test]
fn sound_bytes_are_the_loaded_contents() {
    let s = Sound::new(vec![4, 5, 6]);
    assert_eq!(s.bytes(), &vec![4, 5, 6]);
    assert_eq!(s.share().bytes(), &vec![4, 5, 6]);
}

#[test]
fn keybind_hotkey_follows_its_combination() {
    let k = KeybindConfig { modifiers: Modifiers::CONTROL | Modifiers::ALT, key: Code::KeyK };
    let j = KeybindConfig { modifiers: Modifiers::SHIFT, key: Code::KeyJ };
    assert_eq!(k.hotkey(), HotKey::new(Some(Modifiers::CONTROL | Modifiers::ALT), Code::KeyK));
    assert_eq!(j.hotkey(), HotKey::new(Some(Modifiers::SHIFT), Code::KeyJ));
    assert_ne!(k.hotkey().id(), j.hotkey().id());
}
