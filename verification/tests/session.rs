use maacoc_engine::events::EventKind;
use maacoc_engine::session::{Connection, DeviceItem, Frame, Phase, Settings, Tally};

#[test]
fn settings_defaults_are_conservative() {
    let settings = Settings::default();
    assert_eq!(settings.entry, "Main");
    assert_eq!(settings.theme_mode, "system", "外观默认跟随系统，不预设深浅");
    assert!(!settings.auto_start, "打开界面不应自动开始战斗");
    assert!(!settings.overlay_hits);
    assert!(!settings.record_frames);
}

#[test]
fn settings_default_interval_and_device() {
    let settings = Settings::default();
    assert_eq!(settings.frame_interval_ms, 1000);
    assert!(settings.preferred_device.is_none());
    assert!(!settings.show_misses);
}

#[test]
fn phases_have_lower_case_names() {
    assert_eq!(Phase::Idle.name(), "idle");
    assert_eq!(Phase::Connecting.name(), "connecting");
    assert_eq!(Phase::Ready.name(), "ready");
    assert_eq!(Phase::Running.name(), "running");
    assert_eq!(Phase::Error.name(), "error");
}

#[test]
fn device_items_and_frames_are_labelled() {
    let item = DeviceItem::new("POCO F3", "127.0.0.1:5555".to_string());
    assert_eq!(item.label, "POCO F3 · 127.0.0.1:5555");
    assert_eq!(item.address, "127.0.0.1:5555");
    let frame = Frame::png("AAAA", 1280, 720);
    assert_eq!(frame.data_url, "data:image/png;base64,AAAA");
    assert_eq!((frame.width, frame.height), (1280, 720));
}

#[test]
fn tally_counts_battles_and_remembers_recognitions() {
    let mut tally: Tally<u32> = Tally::new();
    tally.observe(EventKind::Action, "AttackStart", 0, 1);
    tally.observe(EventKind::Recognition, "AttackStart", 7, 2);
    tally.observe(EventKind::Action, "Deploy", 9, 3);
    tally.observe(EventKind::Recognition, "FindSoldier", 0, 4);
    assert_eq!(tally.battles(), 1);
    assert_eq!(tally.last_reco(), 7);
    assert_eq!(tally.latest(), Some(&4));
}

#[test]
fn tally_keeps_the_latest_three_hundred() {
    let mut tally: Tally<u32> = Tally::new();
    for i in 0..350 {
        tally.observe(EventKind::Recognition, "N", 1, i);
    }
    assert_eq!(tally.latest(), Some(&349));
    tally.clear_recent();
    assert_eq!(tally.latest(), None);
    assert_eq!(tally.last_reco(), 1);
}

#[test]
fn a_failed_auto_start_still_counts_as_connected() {
    let mut connection = Connection::new();
    assert_eq!(connection.phase(), Phase::Idle);
    connection.connecting();
    assert_eq!(connection.phase(), Phase::Connecting);
    connection.connected("Pixel @ 127.0.0.1:5555".to_string());
    connection.auto_start_failed("尚未连接设备");
    assert_eq!(connection.phase(), Phase::Ready);
    assert_eq!(connection.detail(), "Pixel @ 127.0.0.1:5555（自动开始失败: 尚未连接设备）");
}

#[test]
fn connection_phases_follow_the_commands() {
    let mut connection = Connection::new();
    connection.connecting();
    connection.failed("没有找到 ADB 设备".to_string());
    assert_eq!((connection.phase(), connection.detail().as_str()), (Phase::Error, "没有找到 ADB 设备"));
    connection.connected("dev".to_string());
    connection.running();
    assert_eq!((connection.phase(), connection.detail().as_str()), (Phase::Running, "dev"));
    connection.stopped();
    assert_eq!((connection.phase(), connection.detail().as_str()), (Phase::Ready, "dev"));
    connection.disconnected();
    assert_eq!((connection.phase(), connection.detail().as_str()), (Phase::Idle, ""));
}
