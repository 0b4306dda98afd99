use maacoc_engine::runner::{device_label, pick_device, DeviceError, DeviceInfo};

fn device(name: &str, address: &str) -> DeviceInfo {
    DeviceInfo { name: name.to_string(), address: address.to_string() }
}

#[test]
fn preferred_device_matches_name_or_address() {
    let devices = vec![device("emulator", "127.0.0.1:5555"), device("POCO F3", "usb:1-1")];
    assert_eq!(pick_device(&devices, Some("POCO")).unwrap(), 1);
    assert_eq!(pick_device(&devices, Some("5555")).unwrap(), 0);
    assert_eq!(pick_device(&devices, None).unwrap(), 0);
}

#[test]
fn missing_devices_are_reported() {
    assert!(matches!(pick_device(&vec![], None), Err(DeviceError::NoDevices)));
    let err = pick_device(&vec![device("a", "b")], Some("zzz")).unwrap_err();
    assert_eq!(err.message(), "未找到设备 zzz");
    assert_eq!(DeviceError::NoDevices.message(), "没有找到 ADB 设备，请确认已连接并允许调试");
}

#[test]
fn devices_are_labelled_name_at_address() {
    assert_eq!(device_label("POCO F3", "usb:1-1"), "POCO F3 @ usb:1-1");
}
