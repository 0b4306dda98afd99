//! Choosing the device a session drives.

use vstd::prelude::*;
use crate::text::{contains_str, has_substring};

verus! {

/// What a session talks to.
#[derive(PartialEq, Eq, Structural, Clone, Copy, Debug)]
pub enum DeviceTarget {
    /// A real phone/emulator over ADB.
    Adb,
    /// Nothing to talk to: enough for node trials, which take the image directly.
    Headless,
}

/// A device the ADB scan found.
#[derive(Debug, Clone)]
pub struct DeviceInfo {
    pub name: String,
    pub address: String,
}

/// Why no device could be chosen.
#[derive(Debug, Clone)]
pub enum DeviceError {
    /// The scan found nothing.
    NoDevices,
    /// Nothing matches the preferred name or address.
    NotFound(String),
}

impl DeviceError {
    pub fn message(&self) -> (m: String)
        ensures
            self matches DeviceError::NoDevices ==> m@ == "没有找到 ADB 设备，请确认已连接并允许调试"@,
            self matches DeviceError::NotFound(n) ==> m@ == "未找到设备 "@ + n@,
    {
        match self {
            DeviceError::NoDevices => "没有找到 ADB 设备，请确认已连接并允许调试".to_string(),
            DeviceError::NotFound(n) => "未找到设备 ".to_string().concat(n.as_str()),
        }
    }
}

/// The device matches when the needle occurs in its address or its name.
pub open spec fn device_matches(d: DeviceInfo, needle: Seq<char>) -> bool {
    has_substring(d.address@, needle) || has_substring(d.name@, needle)
}

/// Choose the device: the first that matches `preferred` in address or name,
/// else the first found.
pub fn pick_device(devices: &Vec<DeviceInfo>, preferred: Option<&str>) -> (r: Result<usize, DeviceError>)
    ensures
        devices@.len() == 0 ==> r matches Err(DeviceError::NoDevices),
        devices@.len() > 0 && preferred is None ==> r == Ok::<usize, DeviceError>(0),
        preferred matches Some(n) ==> devices@.len() == 0 || match r {
            Ok(i) => 0 <= i < devices@.len() && device_matches(devices@[i as int], n@)
                && forall|j: int| 0 <= j < i ==> !device_matches(#[trigger] devices@[j], n@),
            Err(DeviceError::NotFound(m)) => m@ == n@ && forall|j: int| 0 <= j < devices@.len() ==> !device_matches(#[trigger] devices@[j], n@),
            Err(DeviceError::NoDevices) => false,
        },
{
    if devices.len() == 0 {
        return Err(DeviceError::NoDevices);
    }
    match preferred {
        None => Ok(0),
        Some(needle) => {
            let mut i: usize = 0;
            while i < devices.len()
                invariant
                    preferred == Some(needle),
                    i <= devices@.len(),
                    forall|j: int| 0 <= j < i ==> !device_matches(#[trigger] devices@[j], needle@),
                decreases devices@.len() - i,
            {
                let d = &devices[i];
                if contains_str(d.address.as_str(), needle) || contains_str(d.name.as_str(), needle) {
                    return Ok(i);
                }
                i = i + 1;
            }
            Err(DeviceError::NotFound(needle.to_string()))
        },
    }
}

/// How a device is shown: `name @ address`.
pub fn device_label(name: &str, address: &str) -> (s: String)
    ensures
        s@ == name@ + " @ "@ + address@,
{
    name.to_string().concat(" @ ").concat(address)
}

} // verus!
