//! Configuration of the devices whose events are relayed.

use crate::device_filter::{KeyExpr, KeyExprModel};
use crate::string_map::StringMap;
use vstd::prelude::*;

verus! {

/// How the events of one device are treated.
pub struct DeviceConfig {
    /// The backend that the device's events are routed to.
    pub map_backend: String,
    /// The kind of device that is emulated.
    pub device_type: String,
    /// What each remapped key stands for.
    pub remap: StringMap<KeyExpr>,
    /// Whether keys that are not remapped are dropped.
    pub remap_whitelist: bool,
}

/// The configuration of the whole application.
pub struct AppConfig {
    /// Device configurations by device ID.
    pub device: StringMap<DeviceConfig>,
}

/// The model of a [`DeviceConfig`].
pub struct DeviceModel {
    pub map_backend: Seq<char>,
    pub device_type: Seq<char>,
    pub remap: Map<Seq<char>, KeyExprModel>,
    pub remap_whitelist: bool,
}

impl View for DeviceConfig {
    type V = DeviceModel;

    open spec fn view(&self) -> DeviceModel {
        DeviceModel {
            map_backend: self.map_backend@,
            device_type: self.device_type@,
            remap: self.remap@,
            remap_whitelist: self.remap_whitelist,
        }
    }
}

impl Clone for DeviceConfig {
    fn clone(&self) -> (r: Self)
        ensures
            r@ == self@,
    {
        DeviceConfig {
            map_backend: self.map_backend.clone(),
            device_type: self.device_type.clone(),
            remap: self.remap.clone(),
            remap_whitelist: self.remap_whitelist,
        }
    }
}

impl Default for DeviceConfig {
    /// No backend, no type, nothing remapped and nothing dropped.
    fn default() -> (r: Self)
        ensures
            r@ == (DeviceModel {
                map_backend: Seq::empty(),
                device_type: Seq::empty(),
                remap: Map::empty(),
                remap_whitelist: false,
            }),
    {
        DeviceConfig {
            map_backend: String::new(),
            device_type: String::new(),
            remap: StringMap::new(),
            remap_whitelist: false,
        }
    }
}

impl Default for AppConfig {
    /// No device is configured.
    fn default() -> (r: Self)
        ensures
            r.device@ == Map::<Seq<char>, DeviceModel>::empty(),
    {
        AppConfig { device: StringMap::new() }
    }
}

} // verus!
