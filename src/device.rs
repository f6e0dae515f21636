//! Device capabilities, the error taxonomy, and the rendering of errors.
pub mod client;
pub mod mock;
pub mod server;

use vstd::prelude::*;

verus! {

/// A failure reported by a device itself: a transport failure, or a stale
/// reading of a thermometer.
#[derive(Debug)]
pub enum DeviceError {
    ThermoError(String),
    SocketError(String),
}

/// A failure of the address resolution layer, or a device failure nested in it.
#[derive(Debug)]
pub enum ProviderError {
    NoDeviceError(String),
    DeviceError(DeviceError),
}

/// A failure of the dispatcher: a malformed address, or a provider failure
/// nested in it.
#[derive(Debug)]
pub enum HomeError {
    QueryFormatError(String),
    ProviderError(ProviderError),
}

/// The text of a device error.
pub open spec fn device_error_text(e: DeviceError) -> Seq<char> {
    match e {
        DeviceError::ThermoError(d) => "Thermo error: "@ + d@,
        DeviceError::SocketError(d) => "SmartSocket error: "@ + d@,
    }
}

/// The text of a `NoDeviceError` that carries `id`.
pub open spec fn no_device_text(id: Seq<char>) -> Seq<char> {
    "NoDeviceError: device with id '"@ + id + "' not provided!"@
}

/// The text of a `QueryFormatError` on the address `q`.
pub open spec fn format_error_text(q: Seq<char>) -> Seq<char> {
    "QueryError: wrong query format: '"@ + q + "'"@
}

/// The text of a provider error.
pub open spec fn provider_error_text(e: ProviderError) -> Seq<char> {
    match e {
        ProviderError::NoDeviceError(id) => no_device_text(id@),
        ProviderError::DeviceError(d) => "DeviceError: "@ + device_error_text(d),
    }
}

/// The text of a dispatcher error.
pub open spec fn home_error_text(e: HomeError) -> Seq<char> {
    match e {
        HomeError::QueryFormatError(q) => format_error_text(q@),
        HomeError::ProviderError(p) => provider_error_text(p),
    }
}

impl DeviceError {
    /// Renders the error as text.
    pub fn message(&self) -> (r: String)
        ensures
            r@ == device_error_text(*self),
    {
        match self {
            DeviceError::ThermoError(d) => {
                let mut r = String::from_str("Thermo error: ");
                r.append(d.as_str());
                r
            },
            DeviceError::SocketError(d) => {
                let mut r = String::from_str("SmartSocket error: ");
                r.append(d.as_str());
                r
            },
        }
    }
}

impl ProviderError {
    /// Renders the error as text.
    pub fn message(&self) -> (r: String)
        ensures
            r@ == provider_error_text(*self),
    {
        match self {
            ProviderError::NoDeviceError(id) => {
                let mut r = String::from_str("NoDeviceError: device with id '");
                r.append(id.as_str());
                r.append("' not provided!");
                r
            },
            ProviderError::DeviceError(d) => {
                let mut r = String::from_str("DeviceError: ");
                let inner = d.message();
                r.append(inner.as_str());
                r
            },
        }
    }
}

impl HomeError {
    /// Renders the error as text.
    pub fn message(&self) -> (r: String)
        ensures
            r@ == home_error_text(*self),
    {
        match self {
            HomeError::QueryFormatError(q) => {
                let mut r = String::from_str("QueryError: wrong query format: '");
                r.append(q.as_str());
                r.append("'");
                r
            },
            HomeError::ProviderError(p) => p.message(),
        }
    }
}

impl From<DeviceError> for ProviderError {
    fn from(e: DeviceError) -> (r: ProviderError)
        ensures
            r == ProviderError::DeviceError(e),
    {
        ProviderError::DeviceError(e)
    }
}

impl vstd::std_specs::convert::FromSpecImpl<DeviceError> for ProviderError {
    open spec fn obeys_from_spec() -> bool {
        true
    }

    open spec fn from_spec(e: DeviceError) -> ProviderError {
        ProviderError::DeviceError(e)
    }
}

/// A device that can report its state.
pub trait ReportableDevice {
    fn status(&self) -> Result<String, DeviceError>;
}

/// A device that accepts commands.
pub trait QueryableDevice {
    fn execute(&mut self, command: &str) -> Result<String, DeviceError>;
}

/// A source of device states, addressed by device id.
pub trait InfoDeviceProvider {
    fn status(&self, device_id: &str) -> Result<String, ProviderError>;
}

/// A sink of device commands, addressed by device id.
pub trait QueryableDeviceProvider {
    fn execute(&mut self, device_id: &str, command: &str) -> Result<String, ProviderError>;
}

} // verus!

pub use InfoDeviceProvider as DeviceInfoProvider;
pub use ReportableDevice as Device;
