//! Plain request and response bodies exchanged with the routing layer, and
//! the verified mapping from trust verdicts to the registration responses.
//!
//! The HTTP layer deserializes into mirror types of its own and converts;
//! the contracts here speak only of plain fields.

use vstd::prelude::*;

use crate::auth::{Device, SetupTokenValidation};

verus! {

/// Body of a request that types text into a pane.
pub struct SendInputRequest {
    pub text: String,
}

/// Uniform error body returned by the routing layer.
pub struct ErrorResponse {
    pub error: String,
}

/// Query parameters of an output capture request.
pub struct OutputQuery {
    pub lines: u32,
}

/// Body of a successful output capture response.
pub struct OutputResponse {
    pub output: String,
}

/// Body of a device registration request.
pub struct RegisterRequest {
    pub setup_token: String,
    pub device_name: String,
}

/// Body of a successful device registration response.
pub struct RegisterResponse {
    pub device_id: String,
    pub device_token: String,
}

/// Error body of a failed device registration, with a stable code.
pub struct RegisterError {
    pub error: String,
    pub code: String,
}

/// Body of a push-endpoint registration request.
pub struct RegisterDeviceRequest {
    pub token: String,
    pub sandbox: bool,
}

/// Body of a notification dispatch request.
pub struct SendNotificationRequest {
    pub title: String,
    pub body: String,
    pub pane_target: Option<String>,
}

/// One pane of a listed session.
pub struct PaneResponse {
    pub index: u32,
    pub active: bool,
    pub target: String,
    pub current_path: String,
}

/// One window of a listed session.
pub struct WindowResponse {
    pub index: u32,
    pub name: String,
    pub active: bool,
    pub panes: Vec<PaneResponse>,
}

/// One listed session.
pub struct SessionResponse {
    pub name: String,
    pub attached: bool,
    pub windows: Vec<WindowResponse>,
}

/// Body of a session creation request.
pub struct CreateSessionRequest {
    pub name: String,
    pub cwd: String,
}

/// The successful registration response for a freshly minted device.
pub fn register_response_of(device: &Device) -> (r: RegisterResponse)
    ensures
        r.device_id@ == device.id@,
        r.device_token@ == device.token@,
{
    RegisterResponse { device_id: device.id.clone(), device_token: device.token.clone() }
}

/// The registration error body for a failed exchange.  Only "expired" is
/// distinguished, so a legitimate user learns to fetch a fresh code; every
/// other failure reads uniformly as invalid.
pub fn register_error_of(verdict: &SetupTokenValidation) -> (r: RegisterError)
    ensures
        verdict is Expired ==> r.error@ == "Setup token has expired. Please generate a new QR code."@
            && r.code@ == "TOKEN_EXPIRED"@,
        !(verdict is Expired) ==> r.error@ == "Invalid setup token"@ && r.code@
            == "TOKEN_INVALID"@,
{
    match verdict {
        SetupTokenValidation::Expired => RegisterError {
            error: String::from_str("Setup token has expired. Please generate a new QR code."),
            code: String::from_str("TOKEN_EXPIRED"),
        },
        _ => RegisterError {
            error: String::from_str("Invalid setup token"),
            code: String::from_str("TOKEN_INVALID"),
        },
    }
}

} // verus!
