//! The authorization gate applied to every protected request.
//!
//! With no device registered the daemon is in open (bootstrap) mode and every
//! request is admitted, so the very first client can reach registration.
//! Once a device exists, a request is admitted exactly when it bears the
//! credential of a registered device.  On admission the caller records the
//! device as seen (best effort); the registration endpoint itself is never
//! gated, its credential being a setup token.

use vstd::prelude::*;

use crate::auth::{find_by_token, AuthService, Device};

verus! {

/// Outcome of gating one request.
pub enum GateDecision {
    /// No device is registered: bootstrap mode, admitted unauthenticated.
    AdmitOpen,
    /// The bearer credential matched this registered device.
    Admit(Device),
    /// Closed mode, and the credential was absent or matched no device.
    Reject,
}

/// Admit or reject one protected request carrying `bearer`.
pub fn authorize_request(auth: &AuthService, bearer: Option<&str>) -> (r: GateDecision)
    ensures
        r is AdmitOpen <==> auth@.devices.len() == 0,
        auth@.devices.len() > 0 && bearer is None ==> r is Reject,
        auth@.devices.len() > 0 && bearer is Some ==> match find_by_token(
            auth@.devices,
            bearer->0@,
        ) {
            Some(d) => r matches GateDecision::Admit(dev) && dev.deep_view() == d,
            None => r is Reject,
        },
{
    if !auth.has_devices() {
        return GateDecision::AdmitOpen;
    }
    match bearer {
        None => GateDecision::Reject,
        Some(token) => match auth.validate_device_token(token) {
            Some(device) => GateDecision::Admit(device),
            None => GateDecision::Reject,
        },
    }
}

} // verus!
