//! The auxiliary transport that is offered to clients.
use crate::env::{env_on, Environment};
use vstd::prelude::*;

verus! {

#[derive(Debug, Clone, Copy, PartialEq, Eq, Structural)]
pub enum RequestedProtocol {
    /// UDP with retransmission.
    UdpFecR,
    /// UDP that may lose data.
    UdpFecL,
}

#[derive(Debug, Clone, Copy, PartialEq, Eq, Structural)]
pub struct MacMultitransport;

impl MacMultitransport {
    /// Only the reliable flavour is offered.
    pub fn requested_protocol(&self) -> (p: RequestedProtocol)
        ensures
            p == RequestedProtocol::UdpFecR,
    {
        RequestedProtocol::UdpFecR
    }
}

/// Reads a switch of the transport, which is off unless set.
pub fn env_truthy(env: &Environment, name: &str) -> (on: bool)
    ensures
        on == crate::env::switch_value(env.value(name@), false),
{
    env_on(env, name, false)
}

/// Sound goes over the lossy flavour.
pub open spec fn lossy_audio(asked: Option<Seq<char>>, enable_aac: bool) -> bool {
    enable_aac && crate::env::switch_value(asked, false)
}

/// Sound may go over the lossy flavour where it is asked for and AAC is offered.
pub fn offers_lossy_audio(env: &Environment, enable_aac: bool) -> (r: bool)
    ensures
        r == lossy_audio(env.value("MACRDP_UDP_LOSSY_AUDIO"@), enable_aac),
{
    enable_aac && env_truthy(env, "MACRDP_UDP_LOSSY_AUDIO")
}

/// Sound goes over the lossy flavour only where both AAC and the flavour are asked for.
pub proof fn lossy_sound_needs_both(v: Seq<char>, enable_aac: bool)
    ensures
        !lossy_audio(Some(v), false),
        !lossy_audio(None, enable_aac),
        v == "1"@ ==> lossy_audio(Some(v), true),
        crate::text::lowered(crate::text::trimmed(v)) == "0"@ ==> !lossy_audio(Some(v), enable_aac),
{
    crate::env::five_texts_switch_off(v, false);
}

} // verus!
