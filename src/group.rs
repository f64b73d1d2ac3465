//! The group that a key generation establishes.
use vstd::prelude::*;

verus! {

/// The protocol a group runs.
#[derive(Clone, Copy, Debug, PartialEq, Eq, Structural)]
pub enum ProtocolType {
    GG18,
}

/// A group of devices sharing a threshold key.
#[derive(Clone, Debug)]
pub struct Group {
    identifier: Vec<u8>,
    name: String,
    devices: Vec<Vec<u8>>,
    threshold: u32,
    protocol: ProtocolType,
}

impl Group {
    /// Builds a group from its public key, name, sorted roster, threshold and protocol.
    pub fn new(
        identifier: Vec<u8>,
        name: String,
        devices: Vec<Vec<u8>>,
        threshold: u32,
        protocol: ProtocolType,
    ) -> (r: Group)
        ensures
            r.identifier_view() == identifier@,
            r.name_view() == name@,
            r.devices_view() == devices.deep_view(),
            r.threshold_view() == threshold,
            r.protocol_view() == protocol,
    {
        Group { identifier, name, devices, threshold, protocol }
    }

    pub closed spec fn identifier_view(&self) -> Seq<u8> {
        self.identifier@
    }

    pub closed spec fn name_view(&self) -> Seq<char> {
        self.name@
    }

    pub closed spec fn devices_view(&self) -> Seq<Seq<u8>> {
        self.devices.deep_view()
    }

    pub closed spec fn threshold_view(&self) -> u32 {
        self.threshold
    }

    pub closed spec fn protocol_view(&self) -> ProtocolType {
        self.protocol
    }

    /// The group public key.
    pub fn identifier(&self) -> (r: &Vec<u8>)
        ensures
            r@ == self.identifier_view(),
    {
        &self.identifier
    }

    pub fn name(&self) -> (r: &String)
        ensures
            r@ == self.name_view(),
    {
        &self.name
    }

    /// The members of the group.
    pub fn devices(&self) -> (r: &Vec<Vec<u8>>)
        ensures
            r.deep_view() == self.devices_view(),
    {
        &self.devices
    }

    pub fn threshold(&self) -> (r: u32)
        ensures
            r == self.threshold_view(),
    {
        self.threshold
    }

    pub fn protocol(&self) -> (r: ProtocolType)
        ensures
            r == self.protocol_view(),
    {
        self.protocol
    }
}

} // verus!
