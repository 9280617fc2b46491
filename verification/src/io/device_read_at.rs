//! Reads whose bytes end up on a device.

use vstd::prelude::*;

use crate::io::read_at::CoalesceConfig;
use crate::io::read_at::VortexReadAt;

verus! {

/// A source whose bytes are copied to a device, where they are not there already.
pub struct CopyDeviceReadAt<T> {
    read: T,
}

/// Where the bytes of a read are.
#[derive(Clone, Copy, Debug, PartialEq, Eq, Structural)]
pub enum Placement {
    /// On the device.
    Device,
    /// On the host.
    Host,
}

/// What is done with the bytes of a read.
#[derive(Clone, Copy, Debug, PartialEq, Eq, Structural)]
pub enum DeviceStep {
    /// They are handed on.
    Return,
    /// They are copied to the device first.
    CopyToDevice,
}

impl<T: VortexReadAt> CopyDeviceReadAt<T> {
    /// The source that is read.
    pub closed spec fn source(&self) -> T {
        self.read
    }

    /// A source that copies what it reads.
    pub fn new(read: T) -> (reader: Self)
        ensures
            reader.source() == read,
    {
        CopyDeviceReadAt { read }
    }

    /// What is done with the bytes of a read: those on the device already are handed on.
    pub fn after_read(&self, placement: Placement) -> (step: DeviceStep)
        ensures
            step == (match placement {
                Placement::Device => DeviceStep::Return,
                Placement::Host => DeviceStep::CopyToDevice,
            }),
    {
        match placement {
            Placement::Device => DeviceStep::Return,
            Placement::Host => DeviceStep::CopyToDevice,
        }
    }
}

/// The identity of the source that a reader forwards to.
pub fn forwarded_diagnostic_instance_id<T: VortexReadAt>(read: &T) -> (id: Option<u64>)
    ensures
        id == read.instance_id(),
{
    read.diagnostic_instance_id()
}

impl<T: VortexReadAt> VortexReadAt for CopyDeviceReadAt<T> {
    closed spec fn instance_id(&self) -> Option<u64> {
        self.read.instance_id()
    }

    closed spec fn name(&self) -> Option<Seq<char>> {
        self.read.name()
    }

    closed spec fn coalescing(&self) -> Option<CoalesceConfig> {
        self.read.coalescing()
    }

    closed spec fn at_once(&self) -> usize {
        self.read.at_once()
    }

    fn diagnostic_instance_id(&self) -> Option<u64> {
        forwarded_diagnostic_instance_id(&self.read)
    }

    fn uri(&self) -> Option<&String> {
        self.read.uri()
    }

    fn coalesce_config(&self) -> Option<CoalesceConfig> {
        self.read.coalesce_config()
    }

    fn concurrency(&self) -> usize {
        self.read.concurrency()
    }
}

/// A source that copies what it reads is known by what the source it reads is known by, and reads
/// as that does.
pub proof fn law_forwards<T: VortexReadAt>(reader: CopyDeviceReadAt<T>)
    ensures
        reader.instance_id() == reader.source().instance_id(),
        reader.name() == reader.source().name(),
        reader.coalescing() == reader.source().coalescing(),
        reader.at_once() == reader.source().at_once(),
{
}

} // verus!
