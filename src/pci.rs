//! PCI configuration-space registers, decoded from their raw values.

use vstd::prelude::*;

verus! {

/// Byte offsets of the fields of a PCI configuration-space header.
#[derive(Clone, Copy, Debug, PartialEq, Eq, Structural)]
pub enum PCIHeaderOffset {
    VendorID,
    DeviceID,
    Command,
    Status,
    RevisionID,
    ProgramInterface,
    Subclass,
    Class,
    CacheLineSize,
    LatencyTimer,
    HeaderType,
    BuiltInSelfTest,
}

/// The byte offset of each header field.
pub open spec fn header_offset(o: PCIHeaderOffset) -> u32 {
    match o {
        PCIHeaderOffset::VendorID => 0x0,
        PCIHeaderOffset::DeviceID => 0x2,
        PCIHeaderOffset::Command => 0x4,
        PCIHeaderOffset::Status => 0x6,
        PCIHeaderOffset::RevisionID => 0x8,
        PCIHeaderOffset::ProgramInterface => 0x9,
        PCIHeaderOffset::Subclass => 0xA,
        PCIHeaderOffset::Class => 0xB,
        PCIHeaderOffset::CacheLineSize => 0xC,
        PCIHeaderOffset::LatencyTimer => 0xD,
        PCIHeaderOffset::HeaderType => 0xE,
        PCIHeaderOffset::BuiltInSelfTest => 0xF,
    }
}

impl PCIHeaderOffset {
    /// The field's byte offset in the header.
    pub fn offset(self) -> (r: u32)
        ensures
            r == header_offset(self),
    {
        match self {
            PCIHeaderOffset::VendorID => 0x0,
            PCIHeaderOffset::DeviceID => 0x2,
            PCIHeaderOffset::Command => 0x4,
            PCIHeaderOffset::Status => 0x6,
            PCIHeaderOffset::RevisionID => 0x8,
            PCIHeaderOffset::ProgramInterface => 0x9,
            PCIHeaderOffset::Subclass => 0xA,
            PCIHeaderOffset::Class => 0xB,
            PCIHeaderOffset::CacheLineSize => 0xC,
            PCIHeaderOffset::LatencyTimer => 0xD,
            PCIHeaderOffset::HeaderType => 0xE,
            PCIHeaderOffset::BuiltInSelfTest => 0xF,
        }
    }
}

/// The status register of a device.
#[derive(Clone, Copy, Debug, PartialEq, Eq, Structural)]
pub struct PCIeStatusRegister(pub u16);

/// The DEVSEL timing that a device reports: 0 fast, 1 medium, 2 slow.
#[derive(Clone, Copy, Debug, PartialEq, Eq, Structural)]
pub struct PCIeDeviceSELTiming(pub u16);

impl PCIeDeviceSELTiming {
    pub const FAST: u16 = 0;
    pub const MEDIUM: u16 = 1;
    pub const SLOW: u16 = 2;
}

impl PCIeStatusRegister {
    /// The DEVSEL timing, bits 9 and 10 of the register.
    pub fn devsel_timing(&self) -> (r: PCIeDeviceSELTiming)
        ensures
            r.0 == (self.0 >> 9u16) & 3u16,
            r.0 < 4,
    {
        let bits = self.0;
        let v = (bits >> 9u16) & 3u16;
        assert(v < 4) by (bit_vector)
            requires v == (bits >> 9u16) & 3u16;
        PCIeDeviceSELTiming(v)
    }
}

/// The class code of a device.
#[derive(Clone, Copy, Debug, PartialEq, Eq, Structural)]
pub enum PCIeDeviceClass {
    Unclassified,
    MassStorageController,
    NetworkController,
    DisplayController,
    MultimediaController,
    MemoryController,
    Bridge,
    CommunicationController,
    GenericSystemPeripheral,
    InputDeviceController,
    DockingStation,
    Processor,
    SerialBusController,
    WirelessController,
    IntelligentController,
    SatelliteCommunicationsController,
    EncryptionController,
    SignalProcessingController,
    ProcessingAccelerators,
    NonEssentialInstrumentation,
    Coprocessor,
    Unassigned,
}

/// The built-in self test register of a device.
#[derive(Clone, Copy, Debug, PartialEq, Eq, Structural)]
pub struct PCIeBuiltinSelfTest {
    data: u8,
}

impl PCIeBuiltinSelfTest {
    /// The register's raw value.
    pub closed spec fn view(&self) -> u8 {
        self.data
    }

    /// The register holding `data`.
    pub fn new(data: u8) -> (r: PCIeBuiltinSelfTest)
        ensures
            r@ == data,
    {
        PCIeBuiltinSelfTest { data }
    }

    /// Whether the device supports a self test (bit 7).
    pub fn capable(&self) -> (r: bool)
        ensures
            r == ((self@ & 0x80u8) != 0),
    {
        (self.data & 0x80u8) > 0
    }

    /// Whether a self test is running (bit 6).
    pub fn start(&self) -> (r: bool)
        ensures
            r == ((self@ & 0x40u8) != 0),
    {
        (self.data & 0x40u8) > 0
    }

    /// The test's completion code, bits 0 to 2; zero on success.
    pub fn completion_code(&self) -> (r: u8)
        ensures
            r == self@ & 7u8,
    {
        self.data & 0b111
    }
}

/// A kind of device header.
pub trait PCIeDeviceType {}

/// A general device.
pub struct Standard;

impl PCIeDeviceType for Standard {}

/// A PCI-to-PCI bridge.
pub struct PCI2PCI;

impl PCIeDeviceType for PCI2PCI {}

/// A PCI-to-CardBus bridge.
pub struct PCI2CardBus;

impl PCIeDeviceType for PCI2CardBus {}

} // verus!
