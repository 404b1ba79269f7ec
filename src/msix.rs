//! The MSI-X capability of a PCI device, decoded from its register values.

use vstd::prelude::*;

verus! {

/// One of the six base address registers of a general device.
#[derive(Clone, Copy, Debug, PartialEq, Eq, Structural)]
pub enum StandardRegister {
    Register0,
    Register1,
    Register2,
    Register3,
    Register4,
    Register5,
}

/// The number of each base address register.
pub open spec fn register_number(r: StandardRegister) -> usize {
    match r {
        StandardRegister::Register0 => 0,
        StandardRegister::Register1 => 1,
        StandardRegister::Register2 => 2,
        StandardRegister::Register3 => 3,
        StandardRegister::Register4 => 4,
        StandardRegister::Register5 => 5,
    }
}

impl StandardRegister {
    /// The register with number `value`; numbers above 5 name none.
    pub fn try_from_index(value: usize) -> (r: Option<StandardRegister>)
        ensures
            r is Some <==> value < 6,
            r matches Some(reg) ==> register_number(reg) == value,
    {
        match value {
            0 => Some(StandardRegister::Register0),
            1 => Some(StandardRegister::Register1),
            2 => Some(StandardRegister::Register2),
            3 => Some(StandardRegister::Register3),
            4 => Some(StandardRegister::Register4),
            5 => Some(StandardRegister::Register5),
            _ => None,
        }
    }
}

/// One entry of the MSI-X message table.
#[derive(Clone, Copy, Debug, PartialEq, Eq, Structural)]
pub struct MessageTableEntry {
    pub msg_addr_low: u32,
    pub msg_addr_high: u32,
    pub msg_data: u32,
    pub mask: u32,
}

impl MessageTableEntry {
    /// The message address: the high word above the low word, whose low five
    /// bits are dropped.
    pub fn get_addr(&self) -> (r: u64)
        ensures
            r == (self.msg_addr_high as u64) * 0x1_0000_0000 + (self.msg_addr_low & !0b11111u32) as u64,
    {
        let addr_low = (self.msg_addr_low & !0b11111u32) as u64;
        let high = self.msg_addr_high as u64;
        let addr_high = high << 32u64;
        assert(addr_high == high * 0x1_0000_0000 && (addr_high | addr_low) == addr_high + addr_low) by (bit_vector)
            requires addr_high == high << 32u64, high < 0x1_0000_0000, addr_low < 0x1_0000_0000;
        addr_high | addr_low
    }

    /// The message data.
    pub fn get_message_data(&self) -> (r: u32)
        ensures
            r == self.msg_data,
    {
        self.msg_data
    }

    /// Sets the message data.
    pub fn set_message_data(&mut self, value: u32)
        ensures
            *final(self) == (MessageTableEntry { msg_data: value, ..*old(self) }),
    {
        self.msg_data = value;
    }

    /// Whether the entry is masked (bit 0 of the vector control word).
    pub fn get_masked(&self) -> (r: bool)
        ensures
            r == ((self.mask & 1u32) != 0),
    {
        (self.mask & 1u32) != 0
    }
}

/// The message control register of the capability.
#[derive(Clone, Copy, Debug, PartialEq, Eq, Structural)]
pub struct MessageControl {
    pub reg0: u32,
}

impl MessageControl {
    /// The table size field, bits 16 to 26.
    pub fn get_table_len(&self) -> (r: usize)
        ensures
            r == (self.reg0 >> 16u32) & 0x7FFu32,
    {
        ((self.reg0 >> 16u32) & 0x7FFu32) as usize
    }

    /// Whether every vector is masked (bit 30).
    pub fn get_force_mask(&self) -> (r: bool)
        ensures
            r == ((self.reg0 & 0x4000_0000u32) != 0),
    {
        (self.reg0 & 0x4000_0000u32) != 0
    }

    /// Whether MSI-X is enabled (bit 31).
    pub fn get_enable(&self) -> (r: bool)
        ensures
            r == ((self.reg0 & 0x8000_0000u32) != 0),
    {
        (self.reg0 & 0x8000_0000u32) != 0
    }
}

/// The MSI-X capability structure.
#[derive(Clone, Copy, Debug, PartialEq, Eq, Structural)]
pub struct MSIX {
    pub message_control: MessageControl,
    pub reg1: u32,
    pub reg2: u32,
}

impl MSIX {
    /// The message control register.
    pub fn message_control(&self) -> (r: &MessageControl)
        ensures
            *r == self.message_control,
    {
        &self.message_control
    }

    /// The base address register that holds the message table (bits 0 to 2
    /// of the table register, which must name one).
    pub fn get_table_bir(&self) -> (r: StandardRegister)
        requires
            self.reg1 & 7u32 < 6,
        ensures
            register_number(r) == self.reg1 & 7u32,
    {
        match StandardRegister::try_from_index((self.reg1 & 7u32) as usize) {
            Some(reg) => reg,
            None => StandardRegister::Register0,
        }
    }

    /// The message table's offset within its register's space.
    pub fn get_table_offset(&self) -> (r: usize)
        ensures
            r == self.reg1 & !7u32,
    {
        (self.reg1 & !7u32) as usize
    }

    /// The base address register that holds the pending bit array (bits 0 to
    /// 2 of the pending register, which must name one).
    pub fn get_pending_bit_bir(&self) -> (r: StandardRegister)
        requires
            self.reg2 & 7u32 < 6,
        ensures
            register_number(r) == self.reg2 & 7u32,
    {
        match StandardRegister::try_from_index((self.reg2 & 7u32) as usize) {
            Some(reg) => reg,
            None => StandardRegister::Register0,
        }
    }

    /// The pending bit array's offset within its register's space.
    pub fn get_pending_bit_offset(&self) -> (r: usize)
        ensures
            r == self.reg2 & !7u32,
    {
        (self.reg2 & !7u32) as usize
    }
}

} // verus!
