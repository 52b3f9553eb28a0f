//! PCI bus/device/function addressing and the configuration-space words.
use vstd::prelude::*;

verus! {

/// A bus/device/function triple packed into 16 bits: bus (8 bits), device
/// (5 bits), function (3 bits).
#[derive(Clone, Copy, Debug, PartialEq, Eq, Structural)]
pub struct BusDeviceFunction(pub u16);

impl BusDeviceFunction {
    pub open spec fn bus_spec(self) -> int {
        (self.0 / 256) as int
    }

    pub open spec fn device_spec(self) -> int {
        ((self.0 / 8) % 32) as int
    }

    pub open spec fn function_spec(self) -> int {
        (self.0 % 8) as int
    }

    /// Packs the triple; the device keeps its low five bits, the function
    /// its low three.
    pub fn new(bus: u8, device: u8, function: u8) -> (r: BusDeviceFunction)
        ensures
            r.bus_spec() == bus,
            r.device_spec() == device % 32,
            r.function_spec() == function % 8,
    {
        let bus = bus as u16;
        let d = device as u16;
        let f = function as u16;
        assert(d < 256u16 ==> d & 0x1fu16 == d % 32u16) by (bit_vector);
        assert(f < 256u16 ==> f & 7u16 == f % 8u16) by (bit_vector);
        let device = d & 0x1f;
        let function = f & 0x7;
        assert(bus < 256u16 && device < 32u16 && function < 8u16 ==> {
            let v = bus << 8u16 | device << 3u16 | function;
            &&& v / 256u16 == bus
            &&& (v / 8u16) % 32u16 == device
            &&& v % 8u16 == function
        }) by (bit_vector);
        Self(bus << 8 | device << 3 | function)
    }

    pub fn bus(self) -> (r: u8)
        ensures
            r == self.bus_spec(),
    {
        let v = self.0;
        assert(v >> 8u16 == v / 256u16) by (bit_vector);
        (v >> 8) as u8
    }

    pub fn device(self) -> (r: u8)
        ensures
            r == self.device_spec(),
    {
        let v = self.0;
        assert((v >> 3u16) & 0x1fu16 == (v / 8u16) % 32u16) by (bit_vector);
        ((v >> 3) & 0b11111) as u8
    }

    pub fn function(self) -> (r: u8)
        ensures
            r == self.function_spec(),
    {
        let v = self.0;
        assert(v & 7u16 == v % 8u16) by (bit_vector);
        (v & 0b111) as u8
    }
}

/// The value written to the configuration address port to read the
/// doubleword at `offset` of the function `bdf`: enable bit, bus, device,
/// function and the offset with its low two bits cleared.
pub fn configuration_address(bdf: BusDeviceFunction, offset: u8) -> (r: u32)
    ensures
        r == 0x8000_0000 + bdf.bus_spec() * 65536 + bdf.device_spec() * 2048 + bdf.function_spec() * 256 + (
        offset / 4) * 4,
{
    let bus = bdf.bus() as u32;
    let device = bdf.device() as u32;
    let function = bdf.function() as u32;
    let o = offset as u32;
    assert(bus < 256u32 && device < 32u32 && function < 8u32 && o < 256u32 ==> (0x8000_0000u32 | bus << 16u32
        | device << 11u32 | function << 8u32 | o & 0xfcu32) == 0x8000_0000u32 + bus * 65536u32 + device
        * 2048u32 + function * 256u32 + (o / 4u32) * 4u32) by (bit_vector);
    0x8000_0000 | bus << 16 | device << 11 | function << 8 | o & 0xfc
}

/// The 16-bit word at `offset` within the doubleword `read` from the
/// configuration data port.
pub fn configuration_word(read: u32, offset: u8) -> (r: u16)
    ensures
        r == (if offset % 4 >= 2 {
            read / 65536
        } else {
            read % 65536
        }),
{
    let o = offset as u32;
    assert(o < 256u32 ==> ((o & 2u32) == 2u32) == (o % 4u32 >= 2u32)) by (bit_vector);
    assert(o < 256u32 ==> (o & 2u32) == 2u32 || (o & 2u32) == 0u32) by (bit_vector);
    let shift = (o & 2) * 8;
    assert(read >> 16u32 & 0xffffu32 == read / 65536u32) by (bit_vector);
    assert(read >> 0u32 & 0xffffu32 == read % 65536u32) by (bit_vector);
    (read >> shift & 0xFFFF) as u16
}

} // verus!
