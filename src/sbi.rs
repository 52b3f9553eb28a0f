//! Supervisor binary interface calls for the console.
use vstd::prelude::*;

verus! {

/// What an SBI call hands back: an error code and a value.
pub struct SBIReturn {
    pub error: usize,
    pub value: usize,
}

/// An SBI call to make: six arguments, the function id and the extension id.
#[derive(Clone, Copy, Debug, PartialEq, Eq, Structural)]
pub struct SbiCall {
    pub arg0: usize,
    pub arg1: usize,
    pub arg2: usize,
    pub arg3: usize,
    pub arg4: usize,
    pub arg5: usize,
    pub fid: usize,
    pub eid: usize,
}

/// Extension id of the legacy console putchar call.
pub const EID_CONSOLE_PUTCHAR: usize = 1;

/// The call that writes `ch` to the console.
pub fn put_char(ch: char) -> (r: SbiCall)
    ensures
        r.arg0 == ch as usize,
        r.arg1 == 0 && r.arg2 == 0 && r.arg3 == 0 && r.arg4 == 0 && r.arg5 == 0,
        r.fid == 0,
        r.eid == EID_CONSOLE_PUTCHAR,
{
    SbiCall { arg0: ch as usize, arg1: 0, arg2: 0, arg3: 0, arg4: 0, arg5: 0, fid: 0, eid: EID_CONSOLE_PUTCHAR }
}

/// Writes text to the console, one byte per call.
pub struct SBIWriter;

impl SBIWriter {
    /// The calls that write `bytes`, in order.
    pub fn write_bytes(&self, bytes: &Vec<u8>) -> (r: Vec<SbiCall>)
        ensures
            r@.len() == bytes@.len(),
            forall|i: int|
                0 <= i < bytes@.len() ==> #[trigger] r@[i] == (SbiCall {
                    arg0: bytes@[i] as usize,
                    arg1: 0,
                    arg2: 0,
                    arg3: 0,
                    arg4: 0,
                    arg5: 0,
                    fid: 0,
                    eid: EID_CONSOLE_PUTCHAR,
                }),
    {
        let mut r: Vec<SbiCall> = Vec::new();
        let mut i: usize = 0;
        while i < bytes.len()
            invariant
                i <= bytes@.len(),
                r@.len() == i,
                forall|j: int|
                    0 <= j < i ==> #[trigger] r@[j] == (SbiCall {
                        arg0: bytes@[j] as usize,
                        arg1: 0,
                        arg2: 0,
                        arg3: 0,
                        arg4: 0,
                        arg5: 0,
                        fid: 0,
                        eid: EID_CONSOLE_PUTCHAR,
                    }),
            decreases bytes@.len() - i,
        {
            r.push(put_char(bytes[i] as char));
            i += 1;
        }
        r
    }
}

} // verus!
