//! The console side of the kernel: a handle on the memory-mapped 16550-style
//! UART, and the byte-by-byte decisions of the echo loop that `kmain` runs.
//! The volatile register reads and writes themselves stay outside the
//! library; this module decides what each received byte means and which
//! bytes to send back.
use vstd::prelude::*;

verus! {

/// Handle on a 16550-compatible UART at a fixed MMIO base address.
pub struct Uart {
    base_addr: usize,
}

impl Uart {
    pub closed spec fn spec_base(self) -> usize {
        self.base_addr
    }

    pub fn new(base_addr: usize) -> (r: Uart)
        ensures
            r.spec_base() == base_addr,
    {
        Uart { base_addr }
    }

    /// The MMIO base address the handle was created with.
    pub fn base(&self) -> (r: usize)
        ensures
            r == self.spec_base(),
    {
        self.base_addr
    }
}

/// Where the echo loop stands inside a three-byte arrow-key escape sequence.
#[derive(Clone, Copy, Debug, PartialEq, Eq, Structural)]
pub enum EchoState {
    Idle,
    SawEsc,
    SawCsi,
}

/// What the echo loop does with one received byte: the next state and the
/// bytes written back to the UART.
pub open spec fn spec_echo_step(st: EchoState, c: u8) -> (EchoState, Seq<u8>) {
    match st {
        EchoState::Idle => {
            if c == 8 {
                (EchoState::Idle, seq![8u8, 32u8, 8u8])
            } else if c == 10 || c == 13 {
                (EchoState::Idle, seq![13u8, 10u8])
            } else if c == 27 {
                (EchoState::SawEsc, Seq::<u8>::empty())
            } else {
                (EchoState::Idle, seq![c])
            }
        },
        EchoState::SawEsc => {
            if c == 91 {
                (EchoState::SawCsi, Seq::<u8>::empty())
            } else {
                (EchoState::Idle, Seq::<u8>::empty())
            }
        },
        EchoState::SawCsi => {
            if c == 65 {
                (EchoState::Idle, seq![85u8, 112u8, 13u8, 10u8])
            } else if c == 66 {
                (EchoState::Idle, seq![68u8, 111u8, 119u8, 110u8, 13u8, 10u8])
            } else if c == 67 {
                (EchoState::Idle, seq![76u8, 101u8, 102u8, 116u8, 13u8, 10u8])
            } else if c == 68 {
                (EchoState::Idle, seq![82u8, 105u8, 103u8, 104u8, 116u8, 13u8, 10u8])
            } else {
                (EchoState::Idle, seq![73u8, 100u8, 107u8, 13u8, 10u8])
            }
        },
    }
}

/// One step of the echo loop: backspace rubs out a character, a newline or
/// carriage return starts a new line, `ESC [ A..D` prints the arrow key's
/// label (up, down, left, right), anything else is echoed back.
pub fn echo_step(st: EchoState, c: u8) -> (r: (EchoState, Vec<u8>))
    ensures
        r.0 == spec_echo_step(st, c).0,
        r.1@ == spec_echo_step(st, c).1,
{
    match st {
        EchoState::Idle => {
            if c == 8 {
                (EchoState::Idle, vec![8u8, 32u8, 8u8])
            } else if c == 10 || c == 13 {
                (EchoState::Idle, vec![13u8, 10u8])
            } else if c == 27 {
                (EchoState::SawEsc, Vec::new())
            } else {
                (EchoState::Idle, vec![c])
            }
        },
        EchoState::SawEsc => {
            if c == 91 {
                (EchoState::SawCsi, Vec::new())
            } else {
                (EchoState::Idle, Vec::new())
            }
        },
        EchoState::SawCsi => {
            if c == 65 {
                (EchoState::Idle, vec![85u8, 112u8, 13u8, 10u8])
            } else if c == 66 {
                (EchoState::Idle, vec![68u8, 111u8, 119u8, 110u8, 13u8, 10u8])
            } else if c == 67 {
                (EchoState::Idle, vec![76u8, 101u8, 102u8, 116u8, 13u8, 10u8])
            } else if c == 68 {
                (EchoState::Idle, vec![82u8, 105u8, 103u8, 104u8, 116u8, 13u8, 10u8])
            } else {
                (EchoState::Idle, vec![73u8, 100u8, 107u8, 13u8, 10u8])
            }
        },
    }
}

} // verus!
