//! The NS16550a serial port: its register base and the bytes received but
//! not read yet.
use std::collections::VecDeque;
use vstd::prelude::*;

verus! {

/// The registers of the port, at `base_addr`.
#[derive(Copy, Clone, Debug, PartialEq, Eq, Structural)]
pub struct NS16550aRaw {
    pub base_addr: usize,
}

impl NS16550aRaw {
    /// The port whose registers start at `base_addr`.
    pub fn new(base_addr: usize) -> (r: Self)
        ensures
            r.base_addr == base_addr,
    {
        NS16550aRaw { base_addr }
    }
}

/// The port at `BASE_ADDR` with its read buffer.
pub struct NS16550a<const BASE_ADDR: usize> {
    pub ns16550a: NS16550aRaw,
    pub read_buffer: VecDeque<u8>,
}

impl<const BASE_ADDR: usize> NS16550a<BASE_ADDR> {
    /// The port at `BASE_ADDR`, with nothing received.
    pub fn new() -> (r: Self)
        ensures
            r.ns16550a.base_addr == BASE_ADDR,
            r.read_buffer@.len() == 0,
    {
        NS16550a { ns16550a: NS16550aRaw::new(BASE_ADDR), read_buffer: VecDeque::new() }
    }

    /// Whether no received byte waits to be read.
    pub fn read_buffer_is_empty(&self) -> (r: bool)
        ensures
            r == (self.read_buffer@.len() == 0),
    {
        self.read_buffer.len() == 0
    }
}

} // verus!
