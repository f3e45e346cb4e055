//! Baud-rate divisors of a PL011 UART.
use vstd::prelude::*;

verus! {

/// Which PL011 a divisor is computed for: the debug UART of the SoC or one
/// of the UARTs behind the RP1 south bridge.
#[derive(Debug, Clone, Copy, PartialEq, Eq, Structural)]
pub enum UartNum {
    Debug,
    Rp1 { device_num: u8 },
}

/// Reference clock of the debug UART, in Hz.
pub const DEBUG_UART_CLOCK: u32 = 44_000_000;

/// Reference clock of the RP1 UARTs, in Hz.
pub const RP1_UART_CLOCK: u32 = 50_000_000;

pub open spec fn uart_clock(kind: UartNum) -> int {
    match kind {
        UartNum::Debug => DEBUG_UART_CLOCK as int,
        UartNum::Rp1 { .. } => RP1_UART_CLOCK as int,
    }
}

/// The integer part of the divisor: the clock over sixteen times the rate.
pub open spec fn integer_divisor(clock: int, baudrate: int) -> int {
    clock / baudrate / 16
}

/// The six-bit fractional part of the divisor, rounded to nearest.
pub open spec fn fractional_divisor(clock: int, baudrate: int) -> int {
    ((clock * 8 / baudrate + 1) / 2) % 64
}

/// The integer and fractional baud-rate divisors that program `uart_kind`
/// for `baudrate`.
pub fn uart_divisors(uart_kind: UartNum, baudrate: u32) -> (r: (u32, u32))
    requires
        baudrate > 0,
    ensures
        r.0 == integer_divisor(uart_clock(uart_kind), baudrate as int),
        r.1 == fractional_divisor(uart_clock(uart_kind), baudrate as int),
{
    let uart_clk: u32 = if uart_kind == UartNum::Debug {
        DEBUG_UART_CLOCK
    } else {
        RP1_UART_CLOCK
    };
    let divisor_i = uart_clk / baudrate / 16;
    let divisor_f = ((uart_clk * 8 / baudrate + 1) / 2) % 64;
    (divisor_i, divisor_f)
}

} // verus!
