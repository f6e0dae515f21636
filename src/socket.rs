//! A plain-value socket state with pure transitions, for callers that hold the
//! state themselves and pass it by value.
use crate::device::mock::POWER_SCALE;
use vstd::prelude::*;

verus! {

/// A socket's switch and its power draw, in milliwatts.
#[derive(Clone, Copy, Debug, PartialEq, Eq, Structural)]
pub struct Socket {
    pub is_on: bool,
    pub power: u32,
}

/// The socket switched on; its draw is kept.
pub fn set_on(socket: Socket) -> (r: Socket)
    ensures
        r == (Socket { is_on: true, ..socket }),
{
    Socket { is_on: true, ..socket }
}

/// The socket switched off, drawing nothing.
pub fn set_off(socket: Socket) -> (r: Socket)
    ensures
        r == (Socket { is_on: false, power: 0 }),
{
    Socket { is_on: false, power: 0 }
}

/// The socket with a fresh draw: `draw % POWER_SCALE` milliwatts where it is
/// on, nothing where it is off.
pub fn update_power_with(socket: Socket, draw: u32) -> (r: Socket)
    ensures
        r.is_on == socket.is_on,
        r.power == (if socket.is_on {
            draw % POWER_SCALE
        } else {
            0
        }),
{
    let power = if socket.is_on {
        draw % POWER_SCALE
    } else {
        0
    };
    Socket { power, ..socket }
}

/// The socket with a random fresh draw where it is on, nothing where it is off.
pub fn update_power(socket: Socket) -> (r: Socket)
    ensures
        r.is_on == socket.is_on,
        r.power < POWER_SCALE,
        !socket.is_on ==> r.power == 0,
{
    let draw: u32 = rand::random::<u32>();
    update_power_with(socket, draw)
}

} // verus!
