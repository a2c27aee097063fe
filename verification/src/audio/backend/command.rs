//! The commands a stream thread obeys.

use vstd::prelude::*;

verus! {

/// What the stream thread is to do.
#[derive(Clone, Copy, Debug, PartialEq, Eq, Structural)]
pub enum Cmd {
    /// Configured, moving nothing.
    Prepared,
    Running,
    Stopped,
    /// Unwind and exit; no command comes after it.
    Dead,
}

/// A command taken in: once dead, always dead.
pub open spec fn commanded(now: Cmd, c: Cmd) -> Cmd {
    if now == Cmd::Dead {
        Cmd::Dead
    } else {
        c
    }
}

pub fn set_command(now: Cmd, c: Cmd) -> (r: Cmd)
    ensures
        r == commanded(now, c),
{
    if now != Cmd::Dead {
        c
    } else {
        now
    }
}

/// No command brings a dead stream back, however many follow.
pub proof fn law_dead_is_terminal(c: Cmd, d: Cmd)
    ensures
        commanded(commanded(c, Cmd::Dead), d) == Cmd::Dead,
{
}

/// Any command but the last is obeyed as it is given.
pub proof fn law_commands_are_obeyed(now: Cmd, c: Cmd)
    ensures
        now != Cmd::Dead ==> commanded(now, c) == c,
        commanded(now, c) == Cmd::Dead <==> now == Cmd::Dead || c == Cmd::Dead,
{
}

} // verus!
