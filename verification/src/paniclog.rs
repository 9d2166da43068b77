//! Panic log lines and the size rule of the log file.
use vstd::prelude::*;
use crate::text::{lit, push_str, push_char};

verus! {

/// Largest log file before it is rotated (1 MiB).
pub const MAX_LOG_BYTES: u64 = 1048576;

pub const LOG_FILE: &'static str = "app.log";

pub const ROTATED_FILE: &'static str = "app.log.1";

/// One log line: `[time] panic at location: message` and a line break.
pub fn compose_line(now: &str, location: &str, payload: &str) -> (r: String)
    ensures
        r@ == seq!['['] + now@ + "] panic at "@ + location@ + seq![':', ' '] + payload@ + seq!['\n'],
{
    let mut s = String::new();
    push_char(&mut s, '[');
    push_str(&mut s, now);
    push_str(&mut s, "] panic at ");
    push_str(&mut s, location);
    push_char(&mut s, ':');
    push_char(&mut s, ' ');
    push_str(&mut s, payload);
    push_char(&mut s, '\n');
    proof {
        assert(s@ =~= seq!['['] + now@ + "] panic at "@ + location@ + seq![':', ' '] + payload@ + seq!['\n']);
    }
    s
}

/// Whether a log file of `len` bytes is rotated before the next line.
pub fn needs_rotation(len: u64) -> (r: bool)
    ensures
        r == (len >= MAX_LOG_BYTES),
{
    len >= MAX_LOG_BYTES
}

} // verus!
