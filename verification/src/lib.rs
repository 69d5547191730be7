//! exzet: task files, content-addressed workspaces and the client/daemon
//! wire protocol, with their contracts proved by Verus.
use vstd::prelude::*;
use crate::text::{hex_lower, hex_of, string_of};

pub mod cas;
pub mod cell;
pub mod client;
pub mod daemon;
pub mod exfile;
pub mod nfs;
pub mod proto;
pub mod text;

verus! {

/// The port exzed listens on when none is given.
pub const DEFAULT_PORT: u16 = 7433;

/// `getrandom::Error`, the failure of the system's random source, as an
/// opaque type.
#[verifier::external_type_specification]
#[verifier::external_body]
pub struct ExRandomError(getrandom::Error);

/// Calls `getrandom::fill` on the buffer. Trusted: the buffer keeps its
/// length, and an empty buffer is filled without error, since `fill` only
/// consults the system's random source for a non-empty one. Whether it
/// succeeds on a non-empty buffer, and which bytes it writes, depend on that
/// source and are left open.
#[verifier::external_body]
fn fill_random(buf: &mut Vec<u8>) -> (r: Result<(), getrandom::Error>)
    ensures
        final(buf)@.len() == old(buf)@.len(),
        old(buf)@.len() == 0 ==> r is Ok,
{
    getrandom::fill(buf.as_mut_slice())
}

/// `n` random bytes in lower-case hexadecimal, or nothing when the system
/// has no randomness to give. No bytes are asked for when `n` is zero, so
/// then the result is the empty string.
pub fn rand_hex(n: usize) -> (r: Option<String>)
    ensures
        n == 0 ==> (r matches Some(s) && s@ == Seq::<char>::empty()),
        r matches Some(s) ==> exists|b: Seq<u8>| b.len() == n && #[trigger] hex_lower(b) == s@,
{
    let mut buf: Vec<u8> = Vec::new();
    let mut i: usize = 0;
    while i < n
        invariant
            i <= n,
            buf@.len() == i,
        decreases n - i,
    {
        buf.push(0);
        i += 1;
    }
    match fill_random(&mut buf) {
        Ok(()) => {
            let h = hex_of(buf.as_slice());
            let s = string_of(h.as_slice());
            assert(hex_lower(buf@) == s@);
            if n == 0 {
                assert(buf@.len() == 0);
                assert(hex_lower(buf@) == Seq::<char>::empty());
            }
            Some(s)
        },
        Err(_) => None,
    }
}

} // verus!
