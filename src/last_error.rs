//! The last-error register behind the flat C interface: a text slot that
//! every call overwrites, and its copy as a bounded NUL-terminated string.
use vstd::prelude::*;
use vstd::string::*;

verus! {

/// Bytes of the buffer that holds the C copy of the last error, the
/// terminating NUL included.
pub const ERROR_BUF_SIZE: usize = 256;

/// Overwrites the register with `err`.
pub fn set_last_error(slot: &mut String, err: &str)
    ensures
        final(slot)@ == err@,
{
    *slot = err.to_owned();
}

/// Empties the register.
pub fn clear_last_error(slot: &mut String)
    ensures
        final(slot)@ == Seq::<char>::empty(),
{
    set_last_error(slot, "");
    proof {
        reveal_strlit("");
    }
}

/// The length kept of a text of `len` bytes in the C buffer.
pub open spec fn kept_len(len: int) -> int {
    if len < ERROR_BUF_SIZE - 1 {
        len
    } else {
        ERROR_BUF_SIZE - 1
    }
}

/// The C copy of `err`: its first bytes, as many as fit beside the
/// terminator, then a NUL.
pub fn last_error_bytes(err: &str) -> (r: Vec<u8>)
    ensures
        r@ == err.spec_bytes().subrange(0, kept_len(err.spec_bytes().len() as int)).push(0u8),
{
    let bytes = err.as_bytes();
    let len = if bytes.len() < ERROR_BUF_SIZE - 1 {
        bytes.len()
    } else {
        ERROR_BUF_SIZE - 1
    };
    let mut r: Vec<u8> = Vec::new();
    let mut i: usize = 0;
    while i < len
        invariant
            len <= bytes@.len(),
            len == kept_len(bytes@.len() as int),
            bytes@ == err.spec_bytes(),
            i <= len,
            r@ == bytes@.subrange(0, i as int),
        decreases len - i,
    {
        r.push(bytes[i]);
        assert(r@ == bytes@.subrange(0, i + 1));
        i = i + 1;
    }
    r.push(0);
    r
}

} // verus!
