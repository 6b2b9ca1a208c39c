//! Byte strings that are scrubbed from memory when they are dropped.

use vstd::prelude::*;
use zeroize::Zeroizing;

verus! {

/// A byte string inside `zeroize::Zeroizing`, which overwrites it with zeros when
/// it is dropped. What happens on drop is `Zeroizing`'s own doing and is not
/// stated here; what the value holds while it lives is `secret_contents`.
#[verifier::external_body]
pub struct SecretBytes {
    inner: Zeroizing<Vec<u8>>,
}

/// The bytes that a secret holds.
pub uninterp spec fn secret_contents(s: SecretBytes) -> Seq<u8>;

/// `zeroize::Zeroizing::new`: moves the vector inside the scrubbing wrapper, which
/// then holds exactly the vector's bytes.
#[verifier::external_body]
fn seal(bytes: Vec<u8>) -> (s: SecretBytes)
    ensures
        secret_contents(s) == bytes@,
{
    SecretBytes { inner: Zeroizing::new(bytes) }
}

/// `Deref` of `zeroize::Zeroizing`: lends the wrapped vector as it is.
#[verifier::external_body]
fn lend(s: &SecretBytes) -> (bytes: &[u8])
    ensures
        bytes@ == secret_contents(*s),
{
    s.inner.as_slice()
}

impl View for SecretBytes {
    type V = Seq<u8>;

    open spec fn view(&self) -> Seq<u8> {
        secret_contents(*self)
    }
}

impl SecretBytes {
    /// Takes the bytes over; they are scrubbed when the result is dropped.
    pub fn new(bytes: Vec<u8>) -> (s: SecretBytes)
        ensures
            s@ == bytes@,
    {
        seal(bytes)
    }

    /// The bytes.
    pub fn as_slice(&self) -> (bytes: &[u8])
        ensures
            bytes@ == self@,
    {
        lend(self)
    }
}

} // verus!
