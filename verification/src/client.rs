//! Per-connection identity: the socket id, an optional public key for
//! end-to-end encryption, and the owning application's id. The transport
//! itself lives with the caller that runs the connection.

use vstd::prelude::*;
use crate::crypto;
use crate::json::is_digit;

verus! {

/// Socket ids look like `NNNNNN.NNNNNN`: six digits, a dot, six digits.
pub open spec fn is_valid_socket_id(s: Seq<u8>) -> bool {
    &&& s.len() == 13
    &&& s[6] == 0x2e
    &&& forall|i: int| 0 <= i < 13 && i != 6 ==> is_digit(#[trigger] s[i])
}

/// The six zero-padded decimal digits of `n`.
pub open spec fn spec_six_digits(n: u64) -> Seq<u8> {
    seq![
        (0x30 + (n / 100000) % 10) as u8,
        (0x30 + (n / 10000) % 10) as u8,
        (0x30 + (n / 1000) % 10) as u8,
        (0x30 + (n / 100) % 10) as u8,
        (0x30 + (n / 10) % 10) as u8,
        (0x30 + n % 10) as u8,
    ]
}

/// Append the six zero-padded digits of `n < 1000000`.
fn push_six_digits(n: u64, out: &mut Vec<u8>)
    requires
        n < 1000000,
    ensures
        final(out)@ == old(out)@ + spec_six_digits(n),
{
    out.push((0x30 + (n / 100000) % 10) as u8);
    out.push((0x30 + (n / 10000) % 10) as u8);
    out.push((0x30 + (n / 1000) % 10) as u8);
    out.push((0x30 + (n / 100) % 10) as u8);
    out.push((0x30 + (n / 10) % 10) as u8);
    out.push((0x30 + n % 10) as u8);
    proof {
        assert(final(out)@ =~= old(out)@ + spec_six_digits(n));
    }
}

/// A connection identity.
pub struct Client {
    pub socket_id: Vec<u8>,
    pub public_key: Vec<u8>,
    pub app_id: Vec<u8>,
}

impl Client {
    /// A fresh socket id: two uniform numbers below one million, zero-padded
    /// to six digits each and joined with a dot.
    pub fn generate_unique_socket_id() -> (r: Vec<u8>)
        ensures
            is_valid_socket_id(r@),
    {
        let a = crypto::random_below_million();
        let b = crypto::random_below_million();
        let mut out: Vec<u8> = Vec::new();
        push_six_digits(a, &mut out);
        out.push(0x2e);
        push_six_digits(b, &mut out);
        proof {
            assert forall|i: int| 0 <= i < 13 && i != 6 implies is_digit(#[trigger] out@[i]) by {
                assert(out@ =~= spec_six_digits(a) + seq![0x2eu8] + spec_six_digits(b));
            }
            assert(out@.len() == 13);
            assert(out@[6] == 0x2e);
        }
        out
    }

    /// A client of the given application, with a fresh socket id and no
    /// public key.
    pub fn new(app_id: Vec<u8>) -> (r: Client)
        ensures
            r.app_id@ == app_id@,
            is_valid_socket_id(r.socket_id@),
            r.public_key@ == Seq::<u8>::empty(),
    {
        Client {
            socket_id: Self::generate_unique_socket_id(),
            public_key: Vec::new(),
            app_id,
        }
    }

    pub fn get_socket_id(&self) -> (r: &Vec<u8>)
        ensures
            r@ == self.socket_id@,
    {
        &self.socket_id
    }

    pub fn get_app_id(&self) -> (r: &Vec<u8>)
        ensures
            r@ == self.app_id@,
    {
        &self.app_id
    }

    pub fn set_public_key(&mut self, public_key: Vec<u8>)
        ensures
            final(self).public_key@ == public_key@,
            final(self).socket_id == old(self).socket_id,
            final(self).app_id == old(self).app_id,
    {
        self.public_key = public_key;
    }
}

} // verus!
