//! Account signatures.

use crate::ids::Address;
use snarkvm::prelude::{FromBytes, ToBytes};
use vstd::prelude::*;

verus! {

/// The address of the account whose signature the bytes encode, if they encode one.
pub uninterp spec fn signature_address(bytes: Seq<u8>) -> Option<Address>;

/// Calls `from_bytes_le` and `to_address` of snarkVM's account `Signature`, and hands
/// out the x-coordinate of the address. What comes out is a function of the bytes
/// alone: nothing where they do not decode, else the signer's address.
#[verifier::external_body]
fn decode_signer(bytes: &Vec<u8>) -> (r: Option<Address>)
    ensures
        r == signature_address(bytes@),
{
    let signature = snarkvm::prelude::Signature::<snarkvm::prelude::Testnet3>::from_bytes_le(bytes).ok()?;
    let x = signature.to_address().to_x_coordinate().to_bytes_le().ok()?;
    let low: [u8; 16] = x.get(..16)?.try_into().ok()?;
    let high: [u8; 16] = x.get(16..)?.try_into().ok()?;
    Some((u128::from_le_bytes(low), u128::from_le_bytes(high)))
}

/// An account signature, in encoded form.
#[derive(Debug, PartialEq, Eq)]
pub struct Signature {
    bytes: Vec<u8>,
}

impl View for Signature {
    type V = Seq<u8>;

    closed spec fn view(&self) -> Seq<u8> {
        self.bytes@
    }
}

impl Signature {
    /// The bytes encode a signature.
    #[verifier::type_invariant]
    spec fn inv(self) -> bool {
        signature_address(self.bytes@) is Some
    }

    /// Returns the signature that the bytes encode, if they encode one.
    pub fn from_bytes_le(bytes: Vec<u8>) -> (r: Option<Self>)
        ensures
            match r {
                Some(s) => s@ == bytes@ && signature_address(bytes@) is Some,
                None => signature_address(bytes@) is None,
            },
    {
        match decode_signer(&bytes) {
            Some(_) => Some(Signature { bytes }),
            None => None,
        }
    }

    /// Returns the encoded signature.
    pub fn to_bytes_le(&self) -> (r: &Vec<u8>)
        ensures
            r@ == self@,
    {
        &self.bytes
    }

    /// Returns the signer address.
    pub fn to_address(&self) -> (r: Address)
        ensures
            signature_address(self@) == Some(r),
    {
        proof {
            use_type_invariant(self);
        }
        decode_signer(&self.bytes).unwrap()
    }
}

impl Clone for Signature {
    fn clone(&self) -> (r: Self)
        ensures
            r@ == self@,
    {
        proof {
            use_type_invariant(self);
        }
        let bytes = self.bytes.clone();
        assert(bytes@ =~= self.bytes@);
        Signature { bytes }
    }
}

} // verus!
