//! The repeating-key XOR cipher.

use vstd::prelude::*;

verus! {

/// Why a key was refused.
#[derive(Clone, Copy, Debug, PartialEq, Eq)]
pub enum XorError {
    /// The key is empty: there is no byte to pair the data with.
    InvalidKey,
}

/// `data` with its `i`-th byte XORed with the key byte at `i mod key.len()`.
pub open spec fn xor_apply(data: Seq<u8>, key: Seq<u8>) -> Seq<u8> {
    Seq::new(data.len(), |i: int| data[i] ^ key[i % (key.len() as int)])
}

/// Applying a key twice gives the data back.
pub proof fn lemma_xor_apply_involution(data: Seq<u8>, key: Seq<u8>)
    requires
        key.len() > 0,
    ensures
        xor_apply(xor_apply(data, key), key) == data,
{
    let twice = xor_apply(xor_apply(data, key), key);
    assert forall|i: int| 0 <= i < data.len() implies twice[i] == data[i] by {
        let d = data[i];
        let k = key[i % (key.len() as int)];
        assert((d ^ k) ^ k == d) by (bit_vector);
    }
    assert(twice =~= data);
}

/// A repeating-key XOR cipher under a key that is not empty.
pub struct Xor<'a> {
    key: &'a [u8],
}

impl<'a> Xor<'a> {
    #[verifier::type_invariant]
    spec fn has_key(self) -> bool {
        self.key@.len() > 0
    }

    /// The key of the cipher.
    pub closed spec fn key(self) -> Seq<u8> {
        self.key@
    }

    /// The cipher under `key`, which must hold a byte at least.
    pub fn new(key: &'a [u8]) -> (made: Result<Xor<'a>, XorError>)
        ensures
            key@.len() == 0 <==> made is Err,
            made matches Ok(cipher) ==> cipher.key() == key@,
            made matches Err(e) ==> e == XorError::InvalidKey,
    {
        if key.len() == 0 {
            Err(XorError::InvalidKey)
        } else {
            Ok(Xor { key })
        }
    }

    /// XORs `input` with the key, repeated as often as needed.
    pub fn encrypt(&self, input: &[u8]) -> (output: Vec<u8>)
        ensures
            output@ == xor_apply(input@, self.key()),
    {
        proof {
            use_type_invariant(self);
        }
        let key_len = self.key.len();
        let mut output: Vec<u8> = Vec::new();
        let mut i: usize = 0;
        while i < input.len()
            invariant
                i <= input.len(),
                key_len == self.key@.len(),
                key_len > 0,
                output@.len() == i,
                forall|j: int|
                    0 <= j < i ==> output@[j] == input@[j] ^ self.key@[j % (key_len as int)],
            decreases input.len() - i,
        {
            output.push(input[i] ^ self.key[i % key_len]);
            i = i + 1;
        }
        assert(output@ =~= xor_apply(input@, self.key()));
        output
    }

    /// Undoes [`Xor::encrypt`], which is its own inverse.
    pub fn decrypt(&self, input: &[u8]) -> (output: Vec<u8>)
        ensures
            output@ == xor_apply(input@, self.key()),
    {
        self.encrypt(input)
    }
}

/// XORs `bytes1` with the key `bytes2`, repeated as often as needed.
pub fn repeated_xor(bytes1: &[u8], bytes2: &[u8]) -> (made: Result<Vec<u8>, XorError>)
    ensures
        bytes2@.len() == 0 <==> made is Err,
        made matches Ok(output) ==> output@ == xor_apply(bytes1@, bytes2@),
        made matches Err(e) ==> e == XorError::InvalidKey,
{
    match Xor::new(bytes2) {
        Ok(cipher) => Ok(cipher.encrypt(bytes1)),
        Err(e) => Err(e),
    }
}

} // verus!
