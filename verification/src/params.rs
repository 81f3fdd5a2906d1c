//! The threshold parameters of one key-generation instance.

use crate::encoding::{read_u32_at, write_bytes};
use crate::error::Error;
use vstd::bytes::{spec_u32_from_le_bytes, spec_u32_to_le_bytes};
use vstd::prelude::*;

verus! {

/// The protocol instance parameters: a threshold `t` of `n` participants.
#[derive(Clone, Copy, Debug, PartialEq, Eq)]
pub struct Parameters {
    /// The threshold: how many participants must cooperate to sign.
    pub t: u32,
    /// The total number of participants.
    pub n: u32,
}

impl Parameters {
    /// A meaningful instance has `1 <= t <= n`.
    pub open spec fn valid(&self) -> bool {
        1 <= self.t <= self.n
    }

    /// The 8-byte layout: `t(4) || n(4)`.
    pub open spec fn enc(&self) -> Seq<u8> {
        spec_u32_to_le_bytes(self.t) + spec_u32_to_le_bytes(self.n)
    }

    /// Serialise these parameters.
    pub fn to_bytes(&self) -> (r: [u8; 8])
        ensures
            r@ == self.enc(),
    {
        let mut res = [0u8; 8];
        let t = vstd::bytes::u32_to_le_bytes(self.t);
        write_bytes(&mut res, 0, t.as_slice());
        let n = vstd::bytes::u32_to_le_bytes(self.n);
        write_bytes(&mut res, 4, n.as_slice());
        proof {
            assert(res@ =~= self.enc());
        }
        res
    }

    /// Deserialise parameters.
    pub fn from_bytes(bytes: &[u8]) -> (r: Result<Parameters, Error>)
        ensures
            r is Ok <==> bytes@.len() >= 8,
            r matches Ok(p) ==> p.t == spec_u32_from_le_bytes(bytes@.subrange(0, 4)) && p.n
                == spec_u32_from_le_bytes(bytes@.subrange(4, 8)),
            r matches Err(e) ==> e == Error::SerialisationError,
    {
        if bytes.len() < 8 {
            return Err(Error::SerialisationError);
        }
        let t = read_u32_at(bytes, 0);
        let n = read_u32_at(bytes, 4);
        Ok(Parameters { t, n })
    }
}

} // verus!
