use vstd::prelude::*;
use vstd::string::StringSliceAdditionalSpecFns;
use crate::value::{BValue, BencodeTypes};
use crate::encode::enc;
use crate::access::{LookupError, spec_get};

verus! {

/// The SHA-1 digest of a byte sequence.
pub uninterp spec fn sha1_of(data: Seq<u8>) -> Seq<u8>;

/// Relies on sha1's `Sha1::digest` (the `Digest` trait): the 20-byte SHA-1
/// digest, which depends on the data alone.
#[verifier::external_body]
fn sha1_digest(data: &[u8]) -> (r: Vec<u8>)
    ensures
        r@ == sha1_of(data@),
        r@.len() == 20,
{
    <sha1::Sha1 as sha1::Digest>::digest(data).to_vec()
}

/// The info-hash of a metainfo document: the SHA-1 digest of the canonical
/// encoding of its `info` dictionary.
pub fn info_hash(metainfo: &BencodeTypes) -> (r: Result<Vec<u8>, LookupError>)
    ensures
        match spec_get(metainfo@, "info".spec_bytes()) {
            Ok(BValue::Dict(es)) => r matches Ok(h) && h@ == sha1_of(enc(BValue::Dict(es))) && h@.len()
                == 20,
            Ok(_) => r == Err::<Vec<u8>, _>(LookupError::WrongVariant),
            Err(e) => r == Err::<Vec<u8>, _>(e),
        },
{
    let info = metainfo.get_dict("info")?;
    let bytes = BencodeTypes::encode(info);
    Ok(sha1_digest(bytes.as_slice()))
}

/// The 20-byte piece hashes that `pieces` holds back to back, or `None`
/// when its length is not a multiple of 20.
pub fn piece_hashes(pieces: &[u8]) -> (r: Option<Vec<Vec<u8>>>)
    ensures
        r is Some <==> pieces@.len() % 20 == 0,
        r matches Some(hs) ==> {
            &&& hs@.len() == pieces@.len() / 20
            &&& forall|i: int|
                0 <= i < hs@.len() ==> (#[trigger] hs@[i])@ == pieces@.subrange(20 * i, 20 * i + 20)
        },
{
    if pieces.len() % 20 != 0 {
        return None;
    }
    let total: usize = pieces.len();
    let mut hs: Vec<Vec<u8>> = Vec::new();
    let mut k: usize = 0;
    while k < total / 20
        invariant
            pieces@.len() % 20 == 0,
            total == pieces@.len(),
            k <= pieces@.len() / 20,
            hs@.len() == k,
            forall|i: int|
                0 <= i < k ==> (#[trigger] hs@[i])@ == pieces@.subrange(20 * i, 20 * i + 20),
        decreases total / 20 - k,
    {
        assert(20 * k + 20 <= pieces@.len()) by (nonlinear_arith)
            requires
                k < pieces@.len() / 20,
        ;
        let start: usize = 20 * k;
        let mut h: Vec<u8> = Vec::new();
        let mut m: usize = 0;
        while m < 20
            invariant
                m <= 20,
                start == 20 * k,
                k < pieces@.len() / 20,
                start + 20 <= pieces@.len(),
                pieces@.len() <= usize::MAX,
                h@ == pieces@.subrange(start as int, start + m),
            decreases 20 - m,
        {
            h.push(pieces[start + m]);
            m = m + 1;
            assert(h@ =~= pieces@.subrange(start as int, start + m));
        }
        hs.push(h);
        k = k + 1;
    }
    Some(hs)
}

} // verus!
