use vstd::prelude::*;
use vstd::string::StringSliceAdditionalSpecFns;
use crate::value::{BValue, BencodeTypes, lookup};

verus! {

/// Why a typed lookup failed.
#[derive(Debug, Clone, Copy, PartialEq, Eq, Structural)]
pub enum LookupError {
    /// The value looked into is not a dictionary.
    NotADictionary,
    /// The dictionary has no such key.
    MissingKey,
    /// The key maps to a value of another kind than the one asked for.
    WrongVariant,
}

/// The value under `key` in the dictionary `v`.
pub open spec fn spec_get(v: BValue, key: Seq<u8>) -> Result<BValue, LookupError> {
    match v {
        BValue::Dict(es) => match lookup(es, key) {
            Some(x) => Ok(x),
            None => Err(LookupError::MissingKey),
        },
        _ => Err(LookupError::NotADictionary),
    }
}

impl BencodeTypes {
    /// The value under `key`, when `self` is a dictionary that has it.
    pub fn get(&self, key: &[u8]) -> (r: Result<&BencodeTypes, LookupError>)
        ensures
            match spec_get(self@, key@) {
                Ok(x) => r matches Ok(w) && w@ == x,
                Err(e) => r == Err::<&BencodeTypes, _>(e),
            },
    {
        match self {
            BencodeTypes::Dictionary(d) => match d.get(key) {
                Some(v) => Ok(v),
                None => Err(LookupError::MissingKey),
            },
            _ => Err(LookupError::NotADictionary),
        }
    }

    /// The payload of the byte string under `key`.
    pub fn get_byte_string(&self, key: &str) -> (r: Result<Vec<u8>, LookupError>)
        ensures
            match spec_get(self@, key.spec_bytes()) {
                Ok(BValue::Bytes(b)) => r matches Ok(w) && w@ == b,
                Ok(_) => r == Err::<Vec<u8>, _>(LookupError::WrongVariant),
                Err(e) => r == Err::<Vec<u8>, _>(e),
            },
    {
        match self.get(key.as_bytes()) {
            Ok(BencodeTypes::ByteString(b)) => Ok(vstd::slice::slice_to_vec(b.as_slice())),
            Ok(_) => Err(LookupError::WrongVariant),
            Err(e) => Err(e),
        }
    }

    /// The integer under `key`.
    pub fn get_integer(&self, key: &str) -> (r: Result<i64, LookupError>)
        ensures
            match spec_get(self@, key.spec_bytes()) {
                Ok(BValue::Int(n)) => r == Ok::<i64, LookupError>(n as i64),
                Ok(_) => r == Err::<i64, _>(LookupError::WrongVariant),
                Err(e) => r == Err::<i64, _>(e),
            },
    {
        match self.get(key.as_bytes()) {
            Ok(BencodeTypes::Integer(n)) => Ok(*n),
            Ok(_) => Err(LookupError::WrongVariant),
            Err(e) => Err(e),
        }
    }

    /// The dictionary under `key`.
    pub fn get_dict(&self, key: &str) -> (r: Result<&BencodeTypes, LookupError>)
        ensures
            match spec_get(self@, key.spec_bytes()) {
                Ok(BValue::Dict(es)) => r matches Ok(w) && w@ == BValue::Dict(es),
                Ok(_) => r == Err::<&BencodeTypes, _>(LookupError::WrongVariant),
                Err(e) => r == Err::<&BencodeTypes, _>(e),
            },
    {
        match self.get(key.as_bytes()) {
            Ok(v) => match v {
                BencodeTypes::Dictionary(_) => Ok(v),
                _ => Err(LookupError::WrongVariant),
            },
            Err(e) => Err(e),
        }
    }

    /// The list under `key`.
    pub fn get_list(&self, key: &str) -> (r: Result<&BencodeTypes, LookupError>)
        ensures
            match spec_get(self@, key.spec_bytes()) {
                Ok(BValue::List(xs)) => r matches Ok(w) && w@ == BValue::List(xs),
                Ok(_) => r == Err::<&BencodeTypes, _>(LookupError::WrongVariant),
                Err(e) => r == Err::<&BencodeTypes, _>(e),
            },
    {
        match self.get(key.as_bytes()) {
            Ok(v) => match v {
                BencodeTypes::List(_) => Ok(v),
                _ => Err(LookupError::WrongVariant),
            },
            Err(e) => Err(e),
        }
    }
}

} // verus!
