//! A parsed request.
use vstd::prelude::*;
use crate::fields::{Fields, fields_view, lookup, get_field};
use crate::path::copy_bytes;
use vstd::string::StringSliceAdditionalSpecFns;

verus! {

/// A request as parsed from the wire. `url` is the normalized path.
pub struct Request {
    pub method: Vec<u8>,
    pub url: Vec<u8>,
    pub headers: Fields,
    pub body: Vec<u8>,
    pub params: Fields,
}

impl Request {
    /// The value of header `name`, matched exactly as received.
    pub fn get_header(&self, name: &str) -> (r: Option<Vec<u8>>)
        ensures
            match r {
                Some(v) => lookup(fields_view(self.headers@), name.spec_bytes()) == Some(v@),
                None => lookup(fields_view(self.headers@), name.spec_bytes()) is None,
            },
    {
        match get_field(&self.headers, name.as_bytes()) {
            Some(v) => Some(copy_bytes(v.as_slice())),
            None => None,
        }
    }

    /// The value of query parameter `name`.
    pub fn param(&self, name: &str) -> (r: Option<Vec<u8>>)
        ensures
            match r {
                Some(v) => lookup(fields_view(self.params@), name.spec_bytes()) == Some(v@),
                None => lookup(fields_view(self.params@), name.spec_bytes()) is None,
            },
    {
        match get_field(&self.params, name.as_bytes()) {
            Some(v) => Some(copy_bytes(v.as_slice())),
            None => None,
        }
    }

    /// The first of `keys` that is not a query parameter, if any.
    pub fn contains_params<'a>(&self, keys: &[&'a str]) -> (r: Option<&'a str>)
        ensures
            match r {
                Some(k) => exists|i: int| 0 <= i < keys@.len() && keys@[i] == k
                    && lookup(fields_view(self.params@), k.spec_bytes()) is None
                    && forall|j: int| 0 <= j < i ==>
                        lookup(fields_view(self.params@), (#[trigger] keys@[j]).spec_bytes()) is Some,
                None => forall|j: int| 0 <= j < keys@.len() ==>
                    lookup(fields_view(self.params@), (#[trigger] keys@[j]).spec_bytes()) is Some,
            },
    {
        let mut i: usize = 0;
        while i < keys.len()
            invariant
                i <= keys@.len(),
                forall|j: int| 0 <= j < i ==>
                    lookup(fields_view(self.params@), (#[trigger] keys@[j]).spec_bytes()) is Some,
            decreases keys@.len() - i,
        {
            let k: &'a str = keys[i];
            if get_field(&self.params, k.as_bytes()).is_none() {
                return Some(k);
            }
            i = i + 1;
        }
        None
    }
}

} // verus!
