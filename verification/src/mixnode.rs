//! One relay of the mix network, as read from a topology file line.

use vstd::prelude::*;
use vstd::string::StringSliceAdditionalSpecFns;

use crate::mixerror::MixError;
use crate::parse::{
    norm_field, parse_bool_spec, parse_i8_spec, parse_u32_spec, parse_weight_spec, split_commas,
};
use crate::parse::{normalize_field, parse_bool_field, parse_i8_field, parse_u32_field,
    parse_weight_field, split_commas_bytes};

verus! {

/// One mixnode: its identifier, fixed-point weight, compromise flag and
/// layer.  Layers 0 to 2 are path layers; any other layer (usually -1)
/// marks a node outside the current topology.
#[derive(Clone, Copy, PartialEq, Eq, Structural, Debug)]
pub struct Mixnode {
    pub layer: i8,
    /// Bandwidth weight, in fixed point with `WEIGHT_SCALE` as one unit.
    pub weight: u128,
    pub mixid: u32,
    pub is_malicious: bool,
}

/// The mixnode a well-formed line denotes, if any: at least four
/// comma-separated fields, each trimmed and lowercased, holding in order a
/// `u32` id, a decimal weight, a boolean and a layer.
pub open spec fn mixnode_of_line(s: Seq<u8>) -> Option<Mixnode> {
    let fields = split_commas(s);
    if fields.len() < 4 {
        None
    } else {
        mixnode_of_fields(
            norm_field(fields[0]),
            norm_field(fields[1]),
            norm_field(fields[2]),
            norm_field(fields[3]),
        )
    }
}

pub open spec fn mixnode_of_fields(f0: Seq<u8>, f1: Seq<u8>, f2: Seq<u8>, f3: Seq<u8>) -> Option<
    Mixnode,
> {
    match (parse_u32_spec(f0), parse_weight_spec(f1), parse_bool_spec(f2), parse_i8_spec(f3)) {
        (Some(mixid), Some(weight), Some(is_malicious), Some(layer)) => Some(
            Mixnode { layer, weight, mixid, is_malicious },
        ),
        _ => None,
    }
}

impl Mixnode {
    /// Parse one line of a topology file, `mixid, weight, is_malicious,
    /// layer`.  Extra fields are ignored; fewer than four fields raise the
    /// `Missing arguments` error.
    pub fn from_str(s: &str) -> (r: Result<Mixnode, MixError>)
        ensures
            r is Ok <==> mixnode_of_line(s.spec_bytes()) is Some,
            r is Ok ==> r->Ok_0 == mixnode_of_line(s.spec_bytes())->0,
            r is Err && split_commas(s.spec_bytes()).len() < 4 ==> r->Err_0.spec_message()
                == "Missing arguments"@,
    {
        Self::from_bytes(s.as_bytes())
    }

    /// Parse one topology line given as bytes.
    pub fn from_bytes(b: &[u8]) -> (r: Result<Mixnode, MixError>)
        ensures
            r is Ok <==> mixnode_of_line(b@) is Some,
            r is Ok ==> r->Ok_0 == mixnode_of_line(b@)->0,
            r is Err && split_commas(b@).len() < 4 ==> r->Err_0.spec_message()
                == "Missing arguments"@,
            (r is Err && split_commas(b@).len() >= 4 && parse_u32_spec(
                norm_field(split_commas(b@)[0]),
            ) is None) ==> r->Err_0.spec_message() == "the mixid field is not an integer"@,
            (r is Err && split_commas(b@).len() >= 4 && parse_u32_spec(
                norm_field(split_commas(b@)[0]),
            ) is Some && parse_weight_spec(norm_field(split_commas(b@)[1])) is None)
                ==> r->Err_0.spec_message() == "the weight field is not a decimal number"@,
            (r is Err && split_commas(b@).len() >= 4 && parse_u32_spec(
                norm_field(split_commas(b@)[0]),
            ) is Some && parse_weight_spec(norm_field(split_commas(b@)[1])) is Some
                && parse_bool_spec(norm_field(split_commas(b@)[2])) is None)
                ==> r->Err_0.spec_message() == "the is_malicious field is not a boolean"@,
            (r is Err && split_commas(b@).len() >= 4 && parse_u32_spec(
                norm_field(split_commas(b@)[0]),
            ) is Some && parse_weight_spec(norm_field(split_commas(b@)[1])) is Some
                && parse_bool_spec(norm_field(split_commas(b@)[2])) is Some && parse_i8_spec(
                norm_field(split_commas(b@)[3]),
            ) is None) ==> r->Err_0.spec_message() == "the layer field is not a small integer"@,
    {
        let fields = split_commas_bytes(b);
        if fields.len() < 4 {
            return Err(MixError::new("Missing arguments"));
        }
        let f0 = normalize_field(fields[0].as_slice());
        let f1 = normalize_field(fields[1].as_slice());
        let f2 = normalize_field(fields[2].as_slice());
        let f3 = normalize_field(fields[3].as_slice());
        let mixid = match parse_u32_field(f0.as_slice()) {
            Some(v) => v,
            None => {
                return Err(MixError::new("the mixid field is not an integer"));
            },
        };
        let weight = match parse_weight_field(f1.as_slice()) {
            Some(v) => v,
            None => {
                return Err(MixError::new("the weight field is not a decimal number"));
            },
        };
        let is_malicious = match parse_bool_field(f2.as_slice()) {
            Some(v) => v,
            None => {
                return Err(MixError::new("the is_malicious field is not a boolean"));
            },
        };
        let layer = match parse_i8_field(f3.as_slice()) {
            Some(v) => v,
            None => {
                return Err(MixError::new("the layer field is not a small integer"));
            },
        };
        Ok(Mixnode { layer, weight, mixid, is_malicious })
    }
}

} // verus!
