use vstd::prelude::*;
use crate::errors::SimError;
use crate::netlist::{BitDesc, CellDesc, CircuitDesc, NetDesc, Netlist, desc_ok, netlist_of_desc};

verus! {

#[verifier::external_type_specification]
#[verifier::external_body]
pub struct ExValue(serde_json::Value);

/// Relies on serde_json::from_str::<Value>: parse JSON text into a value
/// tree; malformed text parses to nothing.
#[verifier::external_body]
fn json_parse(s: &str) -> (r: Option<serde_json::Value>) {
    match serde_json::from_str::<serde_json::Value>(s) {
        Ok(v) => Some(v),
        Err(_) => None,
    }
}

/// Relies on serde_json::Value::get: look a key up when the value is an
/// object that holds it.
#[verifier::external_body]
fn json_get<'a>(v: &'a serde_json::Value, key: &str) -> (r: Option<&'a serde_json::Value>) {
    v.get(key)
}

/// Relies on serde_json::Value::Object: the key/value pairs of a JSON
/// object, cloned out in the map's iteration order.
#[verifier::external_body]
fn json_entries(v: &serde_json::Value) -> (r: Option<Vec<(String, serde_json::Value)>>) {
    match v {
        serde_json::Value::Object(m) => {
            let mut out = Vec::new();
            for (k, val) in m.iter() {
                out.push((k.clone(), val.clone()));
            }
            Some(out)
        },
        _ => None,
    }
}

/// Relies on serde_json::Value::Array: the elements of a JSON array,
/// cloned out in order.
#[verifier::external_body]
fn json_elements(v: &serde_json::Value) -> (r: Option<Vec<serde_json::Value>>) {
    match v {
        serde_json::Value::Array(a) => Some(a.clone()),
        _ => None,
    }
}

/// Relies on serde_json::Value::as_str: the content of a JSON string.
#[verifier::external_body]
fn json_string(v: &serde_json::Value) -> (r: Option<String>) {
    match v.as_str() {
        Some(s) => Some(s.to_owned()),
        None => None,
    }
}

/// Relies on serde_json::Value::as_i64: a JSON number as a signed integer,
/// when it is integral and in range.
#[verifier::external_body]
fn json_i64(v: &serde_json::Value) -> (r: Option<i64>) {
    v.as_i64()
}

/// One raw bit entry of a connection or netname array: an integer node id
/// or a constant-marker text; anything else is malformed.
fn bit_desc_of_value(v: &serde_json::Value) -> (r: Result<BitDesc, SimError>)
    ensures
        r is Err ==> r == Err::<BitDesc, SimError>(SimError::NetlistFormat),
{
    match json_i64(v) {
        Some(n) => Ok(BitDesc::Num(n)),
        None => match json_string(v) {
            Some(s) => Ok(BitDesc::Text(s)),
            None => Err(SimError::NetlistFormat),
        },
    }
}

/// The raw bit entries of a JSON array value.
fn bits_of_array(v: &serde_json::Value) -> (r: Result<Vec<BitDesc>, SimError>)
    ensures
        r is Err ==> r == Err::<Vec<BitDesc>, SimError>(SimError::NetlistFormat),
{
    let elems = match json_elements(v) {
        Some(e) => e,
        None => { return Err(SimError::NetlistFormat) },
    };
    let mut out: Vec<BitDesc> = Vec::new();
    let mut i: usize = 0;
    while i < elems.len()
        decreases elems@.len() - i,
    {
        match bit_desc_of_value(&elems[i]) {
            Ok(b) => out.push(b),
            Err(e) => { return Err(e) },
        }
        i = i + 1;
    }
    Ok(out)
}

/// Extract the plain description of one module from a parsed JSON tree:
/// its cell list with the three connection arrays of each cell, and its
/// named nets; a missing or mistyped piece is malformed.
fn desc_of_value(root: &serde_json::Value, module: &str) -> (r: Result<CircuitDesc, SimError>)
    ensures
        r is Err ==> r == Err::<CircuitDesc, SimError>(SimError::NetlistFormat),
{
    let modules = match json_get(root, "modules") {
        Some(v) => v,
        None => { return Err(SimError::NetlistFormat) },
    };
    let m = match json_get(modules, module) {
        Some(v) => v,
        None => { return Err(SimError::NetlistFormat) },
    };
    let cells_v = match json_get(m, "cells") {
        Some(v) => v,
        None => { return Err(SimError::NetlistFormat) },
    };
    let cell_entries = match json_entries(cells_v) {
        Some(v) => v,
        None => { return Err(SimError::NetlistFormat) },
    };
    let mut cells: Vec<CellDesc> = Vec::new();
    let mut i: usize = 0;
    while i < cell_entries.len()
        decreases cell_entries@.len() - i,
    {
        let cv = &cell_entries[i].1;
        let kind = match json_get(cv, "type") {
            Some(t) => match json_string(t) {
                Some(s) => s,
                None => { return Err(SimError::NetlistFormat) },
            },
            None => { return Err(SimError::NetlistFormat) },
        };
        let conns = match json_get(cv, "connections") {
            Some(v) => v,
            None => { return Err(SimError::NetlistFormat) },
        };
        let a = match json_get(conns, "A") {
            Some(v) => match bits_of_array(v) {
                Ok(b) => b,
                Err(e) => { return Err(e) },
            },
            None => { return Err(SimError::NetlistFormat) },
        };
        let b = match json_get(conns, "B") {
            Some(v) => match bits_of_array(v) {
                Ok(b) => b,
                Err(e) => { return Err(e) },
            },
            None => { return Err(SimError::NetlistFormat) },
        };
        let y = match json_get(conns, "Y") {
            Some(v) => match bits_of_array(v) {
                Ok(b) => b,
                Err(e) => { return Err(e) },
            },
            None => { return Err(SimError::NetlistFormat) },
        };
        cells.push(CellDesc { kind, a, b, y });
        i = i + 1;
    }
    let nets_v = match json_get(m, "netnames") {
        Some(v) => v,
        None => { return Err(SimError::NetlistFormat) },
    };
    let net_entries = match json_entries(nets_v) {
        Some(v) => v,
        None => { return Err(SimError::NetlistFormat) },
    };
    let mut nets: Vec<NetDesc> = Vec::new();
    let mut j: usize = 0;
    while j < net_entries.len()
        decreases net_entries@.len() - j,
    {
        let bits_v = match json_get(&net_entries[j].1, "bits") {
            Some(v) => v,
            None => { return Err(SimError::NetlistFormat) },
        };
        let bits = match bits_of_array(bits_v) {
            Ok(b) => b,
            Err(e) => { return Err(e) },
        };
        let name = crate::netlist::clone_string(&net_entries[j].0);
        nets.push(NetDesc { name, bits });
        j = j + 1;
    }
    Ok(CircuitDesc { cells, nets })
}

impl Netlist {
    /// Parse a JSON circuit description and load the named module: the text
    /// is parsed by serde_json, the module's structure is extracted into a
    /// plain description, and the description is validated and resolved. A
    /// loaded netlist always corresponds to some acceptable description;
    /// every load failure is a format failure.
    pub fn load(json_text: &str, module: &str) -> (r: Result<Netlist, SimError>)
        ensures
            r matches Ok(n) ==> exists|d: CircuitDesc|
                #[trigger] desc_ok(&d) && netlist_of_desc(&d, &n),
            r matches Err(e) ==> e == SimError::NetlistFormat,
    {
        let v = match json_parse(json_text) {
            Some(v) => v,
            None => { return Err(SimError::NetlistFormat) },
        };
        let d = match desc_of_value(&v, module) {
            Ok(d) => d,
            Err(e) => { return Err(e) },
        };
        match Netlist::from_desc(&d) {
            Ok(n) => {
                proof {
                    assert(desc_ok(&d) && netlist_of_desc(&d, &n));
                }
                Ok(n)
            },
            Err(e) => Err(e),
        }
    }
}

} // verus!
