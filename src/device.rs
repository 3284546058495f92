//! Device identities and the information held for each device.
use core::cmp::Ordering;
use vstd::prelude::*;

use crate::ordmap::{OrdMap, OrderedKey};
use crate::text::{compare_text, lemma_text_lt_irrefl, lemma_text_lt_trans, text_lt};
use crate::value::{DiPropValue, PropModel};

verus! {

/// What tells two device nodes apart: the node name, and the unit address
/// that separates nodes of the same name.
#[derive(Clone, Debug, PartialEq, Eq)]
pub struct DeviceKey {
    pub node_name: String,
    pub unit_address: Option<String>,
}

pub type KeyModel = (Seq<char>, Option<Seq<char>>);

impl View for DeviceKey {
    type V = KeyModel;

    open spec fn view(&self) -> KeyModel {
        (
            self.node_name@,
            match self.unit_address {
                Some(a) => Some(a@),
                None => None,
            },
        )
    }
}

/// Order of unit addresses: an absent address first, then by text.
pub open spec fn address_lt(a: Option<Seq<char>>, b: Option<Seq<char>>) -> bool {
    match (a, b) {
        (None, Some(_)) => true,
        (Some(x), Some(y)) => text_lt(x, y),
        _ => false,
    }
}

/// Order of identities: by node name, then by unit address.
pub open spec fn key_lt(a: KeyModel, b: KeyModel) -> bool {
    text_lt(a.0, b.0) || (a.0 == b.0 && address_lt(a.1, b.1))
}

impl OrderedKey for DeviceKey {
    open spec fn view_lt(a: KeyModel, b: KeyModel) -> bool {
        key_lt(a, b)
    }

    proof fn lemma_view_lt_trans(a: KeyModel, b: KeyModel, c: KeyModel) {
        if text_lt(a.0, b.0) && text_lt(b.0, c.0) {
            lemma_text_lt_trans(a.0, b.0, c.0);
        }
        if a.0 == b.0 && b.0 == c.0 {
            if let (Some(x), Some(y), Some(z)) = (a.1, b.1, c.1) {
                if text_lt(x, y) && text_lt(y, z) {
                    lemma_text_lt_trans(x, y, z);
                }
            }
        }
    }

    proof fn lemma_view_lt_irrefl(a: KeyModel) {
        lemma_text_lt_irrefl(a.0);
        if let Some(x) = a.1 {
            lemma_text_lt_irrefl(x);
        }
    }

    fn compare_key(&self, other: &Self) -> (r: Ordering) {
        let c = compare_text(self.node_name.as_str(), other.node_name.as_str());
        match c {
            Ordering::Equal => {},
            _ => {
                return c;
            },
        }
        match (&self.unit_address, &other.unit_address) {
            (None, None) => Ordering::Equal,
            (None, Some(_)) => Ordering::Less,
            (Some(_), None) => Ordering::Greater,
            (Some(x), Some(y)) => compare_text(x.as_str(), y.as_str()),
        }
    }
}

/// The properties found on one device node.
pub struct DeviceInfo {
    /// Kernel-reported properties, by name.
    pub props: OrdMap<String, DiPropValue>,
    /// Raw firmware properties, by name; empty unless firmware properties
    /// were asked for and could be read.
    pub prom_props: OrdMap<String, Vec<u8>>,
}

pub type InfoModel = (Map<Seq<char>, PropModel>, Map<Seq<char>, Seq<u8>>);

impl View for DeviceInfo {
    type V = InfoModel;

    open spec fn view(&self) -> InfoModel {
        (self.props@, self.prom_props@)
    }
}

impl DeviceInfo {
    pub fn new() -> (r: DeviceInfo)
        ensures
            r@.0 == Map::<Seq<char>, PropModel>::empty(),
            r@.1 == Map::<Seq<char>, Seq<u8>>::empty(),
    {
        DeviceInfo { props: OrdMap::new(), prom_props: OrdMap::new() }
    }
}

impl Default for DeviceInfo {
    fn default() -> (r: Self)
        ensures
            r@.0 == Map::<Seq<char>, PropModel>::empty(),
            r@.1 == Map::<Seq<char>, Seq<u8>>::empty(),
    {
        Self::new()
    }
}

} // verus!
