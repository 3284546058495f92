//! Assembling a snapshot from the nodes of a tree walk.
//!
//! The native walk visits nodes child first and hands each node's raw data
//! to a `Walker`, which decodes it and files it under the node's identity.
//! Failures of single properties only leave those properties out; only a
//! tree that cannot be opened fails the whole walk.
use vstd::prelude::*;

use crate::decode::{decode_property, decode_spec, RawPayload};
use crate::device::{DeviceInfo, DeviceKey, InfoModel, KeyModel};
use crate::ordmap::OrdMap;
use crate::value::PropModel;

verus! {

/// One kernel property of a node, as read from the tree.
pub struct RawProp {
    pub name: String,
    pub payload: RawPayload,
}

/// One firmware property of a node: `len` is what the native accessor
/// returned, negative when the property could not be read.
pub struct RawPromProp {
    pub name: String,
    pub len: i32,
    pub data: Vec<u8>,
}

/// The raw data of one device node.
pub struct RawNode {
    pub name: String,
    pub unit_address: Option<String>,
    pub props: Vec<RawProp>,
    /// Firmware properties; read only while the walker wants them.
    pub prom_props: Vec<RawPromProp>,
}

/// All devices of one walk, by identity, in identity order.
pub type Snapshot = OrdMap<DeviceKey, DeviceInfo>;

/// The properties that decode, by name; a later property of the same name
/// replaces an earlier one.
pub open spec fn props_model(ps: Seq<RawProp>) -> Map<Seq<char>, PropModel>
    decreases ps.len(),
{
    if ps.len() == 0 {
        Map::empty()
    } else {
        let m = props_model(ps.drop_last());
        match decode_spec(ps.last().payload) {
            Ok(Some(v)) => m.insert(ps.last().name@, v),
            _ => m,
        }
    }
}

/// The firmware properties that could be read, by name.
pub open spec fn prom_model(ps: Seq<RawPromProp>) -> Map<Seq<char>, Seq<u8>>
    decreases ps.len(),
{
    if ps.len() == 0 {
        Map::empty()
    } else {
        let m = prom_model(ps.drop_last());
        if ps.last().len >= 0 {
            m.insert(ps.last().name@, ps.last().data@)
        } else {
            m
        }
    }
}

pub open spec fn node_key(n: RawNode) -> KeyModel {
    (
        n.name@,
        match n.unit_address {
            Some(a) => Some(a@),
            None => None,
        },
    )
}

/// What a node contributes; firmware properties only when they are read.
pub open spec fn node_model(n: RawNode, firmware: bool) -> InfoModel {
    (props_model(n.props@), if firmware {
        prom_model(n.prom_props@)
    } else {
        Map::empty()
    })
}

/// The snapshot of a walk over `ns` in visiting order: each node under its
/// identity, a later node replacing an earlier one of equal identity.
pub open spec fn snapshot_model(ns: Seq<RawNode>, firmware: bool) -> Map<KeyModel, InfoModel>
    decreases ns.len(),
{
    if ns.len() == 0 {
        Map::empty()
    } else {
        snapshot_model(ns.drop_last(), firmware).insert(
            node_key(ns.last()),
            node_model(ns.last(), firmware),
        )
    }
}

/// Popping the last of a reversed remainder yields the next element in order.
proof fn lemma_pop_reversed<T>(before: Seq<T>, after: Seq<T>, p: T, whole: Seq<T>, k: int)
    requires
        before == after.push(p),
        before.reverse() == whole.skip(k),
        0 <= k < whole.len(),
    ensures
        whole[k] == p,
        after.reverse() == whole.skip(k + 1),
        whole.take(k + 1).drop_last() == whole.take(k),
{
    assert(before.reverse() =~= seq![p] + after.reverse());
    assert(whole.skip(k)[0] == whole[k]);
    assert(after.reverse() =~= whole.skip(k).drop_first());
    assert(whole.skip(k).drop_first() =~= whole.skip(k + 1));
    assert(whole.take(k + 1).drop_last() =~= whole.take(k));
}

/// Decodes the raw data of one node into its identity and its information.
pub fn node_info(node: RawNode, firmware: bool) -> (r: (DeviceKey, DeviceInfo))
    ensures
        r.0@ == node_key(node),
        r.1@ == node_model(node, firmware),
{
    let ghost n0 = node;
    let RawNode { name, unit_address, props, prom_props } = node;
    let mut info = DeviceInfo::new();
    let mut props = props;
    let mut rest: Vec<RawProp> = Vec::new();
    // Take the properties off the end, then replay them in their order.
    while props.len() > 0
        invariant
            props@ + rest@.reverse() == n0.props@,
        decreases props@.len(),
    {
        let p = props.pop().unwrap();
        proof {
            assert(rest@.push(p).reverse() =~= seq![p] + rest@.reverse());
        }
        rest.push(p);
    }
    assert(rest@.reverse() =~= n0.props@);
    let ghost total = rest@.len();
    while rest.len() > 0
        invariant
            info@.1 == Map::<Seq<char>, Seq<u8>>::empty(),
            rest@.len() <= total,
            total == n0.props@.len(),
            rest@.reverse() == n0.props@.skip(total - rest@.len()),
            info@.0 == props_model(n0.props@.take(total - rest@.len())),
        decreases rest@.len(),
    {
        let ghost k = total - rest@.len();
        let ghost before = rest@;
        let p = rest.pop().unwrap();
        proof {
            assert(before =~= rest@.push(p));
            lemma_pop_reversed(before, rest@, p, n0.props@, k);
        }
        let RawProp { name: pname, payload } = p;
        match decode_property(payload) {
            Ok(Some(v)) => {
                info.props.insert(pname, v);
            },
            _ => {},
        }
        assert(info@.0 == props_model(n0.props@.take(k + 1)));
    }
    assert(n0.props@.take(total as int) =~= n0.props@);
    if firmware {
        let mut proms = prom_props;
        let mut rest: Vec<RawPromProp> = Vec::new();
        while proms.len() > 0
            invariant
                proms@ + rest@.reverse() == n0.prom_props@,
            decreases proms@.len(),
        {
            let p = proms.pop().unwrap();
            proof {
                assert(rest@.push(p).reverse() =~= seq![p] + rest@.reverse());
            }
            rest.push(p);
        }
        assert(rest@.reverse() =~= n0.prom_props@);
        let ghost total = rest@.len();
        while rest.len() > 0
            invariant
                info@.0 == props_model(n0.props@),
                rest@.len() <= total,
                total == n0.prom_props@.len(),
                rest@.reverse() == n0.prom_props@.skip(total - rest@.len()),
                info@.1 == prom_model(n0.prom_props@.take(total - rest@.len())),
            decreases rest@.len(),
        {
            let ghost k = total - rest@.len();
            let ghost before = rest@;
            let p = rest.pop().unwrap();
            proof {
                assert(before =~= rest@.push(p));
                lemma_pop_reversed(before, rest@, p, n0.prom_props@, k);
            }
            let RawPromProp { name: pname, len, data } = p;
            if len >= 0 {
                info.prom_props.insert(pname, data);
            }
        }
        assert(n0.prom_props@.take(total as int) =~= n0.prom_props@);
    }
    (DeviceKey { node_name: name, unit_address }, info)
}

/// The state carried through one walk: the devices found so far, and
/// whether firmware properties are still being read.
pub struct Walker {
    devices: Snapshot,
    fetch_firmware: bool,
    firmware_failed: bool,
}

impl Walker {
    /// The devices filed so far.
    pub closed spec fn devices_view(&self) -> Map<KeyModel, InfoModel> {
        self.devices@
    }

    /// Whether firmware properties are to be read for the nodes still to come.
    pub closed spec fn reads_firmware(&self) -> bool {
        self.fetch_firmware && !self.firmware_failed
    }

    pub fn new(fetch_firmware: bool) -> (r: Walker)
        ensures
            r.devices_view() == Map::<KeyModel, InfoModel>::empty(),
            r.reads_firmware() == fetch_firmware,
    {
        Walker { devices: OrdMap::new(), fetch_firmware, firmware_failed: false }
    }

    /// Whether the next node's firmware properties should be read.
    pub fn wants_firmware(&self) -> (r: bool)
        ensures
            r == self.reads_firmware(),
    {
        self.fetch_firmware && !self.firmware_failed
    }

    /// Records that the firmware handle could not be had: no firmware
    /// properties are read for the rest of the walk.
    pub fn firmware_unavailable(&mut self)
        ensures
            final(self).devices_view() == old(self).devices_view(),
            !final(self).reads_firmware(),
    {
        self.firmware_failed = true;
    }

    /// Files one visited node under its identity.
    pub fn visit(&mut self, node: RawNode)
        ensures
            final(self).reads_firmware() == old(self).reads_firmware(),
            final(self).devices_view() == old(self).devices_view().insert(
                node_key(node),
                node_model(node, old(self).reads_firmware()),
            ),
    {
        let firmware = self.wants_firmware();
        let (key, info) = node_info(node, firmware);
        self.devices.insert(key, info);
    }

    /// Ends the walk and hands over the devices found.
    pub fn finish(self) -> (r: Snapshot)
        ensures
            r@ == self.devices_view(),
    {
        self.devices
    }
}

/// Why no snapshot could be taken.
#[derive(Clone, Copy, Debug, PartialEq, Eq, Structural)]
pub enum WalkError {
    /// The tree could not be opened; the operating system's error code.
    TreeOpenFailed(i32),
}

/// Runs a walk over the nodes of an opened tree, or fails as the tree could
/// not be opened. `firmware_handle` tells whether the firmware handle could
/// be had, when firmware properties are asked for.
pub fn walk_nodes(tree: Result<Vec<RawNode>, i32>, fetch_firmware: bool, firmware_handle: bool) -> (r:
    Result<Snapshot, WalkError>)
    ensures
        tree is Err ==> r is Err && r->Err_0 == WalkError::TreeOpenFailed(tree->Err_0),
        tree is Ok ==> r is Ok && r->Ok_0@ == snapshot_model(
            tree->Ok_0@,
            fetch_firmware && firmware_handle,
        ),
{
    let nodes = match tree {
        Ok(ns) => ns,
        Err(e) => {
            return Err(WalkError::TreeOpenFailed(e));
        },
    };
    let ghost ns0 = nodes@;
    let mut walker = Walker::new(fetch_firmware);
    if fetch_firmware && !firmware_handle {
        walker.firmware_unavailable();
    }
    let ghost fw = fetch_firmware && firmware_handle;
    let mut nodes = nodes;
    let mut rest: Vec<RawNode> = Vec::new();
    while nodes.len() > 0
        invariant
            nodes@ + rest@.reverse() == ns0,
        decreases nodes@.len(),
    {
        let n = nodes.pop().unwrap();
        proof {
            assert(rest@.push(n).reverse() =~= seq![n] + rest@.reverse());
        }
        rest.push(n);
    }
    assert(rest@.reverse() =~= ns0);
    let ghost total = rest@.len();
    assert(ns0.take(0) =~= Seq::<RawNode>::empty());
    while rest.len() > 0
        invariant
            walker.reads_firmware() == fw,
            rest@.len() <= total,
            total == ns0.len(),
            rest@.reverse() == ns0.skip(total - rest@.len()),
            walker.devices_view() == snapshot_model(ns0.take(total - rest@.len()), fw),
        decreases rest@.len(),
    {
        let ghost k = total - rest@.len();
        let ghost before = rest@;
        let n = rest.pop().unwrap();
        proof {
            assert(before =~= rest@.push(n));
            lemma_pop_reversed(before, rest@, n, ns0, k);
        }
        walker.visit(n);
    }
    assert(ns0.take(total as int) =~= ns0);
    Ok(walker.finish())
}

/// Every node of a walk appears in the snapshot under its identity, and a
/// node that no later node shares an identity with keeps exactly what it
/// carried: nodes of equal name but different unit address stay apart, and
/// only a node of truly equal identity replaces another.
pub proof fn lemma_walk_keeps_identities(ns: Seq<RawNode>, firmware: bool, i: int)
    requires
        0 <= i < ns.len(),
    ensures
        snapshot_model(ns, firmware).contains_key(node_key(ns[i])),
        (forall|j: int| i < j < ns.len() ==> node_key(#[trigger] ns[j]) != node_key(ns[i]))
            ==> snapshot_model(ns, firmware)[node_key(ns[i])] == node_model(ns[i], firmware),
    decreases ns.len(),
{
    let last = ns.len() - 1;
    if i < last {
        let init = ns.drop_last();
        lemma_walk_keeps_identities(init, firmware, i);
        assert(init[i] == ns[i]);
        if forall|j: int| i < j < ns.len() ==> node_key(#[trigger] ns[j]) != node_key(ns[i]) {
            assert forall|j: int| i < j < init.len() implies node_key(#[trigger] init[j])
                != node_key(init[i]) by {
                assert(init[j] == ns[j]);
            }
            assert(node_key(ns[last]) != node_key(ns[i]));
        }
    }
}

/// Two nodes of one walk with the same name and different unit addresses
/// are two entries of the snapshot.
pub proof fn lemma_same_name_kept_apart(ns: Seq<RawNode>, firmware: bool, i: int, j: int)
    requires
        0 <= i < ns.len(),
        0 <= j < ns.len(),
        ns[i].name@ == ns[j].name@,
        node_key(ns[i]).1 != node_key(ns[j]).1,
    ensures
        node_key(ns[i]) != node_key(ns[j]),
        snapshot_model(ns, firmware).contains_key(node_key(ns[i])),
        snapshot_model(ns, firmware).contains_key(node_key(ns[j])),
{
    lemma_walk_keeps_identities(ns, firmware, i);
    lemma_walk_keeps_identities(ns, firmware, j);
}

/// A property that decodes is kept whatever the other properties of its
/// node do: when no later property has its name, the node holds its value.
pub proof fn lemma_property_isolated(ps: Seq<RawProp>, i: int)
    requires
        0 <= i < ps.len(),
        decode_spec(ps[i].payload) is Ok,
        decode_spec(ps[i].payload)->Ok_0 is Some,
        forall|j: int| i < j < ps.len() ==> (#[trigger] ps[j]).name@ != ps[i].name@,
    ensures
        props_model(ps).contains_key(ps[i].name@),
        props_model(ps)[ps[i].name@] == decode_spec(ps[i].payload)->Ok_0->Some_0,
    decreases ps.len(),
{
    let last = ps.len() - 1;
    if i < last {
        let init = ps.drop_last();
        assert(init[i] == ps[i]);
        assert forall|j: int| i < j < init.len() implies (#[trigger] init[j]).name@
            != init[i].name@ by {
            assert(init[j] == ps[j]);
        }
        lemma_property_isolated(init, i);
        assert(ps[last].name@ != ps[i].name@);
    }
}

/// Without firmware reading, no device of the snapshot has firmware
/// properties.
pub proof fn lemma_without_firmware_no_prom(ns: Seq<RawNode>)
    ensures
        forall|k: KeyModel| #[trigger]
            snapshot_model(ns, false).contains_key(k) ==> snapshot_model(ns, false)[k].1
                == Map::<Seq<char>, Seq<u8>>::empty(),
    decreases ns.len(),
{
    if ns.len() > 0 {
        let init = ns.drop_last();
        lemma_without_firmware_no_prom(init);
        assert forall|k: KeyModel| #[trigger]
            snapshot_model(ns, false).contains_key(k) implies snapshot_model(ns, false)[k].1
                == Map::<Seq<char>, Seq<u8>>::empty() by {
            if k != node_key(ns.last()) {
                assert(snapshot_model(init, false).contains_key(k));
            }
        }
    }
}

} // verus!
