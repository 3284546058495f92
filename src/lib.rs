//! Typed snapshots of a device tree: property values, device identities and
//! the ordered maps that hold them, with the decoding and walking rules that
//! fill them from raw node data.

pub mod decode;
pub mod device;
pub mod ordmap;
pub mod text;
pub mod value;
pub mod walk;

pub use decode::{decode_property, decode_strings, split_segments, DecodeError, RawPayload};
pub use device::{DeviceInfo, DeviceKey};
pub use ordmap::{OrdMap, OrderedKey};
pub use value::{DiPropType, DiPropValue};
pub use walk::{node_info, walk_nodes, RawNode, RawPromProp, RawProp, Snapshot, WalkError, Walker};
