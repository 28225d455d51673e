//! What the kernel reads of a parsed device tree, as plain values, and the
//! calls into `device_tree_parser` that read it. A node of the parsed tree is
//! opaque here: what a search finds and what a node holds are named by the
//! functions below (`compatible_of`, `nodes_of`, `name_of`, `prop_string_of`,
//! `reg_of`), which the parser computes from the tree alone; the reading
//! functions are stated over those names.
use vstd::prelude::*;

use device_tree_parser::{DeviceTreeNode, DtbError};

verus! {

#[verifier::external_type_specification]
#[verifier::external_body]
pub struct ExDeviceTreeNode<'a>(DeviceTreeNode<'a>);

#[verifier::external_type_specification]
#[verifier::external_body]
pub struct ExDtbError(DtbError);

/// The nodes under `root`, `root` included and in depth-first order, whose
/// `compatible` property names `compatible`.
pub uninterp spec fn compatible_of(root: DeviceTreeNode, compatible: Seq<char>) -> Seq<DeviceTreeNode>;

/// Every node under `root`, `root` first, in depth-first order.
pub uninterp spec fn nodes_of(root: DeviceTreeNode) -> Seq<DeviceTreeNode>;

/// The name of `node`.
pub uninterp spec fn name_of(node: DeviceTreeNode) -> Seq<char>;

/// The string value of property `name` of `node`, where it has one.
pub uninterp spec fn prop_string_of(node: DeviceTreeNode, name: Seq<char>) -> Option<Seq<char>>;

/// The `(address, size)` pairs of the `reg` property of `node`, with `parent`
/// giving the cell sizes, or the error met reading them.
pub uninterp spec fn reg_of(node: DeviceTreeNode, parent: DeviceTreeNode) -> Result<Seq<(u64, u64)>, DtbError>;

/// `DeviceTreeNode::find_compatible_nodes`: the nodes under `root`, `root`
/// included and in depth-first order, whose `compatible` property names
/// `compatible`. The contract claims only that the result is
/// `compatible_of(root, compatible)`, a function of the tree and the string.
#[verifier::external_body]
pub(crate) fn compatible_nodes<'a, 'b>(root: &'b DeviceTreeNode<'a>, compatible: &str) -> (r: Vec<
    &'b DeviceTreeNode<'a>,
>)
    ensures
        r@.len() == compatible_of(*root, compatible@).len(),
        forall|i: int| 0 <= i < r@.len() ==> *r@[i] == compatible_of(*root, compatible@)[i],
{
    root.find_compatible_nodes(compatible)
}

/// `DeviceTreeNode::iter_nodes`, collected: every node under `root`, `root`
/// first, in depth-first order. The contract claims only that the result is
/// `nodes_of(root)`, a function of the tree.
#[verifier::external_body]
pub(crate) fn all_nodes<'a, 'b>(root: &'b DeviceTreeNode<'a>) -> (r: Vec<&'b DeviceTreeNode<'a>>)
    ensures
        r@.len() == nodes_of(*root).len(),
        forall|i: int| 0 <= i < r@.len() ==> *r@[i] == nodes_of(*root)[i],
{
    root.iter_nodes().collect()
}

/// The `name` field of a node, claimed to be `name_of(node)`.
#[verifier::external_body]
pub(crate) fn node_name<'a>(node: &DeviceTreeNode<'a>) -> (r: &'a str)
    ensures
        r@ == name_of(*node),
{
    node.name
}

/// `DeviceTreeNode::prop_string`: the string value of property `name` of
/// `node`, if it has one; claimed to be `prop_string_of(node, name)`.
#[verifier::external_body]
pub(crate) fn string_property<'a, 'b>(node: &'b DeviceTreeNode<'a>, name: &str) -> (r: Option<&'b str>)
    ensures
        match r {
            None => prop_string_of(*node, name@) is None,
            Some(s) => prop_string_of(*node, name@) == Some(s@),
        },
{
    node.prop_string(name)
}

/// `DeviceTreeNode::translate_reg_addresses` with `parent` as the node that
/// gives the cell sizes: the `(address, size)` pairs of the `reg` property of
/// `node`, translated to the parent address space; claimed to be
/// `reg_of(node, parent)`.
#[verifier::external_body]
pub(crate) fn reg_addresses<'a>(node: &DeviceTreeNode<'a>, parent: &DeviceTreeNode<'a>) -> (r: Result<
    Vec<(u64, u64)>,
    DtbError,
>)
    ensures
        match r {
            Ok(v) => reg_of(*node, *parent) == Ok::<Seq<(u64, u64)>, DtbError>(v@),
            Err(e) => reg_of(*node, *parent) == Err::<Seq<(u64, u64)>, DtbError>(e),
        },
{
    node.translate_reg_addresses(Some(parent))
}

/// One node of a device tree, as the kernel reads it: its name, its
/// `device_type` property, and the `(address, size)` pairs of its `reg`
/// property translated with the root giving the cell sizes, or the error met
/// reading them.
#[derive(Debug)]
pub struct DtNode<'a> {
    pub name: &'a str,
    pub device_type: Option<String>,
    pub reg: Result<Vec<(u64, u64)>, DtbError>,
}

/// Whether `n` is what the kernel reads of `node` in the tree under `root`.
pub open spec fn dt_node_read(n: DtNode, node: DeviceTreeNode, root: DeviceTreeNode) -> bool {
    &&& n.name@ == name_of(node)
    &&& match n.device_type {
        None => prop_string_of(node, "device_type"@) is None,
        Some(t) => prop_string_of(node, "device_type"@) == Some(t@),
    }
    &&& match n.reg {
        Ok(v) => reg_of(node, root) == Ok::<Seq<(u64, u64)>, DtbError>(v@),
        Err(e) => reg_of(node, root) == Err::<Seq<(u64, u64)>, DtbError>(e),
    }
}

/// Whether `r` is what the kernel reads of each of `nodes`, in order, in the
/// tree under `root`.
pub open spec fn dt_nodes_read(r: Seq<DtNode>, nodes: Seq<DeviceTreeNode>, root: DeviceTreeNode) -> bool {
    &&& r.len() == nodes.len()
    &&& forall|i: int| 0 <= i < r.len() ==> dt_node_read(#[trigger] r[i], nodes[i], root)
}

/// Reads `node` of the tree under `root`.
pub fn dt_node<'a>(node: &DeviceTreeNode<'a>, root: &DeviceTreeNode<'a>) -> (r: DtNode<'a>)
    ensures
        dt_node_read(r, *node, *root),
{
    let device_type = match string_property(node, "device_type") {
        Some(t) => Some(t.to_owned()),
        None => None,
    };
    DtNode { name: node_name(node), device_type, reg: reg_addresses(node, root) }
}

/// Reads each of `nodes`, in order, of the tree under `root`.
fn dt_nodes<'a, 'b>(nodes: &Vec<&'b DeviceTreeNode<'a>>, root: &DeviceTreeNode<'a>) -> (r: Vec<
    DtNode<'a>,
>)
    ensures
        r@.len() == nodes@.len(),
        forall|i: int| 0 <= i < r@.len() ==> dt_node_read(#[trigger] r@[i], *nodes@[i], *root),
{
    let mut r: Vec<DtNode<'a>> = Vec::new();
    let mut i: usize = 0;
    while i < nodes.len()
        invariant
            i <= nodes@.len(),
            r@.len() == i,
            forall|j: int| 0 <= j < i ==> dt_node_read(#[trigger] r@[j], *nodes@[j], *root),
        decreases nodes@.len() - i,
    {
        r.push(dt_node(nodes[i], root));
        i = i + 1;
    }
    r
}

/// Every node of the tree under `root`, `root` first, in depth-first order.
pub fn device_tree_nodes<'a>(root: &DeviceTreeNode<'a>) -> (r: Vec<DtNode<'a>>)
    ensures
        dt_nodes_read(r@, nodes_of(*root), *root),
{
    dt_nodes(&all_nodes(root), root)
}

/// The nodes of the tree under `root`, in depth-first order, whose
/// `compatible` property names `compatible`.
pub fn compatible_device_nodes<'a>(root: &DeviceTreeNode<'a>, compatible: &str) -> (r: Vec<DtNode<'a>>)
    ensures
        dt_nodes_read(r@, compatible_of(*root, compatible@), *root),
{
    dt_nodes(&compatible_nodes(root, compatible), root)
}

} // verus!
