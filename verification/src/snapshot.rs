//! The per-tick sensor snapshot: a keyed tree of readings.
//!
//! Each tick the poll loop fetches one JSON document from the external
//! sensor-reading command. The library holds it as its own tree of
//! plain values — keys, numeric leaf texts — so that path lookups into
//! it are verified; only the parse from JSON text to tree is entrusted
//! to the JSON crate.

use crate::error::{Error, ErrorV};
use vstd::prelude::*;

verus! {

/// One keyed child of a snapshot tree node.
#[derive(Debug)]
pub struct SnapshotEntry {
    /// The key under which the child sits.
    pub key: String,
    /// The child itself.
    pub node: SnapshotNode,
}

/// A node of the snapshot tree: a numeric leaf (kept as the number's
/// own text), a text leaf, a keyed subtree, or any other JSON value,
/// which no sensor path may resolve to.
#[derive(Debug)]
pub enum SnapshotNode {
    /// A numeric leaf, as the number's textual form.
    Number(String),
    /// A text leaf.
    Text(String),
    /// A keyed subtree, children in document order.
    Tree(Vec<SnapshotEntry>),
    /// A leaf of no use to a sensor (null, boolean, array).
    Other,
}

/// The first child of `entries` keyed `key`, if any.
pub open spec fn lookup_spec(entries: Seq<SnapshotEntry>, key: Seq<char>) -> Option<SnapshotNode>
    decreases entries.len(),
{
    if entries.len() == 0 {
        None
    } else if entries[0].key@ == key {
        Some(entries[0].node)
    } else {
        lookup_spec(entries.skip(1), key)
    }
}

/// Where the key path `segs` leads from `node`: each segment selects a
/// child of a subtree node; an empty path stays put.
pub open spec fn walk_spec(node: SnapshotNode, segs: Seq<Seq<char>>) -> Option<SnapshotNode>
    decreases segs.len(),
{
    if segs.len() == 0 {
        Some(node)
    } else {
        match node {
            SnapshotNode::Tree(es) => match lookup_spec(es@, segs[0]) {
                Some(n) => walk_spec(n, segs.skip(1)),
                None => None,
            },
            _ => None,
        }
    }
}

/// The text a leaf holds, if the node is a leaf.
pub open spec fn leaf_text_spec(n: SnapshotNode) -> Option<Seq<char>> {
    match n {
        SnapshotNode::Number(s) => Some(s@),
        SnapshotNode::Text(s) => Some(s@),
        _ => None,
    }
}

proof fn lemma_lookup_skip(es: Seq<SnapshotEntry>, key: Seq<char>, j: int)
    requires
        0 <= j <= es.len(),
        forall|k: int| 0 <= k < j ==> (#[trigger] es[k]).key@ != key,
    ensures
        lookup_spec(es, key) == lookup_spec(es.skip(j), key),
    decreases j,
{
    if j == 0 {
        assert(es.skip(0) =~= es);
    } else {
        assert(es[0].key@ != key);
        assert(forall|k: int|
            0 <= k < j - 1 ==> (#[trigger] es.skip(1)[k]).key@ == es[k + 1].key@);
        lemma_lookup_skip(es.skip(1), key, j - 1);
        assert(es.skip(1).skip(j - 1) =~= es.skip(j));
    }
}

/// The text a leaf holds, if `n` is a leaf.
pub fn leaf_text(n: &SnapshotNode) -> (r: Option<&String>)
    ensures
        match r {
            Some(s) => leaf_text_spec(*n) == Some(s@),
            None => leaf_text_spec(*n) is None,
        },
{
    match n {
        SnapshotNode::Number(s) => Some(s),
        SnapshotNode::Text(s) => Some(s),
        _ => None,
    }
}

/// Follows the key path `segs` down from `node`, one lookup per
/// segment.
pub fn get_by_path<'a>(node: &'a SnapshotNode, segs: &Vec<String>) -> (r: Option<
    &'a SnapshotNode,
>)
    ensures
        match r {
            Some(n) => walk_spec(*node, crate::strutil::views_of(segs@)) == Some(*n),
            None => walk_spec(*node, crate::strutil::views_of(segs@)) is None,
        },
{
    let ghost full = crate::strutil::views_of(segs@);
    let mut cur: &'a SnapshotNode = node;
    let mut i: usize = 0;
    proof {
        assert(full.skip(0) =~= full);
    }
    while i < segs.len()
        invariant
            i <= segs@.len(),
            full == crate::strutil::views_of(segs@),
            full.len() == segs@.len(),
            walk_spec(*node, full) == walk_spec(*cur, full.skip(i as int)),
        decreases segs@.len() - i,
    {
        let seg: &String = &segs[i];
        proof {
            assert(full.skip(i as int)[0] == seg@);
        }
        match cur {
            SnapshotNode::Tree(entries) => {
                let mut j: usize = 0;
                while j < entries.len() && !entries[j].key.eq(seg)
                    invariant
                        j <= entries@.len(),
                        forall|k: int| 0 <= k < j ==> (#[trigger] entries@[k]).key@ != seg@,
                    decreases entries@.len() - j,
                {
                    j = j + 1;
                }
                if j < entries.len() {
                    proof {
                        lemma_lookup_skip(entries@, seg@, j as int);
                        assert(lookup_spec(entries@, seg@) == Some(entries@[j as int].node));
                        assert(full.skip(i as int).skip(1) =~= full.skip(i as int + 1));
                    }
                    cur = &entries[j].node;
                    i = i + 1;
                } else {
                    proof {
                        lemma_lookup_skip(entries@, seg@, entries@.len() as int);
                        assert(entries@.skip(entries@.len() as int)
                            =~= Seq::<SnapshotEntry>::empty());
                    }
                    return None;
                }
            },
            _ => {
                return None;
            },
        }
    }
    proof {
        assert(full.skip(segs@.len() as int) =~= Seq::<Seq<char>>::empty());
    }
    Some(cur)
}

/// The tree, if any, that a text parses to as JSON. What the external
/// parser accepts, and the tree it yields, depend on the text alone.
pub uninterp spec fn json_tree_of(s: Seq<char>) -> Option<SnapshotNode>;

/// Relies on serde_json::Value: the parsed JSON document, converted
/// node by node into the library's snapshot tree.
#[verifier::external_type_specification]
#[verifier::external_body]
pub struct ExJsonValue(serde_json::Value);

/// Relies on serde_json: converts one parsed JSON value into the
/// library's snapshot tree, arm by arm — numbers keep their own text,
/// object children keep their document order.
#[verifier::external_body]
fn node_of_value(v: &serde_json::Value) -> SnapshotNode {
    match v {
        serde_json::Value::Number(n) => SnapshotNode::Number(n.to_string()),
        serde_json::Value::String(s) => SnapshotNode::Text(s.clone()),
        serde_json::Value::Object(m) => SnapshotNode::Tree(
            m.iter().map(
                |(k, x)| SnapshotEntry { key: k.clone(), node: node_of_value(x) },
            ).collect(),
        ),
        _ => SnapshotNode::Other,
    }
}

/// Relies on serde_json::from_str: whether a text parses as JSON, and
/// to what tree, is a function of the text alone.
#[verifier::external_body]
fn parse_snapshot_raw(s: &str) -> (r: Option<SnapshotNode>)
    ensures
        r == json_tree_of(s@),
{
    match serde_json::from_str::<serde_json::Value>(s) {
        Ok(v) => Some(node_of_value(&v)),
        Err(_) => None,
    }
}

/// Reads the external sensor command's output as a snapshot tree.
/// Fails exactly when the text is not a JSON document.
pub fn parse_snapshot(s: &str) -> (r: Result<SnapshotNode, Error>)
    ensures
        match r {
            Ok(n) => json_tree_of(s@) == Some(n),
            Err(e) => json_tree_of(s@) is None && e@ == (ErrorV::ExternalToolError {
                detail: "unable to parse json from sensors"@,
            }),
        },
{
    match parse_snapshot_raw(s) {
        Some(n) => Ok(n),
        None => Err(
            Error::ExternalToolError { detail: "unable to parse json from sensors".to_owned() },
        ),
    }
}

} // verus!
