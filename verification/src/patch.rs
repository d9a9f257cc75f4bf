//! Patches: the edits that turn one version of the live tree into the next.
use vstd::prelude::*;
use crate::vdom::{Attribute, Node};

verus! {

/// One edit of the live tree. Every patch names its target by the index
/// that the target has when the elements and text nodes of the tree, as it
/// is before any patch is applied, are counted in document order from 0.
#[derive(Debug, PartialEq)]
pub enum Patch {
    /// Set these attributes on the element; the tag is that of the element.
    AddAttributes(String, usize, Vec<Attribute>),
    /// Remove the attributes of these names from the element.
    RemoveAttributes(String, usize, Vec<String>),
    /// Put a new subtree in the place of the node.
    Replace(String, usize, Node),
    /// Keep this many of the element's children, comments not counted, and
    /// drop the others that follow them; comments stay where they are.
    TruncateChildren(String, usize, usize),
    /// Add new subtrees after the last child of the element.
    AppendChildren(String, usize, Vec<Node>),
    /// Change the content of the text node.
    ChangeText(usize, String),
}

impl Patch {
    /// The index of the node that the patch is for.
    pub open spec fn target(&self) -> usize {
        match self {
            Patch::AddAttributes(_, idx, _) => *idx,
            Patch::RemoveAttributes(_, idx, _) => *idx,
            Patch::Replace(_, idx, _) => *idx,
            Patch::TruncateChildren(_, idx, _) => *idx,
            Patch::AppendChildren(_, idx, _) => *idx,
            Patch::ChangeText(idx, _) => *idx,
        }
    }

    /// The index of the node that the patch is for.
    pub fn node_idx(&self) -> (idx: usize)
        ensures
            idx == self.target(),
    {
        match self {
            Patch::AddAttributes(_, idx, _) => *idx,
            Patch::RemoveAttributes(_, idx, _) => *idx,
            Patch::Replace(_, idx, _) => *idx,
            Patch::TruncateChildren(_, idx, _) => *idx,
            Patch::AppendChildren(_, idx, _) => *idx,
            Patch::ChangeText(idx, _) => *idx,
        }
    }

    /// The tag of the element that the patch is for; a change of text
    /// names none.
    pub fn tag(&self) -> (tag: Option<&String>)
        ensures
            tag == match self {
                Patch::AddAttributes(t, _, _) => Some(t),
                Patch::RemoveAttributes(t, _, _) => Some(t),
                Patch::Replace(t, _, _) => Some(t),
                Patch::TruncateChildren(t, _, _) => Some(t),
                Patch::AppendChildren(t, _, _) => Some(t),
                Patch::ChangeText(_, _) => None::<&String>,
            },
    {
        match self {
            Patch::AddAttributes(t, _, _) => Some(t),
            Patch::RemoveAttributes(t, _, _) => Some(t),
            Patch::Replace(t, _, _) => Some(t),
            Patch::TruncateChildren(t, _, _) => Some(t),
            Patch::AppendChildren(t, _, _) => Some(t),
            Patch::ChangeText(_, _) => None,
        }
    }
}

/// The indices that the patches are for.
pub open spec fn targets(patches: Seq<Patch>) -> Set<usize> {
    Set::new(|idx: usize| exists|k: int| 0 <= k < patches.len() && (#[trigger] patches[k]).target() == idx)
}

} // verus!
