//! An SDK (`.slcs`): its identity and the components it ships.

use vstd::prelude::*;

use std::rc::Rc;

use crate::component::{Component, ComponentPath};

verus! {

/// An SDK as its `.slcs` file declares it.
#[derive(Debug)]
pub struct SDKRaw {
    pub id: String,
    pub label: Option<String>,
    pub description: Option<String>,
    pub sdk_version: String,
    pub specification_version: Option<u32>,
    pub supplier: Option<String>,
    pub component_path: Vec<ComponentPath>,
}

#[derive(Debug)]
pub struct SDK {
    pub id: String,
    pub label: Option<String>,
    pub sdk_version: String,
    pub specification_version: Option<u32>,
    pub root_path: String,
    /// The components shipped by the SDK, in the order they were loaded.
    pub components: Vec<Rc<Component>>,
}

impl SDK {
    /// The SDK that a declaration describes, rooted at `root_path`, with the
    /// components loaded from its component directories.
    pub fn from_raw(raw: SDKRaw, root_path: String, components: Vec<Rc<Component>>) -> (r: Self)
        ensures
            r.id == raw.id,
            r.label == raw.label,
            r.sdk_version == raw.sdk_version,
            r.specification_version == raw.specification_version,
            r.root_path == root_path,
            r.components@ == components@,
    {
        SDK {
            id: raw.id,
            label: raw.label,
            sdk_version: raw.sdk_version,
            specification_version: raw.specification_version,
            root_path,
            components,
        }
    }

    pub fn components(&self) -> (r: &[Rc<Component>])
        ensures
            r@ == self.components@,
    {
        self.components.as_slice()
    }

    /// Build an SDK directly from already-parsed components, bypassing disk
    /// discovery. Intended for tests.
    pub fn from_components(id: String, root_path: String, components: Vec<Rc<Component>>) -> (r:
        Self)
        ensures
            r.id == id,
            r.label is None,
            r.sdk_version@ == Seq::<char>::empty(),
            r.specification_version is None,
            r.root_path == root_path,
            r.components@ == components@,
    {
        SDK {
            id,
            label: None,
            sdk_version: String::new(),
            specification_version: None,
            root_path,
            components,
        }
    }
}

#[derive(Debug)]
pub struct SDKId {
    pub id: String,
    pub version: String,
}

} // verus!
