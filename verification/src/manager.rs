//! The central data type: one `Manager` per wrapped external tool, carrying
//! its command templates, its desired-item set and the two delta sets of the
//! last reconciliation pass.

use vstd::prelude::*;

use crate::strings::views_of;

verus! {

/// One wrapped external tool (a package manager, a dotfile manager, ...).
#[derive(Debug)]
pub struct Manager {
    /// Unique identifier, derived from the definition file's base name.
    pub name: String,
    /// Command template for adding one or many items.
    pub add: String,
    /// Command template for removing one or many items.
    pub remove: String,
    /// Command template for listing the installed items.
    pub list: String,
    /// Optional command template for upgrading all items.
    pub upgrade: Option<String>,
    /// Run the remove operation before the add operation for this manager.
    pub remove_then_add: bool,
    /// Separator used when joining items for a `<items>` template; a single
    /// space when absent.
    pub items_separator: Option<String>,
    /// The items this manager is supposed to have, accumulated by the
    /// resolver.  Order-irrelevant; duplicates are never inserted.
    pub items: Vec<String>,
    /// The items missing from the system, set by the last reconciliation.
    pub items_to_add: Vec<String>,
    /// The items present on the system but not desired, set by the last
    /// reconciliation.
    pub items_to_remove: Vec<String>,
}

impl Manager {
    /// The desired-item set.
    pub open spec fn desired(&self) -> Set<Seq<char>> {
        views_of(self.items@).to_set()
    }

    /// The set of items to add, from the last reconciliation.
    pub open spec fn to_add_set(&self) -> Set<Seq<char>> {
        views_of(self.items_to_add@).to_set()
    }

    /// The set of items to remove, from the last reconciliation.
    pub open spec fn to_remove_set(&self) -> Set<Seq<char>> {
        views_of(self.items_to_remove@).to_set()
    }

    /// The separator used for `<items>` templates.
    pub open spec fn sep(&self) -> Seq<char> {
        match self.items_separator {
            Some(ref s) => s@,
            None => seq![' '],
        }
    }

    /// The separator to use when joining items, defaulting to a single space.
    pub fn separator(&self) -> (r: &str)
        ensures
            r@ == self.sep(),
    {
        match &self.items_separator {
            Some(s) => s.as_str(),
            None => {
                let blank = " ";
                proof {
                    reveal_strlit(" ");
                    assert(blank@ =~= seq![' ']);
                }
                blank
            },
        }
    }
}

/// The loaded configuration: every manager, in canonical order.
pub struct Config {
    /// The managers, sorted by their position in the order file.
    pub managers: Vec<Manager>,
}

impl Config {
    /// Leaves the configuration unchanged: populating each manager's desired
    /// set is the resolver's job, not the registry's.
    pub fn load_items(&mut self)
        ensures
            *final(self) == *old(self),
    {
    }
}

} // verus!
