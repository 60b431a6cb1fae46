use vstd::prelude::*;
use rbtree::RBTree;
use crate::memory_table::{MemoryTable, TableModel, table_wf};

verus! {

#[verifier::external_type_specification]
#[verifier::external_body]
#[verifier::reject_recursive_types(K)]
#[verifier::reject_recursive_types(V)]
pub struct ExRBTree<K: Ord, V>(RBTree<K, V>);

/// What a tree of channels holds: each channel name and its table.
pub uninterp spec fn tables_of(t: RBTree<String, MemoryTable>) -> Map<Seq<char>, TableModel>;

pub open spec fn no_channels() -> Map<Seq<char>, TableModel> {
    Map::empty()
}

/// Relies on rbtree::RBTree::new: a new tree is empty.
#[verifier::external_body]
fn tree_new() -> (r: RBTree<String, MemoryTable>)
    ensures
        tables_of(r) == no_channels(),
{
    RBTree::new()
}

/// Relies on rbtree::RBTree::get: the value stored under an equal key, if any.
#[verifier::external_body]
fn tree_get<'a>(t: &'a RBTree<String, MemoryTable>, k: &String) -> (r: Option<&'a MemoryTable>)
    ensures
        match r {
            Some(v) => tables_of(*t).contains_key(k@) && tables_of(*t)[k@] == v@,
            None => !tables_of(*t).contains_key(k@),
        },
{
    t.get(k)
}

/// Relies on rbtree::RBTree::insert: the pair is added. The tree keeps
/// duplicate keys, so only an absent key is inserted.
#[verifier::external_body]
fn tree_insert(t: &mut RBTree<String, MemoryTable>, k: String, v: MemoryTable)
    requires
        !tables_of(*old(t)).contains_key(k@),
    ensures
        tables_of(*final(t)) == tables_of(*old(t)).insert(k@, v@),
{
    t.insert(k, v)
}

/// Relies on rbtree::RBTree::remove: the value under an equal key is taken out.
#[verifier::external_body]
fn tree_remove(t: &mut RBTree<String, MemoryTable>, k: &String) -> (r: Option<MemoryTable>)
    ensures
        match r {
            Some(v) => tables_of(*old(t)).contains_key(k@) && tables_of(*old(t))[k@] == v@
                && tables_of(*final(t)) == tables_of(*old(t)).remove(k@),
            None => !tables_of(*old(t)).contains_key(k@) && tables_of(*final(t)) == tables_of(
                *old(t),
            ),
        },
{
    t.remove(k)
}

/// All channels, ordered by name, each with its table.
pub struct MemoryChannel {
    tables: RBTree<String, MemoryTable>,
}

impl View for MemoryChannel {
    type V = Map<Seq<char>, TableModel>;

    closed spec fn view(&self) -> Map<Seq<char>, TableModel> {
        tables_of(self.tables)
    }
}

impl MemoryChannel {
    pub open spec fn wf(&self) -> bool {
        forall|k: Seq<char>| #[trigger] self@.contains_key(k) ==> table_wf(self@[k])
    }

    /// No channels.
    pub fn new() -> (r: MemoryChannel)
        ensures
            r.wf(),
            r@ == no_channels(),
    {
        MemoryChannel { tables: tree_new() }
    }

    /// The table of the channel `name`, if it exists.
    pub fn get(&self, name: &String) -> (r: Option<&MemoryTable>)
        ensures
            match r {
                Some(t) => self@.contains_key(name@) && self@[name@] == t@,
                None => !self@.contains_key(name@),
            },
    {
        tree_get(&self.tables, name)
    }

    /// Adds the channel `name` with `table`, unless it exists already, in
    /// which case the existing one is kept.
    pub fn insert(&mut self, name: String, table: MemoryTable)
        requires
            old(self).wf(),
            table.wf(),
        ensures
            final(self).wf(),
            final(self)@ == if old(self)@.contains_key(name@) {
                old(self)@
            } else {
                old(self)@.insert(name@, table@)
            },
    {
        if tree_get(&self.tables, &name).is_none() {
            self.put(name, table);
        }
    }

    /// Takes the table of the channel `name` out.
    pub fn take(&mut self, name: &String) -> (r: Option<MemoryTable>)
        requires
            old(self).wf(),
        ensures
            final(self).wf(),
            match r {
                Some(t) => old(self)@.contains_key(name@) && old(self)@[name@] == t@ && t.wf()
                    && final(self)@ == old(self)@.remove(name@),
                None => !old(self)@.contains_key(name@) && final(self)@ == old(self)@,
            },
    {
        tree_remove(&mut self.tables, name)
    }

    /// Puts back a table under a channel name that is absent.
    pub fn put(&mut self, name: String, table: MemoryTable)
        requires
            old(self).wf(),
            table.wf(),
            !old(self)@.contains_key(name@),
        ensures
            final(self).wf(),
            final(self)@ == old(self)@.insert(name@, table@),
    {
        tree_insert(&mut self.tables, name, table);
    }
}

} // verus!
