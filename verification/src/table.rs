//! The table of icons, in the order in which they were loaded.

use crate::icon::{Icon, IconView};
use crate::text::{first_index_of, lemma_first_index_of};
use indexmap::IndexMap;
use vstd::prelude::*;

verus! {

/// `indexmap::IndexMap`, of which nothing is read but through the
/// functions below.
#[verifier::external_type_specification]
#[verifier::external_body]
#[verifier::reject_recursive_types(K)]
#[verifier::reject_recursive_types(V)]
#[verifier::reject_recursive_types(S)]
pub struct ExIndexMap<K, V, S>(IndexMap<K, V, S>);

/// The keys of the map with their values, in the map's order.
pub uninterp spec fn map_entries(m: IndexMap<String, Icon>) -> Seq<(Seq<char>, IconView)>;

/// The keys of `entries`, in order.
pub open spec fn entry_keys(entries: Seq<(Seq<char>, IconView)>) -> Seq<Seq<char>> {
    entries.map_values(|e: (Seq<char>, IconView)| e.0)
}

/// The values of `entries`, in order.
pub open spec fn entry_values(entries: Seq<(Seq<char>, IconView)>) -> Seq<IconView> {
    entries.map_values(|e: (Seq<char>, IconView)| e.1)
}

/// The names of `icons`, in order.
pub open spec fn icon_names(icons: Seq<IconView>) -> Seq<Seq<char>> {
    icons.map_values(|i: IconView| i.name)
}

/// Where the icon called `name` stands in `icons`, or their number where
/// none is called so.
pub open spec fn name_position(icons: Seq<IconView>, name: Seq<char>) -> int {
    first_index_of(icon_names(icons), name)
}

/// `IndexMap::new`: the new map holds nothing.
#[verifier::external_body]
fn map_new() -> (m: IndexMap<String, Icon>)
    ensures
        map_entries(m) == Seq::<(Seq<char>, IconView)>::empty(),
{
    IndexMap::new()
}

/// `IndexMap::len`: the number of entries.
#[verifier::external_body]
fn map_len(m: &IndexMap<String, Icon>) -> (n: usize)
    ensures
        n == map_entries(*m).len(),
{
    m.len()
}

/// `IndexMap::insert`: a key that the map holds keeps its place and gets the
/// new value, and the old value comes back; another key goes last with its
/// value, and nothing comes back.
#[verifier::external_body]
fn map_insert(m: &mut IndexMap<String, Icon>, key: String, value: Icon) -> (before: Option<Icon>)
    ensures
        ({
            let entries = map_entries(*old(m));
            let at = first_index_of(entry_keys(entries), key@);
            if at < entries.len() {
                &&& map_entries(*final(m)) == entries.update(at, (key@, value@))
                &&& before is Some
                &&& before->0@ == entries[at].1
            } else {
                &&& map_entries(*final(m)) == entries.push((key@, value@))
                &&& before is None
            }
        }),
{
    m.insert(key, value)
}

/// `IndexMap::get`: the value of the entry with this key, if there is one.
#[verifier::external_body]
fn map_get<'a>(m: &'a IndexMap<String, Icon>, key: &str) -> (value: Option<&'a Icon>)
    ensures
        ({
            let entries = map_entries(*m);
            let at = first_index_of(entry_keys(entries), key@);
            match value {
                Some(icon) => at < entries.len() && icon@ == entries[at].1,
                None => at == entries.len(),
            }
        }),
{
    m.get(key)
}

/// Indexing an `IndexMap` by position: the value of the entry at `at`.
#[verifier::external_body]
fn map_at<'a>(m: &'a IndexMap<String, Icon>, at: usize) -> (value: &'a Icon)
    requires
        at < map_entries(*m).len(),
    ensures
        value@ == map_entries(*m)[at as int].1,
{
    &m[at]
}

/// The icons by name, in the order in which they were inserted.
pub struct IconTable {
    map: IndexMap<String, Icon>,
}

impl View for IconTable {
    type V = Seq<IconView>;

    closed spec fn view(&self) -> Seq<IconView> {
        entry_values(map_entries(self.map))
    }
}

/// No two of `icons` share a name.
pub open spec fn distinct_names(icons: Seq<IconView>) -> bool {
    forall|i: int, j: int|
        0 <= i < j < icons.len() ==> (#[trigger] icons[i]).name != (#[trigger] icons[j]).name
}

impl IconTable {
    /// Every entry stands under the name of its icon.
    pub closed spec fn keyed_by_name(&self) -> bool {
        entry_keys(map_entries(self.map)) == icon_names(self@)
    }

    /// The table's invariant: every icon stands under its own name, and no
    /// two icons share one.
    pub open spec fn wf(&self) -> bool {
        &&& self.keyed_by_name()
        &&& distinct_names(self@)
    }

    /// An empty table.
    pub fn new() -> (table: IconTable)
        ensures
            table.wf(),
            table@ == Seq::<IconView>::empty(),
    {
        let table = IconTable { map: map_new() };
        assert(table@ =~= Seq::<IconView>::empty());
        assert(entry_keys(map_entries(table.map)) =~= icon_names(table@));
        table
    }

    /// The number of icons.
    pub fn len(&self) -> (n: usize)
        ensures
            n == self@.len(),
    {
        map_len(&self.map)
    }

    /// Adds `icon` at the end unless the table holds an icon of that name:
    /// the first icon of a name stays.
    pub fn insert(&mut self, icon: Icon) -> (added: bool)
        requires
            old(self).wf(),
        ensures
            final(self).wf(),
            added == (name_position(old(self)@, icon.name@) == old(self)@.len()),
            final(self)@ == if added {
                old(self)@.push(icon@)
            } else {
                old(self)@
            },
    {
        let ghost entries = map_entries(self.map);
        let ghost icons = self@;
        if map_get(&self.map, icon.name.as_str()).is_some() {
            return false;
        }
        let key = icon.name.clone();
        let _ = map_insert(&mut self.map, key, icon);
        proof {
            let name = icon.name@;
            let after = map_entries(self.map);
            assert(after == entries.push((name, icon@)));
            assert(self@ =~= icons.push(icon@));
            assert(entry_keys(after) =~= icon_names(self@)) by {
                assert forall|i: int| 0 <= i < after.len() implies entry_keys(after)[i]
                    == icon_names(self@)[i] by {
                    if i < entries.len() {
                        assert(entry_keys(entries)[i] == icon_names(icons)[i]);
                    }
                }
            }
            lemma_first_index_of(icon_names(icons), name);
            assert forall|i: int, j: int| 0 <= i < j < self@.len() implies (#[trigger] self@[i]).name
                != (#[trigger] self@[j]).name by {
                if j == icons.len() {
                    assert(icon_names(icons)[i] == icons[i].name);
                } else {
                    assert(self@[i] == icons[i] && self@[j] == icons[j]);
                }
            }
        }
        true
    }

    /// The icon called `name`.
    pub fn get_by_name(&self, name: &str) -> (found: Option<&Icon>)
        requires
            self.wf(),
        ensures
            match found {
                Some(icon) => {
                    &&& name_position(self@, name@) < self@.len()
                    &&& icon@ == self@[name_position(self@, name@)]
                },
                None => name_position(self@, name@) == self@.len(),
            },
    {
        let found = map_get(&self.map, name);
        proof {
            let entries = map_entries(self.map);
            assert(self@.len() == entries.len());
            let at = name_position(self@, name@);
            lemma_first_index_of(icon_names(self@), name@);
            if at < entries.len() {
                assert(self@[at] == entries[at].1);
            }
        }
        found
    }

    /// The icon at position `at`.
    pub fn get(&self, at: usize) -> (icon: &Icon)
        requires
            at < self@.len(),
        ensures
            icon@ == self@[at as int],
    {
        map_at(&self.map, at)
    }
}

} // verus!
