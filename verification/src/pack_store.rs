//! The pack store: the catalog of the packs that can be had, and the packs that are
//! loaded because a game uses them.
//!
//! The store never touches the disk. The program around it scans the pack directory,
//! hands the catalog to [`PackStore::new`], and stages the contents of a pack file with
//! [`PackStore::stage`] before the packet that may need it is handled. A staged pack is
//! loaded when a game asks for it and forgotten when the event is over.
//!
//! A loaded pack is shared: the store keeps, beside each loaded pack, the listeners that
//! hold it. A pack that no listener holds is unloaded, except the default pack, which
//! stays loaded as long as the store lives.

use vstd::prelude::*;
use std::rc::Rc;
use crate::cards::{Pack, PackMeta, PackView};
use crate::ids::ListenerId;
use crate::protocol::{PackInfo, PackInfoView};
use crate::seqs::views_of;
use crate::vec_map::{
    distinct_keys, first_index, has_key, lemma_first_index, lemma_first_index_at_most,
    lemma_first_index_unique, lemma_push_new_key, lemma_remove_entry, lemma_update_value,
};

verus! {

/// The name of the default pack.
pub const DEFAULT_PACK: &'static str = "CAH Base Set";

/// Why the store refused a request.
#[derive(Clone, Copy, PartialEq, Eq, Structural, Debug)]
pub enum PackError {
    /// The catalog has no pack of that name.
    NotFound,
    /// The catalog has the pack, but its contents could not be had.
    Corrupt,
    /// The catalog already has a pack of that name.
    NameTaken,
    /// The default pack is missing from what the store was made with.
    DefaultPackMissing,
}

impl PackError {
    /// The error in words.
    pub open spec fn text(self) -> Seq<char> {
        match self {
            PackError::NotFound => "pack is not found"@,
            PackError::Corrupt => "pack could not be read"@,
            PackError::NameTaken => "pack name is taken"@,
            PackError::DefaultPackMissing => "default pack file not found"@,
        }
    }

    /// The error in words.
    pub fn message(&self) -> (text: String)
        ensures
            text@ == self.text(),
    {
        match self {
            PackError::NotFound => "pack is not found".to_owned(),
            PackError::Corrupt => "pack could not be read".to_owned(),
            PackError::NameTaken => "pack name is taken".to_owned(),
            PackError::DefaultPackMissing => "default pack file not found".to_owned(),
        }
    }
}

/// One pack of the catalog.
#[derive(Debug, PartialEq, Eq)]
pub struct CatalogEntry {
    pub name: String,
    pub meta: PackMeta,
}

impl View for CatalogEntry {
    type V = (Seq<char>, PackMeta);

    open spec fn view(&self) -> (Seq<char>, PackMeta) {
        (self.name@, self.meta)
    }
}

/// A loaded pack and the listeners that hold it.
pub struct LoadedPack {
    pub pack: Rc<Pack>,
    pub holders: Vec<ListenerId>,
}

/// What a [`LoadedPack`] holds.
pub struct LoadedView {
    pub pack: PackView,
    pub holders: Seq<ListenerId>,
}

impl View for LoadedPack {
    type V = (Seq<char>, LoadedView);

    /// The entry of the loaded map: the pack's name, and the pack with its holders.
    open spec fn view(&self) -> (Seq<char>, LoadedView) {
        (self.pack@.name, LoadedView { pack: self.pack@, holders: self.holders@ })
    }
}

/// Shares a loaded pack with one more owner.
///
/// Trusted: calls `Rc::clone`, which hands out another pointer to the same allocation, so
/// the pack behind the result is the pack behind the argument.
#[verifier::external_body]
pub(crate) fn share_pack(pack: &Rc<Pack>) -> (shared: Rc<Pack>)
    ensures
        shared == *pack,
{
    Rc::clone(pack)
}

/// `holders` without `holder`.
pub open spec fn without(holders: Seq<ListenerId>, holder: ListenerId) -> Seq<ListenerId>
    decreases holders.len(),
{
    if holders.len() == 0 {
        holders
    } else if holders.last() == holder {
        without(holders.drop_last(), holder)
    } else {
        without(holders.drop_last(), holder).push(holders.last())
    }
}

/// `without` removes the holder and nobody else.
pub proof fn lemma_without(holders: Seq<ListenerId>, holder: ListenerId)
    ensures
        !without(holders, holder).contains(holder),
        forall|other: ListenerId|
            other != holder ==> (#[trigger] without(holders, holder).contains(other)
                <==> holders.contains(other)),
    decreases holders.len(),
{
    if holders.len() > 0 {
        let front = holders.drop_last();
        lemma_without(front, holder);
        let rest = without(front, holder);
        let out = without(holders, holder);
        assert forall|other: ListenerId| other != holder implies (#[trigger] out.contains(other)
            <==> holders.contains(other)) by {
            if out.contains(other) {
                let i = choose|i: int| 0 <= i < out.len() && out[i] == other;
                if holders.last() != holder && i == out.len() - 1 {
                    assert(holders[holders.len() - 1] == other);
                } else {
                    assert(rest[i] == other);
                    assert(rest.contains(other));
                    let j = choose|j: int| 0 <= j < front.len() && front[j] == other;
                    assert(holders[j] == other);
                }
            }
            if holders.contains(other) {
                let j = choose|j: int| 0 <= j < holders.len() && holders[j] == other;
                if j == holders.len() - 1 {
                    assert(out[out.len() - 1] == other);
                } else {
                    assert(front[j] == other);
                    assert(front.contains(other));
                    assert(rest.contains(other));
                    let i = choose|i: int| 0 <= i < rest.len() && rest[i] == other;
                    assert(out[i] == other);
                }
            }
        }
        if out.contains(holder) {
            let i = choose|i: int| 0 <= i < out.len() && out[i] == holder;
            if holders.last() != holder && i == out.len() - 1 {
            } else {
                assert(rest[i] == holder);
                assert(rest.contains(holder));
            }
        }
    }
}

/// Whether an entry of the loaded map stays: the default pack always, another pack while
/// a listener holds it.
pub open spec fn stays_loaded(entry: (Seq<char>, LoadedView)) -> bool {
    entry.0 == DEFAULT_PACK@ || entry.1.holders.len() > 0
}

/// The entry after `holder` let go of it.
pub open spec fn let_go(entry: (Seq<char>, LoadedView), holder: ListenerId) -> (
    Seq<char>,
    LoadedView,
) {
    (entry.0, LoadedView { pack: entry.1.pack, holders: without(entry.1.holders, holder) })
}

/// The loaded map after `holder` let go of every pack it held: its name is gone from
/// every entry, and the entries that nobody holds any more are dropped.
pub open spec fn released(loaded: Seq<(Seq<char>, LoadedView)>, holder: ListenerId)
    -> Seq<(Seq<char>, LoadedView)>
    decreases loaded.len(),
{
    if loaded.len() == 0 {
        loaded
    } else {
        let rest = released(loaded.drop_last(), holder);
        let entry = let_go(loaded.last(), holder);
        if stays_loaded(entry) {
            rest.push(entry)
        } else {
            rest
        }
    }
}

/// The catalog after a pack was entered under `name`: in place of an entry of that
/// name, or as a new last entry.
pub open spec fn catalog_put(
    catalog: Seq<(Seq<char>, PackMeta)>,
    name: Seq<char>,
    meta: PackMeta,
) -> Seq<(Seq<char>, PackMeta)> {
    if has_key(catalog, name) {
        catalog.update(first_index(catalog, name), (name, meta))
    } else {
        catalog.push((name, meta))
    }
}

/// The catalog that a list of entries makes: each is entered in turn, so of two entries
/// with one name the later one counts.
pub open spec fn catalog_of(entries: Seq<(Seq<char>, PackMeta)>) -> Seq<(Seq<char>, PackMeta)>
    decreases entries.len(),
{
    if entries.len() == 0 {
        entries
    } else {
        catalog_put(catalog_of(entries.drop_last()), entries.last().0, entries.last().1)
    }
}

/// Entering a pack keeps the names of the catalog distinct.
pub proof fn lemma_catalog_put_distinct(
    catalog: Seq<(Seq<char>, PackMeta)>,
    name: Seq<char>,
    meta: PackMeta,
)
    requires
        distinct_keys(catalog),
    ensures
        distinct_keys(catalog_put(catalog, name, meta)),
        has_key(catalog_put(catalog, name, meta), name),
        forall|other: Seq<char>|
            other != name ==> (#[trigger] has_key(catalog_put(catalog, name, meta), other)
                <==> has_key(
                catalog,
                other,
            )),
{
    let out = catalog_put(catalog, name, meta);
    lemma_first_index(catalog, name);
    if has_key(catalog, name) {
        let i = first_index(catalog, name);
        assert forall|a: int, b: int| 0 <= a < b < out.len() implies (#[trigger] out[a]).0 != (
        #[trigger] out[b]).0 by {
            assert(out[a].0 == catalog[a].0);
            assert(out[b].0 == catalog[b].0);
        }
        lemma_first_index_at_most(out, name, i);
    } else {
        assert forall|a: int, b: int| 0 <= a < b < out.len() implies (#[trigger] out[a]).0 != (
        #[trigger] out[b]).0 by {
            if b == catalog.len() {
                assert(catalog[a].0 != name);
            }
        }
        lemma_first_index_at_most(out, name, catalog.len() as int);
    }
    assert forall|other: Seq<char>| other != name implies (#[trigger] has_key(out, other)
        <==> has_key(
        catalog,
        other,
    )) by {
        lemma_first_index(catalog, other);
        lemma_first_index(out, other);
        if has_key(out, other) {
            let j = first_index(out, other);
            assert(out[j].0 == other);
            assert(j < catalog.len());
            assert(catalog[j].0 == other);
            lemma_first_index_at_most(catalog, other, j);
        }
        if has_key(catalog, other) {
            let j = first_index(catalog, other);
            assert(out[j].0 == other);
            lemma_first_index_at_most(out, other, j);
        }
    }
}

/// What a [`PackStore`] holds.
pub struct PackStoreView {
    /// The packs that can be had, by name.
    pub catalog: Seq<(Seq<char>, PackMeta)>,
    /// The packs that are loaded, by name, with their holders.
    pub loaded: Seq<(Seq<char>, LoadedView)>,
    /// The packs that were read for the event at hand and are not loaded yet.
    pub staged: Seq<PackView>,
}

impl PackStoreView {
    /// The position of the first staged pack called `name`, or the number of staged packs
    /// where none is.
    pub open spec fn staged_index(self, name: Seq<char>) -> int {
        first_index(Seq::new(self.staged.len(), |i: int| (self.staged[i].name, ())), name)
    }

    /// Whether a pack called `name` is staged.
    pub open spec fn is_staged(self, name: Seq<char>) -> bool {
        self.staged_index(name) < self.staged.len()
    }

    /// The store after `holder` asked for the pack called `name`, where that succeeds.
    pub open spec fn after_load(self, name: Seq<char>, holder: ListenerId) -> PackStoreView {
        if has_key(self.loaded, name) {
            let i = first_index(self.loaded, name);
            let entry = self.loaded[i].1;
            let holders = if entry.holders.contains(holder) {
                entry.holders
            } else {
                entry.holders.push(holder)
            };
            PackStoreView {
                loaded: self.loaded.update(i, (name, LoadedView { pack: entry.pack, holders })),
                ..self
            }
        } else {
            let j = self.staged_index(name);
            PackStoreView {
                loaded: self.loaded.push(
                    (name, LoadedView { pack: self.staged[j], holders: seq![holder] }),
                ),
                staged: self.staged.remove(j),
                ..self
            }
        }
    }

    /// What asking for the pack called `name` returns: the error, or nothing where the
    /// request succeeds.
    pub open spec fn load_error(self, name: Seq<char>) -> Option<PackError> {
        if has_key(self.loaded, name) {
            None
        } else if !has_key(self.catalog, name) {
            Some(PackError::NotFound)
        } else if self.is_staged(name) {
            None
        } else {
            Some(PackError::Corrupt)
        }
    }

    /// The store after `holder` let go of the pack called `name`.
    pub open spec fn after_unload(self, name: Seq<char>, holder: ListenerId) -> PackStoreView {
        if has_key(self.loaded, name) {
            let i = first_index(self.loaded, name);
            let entry = let_go(self.loaded[i], holder);
            PackStoreView {
                loaded: if stays_loaded(entry) {
                    self.loaded.update(i, entry)
                } else {
                    self.loaded.remove(i)
                },
                ..self
            }
        } else {
            self
        }
    }

    /// The catalog as the lobby lists it: each pack's name and card counts.
    pub open spec fn catalog_list(self) -> Seq<PackInfoView> {
        Seq::new(
            self.catalog.len(),
            |i: int|
                PackInfoView {
                    name: self.catalog[i].0,
                    num_prompts: self.catalog[i].1.num_prompts,
                    num_responses: self.catalog[i].1.num_responses,
                },
        )
    }

    /// Whether `holder` holds the loaded pack called `name`.
    pub open spec fn holds(self, holder: ListenerId, name: Seq<char>) -> bool {
        has_key(self.loaded, name)
            && self.loaded[first_index(self.loaded, name)].1.holders.contains(
            holder,
        )
    }

    /// Whether no listener holds a loaded pack, as in a store that was just made.
    pub open spec fn nothing_held(self) -> bool {
        forall|i: int|
            0 <= i < self.loaded.len() ==> (#[trigger] self.loaded[i]).1.holders.len() == 0
    }

    /// Whether `holder` holds a loaded pack.
    pub open spec fn holds_any(self, holder: ListenerId) -> bool {
        exists|i: int| 0 <= i < self.loaded.len()
            && (#[trigger] self.loaded[i]).1.holders.contains(holder)
    }

    /// The invariant of the store.
    pub open spec fn wf(self) -> bool {
        &&& distinct_keys(self.catalog)
        &&& distinct_keys(self.loaded)
        &&& has_key(self.loaded, DEFAULT_PACK@)
        &&& forall|i: int|
            0 <= i < self.loaded.len() ==> {
                &&& (#[trigger] self.loaded[i]).0 == self.loaded[i].1.pack.name
                &&& self.loaded[i].1.pack.picks_in_range()
                &&& stays_loaded(self.loaded[i])
                &&& has_key(self.catalog, self.loaded[i].0)
            }
        &&& forall|i: int| 0 <= i < self.staged.len()
            ==> (#[trigger] self.staged[i]).picks_in_range()
    }
}

/// A store to manage loading and unloading [`Pack`]s.
pub struct PackStore {
    pub possible_packs: Vec<CatalogEntry>,
    pub loaded_packs: Vec<LoadedPack>,
    pub staged_packs: Vec<Pack>,
}

impl View for PackStore {
    type V = PackStoreView;

    open spec fn view(&self) -> PackStoreView {
        PackStoreView {
            catalog: views_of(self.possible_packs@),
            loaded: views_of(self.loaded_packs@),
            staged: views_of(self.staged_packs@),
        }
    }
}

/// What letting go does to the loaded map: the entries that are left are entries of the
/// map before, in their old order and without `holder`; the default pack stays; and what
/// the other listeners hold is not touched.
pub proof fn lemma_released(loaded: Seq<(Seq<char>, LoadedView)>, holder: ListenerId)
    requires
        distinct_keys(loaded),
    ensures
        distinct_keys(released(loaded, holder)),
        forall|i: int|
            0 <= i < released(loaded, holder).len() ==> {
                &&& has_key(loaded, (#[trigger] released(loaded, holder)[i]).0)
                &&& released(loaded, holder)[i] == let_go(
                    loaded[first_index(loaded, released(loaded, holder)[i].0)],
                    holder,
                )
                &&& stays_loaded(released(loaded, holder)[i])
            },
        forall|j: int|
            0 <= j < loaded.len() && stays_loaded(let_go(#[trigger] loaded[j], holder)) ==> {
                &&& has_key(released(loaded, holder), loaded[j].0)
                &&& released(loaded, holder)[first_index(released(loaded, holder), loaded[j].0)]
                    == let_go(loaded[j], holder)
            },
    decreases loaded.len(),
{
    let out = released(loaded, holder);
    if loaded.len() > 0 {
        let front = loaded.drop_last();
        let rest = released(front, holder);
        let entry = let_go(loaded.last(), holder);
        let last = loaded.len() - 1;
        lemma_released(front, holder);
        assert forall|i: int| 0 <= i < rest.len() implies has_key(loaded, (#[trigger] rest[i]).0)
            && first_index(loaded, rest[i].0) == first_index(front, rest[i].0) by {
            let k = first_index(front, rest[i].0);
            lemma_first_index(front, rest[i].0);
            assert(loaded[k] == front[k]);
            lemma_first_index_unique(loaded, rest[i].0, k);
        }
        assert forall|i: int| 0 <= i < out.len() implies {
            &&& has_key(loaded, (#[trigger] out[i]).0)
            &&& out[i] == let_go(loaded[first_index(loaded, out[i].0)], holder)
            &&& stays_loaded(out[i])
        } by {
            if i < rest.len() {
                assert(out[i] == rest[i]);
                let k = first_index(front, rest[i].0);
                lemma_first_index(front, rest[i].0);
                assert(has_key(front, rest[i].0));
                assert(first_index(loaded, rest[i].0) == k);
                assert(loaded[k] == front[k]);
            } else {
                assert(out[i] == entry);
                lemma_first_index_unique(loaded, entry.0, last);
            }
        }
        assert forall|a: int, b: int| 0 <= a < b < out.len() implies (#[trigger] out[a]).0 != (
        #[trigger] out[b]).0 by {
            if b == rest.len() {
                assert(out[a] == rest[a]);
                let k = first_index(front, rest[a].0);
                lemma_first_index(front, rest[a].0);
                assert(loaded[k].0 == rest[a].0);
                assert(loaded[last].0 == out[b].0);
            } else {
                assert(out[a] == rest[a]);
                assert(out[b] == rest[b]);
            }
        }
        assert forall|j: int|
            0 <= j < loaded.len() && stays_loaded(let_go(#[trigger] loaded[j], holder)) implies {
            &&& has_key(out, loaded[j].0)
            &&& out[first_index(out, loaded[j].0)] == let_go(loaded[j], holder)
        } by {
            if j == last {
                lemma_first_index_unique(out, loaded[j].0, rest.len() as int);
            } else {
                assert(front[j] == loaded[j]);
                let k = first_index(rest, loaded[j].0);
                lemma_first_index(rest, loaded[j].0);
                assert(out[k] == rest[k]);
                lemma_first_index_unique(out, loaded[j].0, k);
            }
        }
    }
}

impl PackStore {
    /// The invariant of the store: catalog names and loaded names are distinct, every
    /// loaded pack is listed in the catalog, the default pack is loaded, and every other
    /// loaded pack is held by a listener.
    pub open spec fn wf(&self) -> bool {
        self@.wf()
    }

    fn find_catalog(&self, name: &String) -> (found: Option<usize>)
        ensures
            found matches Some(i)
                ==> i == first_index(self@.catalog, name@) && i < self@.catalog.len(),
            found is Some <==> has_key(self@.catalog, name@),
    {
        let ghost entries = self@.catalog;
        let mut i: usize = 0;
        while i < self.possible_packs.len()
            invariant
                i <= self.possible_packs.len(),
                entries == self@.catalog,
                forall|j: int| 0 <= j < i ==> (#[trigger] entries[j]).0 != name@,
            decreases self.possible_packs.len() - i,
        {
            if self.possible_packs[i].name == *name {
                proof {
                    assert(entries[i as int].0 == name@);
                    lemma_first_index_at_most(entries, name@, i as int);
                    lemma_first_index(entries, name@);
                    if first_index(entries, name@) < i {
                        assert(entries[first_index(entries, name@)].0 != name@);
                    }
                }
                return Some(i);
            }
            assert(entries[i as int].0 != name@);
            i += 1;
        }
        proof {
            lemma_first_index(entries, name@);
            if first_index(entries, name@) < entries.len() {
                assert(entries[first_index(entries, name@)].0 != name@);
            }
        }
        None
    }

    fn find_loaded(&self, name: &String) -> (found: Option<usize>)
        ensures
            found matches Some(i)
                ==> i == first_index(self@.loaded, name@) && i < self@.loaded.len(),
            found is Some <==> has_key(self@.loaded, name@),
    {
        let ghost entries = self@.loaded;
        let mut i: usize = 0;
        while i < self.loaded_packs.len()
            invariant
                i <= self.loaded_packs.len(),
                entries == self@.loaded,
                forall|j: int| 0 <= j < i ==> (#[trigger] entries[j]).0 != name@,
            decreases self.loaded_packs.len() - i,
        {
            if self.loaded_packs[i].pack.name == *name {
                proof {
                    assert(entries[i as int].0 == name@);
                    lemma_first_index_at_most(entries, name@, i as int);
                    lemma_first_index(entries, name@);
                    if first_index(entries, name@) < i {
                        assert(entries[first_index(entries, name@)].0 != name@);
                    }
                }
                return Some(i);
            }
            assert(entries[i as int].0 != name@);
            i += 1;
        }
        proof {
            lemma_first_index(entries, name@);
            if first_index(entries, name@) < entries.len() {
                assert(entries[first_index(entries, name@)].0 != name@);
            }
        }
        None
    }

    fn find_staged(&self, name: &String) -> (found: Option<usize>)
        ensures
            found matches Some(i) ==> i == self@.staged_index(name@) && i < self@.staged.len(),
            found is Some <==> self@.is_staged(name@),
    {
        let ghost entries = Seq::new(self@.staged.len(), |i: int| (self@.staged[i].name, ()));
        let mut i: usize = 0;
        while i < self.staged_packs.len()
            invariant
                i <= self.staged_packs.len(),
                entries == Seq::new(self@.staged.len(), |i: int| (self@.staged[i].name, ())),
                forall|j: int| 0 <= j < i ==> (#[trigger] entries[j]).0 != name@,
            decreases self.staged_packs.len() - i,
        {
            if self.staged_packs[i].name == *name {
                proof {
                    assert(entries[i as int].0 == name@);
                    lemma_first_index_at_most(entries, name@, i as int);
                    lemma_first_index(entries, name@);
                    if first_index(entries, name@) < i {
                        assert(entries[first_index(entries, name@)].0 != name@);
                    }
                }
                return Some(i);
            }
            assert(entries[i as int].0 != name@);
            i += 1;
        }
        proof {
            lemma_first_index(entries, name@);
            if first_index(entries, name@) < entries.len() {
                assert(entries[first_index(entries, name@)].0 != name@);
            }
        }
        None
    }
}

impl PackStore {
    /// Enters a pack into the catalog under `name`.
    fn catalog_insert(&mut self, name: String, meta: PackMeta)
        ensures
            final(self)@.catalog == catalog_put(old(self)@.catalog, name@, meta),
            final(self)@.loaded == old(self)@.loaded,
            final(self)@.staged == old(self)@.staged,
    {
        match self.find_catalog(&name) {
            Some(i) => {
                self.possible_packs[i] = CatalogEntry { name, meta };
                assert(self@.catalog =~= catalog_put(old(self)@.catalog, name@, meta));
            },
            None => {
                self.possible_packs.push(CatalogEntry { name, meta });
                assert(self@.catalog =~= catalog_put(old(self)@.catalog, name@, meta));
            },
        }
        assert(self@.loaded =~= old(self)@.loaded);
        assert(self@.staged =~= old(self)@.staged);
    }

    /// Whether a store can be made of `packs` and `default_pack`: the default pack is
    /// there under its name, its prompts are in order, and the catalog lists it.
    pub open spec fn can_make(
        packs: Seq<(Seq<char>, PackMeta)>,
        default_pack: Option<Pack>,
    ) -> bool {
        &&& default_pack matches Some(pack)
        &&& pack@.name == DEFAULT_PACK@
        &&& pack@.picks_in_range()
        &&& has_key(catalog_of(packs), DEFAULT_PACK@)
    }

    /// Creates a store whose catalog is made of `packs`, with the default pack loaded.
    ///
    /// `packs` lists what was found in the pack directory, the official packs first;
    /// `default_pack` is the content of the default pack's file, if it could be read.
    pub fn new(
        packs: Vec<CatalogEntry>,
        default_pack: Option<Pack>,
    ) -> (made: Result<Self, PackError>)
        ensures
            match made {
                Ok(store) => {
                    &&& Self::can_make(views_of(packs@), default_pack)
                    &&& store.wf()
                    &&& store@.catalog == catalog_of(views_of(packs@))
                    &&& store@.loaded == seq![
                        (
                            DEFAULT_PACK@,
                            LoadedView {
                                pack: default_pack->Some_0@,
                                holders: Seq::<ListenerId>::empty(),
                            },
                        ),
                    ]
                    &&& store@.staged == Seq::<PackView>::empty()
                    &&& store@.nothing_held()
                },
                Err(error) => {
                    &&& error == PackError::DefaultPackMissing
                    &&& !Self::can_make(views_of(packs@), default_pack)
                },
            },
    {
        let mut store = PackStore {
            possible_packs: Vec::new(),
            loaded_packs: Vec::new(),
            staged_packs: Vec::new(),
        };
        let ghost entries = views_of(packs@);
        assert(store@.catalog =~= catalog_of(entries.take(0)));
        let mut i: usize = 0;
        while i < packs.len()
            invariant
                i <= packs.len(),
                entries == views_of(packs@),
                store@.catalog == catalog_of(entries.take(i as int)),
                distinct_keys(store@.catalog),
                store@.loaded.len() == 0,
                store@.staged.len() == 0,
            decreases packs.len() - i,
        {
            proof {
                assert(entries.take(i + 1).drop_last() =~= entries.take(i as int));
                lemma_catalog_put_distinct(store@.catalog, entries[i as int].0,
                    entries[i as int].1);
            }
            store.catalog_insert(packs[i].name.clone(), packs[i].meta);
            i += 1;
        }
        assert(entries.take(packs.len() as int) =~= entries);
        let default_name: String = DEFAULT_PACK.to_owned();
        let listed = store.find_catalog(&default_name).is_some();
        match default_pack {
            Some(pack) => {
                if listed && pack.name == default_name && pack.picks_in_range() {
                    store.loaded_packs.push(LoadedPack { pack: Rc::new(pack),
                        holders: Vec::new() });
                    proof {
                        assert(store@.loaded =~= seq![
                            (
                                DEFAULT_PACK@,
                                LoadedView { pack: pack@, holders: Seq::<ListenerId>::empty() },
                            ),
                        ]);
                        assert(store@.staged =~= Seq::<PackView>::empty());
                        lemma_first_index_at_most(store@.loaded, DEFAULT_PACK@, 0);
                    }
                    Ok(store)
                } else {
                    Err(PackError::DefaultPackMissing)
                }
            },
            None => Err(PackError::DefaultPackMissing),
        }
    }

    /// The catalog: every pack that can be had, with its summary.
    pub fn possible_packs(&self) -> (catalog: &Vec<CatalogEntry>)
        ensures
            views_of(catalog@) == self@.catalog,
    {
        &self.possible_packs
    }

    /// The catalog as the lobby lists it: each pack's name and card counts.
    pub fn catalog_view(&self) -> (list: Vec<PackInfo>)
        ensures
            views_of(list@) == self@.catalog_list(),
    {
        let mut list: Vec<PackInfo> = Vec::new();
        let mut i: usize = 0;
        while i < self.possible_packs.len()
            invariant
                i <= self.possible_packs.len(),
                list@.len() == i,
                forall|j: int|
                    0 <= j < i ==> (#[trigger] list@[j])@ == (PackInfoView {
                        name: self@.catalog[j].0,
                        num_prompts: self@.catalog[j].1.num_prompts,
                        num_responses: self@.catalog[j].1.num_responses,
                    }),
            decreases self.possible_packs.len() - i,
        {
            let entry = &self.possible_packs[i];
            list.push(
                PackInfo {
                    name: entry.name.clone(),
                    num_prompts: entry.meta.num_prompts,
                    num_responses: entry.meta.num_responses,
                },
            );
            i += 1;
        }
        assert(views_of(list@) =~= self@.catalog_list());
        list
    }

    /// The default pack.
    pub fn default_pack(&self) -> (pack: Rc<Pack>)
        requires
            self.wf(),
        ensures
            pack@ == self@.loaded[first_index(self@.loaded, DEFAULT_PACK@)].1.pack,
            pack@.name == DEFAULT_PACK@,
    {
        let default_name: String = DEFAULT_PACK.to_owned();
        match self.find_loaded(&default_name) {
            Some(i) => {
                proof {
                    lemma_first_index(self@.loaded, DEFAULT_PACK@);
                    assert(self@.loaded[i as int].1.pack == self.loaded_packs@[i as int].pack@);
                }
                share_pack(&self.loaded_packs[i].pack)
            },
            None => {
                proof {
                    assert(false);
                }
                Rc::new(
                    Pack {
                        name: default_name,
                        official: true,
                        responses: Vec::new(),
                        prompts: Vec::new(),
                    },
                )
            },
        }
    }

    /// Whether the pack called `pack_name` is loaded.
    pub fn is_loaded(&self, pack_name: &str) -> (loaded: bool)
        ensures
            loaded == has_key(self@.loaded, pack_name@),
    {
        let name: String = pack_name.to_owned();
        self.find_loaded(&name).is_some()
    }

    /// Whether the file of the pack called `pack_name` has to be read before a game can
    /// load it, and if so whether it is an official pack: the catalog lists the pack, and
    /// it is neither loaded nor staged.
    pub fn needs_read(&self, pack_name: &str) -> (official: Option<bool>)
        ensures
            official is Some <==> self@.load_error(pack_name@) == Some(PackError::Corrupt),
            official matches Some(flag) ==> flag == self@.catalog[first_index(
                self@.catalog,
                pack_name@,
            )].1.official,
    {
        let name: String = pack_name.to_owned();
        match self.find_catalog(&name) {
            Some(i) => {
                if self.find_loaded(&name).is_some() || self.find_staged(&name).is_some() {
                    None
                } else {
                    Some(self.possible_packs[i].meta.official)
                }
            },
            None => None,
        }
    }

    /// Stages the contents of a pack file that was just read, so that a game can load
    /// the pack while the event at hand is handled. A pack with a prompt that asks for
    /// fewer than one or more than three responses is refused.
    pub fn stage(&mut self, pack: Pack) -> (staged: bool)
        requires
            old(self).wf(),
        ensures
            final(self).wf(),
            staged == pack@.picks_in_range(),
            final(self)@.catalog == old(self)@.catalog,
            final(self)@.loaded == old(self)@.loaded,
            final(self)@.staged == if staged {
                old(self)@.staged.push(pack@)
            } else {
                old(self)@.staged
            },
    {
        if pack.picks_in_range() {
            self.staged_packs.push(pack);
            assert(self@.staged =~= old(self)@.staged.push(pack@));
            assert(self@.catalog =~= old(self)@.catalog);
            assert(self@.loaded =~= old(self)@.loaded);
            true
        } else {
            false
        }
    }

    /// Forgets the staged packs that no game loaded.
    pub fn clear_staged(&mut self)
        requires
            old(self).wf(),
        ensures
            final(self).wf(),
            final(self)@.catalog == old(self)@.catalog,
            final(self)@.loaded == old(self)@.loaded,
            final(self)@.staged == Seq::<PackView>::empty(),
    {
        self.staged_packs.clear();
        assert(self@.staged =~= Seq::<PackView>::empty());
        assert(self@.catalog =~= old(self)@.catalog);
        assert(self@.loaded =~= old(self)@.loaded);
    }

    /// Enters a newly written custom pack into the catalog. A name that the catalog has
    /// already is refused.
    pub fn create_pack(&mut self, pack: &Pack) -> (created: Result<(), PackError>)
        requires
            old(self).wf(),
        ensures
            final(self).wf(),
            final(self)@.loaded == old(self)@.loaded,
            final(self)@.staged == old(self)@.staged,
            match created {
                Ok(_) => {
                    &&& !has_key(old(self)@.catalog, pack@.name)
                    &&& final(self)@.catalog == old(self)@.catalog.push(
                        (
                            pack@.name,
                            PackMeta {
                                official: false,
                                num_prompts: pack@.prompts.len() as usize,
                                num_responses: pack@.responses.len() as usize,
                            },
                        ),
                    )
                },
                Err(error) => {
                    &&& error == PackError::NameTaken
                    &&& has_key(old(self)@.catalog, pack@.name)
                    &&& final(self)@.catalog == old(self)@.catalog
                },
            },
    {
        if self.find_catalog(&pack.name).is_some() {
            return Err(PackError::NameTaken);
        }
        let mut meta = pack.meta();
        meta.official = false;
        proof {
            lemma_catalog_put_distinct(self@.catalog, pack@.name, meta);
        }
        self.catalog_insert(pack.name.clone(), meta);
        Ok(())
    }
}

/// Whether `holder` is among `holders`.
fn is_holder(holders: &Vec<ListenerId>, holder: ListenerId) -> (found: bool)
    ensures
        found == holders@.contains(holder),
{
    let mut i: usize = 0;
    while i < holders.len()
        invariant
            i <= holders.len(),
            forall|j: int| 0 <= j < i ==> holders@[j] != holder,
        decreases holders.len() - i,
    {
        if holders[i] == holder {
            return true;
        }
        i += 1;
    }
    false
}

/// `holders` without `holder`.
pub(crate) fn drop_holder(holders: &Vec<ListenerId>, holder: ListenerId) -> (rest: Vec<ListenerId>)
    ensures
        rest@ == without(holders@, holder),
{
    let mut rest: Vec<ListenerId> = Vec::new();
    let mut i: usize = 0;
    while i < holders.len()
        invariant
            i <= holders.len(),
            rest@ == without(holders@.take(i as int), holder),
        decreases holders.len() - i,
    {
        assert(holders@.take(i + 1).drop_last() =~= holders@.take(i as int));
        if holders[i] != holder {
            rest.push(holders[i]);
        }
        i += 1;
    }
    assert(holders@.take(holders.len() as int) =~= holders@);
    rest
}

impl PackStore {
    /// Loads the pack called `pack_name` for `holder` and returns the shared pack.
    ///
    /// A pack that is loaded already is shared with one more holder. A pack that is not
    /// is taken from the staged packs. The request for a pack that is not loaded fails
    /// with [`PackError::NotFound`] where the catalog does not list the pack, and with
    /// [`PackError::Corrupt`] where it does but the pack is not staged.
    pub fn load_pack(&mut self, pack_name: &str, holder: ListenerId)
        -> (loaded: Result<Rc<Pack>, PackError>)
        requires
            old(self).wf(),
        ensures
            final(self).wf(),
            match loaded {
                Ok(pack) => {
                    &&& old(self)@.load_error(pack_name@) is None
                    &&& final(self)@ == old(self)@.after_load(pack_name@, holder)
                    &&& has_key(final(self)@.loaded, pack_name@)
                    &&& pack@
                        == final(self)@.loaded[first_index(final(self)@.loaded, pack_name@)].1.pack
                    &&& pack@.name == pack_name@
                    &&& pack@.picks_in_range()
                },
                Err(error) => {
                    &&& old(self)@.load_error(pack_name@) == Some(error)
                    &&& final(self)@ == old(self)@
                },
            },
    {
        let name: String = pack_name.to_owned();
        let ghost before = self@;
        proof {
            lemma_first_index(before.loaded, name@);
        }
        match self.find_loaded(&name) {
            Some(i) => {
                let ghost entry = before.loaded[i as int].1;
                if !is_holder(&self.loaded_packs[i].holders, holder) {
                    self.loaded_packs[i].holders.push(holder);
                }
                let pack = share_pack(&self.loaded_packs[i].pack);
                proof {
                    let after = before.after_load(name@, holder);
                    assert(self@.loaded =~= after.loaded);
                    assert(self@.catalog =~= after.catalog);
                    assert(self@.staged =~= after.staged);
                    lemma_update_value(before.loaded, i as int, self@.loaded[i as int].1);
                    assert(first_index(self@.loaded, DEFAULT_PACK@) == first_index(
                        before.loaded,
                        DEFAULT_PACK@,
                    ));
                    assert(first_index(self@.loaded, name@) == first_index(before.loaded, name@));
                    assert forall|k: int| 0 <= k < self@.loaded.len() implies {
                        &&& (#[trigger] self@.loaded[k]).0 == self@.loaded[k].1.pack.name
                        &&& self@.loaded[k].1.pack.picks_in_range()
                        &&& stays_loaded(self@.loaded[k])
                    } by {
                        if k == i {
                            assert(stays_loaded(before.loaded[k]));
                            if !entry.holders.contains(holder) {
                                assert(self@.loaded[k].1.holders.len() > 0);
                            }
                        } else {
                            assert(self@.loaded[k] == before.loaded[k]);
                        }
                    }
                }
                Ok(pack)
            },
            None => {
                if self.find_catalog(&name).is_none() {
                    return Err(PackError::NotFound);
                }
                match self.find_staged(&name) {
                    Some(j) => {
                        let pack = Rc::new(self.staged_packs.remove(j));
                        let shared = share_pack(&pack);
                        let mut holders: Vec<ListenerId> = Vec::new();
                        holders.push(holder);
                        self.loaded_packs.push(LoadedPack { pack, holders });
                        proof {
                            let after = before.after_load(name@, holder);
                            let names = Seq::new(
                                before.staged.len(),
                                |i: int| (before.staged[i].name, ()),
                            );
                            lemma_first_index(names, name@);
                            assert(names[j as int].0 == name@);
                            assert(before.staged[j as int].name == name@);
                            assert(self@.loaded.last().1.holders =~= seq![holder]);
                            assert(self@.loaded =~= after.loaded);
                            assert(self@.catalog =~= after.catalog);
                            assert(self@.staged =~= after.staged);
                            lemma_push_new_key(before.loaded, name@, self@.loaded.last().1);
                            assert(name@ != DEFAULT_PACK@);
                            assert(has_key(self@.loaded, DEFAULT_PACK@));
                            assert forall|k: int| 0 <= k < self@.loaded.len() implies {
                                &&& (#[trigger] self@.loaded[k]).0 == self@.loaded[k].1.pack.name
                                &&& self@.loaded[k].1.pack.picks_in_range()
                                &&& stays_loaded(self@.loaded[k])
                            } by {
                                if k < before.loaded.len() {
                                    assert(self@.loaded[k] == before.loaded[k]);
                                } else {
                                    assert(before.staged[j as int].picks_in_range());
                                }
                            }
                            assert forall|k: int| 0 <= k < self@.staged.len() implies (
                            #[trigger] self@.staged[k]).picks_in_range() by {
                                let k0 = if k < j { k } else { k + 1 };
                                assert(self@.staged[k] == before.staged[k0]);
                            }
                        }
                        Ok(shared)
                    },
                    None => Err(PackError::Corrupt),
                }
            },
        }
    }

    /// Lets `holder` go of the pack called `pack_name`, and unloads the pack if no
    /// listener holds it any more. The default pack is never unloaded.
    pub fn unload_pack(&mut self, pack_name: &str, holder: ListenerId)
        requires
            old(self).wf(),
        ensures
            final(self).wf(),
            final(self)@ == old(self)@.after_unload(pack_name@, holder),
    {
        let name: String = pack_name.to_owned();
        let default_name: String = DEFAULT_PACK.to_owned();
        let ghost before = self@;
        proof {
            lemma_first_index(before.loaded, name@);
        }
        match self.find_loaded(&name) {
            Some(i) => {
                let holders = drop_holder(&self.loaded_packs[i].holders, holder);
                let ghost entry = let_go(before.loaded[i as int], holder);
                if holders.len() > 0 || name == default_name {
                    self.loaded_packs[i].holders = holders;
                    proof {
                        assert(self@.loaded =~= before.loaded.update(i as int, entry));
                        lemma_update_value(before.loaded, i as int, entry.1);
                        assert(first_index(self@.loaded, DEFAULT_PACK@) == first_index(
                            before.loaded,
                            DEFAULT_PACK@,
                        ));
                        assert forall|k: int| 0 <= k < self@.loaded.len() implies {
                            &&& (#[trigger] self@.loaded[k]).0 == self@.loaded[k].1.pack.name
                            &&& self@.loaded[k].1.pack.picks_in_range()
                            &&& stays_loaded(self@.loaded[k])
                        } by {
                            if k != i {
                                assert(self@.loaded[k] == before.loaded[k]);
                            }
                        }
                    }
                } else {
                    self.loaded_packs.remove(i);
                    proof {
                        assert(self@.loaded =~= before.loaded.remove(i as int));
                        lemma_remove_entry(before.loaded, i as int);
                        assert forall|k: int| 0 <= k < self@.loaded.len() implies {
                            &&& (#[trigger] self@.loaded[k]).0 == self@.loaded[k].1.pack.name
                            &&& self@.loaded[k].1.pack.picks_in_range()
                            &&& stays_loaded(self@.loaded[k])
                        } by {
                            let k0 = if k < i { k } else { k + 1 };
                            assert(self@.loaded[k] == before.loaded[k0]);
                        }
                    }
                }
                proof {
                    assert(self@.catalog =~= before.catalog);
                    assert(self@.staged =~= before.staged);
                }
            },
            None => {},
        }
    }

    /// Lets `holder` go of every pack it holds, and unloads the packs that no listener
    /// holds any more. The default pack is never unloaded.
    pub fn release_all(&mut self, holder: ListenerId)
        requires
            old(self).wf(),
        ensures
            final(self).wf(),
            final(self)@.catalog == old(self)@.catalog,
            final(self)@.staged == old(self)@.staged,
            final(self)@.loaded == released(old(self)@.loaded, holder),
            !final(self)@.holds_any(holder),
    {
        let default_name: String = DEFAULT_PACK.to_owned();
        let ghost before = self@;
        let mut kept: Vec<LoadedPack> = Vec::new();
        let mut i: usize = 0;
        while i < self.loaded_packs.len()
            invariant
                i <= self.loaded_packs.len(),
                self@ == before,
                default_name@ == DEFAULT_PACK@,
                views_of(kept@) == released(before.loaded.take(i as int), holder),
            decreases self.loaded_packs.len() - i,
        {
            let entry = &self.loaded_packs[i];
            let holders = drop_holder(&entry.holders, holder);
            proof {
                assert(before.loaded.take(i + 1).drop_last() =~= before.loaded.take(i as int));
                assert(before.loaded.take(i + 1).last() == before.loaded[i as int]);
            }
            if holders.len() > 0 || entry.pack.name == default_name {
                let ghost old_kept = views_of(kept@);
                kept.push(LoadedPack { pack: share_pack(&entry.pack), holders });
                assert(views_of(kept@) =~= old_kept.push(let_go(before.loaded[i as int], holder)));
            }
            i += 1;
        }
        proof {
            assert(before.loaded.take(self.loaded_packs.len() as int) =~= before.loaded);
            lemma_released(before.loaded, holder);
        }
        self.loaded_packs = kept;
        proof {
            let out = self@.loaded;
            assert(self@.catalog =~= before.catalog);
            assert(self@.staged =~= before.staged);
            lemma_first_index(before.loaded, DEFAULT_PACK@);
            let d = first_index(before.loaded, DEFAULT_PACK@);
            assert(stays_loaded(let_go(before.loaded[d], holder)));
            assert forall|k: int| 0 <= k < out.len() implies {
                &&& (#[trigger] out[k]).0 == out[k].1.pack.name
                &&& out[k].1.pack.picks_in_range()
                &&& stays_loaded(out[k])
                &&& !out[k].1.holders.contains(holder)
                &&& has_key(self@.catalog, out[k].0)
            } by {
                let j = first_index(before.loaded, out[k].0);
                lemma_first_index(before.loaded, out[k].0);
                assert(out[k] == let_go(before.loaded[j], holder));
                assert(has_key(before.catalog, before.loaded[j].0));
                lemma_without(before.loaded[j].1.holders, holder);
            }
        }
    }
}

/// The store after `holder` asked for the packs called `names`, one after the other, up
/// to the first request that fails; and the error of that request, if one fails.
pub open spec fn loads(store: PackStoreView, names: Seq<Seq<char>>, holder: ListenerId)
    -> (PackStoreView, Option<PackError>)
    decreases names.len(),
{
    if names.len() == 0 {
        (store, None)
    } else {
        let (mid, failed) = loads(store, names.drop_last(), holder);
        if failed is Some {
            (mid, failed)
        } else {
            match mid.load_error(names.last()) {
                Some(error) => (mid, Some(error)),
                None => (mid.after_load(names.last(), holder), None),
            }
        }
    }
}

/// The pack that is loaded under `name`.
pub open spec fn pack_called(store: PackStoreView, name: Seq<char>) -> PackView {
    store.loaded[first_index(store.loaded, name)].1.pack
}

/// A request that succeeds leaves every pack that was loaded before loaded, and the
/// same pack.
pub proof fn lemma_after_load_keeps(
    store: PackStoreView,
    name: Seq<char>,
    holder: ListenerId,
    other: Seq<char>,
)
    requires
        store.wf(),
        store.load_error(name) is None,
        has_key(store.loaded, other),
    ensures
        has_key(store.after_load(name, holder).loaded, other),
        pack_called(store.after_load(name, holder), other) == pack_called(store, other),
{
    let after = store.after_load(name, holder);
    lemma_first_index(store.loaded, name);
    lemma_first_index(store.loaded, other);
    if has_key(store.loaded, name) {
        let i = first_index(store.loaded, name);
        lemma_update_value(store.loaded, i, after.loaded[i].1);
        assert(after.loaded =~= store.loaded.update(i, (store.loaded[i].0, after.loaded[i].1)));
    } else {
        lemma_push_new_key(store.loaded, name, after.loaded.last().1);
        assert(after.loaded[first_index(store.loaded, other)] == store.loaded[first_index(
            store.loaded,
            other,
        )]);
    }
}

/// Who holds what after a request that succeeds: the one who asked holds the pack asked
/// for, and beyond that everybody holds what they held.
pub proof fn lemma_after_load_holds(store: PackStoreView, name: Seq<char>, holder: ListenerId)
    requires
        store.wf(),
        store.load_error(name) is None,
    ensures
        store.after_load(name, holder).holds(holder, name),
        forall|other: ListenerId, pack: Seq<char>|
            other != holder || pack != name ==> (#[trigger] store.after_load(name, holder).holds(
                other,
                pack,
            ) <==> store.holds(other, pack)),
{
    let after = store.after_load(name, holder);
    lemma_first_index(store.loaded, name);
    if has_key(store.loaded, name) {
        let i = first_index(store.loaded, name);
        lemma_update_value(store.loaded, i, after.loaded[i].1);
        assert(after.loaded =~= store.loaded.update(i, (store.loaded[i].0, after.loaded[i].1)));
        let before = store.loaded[i].1.holders;
        if !before.contains(holder) {
            assert(before.push(holder)[before.len() as int] == holder);
        }
        assert forall|other: ListenerId, pack: Seq<char>|
            other != holder || pack != name implies (#[trigger] after.holds(other, pack)
            <==> store.holds(other, pack)) by {
            lemma_first_index(store.loaded, pack);
            if has_key(store.loaded, pack) {
                let k = first_index(store.loaded, pack);
                if k == i && !before.contains(holder) {
                    let grown = before.push(holder);
                    if grown.contains(other) {
                        let j = choose|j: int| 0 <= j < grown.len() && grown[j] == other;
                        assert(before[j] == other);
                    }
                    if before.contains(other) {
                        let j = choose|j: int| 0 <= j < before.len() && before[j] == other;
                        assert(grown[j] == other);
                    }
                }
            }
        }
    } else {
        lemma_push_new_key(store.loaded, name, after.loaded.last().1);
        assert(seq![holder][0] == holder);
        assert forall|other: ListenerId, pack: Seq<char>|
            other != holder || pack != name implies (#[trigger] after.holds(other, pack)
            <==> store.holds(other, pack)) by {
            lemma_first_index(store.loaded, pack);
            if pack == name {
                if seq![holder].contains(other) {
                    let j = choose|j: int| 0 <= j < seq![holder].len() && seq![holder][j] == other;
                }
            } else if has_key(store.loaded, pack) {
                let k = first_index(store.loaded, pack);
                assert(after.loaded[k] == store.loaded[k]);
            }
        }
    }
}

/// Who holds what after one let go of a pack: that one no longer holds that pack, and
/// beyond that everybody holds what they held.
pub proof fn lemma_after_unload_holds(store: PackStoreView, name: Seq<char>, holder: ListenerId)
    requires
        store.wf(),
    ensures
        !store.after_unload(name, holder).holds(holder, name),
        forall|other: ListenerId, pack: Seq<char>|
            other != holder || pack != name ==> (#[trigger] store.after_unload(name, holder).holds(
                other,
                pack,
            ) <==> store.holds(other, pack)),
{
    let after = store.after_unload(name, holder);
    assert forall|other: ListenerId, pack: Seq<char>|
        other != holder || pack != name implies (#[trigger] after.holds(other, pack)
            <==> store.holds(
        other,
        pack,
    )) by {
        lemma_unload_holds_one(store, name, holder, other, pack);
    }
    lemma_unload_holds_one(store, name, holder, holder, name);
}

/// Whether `other` holds `pack` after `holder` let go of `name`.
proof fn lemma_unload_holds_one(
    store: PackStoreView,
    name: Seq<char>,
    holder: ListenerId,
    other: ListenerId,
    pack: Seq<char>,
)
    requires
        store.wf(),
    ensures
        store.after_unload(name, holder).holds(other, pack)
            <==> (store.holds(other, pack) && !(other
            == holder && pack == name)),
{
    let after = store.after_unload(name, holder);
    lemma_first_index(store.loaded, name);
    lemma_first_index(store.loaded, pack);
    lemma_first_index(after.loaded, pack);
    if has_key(store.loaded, name) {
        let i = first_index(store.loaded, name);
        let entry = let_go(store.loaded[i], holder);
        lemma_without(store.loaded[i].1.holders, holder);
        if stays_loaded(entry) {
            assert(after.loaded == store.loaded.update(i, entry));
            lemma_update_value(store.loaded, i, entry.1);
            assert(first_index(after.loaded, pack) == first_index(store.loaded, pack));
            if has_key(store.loaded, pack) {
                let k = first_index(store.loaded, pack);
                if k == i {
                    assert(pack == name);
                    assert(after.loaded[k].1.holders == without(store.loaded[i].1.holders, holder));
                } else {
                    assert(after.loaded[k] == store.loaded[k]);
                }
            }
        } else {
            assert(after.loaded == store.loaded.remove(i));
            lemma_remove_entry(store.loaded, i);
            if pack == name {
                assert(!has_key(after.loaded, pack));
                assert(entry.1.holders.len() == 0);
                if store.loaded[i].1.holders.contains(other) && other != holder {
                    assert(entry.1.holders.contains(other));
                    let j = choose|j: int| 0 <= j < entry.1.holders.len()
                        && entry.1.holders[j] == other;
                }
            } else if has_key(store.loaded, pack) {
                let k = first_index(store.loaded, pack);
                let k1 = if k < i { k } else { k - 1 };
                assert(first_index(after.loaded, pack) == k1);
                assert(after.loaded[k1] == store.loaded[k]);
            } else {
                assert(has_key(after.loaded, pack) <==> has_key(store.loaded, pack));
            }
        }
    } else {
        assert(after == store);
    }
}

/// Who holds what after one let go of everything: that one holds nothing, and everybody
/// else holds what they held.
pub proof fn lemma_released_holds(store: PackStoreView, holder: ListenerId)
    requires
        store.wf(),
    ensures
        forall|other: ListenerId, pack: Seq<char>| #[trigger]
            (PackStoreView { loaded: released(store.loaded, holder), ..store }).holds(other, pack)
                <==> (
            other != holder && store.holds(other, pack)),
{
    let out = released(store.loaded, holder);
    let after = PackStoreView { loaded: out, ..store };
    lemma_released(store.loaded, holder);
    assert forall|other: ListenerId, pack: Seq<char>| #[trigger]
        after.holds(other, pack) <==> (other != holder && store.holds(other, pack)) by {
        lemma_first_index(store.loaded, pack);
        lemma_first_index(out, pack);
        if has_key(out, pack) {
            let k = first_index(out, pack);
            let j = first_index(store.loaded, pack);
            assert(out[k] == let_go(store.loaded[j], holder));
            lemma_without(store.loaded[j].1.holders, holder);
        }
        if other != holder && store.holds(other, pack) {
            let j = first_index(store.loaded, pack);
            lemma_without(store.loaded[j].1.holders, holder);
            let entry = let_go(store.loaded[j], holder);
            assert(entry.1.holders.contains(other));
            let w = choose|w: int| 0 <= w < entry.1.holders.len() && entry.1.holders[w] == other;
            assert(stays_loaded(entry));
        }
    }
}

/// A pack that is loaded and is not the default pack is held by somebody.
pub proof fn lemma_loaded_is_held(store: PackStoreView, name: Seq<char>)
    requires
        store.wf(),
        has_key(store.loaded, name),
        name != DEFAULT_PACK@,
    ensures
        exists|holder: ListenerId| #[trigger] store.holds(holder, name),
{
    lemma_first_index(store.loaded, name);
    let entry = store.loaded[first_index(store.loaded, name)];
    assert(stays_loaded(entry));
    let holder = entry.1.holders[0];
    assert(entry.1.holders.contains(holder));
    assert(store.holds(holder, name));
}

/// In a store in which nothing is held, nobody holds a pack.
pub proof fn lemma_nothing_held(store: PackStoreView)
    requires
        store.nothing_held(),
    ensures
        forall|holder: ListenerId, name: Seq<char>| !#[trigger] store.holds(holder, name),
{
    assert forall|holder: ListenerId, name: Seq<char>| !#[trigger] store.holds(holder, name) by {
        lemma_first_index(store.loaded, name);
        if store.holds(holder, name) {
            let holders = store.loaded[first_index(store.loaded, name)].1.holders;
            let w = choose|w: int| 0 <= w < holders.len() && holders[w] == holder;
        }
    }
}

/// `without` keeps the order of those who stay, and lists nobody twice who was not listed
/// twice.
pub proof fn lemma_without_distinct(holders: Seq<ListenerId>, holder: ListenerId)
    requires
        holders.no_duplicates(),
    ensures
        without(holders, holder).no_duplicates(),
    decreases holders.len(),
{
    if holders.len() > 0 {
        let front = holders.drop_last();
        let rest = without(front, holder);
        let out = without(holders, holder);
        lemma_without_distinct(front, holder);
        lemma_without(front, holder);
        if holders.last() != holder {
            assert forall|a: int, b: int|
                0 <= a < out.len() && 0 <= b < out.len() && a != b implies out[a] != out[b] by {
                if a < rest.len() && b < rest.len() {
                    assert(rest[a] != rest[b]);
                } else {
                    let low = if a < b { a } else { b };
                    assert(out[low] == rest[low]);
                    assert(rest.contains(rest[low]));
                    assert(front.contains(rest[low]));
                    let j = choose|j: int| 0 <= j < front.len() && front[j] == rest[low];
                    assert(holders[j] != holders[holders.len() - 1]);
                }
            }
        }
    }
}

/// A pack that the catalog does not list is never found: it is not loaded, and asking
/// for it fails with `NotFound`.
pub proof fn lemma_unlisted_pack_is_not_found(store: PackStoreView, name: Seq<char>)
    requires
        store.wf(),
        !has_key(store.catalog, name),
    ensures
        !has_key(store.loaded, name),
        store.load_error(name) == Some(PackError::NotFound),
{
    lemma_first_index(store.loaded, name);
}

} // verus!
