//! The catalog: every object that was ever shown, under its id, and the bounded cache
//! of listings.
//!
//! Browsing a folder is done in two steps, so that the directory can be read between
//! them without the catalog being held: `lookup` answers from the cache or names the
//! directory to read, and `store` takes what the scan of that directory found.

use lru_cache::LruCache;
use std::collections::HashMap;
use vstd::prelude::*;
use crate::listing::child_views;
use crate::listing::distinct_ids;
use crate::listing::is_sorted_listing;
use crate::listing::read_directory;
use crate::listing::scanned_entries;
use crate::listing::Child;
use crate::lru::bounded;
use crate::lru::cached;
use crate::lru::distinct_keys;
use crate::lru::lemma_bounded;
use crate::lru::lemma_cached;
use crate::lru::lemma_touched;
use crate::lru::lru_capacity;
use crate::lru::lru_entries;
use crate::lru::lru_get;
use crate::lru::lru_insert;
use crate::lru::lru_new;
use crate::lru::touched;
use crate::types::entry_views;
use crate::types::Container;
use crate::types::ContainerView;
use crate::types::EntryView;
use crate::types::ListItem;
use crate::types::ListItemView;
use crate::types::ListItemWrapper;
use crate::types::CLASS_FOLDER;

verus! {

broadcast use vstd::std_specs::hash::group_hash_axioms;

/// The number of listings that the cache of a catalog holds.
pub const CACHE_CAPACITY: usize = 100;

/// The id of the root of the hierarchy.
pub const ROOT_ID: u64 = 0;

/// Why a browse request was not answered.
#[derive(PartialEq, Eq, Debug, Clone, Copy)]
pub enum BrowseError {
    /// The request does not name an object: it is no XML document, holds no `ObjectID`,
    /// or what the `ObjectID` holds is no number.
    Protocol,
    /// The id is unknown, or it is that of an object that cannot be browsed.
    NotFound,
    /// There are not enough ids left for the children of the directory.
    Exhausted,
}

impl BrowseError {
    /// The HTTP status that answers a request that failed so: 404 where the request
    /// names no object or none that can be browsed, 500 where the server is out of ids.
    pub open spec fn http_status(self) -> u16 {
        match self {
            BrowseError::Protocol => 404,
            BrowseError::NotFound => 404,
            BrowseError::Exhausted => 500,
        }
    }

    /// The HTTP status that answers a request that failed so.
    pub fn status(&self) -> (code: u16)
        ensures
            code == self.http_status(),
    {
        match self {
            BrowseError::Protocol => 404,
            BrowseError::NotFound => 404,
            BrowseError::Exhausted => 500,
        }
    }
}

/// The answer of the catalog to a browse request, before any directory is read.
#[derive(PartialEq, Debug, Clone)]
pub enum Lookup {
    /// The listing, from the cache.
    Listed(Vec<ListItemWrapper>),
    /// The directory that has to be read to make the listing.
    Scan(String),
}

/// The state of the catalog.
///
/// `item_map` holds every object under its id and only grows. `cache` holds listings,
/// each as the ids of its entries. `id_counter` is the first id that no object has.
pub struct AppState {
    pub cache: LruCache<u64, Vec<u64>>,
    pub item_map: HashMap<u64, ListItemWrapper>,
    pub id_counter: u64,
}

impl AppState {
    /// The listings in the cache, from the least recently used to the most recently
    /// used.
    pub open spec fn listings(&self) -> Seq<(u64, Seq<u64>)> {
        lru_entries(self.cache)
    }

    /// The folder of a listing and all its entries are objects of the catalog.
    pub open spec fn known_listing(&self, pair: (u64, Seq<u64>)) -> bool {
        &&& self.item_map@.contains_key(pair.0)
        &&& forall|k: int| 0 <= k < pair.1.len() ==> self.item_map@.contains_key(#[trigger] pair.1[k])
    }

    /// Every object is kept under the id that it carries, which is below `id_counter`,
    /// and has a directory behind it exactly where it is a folder; the root is a
    /// folder; the cache holds one listing for a folder at most, no more listings than
    /// its capacity, and none that names an id without an object.
    pub open spec fn well_formed(&self) -> bool {
        &&& forall|id: u64| #[trigger]
            self.item_map@.contains_key(id) ==> {
                let entry = self.item_map@[id]@;
                &&& entry.id == id
                &&& entry.list_item.id() == id
                &&& id < self.id_counter
                &&& entry.list_item is Container <==> entry.dir is Some
            }
        &&& self.item_map@.contains_key(ROOT_ID)
        &&& self.item_map@[ROOT_ID]@.list_item is Container
        &&& distinct_keys(self.listings())
        &&& self.listings().len() <= lru_capacity(self.cache)
        &&& forall|i: int|
            0 <= i < self.listings().len() ==> self.known_listing(#[trigger] self.listings()[i])
    }

    /// The objects of the ids `ids`, in their order.
    pub open spec fn listing_views(&self, ids: Seq<u64>) -> Seq<EntryView> {
        ids.map_values(|id: u64| self.item_map@[id]@)
    }

    /// What browsing `object_id` returns from the cache, if the cache holds its listing.
    pub open spec fn browsed(&self, object_id: u64) -> Option<Seq<EntryView>> {
        match cached(self.listings(), object_id) {
            Some(ids) => Some(self.listing_views(ids)),
            None => None,
        }
    }

    /// The directory that stands behind `object_id`, where that is a folder.
    pub open spec fn backing_dir(&self, object_id: u64) -> Option<Seq<char>> {
        if self.item_map@.contains_key(object_id) && self.item_map@[object_id]@.list_item
            is Container {
            self.item_map@[object_id]@.dir
        } else {
            None
        }
    }

    /// The listing of a key in the cache names objects of the catalog only.
    pub proof fn lemma_cached_is_known(&self, object_id: u64)
        requires
            self.well_formed(),
        ensures
            cached(self.listings(), object_id) matches Some(ids) ==> self.known_listing(
                (object_id, ids),
            ),
    {
        lemma_cached(self.listings(), object_id);
    }

    /// A listing does not change while it is kept: where the cache holds the same ids
    /// for a folder as it held, and no object of the catalog has changed since,
    /// browsing the folder returns what it returned.
    pub proof fn lemma_kept_listing_is_stable(&self, before: &AppState, object_id: u64)
        requires
            before.well_formed(),
            self.extends(before),
            cached(self.listings(), object_id) == cached(before.listings(), object_id),
        ensures
            self.browsed(object_id) == before.browsed(object_id),
    {
        before.lemma_cached_is_known(object_id);
        if cached(before.listings(), object_id) is Some {
            let ids = cached(before.listings(), object_id)->0;
            assert forall|k: int| 0 <= k < ids.len() implies self.item_map@[ids[k]]
                == before.item_map@[ids[k]] by {
                assert(before.item_map@.contains_key((object_id, ids).1[k]));
            }
        }
    }

    /// The objects of the ids `ids`, in their order.
    fn collect(&self, ids: &Vec<u64>) -> (list_items: Vec<ListItemWrapper>)
        requires
            forall|k: int| 0 <= k < ids.len() ==> self.item_map@.contains_key(#[trigger] ids[k]),
        ensures
            entry_views(list_items@) == self.listing_views(ids@),
    {
        let mut list_items: Vec<ListItemWrapper> = Vec::new();
        let mut i: usize = 0;
        while i < ids.len()
            invariant
                i <= ids.len(),
                list_items.len() == i,
                forall|k: int| 0 <= k < ids.len() ==> self.item_map@.contains_key(#[trigger] ids[k]),
                forall|k: int| 0 <= k < i ==> (#[trigger] list_items[k])@ == self.item_map@[ids[k]]@,
            decreases ids.len() - i,
        {
            let entry = self.item_map.get(&ids[i]).unwrap();
            list_items.push(entry.duplicate());
            i += 1;
        }
        list_items
    }

    /// Answers a browse request for `object_id` as far as that takes no reading of a
    /// directory.
    ///
    /// Where the cache holds the listing of `object_id`, the listing is returned and
    /// becomes the most recently used one. Otherwise, where `object_id` is a folder,
    /// the directory behind it is named. Otherwise the request fails with `NotFound`:
    /// so it does for a media file and for every id that no object has. Nothing of the
    /// catalog changes but the order of use in the cache.
    pub fn lookup(&mut self, object_id: u64) -> (found: Result<Lookup, BrowseError>)
        requires
            old(self).well_formed(),
        ensures
            final(self).well_formed(),
            final(self).item_map@ == old(self).item_map@,
            final(self).id_counter == old(self).id_counter,
            lru_capacity(final(self).cache) == lru_capacity(old(self).cache),
            final(self).listings() == match cached(old(self).listings(), object_id) {
                Some(ids) => touched(old(self).listings(), object_id, ids),
                None => old(self).listings(),
            },
            forall|other: u64| final(self).browsed(other) == old(self).browsed(other),
            match found {
                Ok(Lookup::Listed(list_items)) => old(self).browsed(object_id) == Some(
                    entry_views(list_items@),
                ),
                Ok(Lookup::Scan(dir)) => old(self).browsed(object_id) is None && old(
                    self,
                ).backing_dir(object_id) == Some(dir@),
                Err(error) => error == BrowseError::NotFound && old(self).browsed(object_id)
                    is None && old(self).backing_dir(object_id) is None,
            },
            !old(self).item_map@.contains_key(object_id) ==> found == Err::<Lookup, BrowseError>(
                BrowseError::NotFound,
            ),
    {
        proof {
            self.lemma_cached_is_known(object_id);
        }
        let hit = lru_get(&mut self.cache, object_id);
        match hit {
            Some(ids) => {
                proof {
                    lemma_touched(old(self).listings(), object_id, ids@);
                }
                let list_items = self.collect(&ids);
                Ok(Lookup::Listed(list_items))
            },
            None => {
                match self.item_map.get(&object_id) {
                    Some(entry) => {
                        match (&entry.list_item, &entry.dir) {
                            (ListItem::Container(_), Some(dir)) => Ok(Lookup::Scan(dir.clone())),
                            _ => Err(BrowseError::NotFound),
                        }
                    },
                    None => Err(BrowseError::NotFound),
                }
            },
        }
    }
}

/// The ids that a sequence of entries carries, in their order.
pub open spec fn entry_ids(entries: Seq<EntryView>) -> Seq<u64> {
    entries.map_values(|entry: EntryView| entry.id)
}

/// The listing of the root at the start of a catalog: the shared folder alone, which
/// has the id 1.
pub open spec fn first_listings() -> Seq<(u64, Seq<u64>)> {
    seq![(ROOT_ID, seq![1u64])]
}

/// A cache for `capacity` listings that holds the listing of the root alone, where it
/// has room for one.
fn seeded_cache(capacity: usize) -> (cache: LruCache<u64, Vec<u64>>)
    ensures
        lru_capacity(cache) == capacity,
        lru_entries(cache) == bounded(first_listings(), capacity as nat),
{
    let mut cache = lru_new(capacity);
    let mut root_listing: Vec<u64> = Vec::new();
    root_listing.push(1);
    lru_insert(&mut cache, ROOT_ID, root_listing);
    cache
}

/// The cache of a catalog at its start: made for a hundred listings, and holding the
/// listing of the root alone.
pub fn get_cache() -> (cache: LruCache<u64, Vec<u64>>)
    ensures
        lru_capacity(cache) == CACHE_CAPACITY,
        lru_entries(cache) == first_listings(),
{
    seeded_cache(CACHE_CAPACITY)
}

impl AppState {
    /// The root: a folder that has the shared directory behind it, as the one folder
    /// that it lists at the start has. Once that listing has left the cache, browsing
    /// the root lists the shared directory itself.
    pub open spec fn root_entry(dir: Seq<char>) -> EntryView {
        EntryView {
            list_item: ListItemView::Container(
                ContainerView {
                    id: ROOT_ID,
                    parent_id: ROOT_ID,
                    title: "root"@,
                    class: CLASS_FOLDER@,
                },
            ),
            id: ROOT_ID,
            dir: Some(dir),
        }
    }

    /// The one folder that the root lists at the start: it has the id 1 and stands for
    /// the directory that is shared.
    pub open spec fn share_entry(title: Seq<char>, dir: Seq<char>) -> EntryView {
        EntryView {
            list_item: ListItemView::Container(
                ContainerView { id: 1, parent_id: ROOT_ID, title, class: CLASS_FOLDER@ },
            ),
            id: 1,
            dir: Some(dir),
        }
    }

    /// A catalog that shares the directory `root_dir` as the one folder `root_title`
    /// under the root, with a cache for `capacity` listings.
    ///
    /// The root has the id 0 and the shared folder the id 1; the next id is 2. Both
    /// have the shared directory behind them. The listing of the root, which holds the
    /// shared folder alone, is in the cache from the start, where the cache has room
    /// for it.
    pub fn with_capacity(capacity: usize, root_title: String, root_dir: String) -> (state: AppState)
        ensures
            state.well_formed(),
            state.id_counter == 2,
            lru_capacity(state.cache) == capacity,
            state.item_map@.dom() == set![0u64, 1u64],
            state.item_map@[0]@ == Self::root_entry(root_dir@),
            state.item_map@[1]@ == Self::share_entry(root_title@, root_dir@),
            state.listings() == bounded(first_listings(), capacity as nat),
            capacity >= 1 ==> state.browsed(ROOT_ID) == Some(
                seq![Self::share_entry(root_title@, root_dir@)],
            ),
            forall|other: u64| other != ROOT_ID ==> (#[trigger] state.browsed(other)) is None,
    {
        let root = ListItemWrapper {
            list_item: ListItem::Container(
                Container {
                    id: ROOT_ID,
                    parent_id: ROOT_ID,
                    title: "root".to_owned(),
                    class: CLASS_FOLDER.to_owned(),
                },
            ),
            id: ROOT_ID,
            dir: Some(root_dir.clone()),
        };
        let share = ListItemWrapper {
            list_item: ListItem::Container(
                Container {
                    id: 1,
                    parent_id: ROOT_ID,
                    title: root_title,
                    class: CLASS_FOLDER.to_owned(),
                },
            ),
            id: 1,
            dir: Some(root_dir),
        };
        let mut item_map: HashMap<u64, ListItemWrapper> = HashMap::new();
        item_map.insert(ROOT_ID, root);
        item_map.insert(1, share);
        let cache = seeded_cache(capacity);
        let state = AppState { cache, item_map, id_counter: 2 };
        proof {
            let pairs = first_listings();
            assert(pairs.drop_last() =~= Seq::<(u64, Seq<u64>)>::empty());
            assert forall|other: u64| other != ROOT_ID implies (#[trigger] state.browsed(other))
                is None by {
                assert(cached(Seq::<(u64, Seq<u64>)>::empty(), other) is None);
            }
        }
        state
    }

    /// A catalog that shares the directory `root_dir` as the one folder `root_title`
    /// under the root, with a cache for a hundred listings.
    pub fn new(root_title: String, root_dir: String) -> (state: AppState)
        ensures
            state.well_formed(),
            state.id_counter == 2,
            lru_capacity(state.cache) == CACHE_CAPACITY,
            state.item_map@.dom() == set![0u64, 1u64],
            state.item_map@[0]@ == Self::root_entry(root_dir@),
            state.item_map@[1]@ == Self::share_entry(root_title@, root_dir@),
            state.browsed(ROOT_ID) == Some(seq![Self::share_entry(root_title@, root_dir@)]),
            forall|other: u64| other != ROOT_ID ==> (#[trigger] state.browsed(other)) is None,
    {
        Self::with_capacity(CACHE_CAPACITY, root_title, root_dir)
    }
}

impl AppState {
    /// Every object that the catalog had it still has, unchanged.
    pub open spec fn extends(&self, before: &AppState) -> bool {
        forall|id: u64| #[trigger]
            before.item_map@.contains_key(id) ==> self.item_map@.contains_key(id)
                && self.item_map@[id] == before.item_map@[id]
    }

    /// Every listing that the cache held and still holds is the same.
    pub open spec fn keeps_listings_of(&self, before: &AppState) -> bool {
        forall|other: u64|
            before.browsed(other) is Some && (#[trigger] self.browsed(other)) is Some
                ==> self.browsed(other) == before.browsed(other)
    }

    /// The catalog is `before` with the objects `entries` added under their ids, the
    /// ids of `entries` as the most recent listing of `object_id`, and the ids of
    /// `children` many objects used up.
    pub open spec fn holds_listing(
        &self,
        before: &AppState,
        object_id: u64,
        entries: Seq<EntryView>,
        children: nat,
    ) -> bool {
        &&& self.id_counter == before.id_counter + children
        &&& self.listings() == bounded(
            touched(before.listings(), object_id, entry_ids(entries)),
            lru_capacity(before.cache),
        )
        &&& forall|id: u64| #[trigger]
            self.item_map@.contains_key(id) <==> before.item_map@.contains_key(id) || exists|
                k: int,
            |
                0 <= k < entries.len() && (#[trigger] entries[k]).id == id
        &&& forall|k: int|
            0 <= k < entries.len() ==> {
                let entry = #[trigger] entries[k];
                &&& before.id_counter <= entry.id < self.id_counter
                &&& !before.item_map@.contains_key(entry.id)
                &&& self.item_map@[entry.id]@ == entry
            }
    }

    /// Takes what a scan of the directory behind `object_id` found, and returns the
    /// listing of `object_id`.
    ///
    /// Where the cache holds a listing of `object_id` by now, that listing is returned
    /// and becomes the most recently used one, and the scan is left aside: a directory
    /// is not shown under two sets of ids while its listing is kept. Where `object_id`
    /// is no folder, the request fails with `NotFound`, and where the ids left are
    /// fewer than the children, with `Exhausted`; in both cases nothing changes.
    /// Otherwise the children are given the next ids, one each, what is shown of them
    /// becomes objects of the catalog, and their listing the most recently used one of
    /// the cache.
    ///
    /// No object of the catalog is ever changed or removed, and an id once passed is
    /// not given again.
    pub fn store(&mut self, host: &str, object_id: u64, children: &Vec<Child>) -> (stored: Result<
        Vec<ListItemWrapper>,
        BrowseError,
    >)
        requires
            old(self).well_formed(),
        ensures
            final(self).well_formed(),
            lru_capacity(final(self).cache) == lru_capacity(old(self).cache),
            final(self).extends(old(self)),
            final(self).keeps_listings_of(old(self)),
            final(self).id_counter >= old(self).id_counter,
            match old(self).browsed(object_id) {
                Some(listing) => {
                    &&& stored matches Ok(list_items)
                    &&& entry_views(list_items@) == listing
                    &&& final(self).item_map@ == old(self).item_map@
                    &&& final(self).id_counter == old(self).id_counter
                    &&& final(self).browsed(object_id) == Some(listing)
                    &&& cached(old(self).listings(), object_id) matches Some(ids)
                    &&& final(self).listings() == touched(old(self).listings(), object_id, ids)
                },
                None => if old(self).backing_dir(object_id) is None {
                    &&& stored == Err::<Vec<ListItemWrapper>, BrowseError>(BrowseError::NotFound)
                    &&& final(self).item_map@ == old(self).item_map@
                    &&& final(self).id_counter == old(self).id_counter
                    &&& final(self).listings() == old(self).listings()
                } else if old(self).id_counter + children.len() > u64::MAX {
                    &&& stored == Err::<Vec<ListItemWrapper>, BrowseError>(BrowseError::Exhausted)
                    &&& final(self).item_map@ == old(self).item_map@
                    &&& final(self).id_counter == old(self).id_counter
                    &&& final(self).listings() == old(self).listings()
                } else {
                    &&& stored matches Ok(list_items)
                    &&& entry_views(list_items@).to_multiset() == scanned_entries(
                        host@,
                        child_views(children@),
                        object_id,
                        old(self).id_counter,
                    ).to_multiset()
                    &&& is_sorted_listing(entry_views(list_items@))
                    &&& final(self).holds_listing(
                        old(self),
                        object_id,
                        entry_views(list_items@),
                        children.len() as nat,
                    )
                    &&& lru_capacity(old(self).cache) >= 1 ==> final(self).browsed(object_id)
                        == Some(entry_views(list_items@))
                },
            },
    {
        proof {
            self.lemma_cached_is_known(object_id);
        }
        let ghost before = *self;
        let hit = lru_get(&mut self.cache, object_id);
        if let Some(ids) = hit {
            proof {
                lemma_touched(before.listings(), object_id, ids@);
            }
            return Ok(self.collect(&ids));
        }
        let browsable = match self.item_map.get(&object_id) {
            Some(entry) => match (&entry.list_item, &entry.dir) {
                (ListItem::Container(_), Some(_)) => true,
                _ => false,
            },
            None => false,
        };
        if !browsable {
            return Err(BrowseError::NotFound);
        }
        let listing = match read_directory(host, children, object_id, self.id_counter) {
            Ok(listing) => listing,
            Err(error) => {
                return Err(error);
            },
        };
        let list_items = listing.list_items;
        let ghost entries = entry_views(list_items@);
        let mut ids: Vec<u64> = Vec::new();
        let mut i: usize = 0;
        while i < list_items.len()
            invariant
                i <= list_items.len(),
                ids.len() == i,
                entries == entry_views(list_items@),
                self.listings() == before.listings(),
                lru_capacity(self.cache) == lru_capacity(before.cache),
                self.id_counter == before.id_counter,
                before.well_formed(),
                distinct_ids(entries),
                forall|k: int| 0 <= k < i ==> #[trigger] ids[k] == entries[k].id,
                forall|k: int|
                    0 <= k < entries.len() ==> {
                        let entry = #[trigger] entries[k];
                        &&& before.id_counter <= entry.id
                        &&& entry.list_item.id() == entry.id
                        &&& entry.list_item is Container <==> entry.dir is Some
                    },
                self.extends(&before),
                forall|id: u64| #[trigger]
                    self.item_map@.contains_key(id) <==> before.item_map@.contains_key(id)
                        || exists|k: int| 0 <= k < i && (#[trigger] entries[k]).id == id,
                forall|k: int| 0 <= k < i ==> self.item_map@[(#[trigger] entries[k]).id]@ == entries[k],
            decreases list_items.len() - i,
        {
            let entry = &list_items[i];
            proof {
                assert(entries[i as int] == entry@);
            }
            self.item_map.insert(entry.id, entry.duplicate());
            ids.push(entry.id);
            i += 1;
        }
        lru_insert(&mut self.cache, object_id, ids);
        self.id_counter = listing.id_counter;
        proof {
            assert(ids@ =~= entry_ids(entries));
            let grown = touched(before.listings(), object_id, ids@);
            lemma_touched(before.listings(), object_id, ids@);
            lemma_bounded(grown, lru_capacity(before.cache));
            assert forall|other: u64|
                before.browsed(other) is Some && (#[trigger] self.browsed(other))
                    is Some implies self.browsed(other) == before.browsed(other) by {
                self.lemma_kept_listing_is_stable(&before, other);
            }
        }
        Ok(list_items)
    }
}

/// Ids grow from one listing to the next, and no id is given twice: of two listings
/// that are stored one after the other, every entry of the later one has a larger id
/// than every entry of the earlier one, and the entries of the earlier one are still
/// the objects of their ids.
pub proof fn lemma_ids_are_given_once(
    start: &AppState,
    between: &AppState,
    end: &AppState,
    first_folder: u64,
    first_entries: Seq<EntryView>,
    first_children: nat,
    second_folder: u64,
    second_entries: Seq<EntryView>,
    second_children: nat,
)
    requires
        between.holds_listing(start, first_folder, first_entries, first_children),
        end.holds_listing(between, second_folder, second_entries, second_children),
        end.extends(between),
    ensures
        forall|i: int, j: int|
            0 <= i < first_entries.len() && 0 <= j < second_entries.len() ==> (
            #[trigger] first_entries[i]).id < (#[trigger] second_entries[j]).id,
        forall|i: int|
            0 <= i < first_entries.len() ==> end.item_map@[(#[trigger] first_entries[i]).id]@
                == first_entries[i],
{
    assert forall|i: int| 0 <= i < first_entries.len() implies end.item_map@[(
    #[trigger] first_entries[i]).id]@ == first_entries[i] by {
        let id = first_entries[i].id;
        assert(between.item_map@.contains_key(id));
    }
}

} // verus!
