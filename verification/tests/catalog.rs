use agni::catalog::get_cache;
use agni::catalog::AppState;
use agni::catalog::BrowseError;
use agni::catalog::Lookup;
use agni::listing::Child;
use agni::listing::ChildKind;
use agni::types::Container;
use agni::types::ListItem;
use agni::types::ListItemWrapper;

fn child(dir: &str, name: &str, kind: ChildKind) -> Child {
    Child { name: name.to_string(), path: format!("{}/{}", dir, name), kind }
}

fn share() -> ListItemWrapper {
    ListItemWrapper {
        list_item: ListItem::Container(Container {
            id: 1,
            parent_id: 0,
            title: "Documents".to_string(),
            class: "object.container.storageFolder".to_string(),
        }),
        id: 1,
        dir: Some("/srv/media".to_string()),
    }
}

fn fresh() -> AppState {
    AppState::new("Documents".to_string(), "/srv/media".to_string())
}

fn media() -> Vec<Child> {
    vec![
        child("/srv/media", "b.mkv", ChildKind::File),
        child("/srv/media", "a", ChildKind::Directory),
        child("/srv/media", "2.mp4", ChildKind::File),
        child("/srv/media", "10.mp4", ChildKind::File),
    ]
}

fn ids(list_items: &Vec<ListItemWrapper>) -> Vec<u64> {
    list_items.iter().map(|entry| entry.id).collect()
}

#[test]
fn a_new_catalog_holds_the_root_and_the_share() {
    let mut state = fresh();
    assert_eq!(state.id_counter, 2);
    assert_eq!(state.item_map.len(), 2);
    assert_eq!(state.item_map.get(&1), Some(&share()));
    assert_eq!(state.cache.capacity(), 100);
    assert_eq!(state.cache.len(), 1);
    assert_eq!(state.cache.get_mut(&0), Some(&mut vec![1u64]));
    let root = state.item_map.get(&0).unwrap();
    assert_eq!(root.dir, Some("/srv/media".to_string()));
    match &root.list_item {
        ListItem::Container(root) => assert_eq!(root.id, 0),
        ListItem::Item(_) => panic!("the root is a folder"),
    }
}

#[test]
fn the_cache_starts_with_the_listing_of_the_root() {
    let mut cache = get_cache();
    assert_eq!(cache.capacity(), 100);
    assert_eq!(cache.len(), 1);
    assert_eq!(cache.get_mut(&0), Some(&mut vec![1u64]));
    assert_eq!(cache.get_mut(&1), None);
}

#[test]
fn browsing_the_root_lists_the_share() {
    let mut state = fresh();
    assert_eq!(state.lookup(0), Ok(Lookup::Listed(vec![share()])));
}

#[test]
fn failures_have_their_status() {
    assert_eq!(BrowseError::Protocol.status(), 404);
    assert_eq!(BrowseError::NotFound.status(), 404);
    assert_eq!(BrowseError::Exhausted.status(), 500);
}

#[test]
fn an_unknown_id_is_not_found() {
    let mut state = fresh();
    assert_eq!(state.lookup(2), Err(BrowseError::NotFound));
    assert_eq!(state.lookup(u64::MAX), Err(BrowseError::NotFound));
    assert_eq!(state.store("h", 2, &media()), Err(BrowseError::NotFound));
    assert_eq!(state.id_counter, 2);
    assert_eq!(state.item_map.len(), 2);
}

#[test]
fn a_folder_that_was_not_listed_names_its_directory() {
    let mut state = fresh();
    assert_eq!(state.lookup(1), Ok(Lookup::Scan("/srv/media".to_string())));
    assert_eq!(state.cache.len(), 1);
}

#[test]
fn storing_a_scan_lists_the_directory() {
    let mut state = fresh();
    let listing = state.store("10.0.0.2", 1, &media()).unwrap();
    assert_eq!(ids(&listing), vec![3, 4, 5, 2]);
    assert_eq!(state.id_counter, 6);
    assert_eq!(state.item_map.len(), 6);
    for entry in &listing {
        assert_eq!(state.item_map.get(&entry.id), Some(entry));
    }
    assert_eq!(state.cache.get_mut(&1), Some(&mut vec![3u64, 4, 5, 2]));
}

#[test]
fn a_listing_is_the_same_while_it_is_cached() {
    let mut state = fresh();
    let first = state.store("10.0.0.2", 1, &media()).unwrap();
    let second = state.lookup(1);
    assert_eq!(second, Ok(Lookup::Listed(first.clone())));
    let third = state.lookup(1);
    assert_eq!(third, Ok(Lookup::Listed(first.clone())));
    let sub = vec![child("/srv/media/a", "x.mp4", ChildKind::File)];
    let inner = state.store("10.0.0.2", 3, &sub).unwrap();
    assert_eq!(ids(&inner), vec![6]);
    assert_eq!(state.lookup(1), Ok(Lookup::Listed(first)));
    assert_eq!(state.lookup(3), Ok(Lookup::Listed(inner)));
}

#[test]
fn a_second_scan_of_a_cached_folder_is_left_aside() {
    let mut state = fresh();
    let first = state.store("10.0.0.2", 1, &media()).unwrap();
    let again = state.store("10.0.0.2", 1, &media()).unwrap();
    assert_eq!(again, first);
    assert_eq!(state.id_counter, 6);
    assert_eq!(state.item_map.len(), 6);
}

#[test]
fn a_media_file_cannot_be_browsed() {
    let mut state = fresh();
    state.store("10.0.0.2", 1, &media()).unwrap();
    assert_eq!(state.lookup(2), Err(BrowseError::NotFound));
    assert_eq!(state.store("10.0.0.2", 2, &media()), Err(BrowseError::NotFound));
}

#[test]
fn ids_grow_and_are_not_given_twice() {
    let mut state = fresh();
    let first = state.store("h", 1, &media()).unwrap();
    let sub = vec![
        child("/srv/media/a", "y", ChildKind::Directory),
        child("/srv/media/a", "x.mp4", ChildKind::File),
    ];
    let second = state.store("h", 3, &sub).unwrap();
    let largest = first.iter().map(|entry| entry.id).max().unwrap();
    for entry in &second {
        assert!(entry.id > largest);
    }
    for entry in &first {
        assert_eq!(state.item_map.get(&entry.id), Some(entry));
    }
    assert_eq!(state.id_counter, 8);
}

#[test]
fn the_least_recently_used_listing_leaves_a_full_cache() {
    let mut state = AppState::with_capacity(2, "Documents".to_string(), "/srv/media".to_string());
    let first = state.store("h", 1, &media()).unwrap();
    assert_eq!(state.cache.len(), 2);
    assert_eq!(state.lookup(0), Ok(Lookup::Listed(vec![share()])));
    let sub = vec![child("/srv/media/a", "x.mp4", ChildKind::File)];
    let inner = state.store("h", 3, &sub).unwrap();
    assert_eq!(state.cache.len(), 2);
    assert_eq!(state.lookup(1), Ok(Lookup::Scan("/srv/media".to_string())));
    assert_eq!(state.lookup(3), Ok(Lookup::Listed(inner)));
    assert_eq!(state.lookup(0), Ok(Lookup::Listed(vec![share()])));
    for entry in &first {
        assert_eq!(state.item_map.get(&entry.id), Some(entry));
    }
    let rescanned = state.store("h", 1, &media()).unwrap();
    assert_eq!(ids(&rescanned), vec![8, 9, 10, 7]);
}

#[test]
fn the_root_lists_the_shared_directory_once_its_listing_has_left() {
    let mut state = AppState::with_capacity(1, "Documents".to_string(), "/srv/media".to_string());
    state.store("h", 1, &media()).unwrap();
    assert_eq!(state.lookup(0), Ok(Lookup::Scan("/srv/media".to_string())));
    let listing = state.store("h", 0, &media()).unwrap();
    assert_eq!(ids(&listing), vec![7, 8, 9, 6]);
    for entry in &listing {
        match &entry.list_item {
            ListItem::Container(folder) => assert_eq!(folder.parent_id, 0),
            ListItem::Item(item) => assert_eq!(item.parent_id, 0),
        }
    }
}

#[test]
fn a_cache_without_room_keeps_nothing() {
    let mut state = AppState::with_capacity(0, "Documents".to_string(), "/srv/media".to_string());
    assert_eq!(state.lookup(0), Ok(Lookup::Scan("/srv/media".to_string())));
    let first = state.store("h", 1, &media()).unwrap();
    assert_eq!(ids(&first), vec![3, 4, 5, 2]);
    assert_eq!(state.lookup(1), Ok(Lookup::Scan("/srv/media".to_string())));
}

#[test]
fn children_beyond_the_last_id_exhaust_the_ids() {
    let mut state = fresh();
    state.id_counter = u64::MAX - 3;
    assert_eq!(state.store("h", 1, &media()), Err(BrowseError::Exhausted));
    assert_eq!(state.id_counter, u64::MAX - 3);
    state.id_counter = u64::MAX - 4;
    let listing = state.store("h", 1, &media()).unwrap();
    assert_eq!(ids(&listing), vec![u64::MAX - 3, u64::MAX - 2, u64::MAX - 1, u64::MAX - 4]);
    assert_eq!(state.id_counter, u64::MAX);
}

#[test]
fn a_second_scan_of_a_cached_folder_makes_it_the_most_recent() {
    let mut state = AppState::with_capacity(2, "Documents".to_string(), "/srv/media".to_string());
    let first = state.store("h", 1, &media()).unwrap();
    assert_eq!(state.lookup(0), Ok(Lookup::Listed(vec![share()])));
    let again = state.store("h", 1, &media()).unwrap();
    assert_eq!(again, first);
    assert_eq!(state.cache.len(), 2);
    let order: Vec<u64> = state.cache.iter().map(|(key, _)| *key).collect();
    assert_eq!(order, vec![0, 1]);
    let sub = vec![child("/srv/media/a", "x.mp4", ChildKind::File)];
    state.store("h", 3, &sub).unwrap();
    let order: Vec<u64> = state.cache.iter().map(|(key, _)| *key).collect();
    assert_eq!(order, vec![1, 3]);
}
