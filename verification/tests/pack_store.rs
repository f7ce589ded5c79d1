use cfh::cards::{Pack, PackMeta, Prompt};
use cfh::pack_store::{CatalogEntry, PackError, PackStore, DEFAULT_PACK};
use cfh::protocol::PackInfo;

fn pack(name: &str, official: bool, prompts: usize, responses: usize) -> Pack {
    Pack {
        name: name.to_owned(),
        official,
        responses: (0..responses).map(|i| format!("{} response {}", name, i)).collect(),
        prompts: (0..prompts)
            .map(|i| Prompt { text: format!("{} prompt {}", name, i), pick: 1 })
            .collect(),
    }
}

fn entry(name: &str, official: bool, prompts: usize, responses: usize) -> CatalogEntry {
    CatalogEntry {
        name: name.to_owned(),
        meta: PackMeta { official, num_prompts: prompts, num_responses: responses },
    }
}

fn store() -> PackStore {
    let catalog = vec![
        entry(DEFAULT_PACK, true, 2, 20),
        entry("Animals", true, 1, 4),
        entry("Homemade", false, 3, 5),
    ];
    match PackStore::new(catalog, Some(pack(DEFAULT_PACK, true, 2, 20))) {
        Ok(store) => store,
        Err(error) => panic!("the store can be made: {:?}", error),
    }
}

fn loaded_names(store: &PackStore) -> Vec<String> {
    store.loaded_packs.iter().map(|loaded| loaded.pack.name.clone()).collect()
}

#[test]
fn default_pack_name_is_the_base_set() {
    assert_eq!(DEFAULT_PACK, "CAH Base Set");
}

#[test]
fn new_store_has_the_default_pack_loaded() {
    let store = store();
    assert_eq!(loaded_names(&store), vec![DEFAULT_PACK.to_owned()]);
    assert_eq!(store.default_pack().name, DEFAULT_PACK);
    assert_eq!(store.default_pack().responses.len(), 20);
    assert!(store.is_loaded(DEFAULT_PACK));
    assert!(!store.is_loaded("Animals"));
    assert_eq!(store.possible_packs().len(), 3);
}

#[test]
fn new_store_fails_without_the_default_pack() {
    let catalog = || vec![entry(DEFAULT_PACK, true, 2, 20)];
    assert_eq!(PackStore::new(catalog(), None).err(), Some(PackError::DefaultPackMissing));
    assert_eq!(
        PackStore::new(catalog(), Some(pack("Animals", true, 1, 4))).err(),
        Some(PackError::DefaultPackMissing)
    );
    assert_eq!(
        PackStore::new(vec![entry("Animals", true, 1, 4)], Some(pack(DEFAULT_PACK, true, 2, 20)))
            .err(),
        Some(PackError::DefaultPackMissing)
    );
    let mut bad = pack(DEFAULT_PACK, true, 2, 20);
    bad.prompts[1].pick = 4;
    assert_eq!(PackStore::new(catalog(), Some(bad)).err(), Some(PackError::DefaultPackMissing));
}

#[test]
fn later_catalog_entry_counts_for_a_name() {
    let catalog = vec![
        entry(DEFAULT_PACK, true, 2, 20),
        entry("Animals", true, 1, 4),
        entry("Animals", false, 9, 9),
    ];
    let store = PackStore::new(catalog, Some(pack(DEFAULT_PACK, true, 2, 20))).unwrap();
    assert_eq!(
        store.possible_packs(),
        &vec![entry(DEFAULT_PACK, true, 2, 20), entry("Animals", false, 9, 9)]
    );
}

#[test]
fn catalog_view_lists_names_and_counts() {
    assert_eq!(
        store().catalog_view(),
        vec![
            PackInfo { name: DEFAULT_PACK.to_owned(), num_prompts: 2, num_responses: 20 },
            PackInfo { name: "Animals".to_owned(), num_prompts: 1, num_responses: 4 },
            PackInfo { name: "Homemade".to_owned(), num_prompts: 3, num_responses: 5 },
        ]
    );
}

#[test]
fn load_of_an_unknown_pack_is_not_found() {
    let mut store = store();
    assert_eq!(store.load_pack("Nope", 1).err(), Some(PackError::NotFound));
    assert_eq!(loaded_names(&store), vec![DEFAULT_PACK.to_owned()]);
}

#[test]
fn load_of_a_pack_that_was_not_staged_is_corrupt() {
    let mut store = store();
    assert_eq!(store.needs_read("Animals"), Some(true));
    assert_eq!(store.needs_read("Homemade"), Some(false));
    assert_eq!(store.needs_read("Nope"), None);
    assert_eq!(store.needs_read(DEFAULT_PACK), None);
    assert_eq!(store.load_pack("Animals", 1).err(), Some(PackError::Corrupt));
    assert_eq!(loaded_names(&store), vec![DEFAULT_PACK.to_owned()]);
}

#[test]
fn load_takes_a_staged_pack_and_shares_it() {
    let mut store = store();
    assert!(store.stage(pack("Animals", true, 1, 4)));
    assert_eq!(store.needs_read("Animals"), None);
    let first = store.load_pack("Animals", 1).unwrap();
    assert_eq!(first.name, "Animals");
    assert_eq!(first.responses.len(), 4);
    assert!(store.staged_packs.is_empty());
    let second = store.load_pack("Animals", 2).unwrap();
    assert!(std::rc::Rc::ptr_eq(&first, &second));
    let again = store.load_pack("Animals", 1).unwrap();
    assert!(std::rc::Rc::ptr_eq(&first, &again));
    assert_eq!(loaded_names(&store), vec![DEFAULT_PACK.to_owned(), "Animals".to_owned()]);
    assert_eq!(store.loaded_packs[1].holders, vec![1, 2]);
}

#[test]
fn stage_refuses_a_pack_with_a_pick_out_of_range() {
    let mut store = store();
    let mut bad = pack("Animals", true, 1, 4);
    bad.prompts[0].pick = 0;
    assert!(!store.stage(bad));
    assert!(store.staged_packs.is_empty());
    assert_eq!(store.load_pack("Animals", 1).err(), Some(PackError::Corrupt));
}

#[test]
fn clear_staged_forgets_what_was_not_loaded() {
    let mut store = store();
    assert!(store.stage(pack("Animals", true, 1, 4)));
    store.clear_staged();
    assert_eq!(store.load_pack("Animals", 1).err(), Some(PackError::Corrupt));
}

#[test]
fn unload_drops_a_pack_when_its_last_holder_lets_go() {
    let mut store = store();
    store.stage(pack("Animals", true, 1, 4));
    store.load_pack("Animals", 1).unwrap();
    store.load_pack("Animals", 2).unwrap();
    store.unload_pack("Animals", 1);
    assert!(store.is_loaded("Animals"));
    assert_eq!(store.loaded_packs[1].holders, vec![2]);
    store.unload_pack("Animals", 7);
    assert!(store.is_loaded("Animals"));
    store.unload_pack("Animals", 2);
    assert!(!store.is_loaded("Animals"));
    store.unload_pack("Animals", 2);
    assert_eq!(loaded_names(&store), vec![DEFAULT_PACK.to_owned()]);
}

#[test]
fn default_pack_is_never_unloaded() {
    let mut store = store();
    store.unload_pack(DEFAULT_PACK, 1);
    assert!(store.is_loaded(DEFAULT_PACK));
    store.load_pack(DEFAULT_PACK, 1).unwrap();
    store.unload_pack(DEFAULT_PACK, 1);
    assert!(store.is_loaded(DEFAULT_PACK));
    store.load_pack(DEFAULT_PACK, 1).unwrap();
    store.release_all(1);
    assert!(store.is_loaded(DEFAULT_PACK));
    assert!(store.loaded_packs[0].holders.is_empty());
}

#[test]
fn release_all_lets_go_of_every_pack_of_a_holder() {
    let mut store = store();
    store.stage(pack("Animals", true, 1, 4));
    store.stage(pack("Homemade", false, 3, 5));
    store.load_pack("Animals", 1).unwrap();
    store.load_pack("Homemade", 1).unwrap();
    store.load_pack("Homemade", 2).unwrap();
    store.load_pack(DEFAULT_PACK, 1).unwrap();
    store.release_all(1);
    assert_eq!(loaded_names(&store), vec![DEFAULT_PACK.to_owned(), "Homemade".to_owned()]);
    assert_eq!(store.loaded_packs[1].holders, vec![2]);
    assert!(store.loaded_packs[0].holders.is_empty());
}

#[test]
fn create_pack_adds_an_unofficial_catalog_entry() {
    let mut store = store();
    assert_eq!(store.create_pack(&pack("Fresh", true, 2, 6)), Ok(()));
    assert_eq!(store.possible_packs().last(), Some(&entry("Fresh", false, 2, 6)));
    assert_eq!(store.needs_read("Fresh"), Some(false));
}

#[test]
fn create_pack_rejects_a_name_collision() {
    let mut store = store();
    assert_eq!(store.create_pack(&pack("Animals", false, 2, 6)), Err(PackError::NameTaken));
    assert_eq!(store.possible_packs().len(), 3);
    assert_eq!(store.possible_packs()[1], entry("Animals", true, 1, 4));
}

#[test]
fn pack_errors_have_messages() {
    assert_eq!(PackError::NotFound.message(), "pack is not found");
    assert_eq!(PackError::Corrupt.message(), "pack could not be read");
    assert_eq!(PackError::NameTaken.message(), "pack name is taken");
    assert_eq!(PackError::DefaultPackMissing.message(), "default pack file not found");
}

#[test]
fn every_loaded_pack_is_listed_in_the_catalog() {
    let mut store = store();
    store.stage(pack("Animals", true, 1, 4));
    store.stage(pack("Stranger", true, 1, 4));
    store.load_pack("Animals", 1).unwrap();
    // A pack that the catalog does not list is not found, staged or not.
    assert_eq!(store.load_pack("Stranger", 1).err(), Some(PackError::NotFound));
    store.create_pack(&pack("Fresh", false, 1, 1)).unwrap();
    for loaded in &store.loaded_packs {
        assert!(store.possible_packs().iter().any(|entry| entry.name == loaded.pack.name));
    }
}
