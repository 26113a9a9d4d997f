use hourlybot_rs::image_list::{ImageList, SelectError};

fn strings(v: &[&str]) -> Vec<String> {
    v.iter().map(|s| s.to_string()).collect()
}

#[test]
fn three_entry_rotation() {
    // Catalog [a.jpg, b.jpg, c.jpg], empty used set. The first two picks
    // are distinct members of the catalog; before the third pick only one
    // entry is unused (3 - 2 = 1 < 2), so a reset fires and the third
    // pick may repeat one of the first two.
    let entries = strings(&["a.jpg", "b.jpg", "c.jpg"]);
    let mut list = ImageList::from_entries("/tmp/pics", entries.clone());
    let p1 = list.select().unwrap();
    let p2 = list.select().unwrap();
    assert!(entries.contains(&p1));
    assert!(entries.contains(&p2));
    assert_ne!(p1, p2);
    let p3 = list.select().unwrap();
    assert!(entries.contains(&p3));
    assert_eq!(list.used(), &vec![p3.clone()]);
}

#[test]
fn empty_catalog_is_an_error() {
    let mut list = ImageList::from_entries("/tmp/pics", Vec::new());
    assert_eq!(list.select(), Err(SelectError::EmptyCatalog));
}

#[test]
fn no_repeats_before_reset() {
    // Five entries: the first four picks never repeat, since a reset can
    // fire only when fewer than two entries remain unused.
    let entries = strings(&["a", "b", "c", "d", "e"]);
    let mut list = ImageList::from_entries("/tmp/pics", entries.clone());
    let mut seen: Vec<String> = Vec::new();
    for _ in 0..4 {
        let p = list.select().unwrap();
        assert!(entries.contains(&p));
        assert!(!seen.contains(&p));
        seen.push(p);
    }
}

#[test]
fn reset_offers_the_full_catalog() {
    // Two entries: after one pick only one entry is unused (2 - 1 = 1),
    // so the next pick resets and records only itself.
    let entries = strings(&["a.jpg", "b.jpg"]);
    let mut list = ImageList::from_entries("/tmp/pics", entries.clone());
    let p1 = list.select().unwrap();
    assert_eq!(list.used(), &vec![p1.clone()]);
    let p2 = list.select().unwrap();
    assert!(entries.contains(&p2));
    assert_eq!(list.used(), &vec![p2.clone()]);
}

#[test]
fn single_entry_catalog_always_selects_it() {
    let mut list = ImageList::from_entries("/tmp/pics", strings(&["only.jpg"]));
    for _ in 0..3 {
        assert_eq!(list.select().unwrap(), "only.jpg");
        assert_eq!(list.used(), &strings(&["only.jpg"]));
    }
}

#[test]
fn loaded_state_counts_toward_reset() {
    // Three entries with two already used from a previous run: only one
    // entry remains unused (3 - 2 = 1 < 2), so the next pick resets,
    // chooses from the full catalog and records only itself.
    let entries = strings(&["a", "b", "c"]);
    let mut list = ImageList::from_entries("/tmp/pics", entries.clone());
    list.load_state("a\nb");
    let p = list.select().unwrap();
    assert!(entries.contains(&p));
    assert_eq!(list.used(), &vec![p]);
}

#[test]
fn duplicate_entries_cannot_stall() {
    // A catalog listing the same path in every slot: once that path is
    // used, no unused entry exists even though the length check sees
    // plenty of slots. The selector resets instead of searching forever.
    let entries = strings(&["same.jpg", "same.jpg", "same.jpg", "same.jpg"]);
    let mut list = ImageList::from_entries("/tmp/pics", entries);
    for _ in 0..3 {
        assert_eq!(list.select().unwrap(), "same.jpg");
        assert_eq!(list.used(), &strings(&["same.jpg"]));
    }
}

#[test]
fn loaded_state_blocks_repeats() {
    // Three entries with one already used from a previous run: two
    // remain unused, so no reset fires and the used entry cannot come
    // back.
    let entries = strings(&["a", "b", "c"]);
    let mut list = ImageList::from_entries("/tmp/pics", entries.clone());
    list.load_state("a");
    let p = list.select().unwrap();
    assert!(p == "b" || p == "c");
    assert_eq!(list.used(), &strings(&["a", &p]));
}
