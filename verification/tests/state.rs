use hourlybot_rs::image_list::ImageList;

fn strings(v: &[&str]) -> Vec<String> {
    v.iter().map(|s| s.to_string()).collect()
}

#[test]
fn round_trip_three_records() {
    let mut list = ImageList::from_entries("/tmp/pics", strings(&["a.jpg", "b.jpg", "c.jpg"]));
    list.load_state("a.jpg\nb.jpg\nc.jpg");
    assert_eq!(list.used(), &strings(&["a.jpg", "b.jpg", "c.jpg"]));
    let text = list.state_serialize();
    assert_eq!(text, "a.jpg\nb.jpg\nc.jpg");
    let mut again = ImageList::from_entries("/tmp/pics", strings(&["a.jpg", "b.jpg", "c.jpg"]));
    again.load_state(&text);
    assert_eq!(again.used(), list.used());
}

#[test]
fn empty_state_serializes_to_empty_text() {
    let list = ImageList::from_entries("/tmp/pics", strings(&["a.jpg"]));
    assert_eq!(list.state_serialize(), "");
    let mut other = ImageList::from_entries("/tmp/pics", strings(&["a.jpg"]));
    other.load_state("");
    assert_eq!(other.used().len(), 0);
}

#[test]
fn trailing_newline_adds_no_record() {
    let mut list = ImageList::from_entries("/tmp/pics", strings(&["a.jpg"]));
    list.load_state("a.jpg\n");
    assert_eq!(list.used(), &strings(&["a.jpg"]));
}

#[test]
fn stale_record_is_harmless() {
    // The state file mentions a path no longer in the catalog: it loads
    // without error and the next selection simply never returns it.
    let mut list = ImageList::from_entries("/tmp/pics", strings(&["x.jpg"]));
    list.load_state("gone.jpg");
    assert_eq!(list.used(), &strings(&["gone.jpg"]));
    let picked = list.select().unwrap();
    assert_eq!(picked, "x.jpg");
}

#[test]
fn state_is_overwritten_not_appended() {
    let mut list = ImageList::from_entries("/tmp/pics", strings(&["a.jpg", "b.jpg", "c.jpg"]));
    list.load_state("a.jpg");
    let first = list.state_serialize();
    assert_eq!(first, "a.jpg");
    let picked = list.select().unwrap();
    let second = list.state_serialize();
    assert_eq!(second, format!("a.jpg\n{}", picked));
}

#[test]
fn derived_name_keeps_alphanumerics_only() {
    let list = ImageList::from_entries("/tmp/pics-2", Vec::new());
    assert_eq!(list.name_str(), "tmppics2");
    let plain = ImageList::from_entries("photos", Vec::new());
    assert_eq!(plain.name_str(), "photos");
}
