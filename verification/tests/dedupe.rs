use hourlybot_rs::image_list::ImageList;

fn strings(v: &[&str]) -> Vec<String> {
    v.iter().map(|s| s.to_string()).collect()
}

#[test]
fn identical_pair_is_reported_once() {
    // Two files with identical bytes: one pair, first-seen name first.
    let list = ImageList::from_entries("/tmp/pics", strings(&["x.jpg", "y.jpg"]));
    let contents = vec![vec![1u8, 2, 3], vec![1u8, 2, 3]];
    let report = list.simple_dedupe(&contents, false);
    assert_eq!(report.dupes, strings(&["x.jpg <=> y.jpg"]));
    assert_eq!(report.renames.len(), 0);
}

#[test]
fn marking_renames_only_the_second_file() {
    let list = ImageList::from_entries("/tmp/pics", strings(&["x.jpg", "y.jpg"]));
    let contents = vec![vec![1u8, 2, 3], vec![1u8, 2, 3]];
    let report = list.simple_dedupe(&contents, true);
    assert_eq!(report.dupes, strings(&["x.jpg <=> y.jpg"]));
    assert_eq!(report.renames, vec![("y.jpg".to_string(), "y.jpg.DUP".to_string())]);
}

#[test]
fn group_of_three_marks_two() {
    // A duplicate group of size three: exactly two renames, and the
    // first-seen file keeps its name. Descriptions use file names while
    // renames use the full paths.
    let list = ImageList::from_entries(
        "/tmp/pics",
        strings(&["/p/a.jpg", "/p/b.jpg", "/p/c.jpg", "/p/d.jpg"]),
    );
    let same = vec![7u8, 7, 7];
    let contents = vec![same.clone(), vec![9u8], same.clone(), same.clone()];
    let report = list.simple_dedupe(&contents, true);
    assert_eq!(report.dupes, strings(&["a.jpg <=> c.jpg", "a.jpg <=> d.jpg"]));
    assert_eq!(
        report.renames,
        vec![
            ("/p/c.jpg".to_string(), "/p/c.jpg.DUP".to_string()),
            ("/p/d.jpg".to_string(), "/p/d.jpg.DUP".to_string()),
        ]
    );
}

#[test]
fn report_is_sorted_lexicographically() {
    // Scan order yields the z-pair before the a-pair; the report is
    // sorted.
    let list = ImageList::from_entries(
        "/tmp/pics",
        strings(&["z.jpg", "a.jpg", "y.jpg", "b.jpg"]),
    );
    let contents = vec![vec![1u8], vec![2u8], vec![1u8], vec![2u8]];
    let report = list.simple_dedupe(&contents, false);
    assert_eq!(report.dupes, strings(&["a.jpg <=> b.jpg", "z.jpg <=> y.jpg"]));
}

#[test]
fn distinct_contents_report_nothing() {
    // Same length, different bytes: no duplicates.
    let list = ImageList::from_entries("/tmp/pics", strings(&["x.jpg", "y.jpg"]));
    let contents = vec![vec![1u8, 2, 3], vec![1u8, 2, 4]];
    let report = list.simple_dedupe(&contents, true);
    assert_eq!(report.dupes.len(), 0);
    assert_eq!(report.renames.len(), 0);
}

#[test]
fn scan_is_idempotent_without_marking() {
    // Two scans over unchanged files give identical reports.
    let list = ImageList::from_entries(
        "/tmp/pics",
        strings(&["a.jpg", "b.jpg", "c.jpg"]),
    );
    let contents = vec![vec![5u8], vec![5u8], vec![6u8]];
    let first = list.simple_dedupe(&contents, false);
    let second = list.simple_dedupe(&contents, false);
    assert_eq!(first.dupes, second.dupes);
    assert_eq!(first.renames, second.renames);
}

#[test]
fn empty_catalog_scans_clean() {
    let list = ImageList::from_entries("/tmp/pics", Vec::new());
    let report = list.simple_dedupe(&Vec::new(), true);
    assert_eq!(report.dupes.len(), 0);
    assert_eq!(report.renames.len(), 0);
}
