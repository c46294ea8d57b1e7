use image_dedup::fingerprint::Fingerprint;
use image_dedup::grouping::find_duplicates;
use image_dedup::models::{DuplicatesGroup, ImageInfo};
use image_dedup::report::build_report;
use image_hasher::ImageHash;

fn fingerprint(bytes: &[u8]) -> Fingerprint {
    Fingerprint::from_bytes(bytes.to_vec()).unwrap()
}

fn from_base64(text: &str) -> Fingerprint {
    let hash: ImageHash = ImageHash::from_base64(text).unwrap();
    fingerprint(hash.as_bytes())
}

fn record(path: &str, bytes: &[u8]) -> ImageInfo {
    ImageInfo { path: String::from(path), hash: fingerprint(bytes) }
}

fn paths(group: &DuplicatesGroup) -> Vec<String> {
    group.items.iter().map(|item| item.path.clone()).collect()
}

fn grouped(groups: &[DuplicatesGroup]) -> usize {
    groups.iter().map(|group| group.items.len()).sum()
}

#[test]
fn test_find_duplicates() {
    let hash1 = from_base64("DAIDBwMHAf8");
    let hash2 = from_base64("8/JwVtbOVy4");
    let hash3 = hash1.clone();
    let hash4 = from_base64("DwcHBwcHBwc");
    let hash5 = from_base64("HxcXB4cGBgc");

    let image1 = ImageInfo { path: String::from("image1.png"), hash: hash1 };
    let image2 = ImageInfo { path: String::from("image2.png"), hash: hash2 };
    let image3 = ImageInfo {
        path: String::from("image3.png"),
        hash: hash3, // Duplicate of image1
    };
    let image4 = ImageInfo { path: String::from("image4.png"), hash: hash4 };
    let image5 = ImageInfo { path: String::from("image5.png"), hash: hash5 };

    let images = vec![
        image1.clone(),
        image2.clone(),
        image3.clone(),
        image4.clone(),
        image5.clone(),
    ];
    let groups = find_duplicates(images, 10u32);

    assert_eq!(groups.len(), 2, "Expected two groups of duplicates");
    assert_eq!(groups[0].items.len(), 2, "Expected two items in the duplicate group");
    assert!(groups[0].items.contains(&image1));
    assert!(groups[0].items.contains(&image3));
}

#[test]
fn second_group_holds_the_other_near_pair() {
    let images = vec![
        ImageInfo { path: String::from("image1.png"), hash: from_base64("DAIDBwMHAf8") },
        ImageInfo { path: String::from("image2.png"), hash: from_base64("8/JwVtbOVy4") },
        ImageInfo { path: String::from("image3.png"), hash: from_base64("DAIDBwMHAf8") },
        ImageInfo { path: String::from("image4.png"), hash: from_base64("DwcHBwcHBwc") },
        ImageInfo { path: String::from("image5.png"), hash: from_base64("HxcXB4cGBgc") },
    ];
    let groups = find_duplicates(images, 10);
    assert_eq!(groups.len(), 2);
    assert_eq!(paths(&groups[0]), vec!["image1.png", "image3.png"]);
    assert_eq!(paths(&groups[1]), vec!["image4.png", "image5.png"]);
}

#[test]
fn empty_input_gives_no_groups() {
    assert_eq!(find_duplicates(Vec::new(), 0).len(), 0);
    assert_eq!(find_duplicates(Vec::new(), 10).len(), 0);
    assert_eq!(find_duplicates(Vec::new(), u32::MAX).len(), 0);
}

#[test]
fn single_record_gives_no_groups() {
    let groups = find_duplicates(vec![record("only.png", &[1, 2, 3])], u32::MAX);
    assert!(groups.is_empty());
}

#[test]
fn one_identical_pair_among_five() {
    let images = vec![
        record("1.png", &[0, 0, 0, 0, 0, 0, 0, 0]),
        record("2.png", &[0xFF, 0xFF, 0, 0, 0, 0, 0, 0]),
        record("3.png", &[0, 0, 0, 0, 0, 0, 0, 0]),
        record("4.png", &[0, 0, 0xFF, 0xFF, 0, 0, 0, 0]),
        record("5.png", &[0, 0, 0, 0, 0xFF, 0xFF, 0, 0]),
    ];
    let groups = find_duplicates(images, 10);
    assert_eq!(groups.len(), 1);
    assert_eq!(paths(&groups[0]), vec!["1.png", "3.png"]);
    assert_eq!(groups[0].items[0].hash.dist(&groups[0].items[1].hash), 0);
}

#[test]
fn distance_equal_to_threshold_does_not_match() {
    let images = vec![record("a.png", &[0x00]), record("b.png", &[0x0F])];
    assert_eq!(find_duplicates(images.clone(), 4).len(), 0);
    let groups = find_duplicates(images, 5);
    assert_eq!(groups.len(), 1);
    assert_eq!(paths(&groups[0]), vec!["a.png", "b.png"]);
}

#[test]
fn threshold_zero_matches_nothing() {
    let images = vec![record("a.png", &[7, 7]), record("b.png", &[7, 7])];
    assert!(find_duplicates(images, 0).is_empty());
}

#[test]
fn membership_goes_by_the_anchor_alone() {
    // a and b are close, b and c are close, a and c are not.
    let a = record("a.png", &[0x00]);
    let b = record("b.png", &[0x0F]);
    let c = record("c.png", &[0xFF]);

    let groups = find_duplicates(vec![a.clone(), b.clone(), c.clone()], 5);
    assert_eq!(groups.len(), 1);
    assert_eq!(paths(&groups[0]), vec!["a.png", "b.png"]);

    let groups = find_duplicates(vec![b, a, c], 5);
    assert_eq!(groups.len(), 1);
    assert_eq!(paths(&groups[0]), vec!["b.png", "a.png", "c.png"]);
    // The two members that are not the anchor are farther apart than the threshold.
    assert_eq!(groups[0].items[1].hash.dist(&groups[0].items[2].hash), 8);
}

#[test]
fn groups_come_in_anchor_order_with_members_in_input_order() {
    let images = vec![
        record("x1.png", &[0b0000_0001, 0]),
        record("y1.png", &[0, 0xFF]),
        record("x2.png", &[0b0000_0011, 0]),
        record("lone.png", &[0xF0, 0x0F]),
        record("y2.png", &[1, 0xFF]),
        record("x3.png", &[0b0000_0000, 0]),
    ];
    let groups = find_duplicates(images, 3);
    assert_eq!(groups.len(), 2);
    assert_eq!(paths(&groups[0]), vec!["x1.png", "x2.png", "x3.png"]);
    assert_eq!(paths(&groups[1]), vec!["y1.png", "y2.png"]);
}

#[test]
fn every_group_has_at_least_two_members() {
    let images = vec![
        record("a", &[0x00, 0x00]),
        record("b", &[0x01, 0x00]),
        record("c", &[0xFF, 0xFF]),
        record("d", &[0xFE, 0xFF]),
        record("e", &[0x0F, 0xF0]),
    ];
    for threshold in 0..20 {
        for group in find_duplicates(images.clone(), threshold) {
            assert!(group.items.len() >= 2);
        }
    }
}

#[test]
fn no_image_is_placed_twice() {
    let images = vec![
        record("a", &[0x00]),
        record("b", &[0x03]),
        record("c", &[0x0F]),
        record("d", &[0x3F]),
        record("e", &[0xFF]),
        record("f", &[0xFC]),
    ];
    for threshold in 0..10 {
        let groups = find_duplicates(images.clone(), threshold);
        let mut seen: Vec<String> = Vec::new();
        for group in &groups {
            for item in &group.items {
                assert!(!seen.contains(&item.path));
                seen.push(item.path.clone());
            }
        }
    }
}

#[test]
fn members_lie_within_the_threshold_of_their_anchor() {
    let images = vec![
        record("a", &[0x00]),
        record("b", &[0x03]),
        record("c", &[0x0F]),
        record("d", &[0x3F]),
        record("e", &[0xFF]),
        record("f", &[0xFC]),
    ];
    for threshold in 0..10 {
        for group in find_duplicates(images.clone(), threshold) {
            let anchor = &group.items[0];
            for member in &group.items[1..] {
                assert!(anchor.hash.dist(&member.hash) < threshold);
                assert!(images.contains(member));
            }
        }
    }
}

#[test]
fn a_path_that_is_assigned_is_not_taken_again() {
    let images = vec![
        record("a.png", &[0]),
        record("b.png", &[0]),
        record("b.png", &[0]),
        record("c.png", &[0]),
    ];
    let groups = find_duplicates(images, 1);
    assert_eq!(groups.len(), 1);
    assert_eq!(paths(&groups[0]), vec!["a.png", "b.png", "c.png"]);
}

#[test]
fn a_higher_threshold_groups_more_where_the_clusters_are_apart() {
    let images = vec![
        record("a1", &[0x00, 0x00, 0x00]),
        record("b1", &[0xFF, 0xFF, 0x00]),
        record("a2", &[0x01, 0x00, 0x00]),
        record("b2", &[0xFF, 0xFF, 0x07]),
        record("c1", &[0x00, 0xFF, 0xFF]),
    ];
    assert_eq!(grouped(&find_duplicates(images.clone(), 1)), 0);
    assert_eq!(grouped(&find_duplicates(images.clone(), 2)), 2);
    assert_eq!(grouped(&find_duplicates(images.clone(), 3)), 2);
    assert_eq!(grouped(&find_duplicates(images, 4)), 4);
}

#[test]
fn a_higher_threshold_can_group_fewer_where_an_earlier_anchor_steps_in() {
    let images = vec![
        record("1", &[0x00, 0xFE, 0x00, 0x0E, 0x00]),
        record("2", &[0x00, 0x00, 0x00, 0x00, 0x00]),
        record("3", &[0xFF, 0x01, 0x00, 0x00, 0x00]),
        record("4", &[0x00, 0x00, 0xFF, 0x01, 0x00]),
    ];
    let low = find_duplicates(images.clone(), 10);
    assert_eq!(low.len(), 1);
    assert_eq!(paths(&low[0]), vec!["2", "3", "4"]);
    let high = find_duplicates(images, 11);
    assert_eq!(high.len(), 1);
    assert_eq!(paths(&high[0]), vec!["1", "2"]);
}

#[test]
fn report_keeps_directory_threshold_and_groups() {
    let images = vec![
        record("/photos/a.png", &[0xAA, 0x55]),
        record("/photos/b.png", &[0xAB, 0x55]),
        record("/photos/c.png", &[0x55, 0xAA]),
    ];
    let report = build_report(String::from("/photos"), images.clone(), 2);
    assert_eq!(report.directory, "/photos");
    assert_eq!(report.threshold, 2);
    assert_eq!(report.duplicates, find_duplicates(images, 2));
    assert_eq!(report.duplicates.len(), 1);
    assert_eq!(paths(&report.duplicates[0]), vec!["/photos/a.png", "/photos/b.png"]);
}

#[test]
fn report_without_duplicates_has_no_groups() {
    let report = build_report(String::from("/empty"), Vec::new(), 10);
    assert_eq!(report.directory, "/empty");
    assert_eq!(report.threshold, 10);
    assert!(report.duplicates.is_empty());
}
