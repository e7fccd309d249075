use kmeans_incidents::engine::run;
use kmeans_incidents::point::Point;
use kmeans_incidents::report::{
    contains_label, count_label, data_objects, most_frequent, race_labels, weapon_labels,
    DataObject,
};

const SCALE: i64 = 1_000_000;

fn pt(lat: i64, lon: i64, weapon: &str, race: &str) -> Point {
    Point::new(lat, lon, weapon.to_string(), race.to_string())
}

fn labels(v: &[&str]) -> Vec<String> {
    v.iter().map(|s| s.to_string()).collect()
}

#[test]
fn data_object_carries_the_two_labels() {
    let p = pt(1, 2, "gun", "A");
    let o = DataObject::from(&p);
    assert_eq!(o.weapon, "gun");
    assert_eq!(o.race, "A");
}

#[test]
fn most_frequent_of_empty_is_none() {
    let ls: Vec<String> = Vec::new();
    assert!(most_frequent(&ls).is_none());
}

#[test]
fn most_frequent_picks_strictly_greatest_count() {
    let ls = labels(&["x", "y", "y"]);
    assert_eq!(most_frequent(&ls), Some(("y".to_string(), 2)));
}

#[test]
fn most_frequent_tie_goes_to_first_seen() {
    let ls = labels(&["b", "a", "a", "b"]);
    assert_eq!(most_frequent(&ls), Some(("b".to_string(), 2)));
}

#[test]
fn count_label_counts_exact_matches() {
    let ls = labels(&["gun", "knife", "gun", "gun"]);
    assert_eq!(count_label(&ls, &"gun".to_string()), 3);
    assert_eq!(count_label(&ls, &"knife".to_string()), 1);
    assert_eq!(count_label(&ls, &"axe".to_string()), 0);
    assert!(contains_label(&ls, &"knife".to_string()));
    assert!(!contains_label(&ls, &"axe".to_string()));
}

#[test]
fn scenario_reporter_output() {
    // two tight pairs, k = 2: whichever two points seed the run, the
    // near-origin pair and the far pair end up together, and the
    // reporter sees weapon:gun:2 / race:A:2 and weapon:knife:2 / race:B:2
    let points = vec![
        pt(0, 0, "gun", "A"),
        pt(0, SCALE / 10, "gun", "A"),
        pt(10 * SCALE, 10 * SCALE, "knife", "B"),
        pt(10 * SCALE, 10 * SCALE + SCALE / 10, "knife", "B"),
    ];
    let clusters = run(&points, 2, 1000).unwrap();
    assert_eq!(clusters.len(), 2);
    let mut summaries: Vec<(String, usize, String, usize)> = Vec::new();
    for cluster in &clusters {
        assert_eq!(cluster.len(), 2);
        let objs = data_objects(cluster);
        let (w, wc) = most_frequent(&weapon_labels(&objs)).unwrap();
        let (r, rc) = most_frequent(&race_labels(&objs)).unwrap();
        summaries.push((w, wc, r, rc));
    }
    // cluster order depends on which points were drawn as seeds
    let gun = ("gun".to_string(), 2, "A".to_string(), 2);
    let knife = ("knife".to_string(), 2, "B".to_string(), 2);
    assert!(
        (summaries[0] == gun && summaries[1] == knife) || (summaries[0] == knife
            && summaries[1] == gun)
    );
}
