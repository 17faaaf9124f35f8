use sprite_info::string_map::StringMap;
use sprite_info::summary::ImageSummary;

fn frame(name: &str, changed: u64) -> ImageSummary {
    ImageSummary {
        name: String::from(name),
        width: 1,
        height: 1,
        checksum: String::from("0"),
        changed,
        border: None,
    }
}

#[test]
fn new_map_is_empty() {
    let map: StringMap<ImageSummary> = StringMap::new();
    assert_eq!(map.len(), 0);
    assert!(map.entry(0).is_none());
    assert!(map.get(&String::from("a.png")).is_none());
    assert!(!map.contains_key(&String::from("a.png")));
}

#[test]
fn insert_then_get() {
    let mut map: StringMap<ImageSummary> = StringMap::new();
    map.insert(String::from("a.png"), frame("a.png", 1));
    map.insert(String::from("b.png"), frame("b.png", 2));
    assert_eq!(map.len(), 2);
    assert_eq!(map.get(&String::from("a.png")).unwrap().changed, 1);
    assert_eq!(map.get(&String::from("b.png")).unwrap().changed, 2);
    assert!(map.get(&String::from("c.png")).is_none());
    assert!(map.contains_key(&String::from("b.png")));
}

#[test]
fn insert_under_a_present_key_replaces_the_value_where_it_stood() {
    let mut map: StringMap<ImageSummary> = StringMap::new();
    map.insert(String::from("a.png"), frame("a.png", 1));
    map.insert(String::from("b.png"), frame("b.png", 2));
    map.insert(String::from("a.png"), frame("a.png", 3));
    assert_eq!(map.len(), 2);
    assert_eq!(map.get(&String::from("a.png")).unwrap().changed, 3);
    let (first_key, first_value) = map.entry(0).unwrap();
    assert_eq!(first_key, "a.png");
    assert_eq!(first_value.changed, 3);
    let (second_key, second_value) = map.entry(1).unwrap();
    assert_eq!(second_key, "b.png");
    assert_eq!(second_value.changed, 2);
    assert!(map.entry(2).is_none());
}

#[test]
fn entries_keep_the_order_of_first_insertion() {
    let mut map: StringMap<ImageSummary> = StringMap::new();
    let names = ["z.png", "m.png", "a.png", "q.png"];
    for (i, name) in names.iter().enumerate() {
        map.insert(String::from(*name), frame(name, i as u64));
    }
    assert_eq!(map.len(), 4);
    for (i, name) in names.iter().enumerate() {
        let (key, value) = map.entry(i).unwrap();
        assert_eq!(key, *name);
        assert_eq!(value.changed, i as u64);
    }
}

#[test]
fn keys_are_compared_exactly() {
    let mut map: StringMap<ImageSummary> = StringMap::new();
    map.insert(String::from("a.png"), frame("a.png", 1));
    assert!(map.get(&String::from("A.png")).is_none());
    assert!(map.get(&String::from("a.png ")).is_none());
    assert!(map.get(&String::from("")).is_none());
    map.insert(String::from(""), frame("", 9));
    assert_eq!(map.get(&String::from("")).unwrap().changed, 9);
}
