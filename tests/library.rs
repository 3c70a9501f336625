use lncli::data::{Data, LN, RECENT_CAP};

fn entry(name: &str, last_chapter: usize) -> LN {
    LN {
        name: name.to_string(),
        url: format!("https://freewebnovel.com/novel/{}.html", name),
        last_chapter,
    }
}

#[test]
fn recent_never_regresses() {
    let mut d = Data::new();
    d.record_recent(entry("alpha", 5));
    d.record_recent(entry("alpha", 3));
    assert_eq!(d.recent().len(), 1);
    assert_eq!(d.recent()[0].last_chapter, 5);
    d.record_recent(entry("alpha", 8));
    assert_eq!(d.recent()[0].last_chapter, 8);
}

#[test]
fn recent_touch_moves_to_front() {
    let mut d = Data::new();
    d.record_recent(entry("a", 1));
    d.record_recent(entry("b", 1));
    d.record_recent(entry("c", 1));
    d.record_recent(entry("a", 1));
    let names: Vec<&str> = d.recent().iter().map(|x| x.name.as_str()).collect();
    assert_eq!(names, vec!["a", "c", "b"]);
}

#[test]
fn recent_capped_after_eleven_names() {
    let mut d = Data::new();
    for i in 0..11 {
        d.record_recent(entry(&format!("novel{}", i), i + 1));
    }
    assert_eq!(d.recent().len(), RECENT_CAP);
    assert_eq!(d.recent().len(), 10);
    assert_eq!(d.recent()[0].name, "novel10");
    let mut names: Vec<String> = d.recent().iter().map(|x| x.name.clone()).collect();
    assert!(!names.contains(&"novel0".to_string()));
    names.sort();
    names.dedup();
    assert_eq!(names.len(), 10);
}

#[test]
fn add_tracked_twice_keeps_length() {
    let mut d = Data::new();
    d.add_tracked(entry("alpha", 1));
    assert_eq!(d.tracked_novels().len(), 1);
    d.add_tracked(entry("alpha", 9));
    assert_eq!(d.tracked_novels().len(), 1);
    assert_eq!(d.tracked_novels()[0].last_chapter, 1);
    d.add_tracked(entry("beta", 2));
    assert_eq!(d.tracked_novels().len(), 2);
}

#[test]
fn remove_tracked_by_name() {
    let mut d = Data::new();
    d.add_tracked(entry("alpha", 1));
    d.add_tracked(entry("beta", 2));
    d.remove_tracked(&"alpha".to_string());
    assert_eq!(d.tracked_novels(), &vec![entry("beta", 2)]);
    d.remove_tracked(&"gamma".to_string());
    assert_eq!(d.tracked_novels(), &vec![entry("beta", 2)]);
}

#[test]
fn chapter_progress_takes_the_maximum() {
    let mut d = Data::new();
    d.add_tracked(entry("alpha", 5));
    d.add_tracked(entry("beta", 5));
    d.record_chapter_progress("https://freewebnovel.com/novel/alpha.html", 7);
    assert_eq!(d.tracked_novels()[0].last_chapter, 7);
    assert_eq!(d.tracked_novels()[1].last_chapter, 5);
    d.record_chapter_progress("https://freewebnovel.com/novel/alpha.html", 2);
    assert_eq!(d.tracked_novels()[0].last_chapter, 7);
}

#[test]
fn record_visit_updates_both_lists() {
    let mut d = Data::new();
    d.add_tracked(entry("alpha", 1));
    d.record_visit(
        "alpha".to_string(),
        "https://freewebnovel.com/novel/alpha.html".to_string(),
        4,
    );
    assert_eq!(d.tracked_novels()[0].last_chapter, 4);
    assert_eq!(d.recent()[0], entry("alpha", 4));
}

#[test]
fn prune_folds_duplicates_and_caps() {
    let mut list = vec![entry("a", 2), entry("b", 1), entry("a", 5), entry("a", 4)];
    for i in 0..12 {
        list.push(entry(&format!("n{}", i), 1));
    }
    let mut d = Data::from_parts(vec![], list);
    d.prune();
    assert_eq!(d.recent().len(), 10);
    assert_eq!(d.recent()[0], entry("a", 5));
    assert_eq!(d.recent()[1], entry("b", 1));
    assert_eq!(d.recent()[2], entry("n0", 1));
}

#[test]
fn normalized_round_trip_is_stable() {
    let tracked_list = vec![entry("a", 1), entry("b", 2), entry("a", 3)];
    let mut recent_list = Vec::new();
    for i in 0..13 {
        recent_list.push(entry(&format!("r{}", i % 12), i));
    }
    let d = Data::from_parts(tracked_list, recent_list);
    let saved = d.normalized();
    assert_eq!(saved.tracked_novels(), &vec![entry("a", 1), entry("b", 2)]);
    assert_eq!(saved.recent().len(), 10);
    assert_eq!(saved.recent()[0], entry("r0", 12));
    let reloaded = Data::from_parts(
        saved.tracked_novels().clone(),
        saved.recent().iter().cloned().collect(),
    );
    let again = reloaded.normalized();
    assert_eq!(again.tracked_novels(), saved.tracked_novels());
    assert_eq!(again.recent(), saved.recent());
}

#[test]
fn mutable_access_and_dedup() {
    let mut d = Data::new();
    d.tracked_mut().push(entry("a", 1));
    d.tracked_mut().push(entry("a", 2));
    d.recent_mut().push_back(entry("z", 1));
    assert_eq!(d.tracked_novels().len(), 2);
    d.dedup_tracked();
    assert_eq!(d.tracked_novels(), &vec![entry("a", 1)]);
    assert_eq!(d.recent().len(), 1);
}

#[test]
fn duplicate_copies_an_entry() {
    let e = entry("copy", 3);
    assert_eq!(e.duplicate(), e);
}
