use media_bowl::Bowl;
use media_bowl::MediaFile;
use media_bowl::MediaTrait;
use media_bowl::State;
use media_bowl::Thumbnail;

#[test]
fn round_trip_returns_inserted_item() {
    let mut bowl: Bowl<MediaFile> = Bowl::new();
    let file = MediaFile::new("clip.mp4", "abc-1", State::Running, "acme");
    bowl.add(file.get_organization(), file.clone());
    assert_eq!(bowl.get("acme", "abc-1"), Some(&file));
}

#[test]
fn replace_overwrites_whole_value() {
    let mut bowl: Bowl<MediaFile> = Bowl::new();
    let old_item = MediaFile::new("old.mp4", "id-7", State::Runnable, "acme");
    let new_item = MediaFile::new("new.mp4", "id-7", State::Failed, "acme");
    bowl.add(old_item.get_organization(), old_item.clone());
    bowl.add(new_item.get_organization(), new_item.clone());
    assert_eq!(bowl.get("acme", "id-7"), Some(&new_item));
    assert_eq!(bowl.get_all("acme").len(), 1);
    assert!(bowl.filter_by_org_and_state("acme", &State::Runnable).is_empty());
}

#[test]
fn organization_isolation() {
    let mut bowl: Bowl<MediaFile> = Bowl::new();
    let a = MediaFile::new("a.mp4", "shared-id", State::Runnable, "A");
    bowl.add(a.get_organization(), a.clone());
    assert!(bowl.get_all("B").is_empty());
    assert_eq!(bowl.get("B", "shared-id"), None);

    let b = MediaFile::new("b.mp4", "shared-id", State::Finished, "B");
    bowl.add(b.get_organization(), b.clone());
    assert_eq!(bowl.get("A", "shared-id"), Some(&a));
    assert_eq!(bowl.get("B", "shared-id"), Some(&b));
    assert!(bowl.delete("B", "shared-id"));
    assert_eq!(bowl.get("A", "shared-id"), Some(&a));
}

#[test]
fn type_isolation() {
    let mut films: Bowl<MediaFile> = Bowl::new();
    let mut thumbs: Bowl<Thumbnail> = Bowl::new();
    let film = MediaFile::new("film.mp4", "id-1", State::Runnable, "acme");
    let thumb = Thumbnail::new("thumb.png", "id-1", State::Finished, "acme");
    films.add("acme", film.clone());
    thumbs.add("acme", thumb.clone());
    assert_eq!(films.get("acme", "id-1"), Some(&film));
    assert_eq!(thumbs.get("acme", "id-1"), Some(&thumb));
    assert!(films.delete("acme", "id-1"));
    assert_eq!(films.get("acme", "id-1"), None);
    assert_eq!(thumbs.get("acme", "id-1"), Some(&thumb));
}

#[test]
fn delete_missing_is_false_and_side_effect_free() {
    let mut bowl: Bowl<MediaFile> = Bowl::new();
    let file = MediaFile::new("keep.mp4", "kept", State::Runnable, "acme");
    bowl.add(file.get_organization(), file.clone());
    assert!(!bowl.delete("acme", "never-inserted"));
    assert!(!bowl.delete("ghost-org", "kept"));
    assert_eq!(bowl.get_all("acme").len(), 1);
    assert_eq!(bowl.get("acme", "kept"), Some(&file));
}

#[test]
fn state_filter_is_exact_subset_of_get_all() {
    let mut bowl: Bowl<MediaFile> = Bowl::new();
    let r1 = MediaFile::new("r1.mp4", "r1", State::Runnable, "acme");
    let r2 = MediaFile::new("r2.mp4", "r2", State::Runnable, "acme");
    let f1 = MediaFile::new("f1.mp4", "f1", State::Finished, "acme");
    bowl.add("acme", r1.clone());
    bowl.add("acme", r2.clone());
    bowl.add("acme", f1.clone());

    let all = bowl.get_all("acme");
    let runnable = bowl.filter_by_org_and_state("acme", &State::Runnable);
    let finished = bowl.filter_by_org_and_state("acme", &State::Finished);
    let failed = bowl.filter_by_org_and_state("acme", &State::Failed);

    assert_eq!(all.len(), 3);
    assert_eq!(runnable.len(), 2);
    assert_eq!(finished.len(), 1);
    assert!(failed.is_empty());
    for item in &runnable {
        assert_eq!(item.get_state(), &State::Runnable);
        assert!(all.contains(item));
    }
    for item in &all {
        if item.get_state() == &State::Runnable {
            assert!(runnable.contains(item));
        }
    }
    assert_eq!(finished, vec![&f1]);
}

#[test]
fn update_state_moves_filter_buckets() {
    let mut bowl: Bowl<MediaFile> = Bowl::new();
    let file = MediaFile::new("move.mp4", "m1", State::Runnable, "acme");
    bowl.add("acme", file.clone());
    assert_eq!(bowl.filter_by_org_and_state("acme", &State::Runnable).len(), 1);
    bowl.update_state("m1", "acme", State::Failed);
    assert!(bowl.filter_by_org_and_state("acme", &State::Runnable).is_empty());
    let failed = bowl.filter_by_org_and_state("acme", &State::Failed);
    assert_eq!(failed.len(), 1);
    assert_eq!(failed[0].get_name(), "move.mp4");
    assert_eq!(failed[0].get_uuid(), "m1");
}

#[test]
fn update_state_missing_is_silent_noop() {
    let mut bowl: Bowl<MediaFile> = Bowl::new();
    let file = MediaFile::new("still.mp4", "s1", State::Runnable, "acme");
    bowl.add("acme", file.clone());
    bowl.update_state("absent-id", "acme", State::Failed);
    bowl.update_state("s1", "absent-org", State::Failed);
    assert_eq!(bowl.get("acme", "s1"), Some(&file));
}

#[test]
fn empty_partition_is_safe_everywhere() {
    let mut bowl: Bowl<MediaFile> = Bowl::new();
    assert_eq!(bowl.get("nobody", "nothing"), None);
    assert!(bowl.get_all("nobody").is_empty());
    assert!(bowl.filter_by_org_and_state("nobody", &State::Runnable).is_empty());
    assert!(!bowl.delete("nobody", "nothing"));
    bowl.update_state("nothing", "nobody", State::Failed);

    let file = MediaFile::new("one.mp4", "present", State::Runnable, "org");
    bowl.add("org", file);
    assert_eq!(bowl.get("org", "absent"), None);
    assert!(!bowl.delete("org", "absent"));
    bowl.update_state("absent", "org", State::Failed);
    assert_eq!(bowl.get_all("org").len(), 1);
}

#[test]
fn reinsert_moves_item_to_new_state_bucket() {
    let mut bowl: Bowl<MediaFile> = Bowl::new();
    let first = MediaFile::new("v1.mp4", "1234111", State::Runnable, "test");
    let second = MediaFile::new("v2.mp4", "1234111", State::Finished, "test");
    bowl.add(first.get_organization(), first.clone());
    bowl.add(second.get_organization(), second.clone());
    assert!(bowl.filter_by_org_and_state("test", &State::Runnable).is_empty());
    assert_eq!(
        bowl.filter_by_org_and_state("test", &State::Finished),
        vec![&second]
    );
}

#[test]
fn extend_inserts_each_item_under_its_own_organization() {
    let mut bowl: Bowl<MediaFile> = Bowl::new();
    let a = MediaFile::new("a.mp4", "1", State::Runnable, "left");
    let b = MediaFile::new("b.mp4", "2", State::Runnable, "left");
    let c = MediaFile::new("c.mp4", "1", State::Runnable, "right");
    bowl.extend(vec![a.clone(), b.clone(), c.clone()]);
    assert_eq!(bowl.get_all("left").len(), 2);
    assert_eq!(bowl.get_all("right").len(), 1);
    assert_eq!(bowl.get("left", "1"), Some(&a));
    assert_eq!(bowl.get("right", "1"), Some(&c));
}

#[test]
fn extend_later_duplicate_wins() {
    let mut bowl: Bowl<MediaFile> = Bowl::new();
    let early = MediaFile::new("early.mp4", "dup", State::Runnable, "acme");
    let late = MediaFile::new("late.mp4", "dup", State::Finished, "acme");
    bowl.extend(vec![early.clone(), late.clone()]);
    assert_eq!(bowl.get_all("acme").len(), 1);
    assert_eq!(bowl.get("acme", "dup"), Some(&late));
}

#[test]
fn defaults_are_runnable_and_empty() {
    assert_eq!(State::default(), State::Runnable);
    let bowl: Bowl<MediaFile> = Bowl::default();
    assert!(bowl.get_all("anyone").is_empty());
}

#[test]
fn media_file_getters_report_fields() {
    let mut file = MediaFile::new("name.mp4", "uuid-9", State::Running, "org-x");
    assert_eq!(file.get_name(), "name.mp4");
    assert_eq!(file.get_uuid(), "uuid-9");
    assert_eq!(file.get_state(), &State::Running);
    assert_eq!(file.get_organization(), "org-x");
    file.set_state(State::Finished);
    assert_eq!(file.get_state(), &State::Finished);
    assert_eq!(file.get_uuid(), "uuid-9");
}
