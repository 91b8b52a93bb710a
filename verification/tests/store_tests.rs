use media_bowl::MediaTrait;
use media_bowl::Bowl;
use media_bowl::MediaFile;
use media_bowl::State;

#[test]
fn test_add() {
    let mut bowl: Bowl<MediaFile> = Bowl::new();
    let file = MediaFile::new("test.mp4", "1234", State::Runnable, "test");

    bowl.add(file.get_organization(), file.clone());
    assert_eq!(bowl.get_all("test").len(), 1);
}

#[test]
fn test_get() {
    let mut bowl: Bowl<MediaFile> = Bowl::new();
    let file = MediaFile::new("test.mp4", "1234", State::Runnable, "test");
    bowl.add(file.get_organization(), file.clone());
    assert_eq!(bowl.get_all("test").len(), 1);
}

#[test]
fn test_get_by_org_and_state() {
    let mut bowl: Bowl<MediaFile> = Bowl::new();
    let file = MediaFile::new("test.mp4", "1234", State::Runnable, "test");
    bowl.add(file.get_organization(), file.clone());
    assert_eq!(bowl.filter_by_org_and_state("test", &State::Runnable).len(), 1);
}

#[test]
fn delete_and_return_bool() {
    let mut bowl: Bowl<MediaFile> = Bowl::new();
    let file = MediaFile::new("test.mp4", "1234", State::Runnable, "test");
    bowl.add(file.get_organization(), file.clone());
    assert_eq!(bowl.get_all("test").len(), 1);
    assert!(bowl.delete("test", "1234"));
}

#[test]
fn test_delete() {
    let mut bowl: Bowl<MediaFile> = Bowl::new();
    let file = MediaFile::new("test.mp4", "1234", State::Runnable, "test");
    bowl.add(file.get_organization(), file.clone());
    assert_eq!(bowl.get_all("test").len(), 1);
    assert_eq!(bowl.delete("test", "1234"), true);
    assert_eq!(bowl.get_all("test").len(), 0);
}

#[test]
fn test_fuzzer() {
    let mut bowl: Bowl<MediaFile> = Bowl::new();
    let file = MediaFile::new("test.mp4", "12341", State::Runnable, "test");
    let file2 = MediaFile::new("test2.mp4", "12342", State::Runnable, "test");
    let file3 = MediaFile::new("test3.mp4", "12343", State::Runnable, "test");
    let file4 = MediaFile::new("test4.mp4", "12344", State::Runnable, "test");
    bowl.add(file.get_organization(), file.clone());
    bowl.add(file2.get_organization(), file2.clone());
    bowl.add(file3.get_organization(), file3.clone());
    bowl.add(file4.get_organization(), file4.clone());
    assert_eq!(bowl.filter_by_org_and_state("test", &State::Runnable).len(), 4);
    assert_eq!(bowl.get_all("test").len(), 4);
}

#[test]
fn update_state() {
    let mut bowl: Bowl<MediaFile> = Bowl::new();
    let file = MediaFile::new("test.mp4", "1234", State::Runnable, "test");
    bowl.add(file.get_organization(), file.clone());
    assert_eq!(bowl.get_all("test").len(), 1);
    bowl.update_state("1234", "test", State::Running);
    assert_eq!(bowl.get_all("test").len(), 1);
    assert_eq!(bowl.get("test", "1234").unwrap().get_state(), &State::Running);
}

#[test]
fn test_add_twice() {
    let mut bowl: Bowl<MediaFile> = Bowl::new();
    let file = MediaFile::new("test_original.mp4", "1234111", State::Runnable, "test");
    let file2 = MediaFile::new("test_next_one.mp4", "1234111", State::Finished, "test");
    bowl.add(file.get_organization(), file.clone());
    assert_eq!(
        bowl.filter_by_org_and_state("test", &State::Runnable),
        vec![&file]
    );
    bowl.add(file2.get_organization(), file2.clone());
    assert_eq!(
        bowl.filter_by_org_and_state("test", &State::Finished),
        vec![&file2]
    );
}
