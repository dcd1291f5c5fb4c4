use curve_editor::{StatusBar, StatusLevel};

#[test]
fn error_takes_priority_over_info_until_it_expires() {
    let mut bar = StatusBar::new();
    bar.show_hint(String::from("hint"));
    bar.show_info("saved");
    bar.show_error("broken");
    assert_eq!(bar.most_important_text_display(1000), (String::from("broken (4.0s)"), StatusLevel::Error));
    assert_eq!(bar.most_important_text_display(3950), (String::from("broken (0.1s)"), StatusLevel::Error));
    assert_eq!(bar.most_important_text_display(100), (String::from("broken (0.0s)"), StatusLevel::Error));
    assert_eq!(bar.error.ttl, 0);
    assert_eq!(bar.most_important_text_display(500), (String::from("saved (2.5s)"), StatusLevel::Info));
    assert_eq!(bar.most_important_text_display(5000), (String::from("saved (0.0s)"), StatusLevel::Info));
    assert_eq!(bar.most_important_text_display(10), (String::from("hint"), StatusLevel::Hint));
    assert_eq!(bar.most_important_text_display(10), (String::new(), StatusLevel::Hint));
}

#[test]
fn show_sets_the_time_to_live() {
    let mut bar = StatusBar::new();
    bar.show_error("e");
    bar.show_info("i");
    assert_eq!(bar.error.ttl, 5000);
    assert_eq!(bar.info.ttl, 3000);
    assert_eq!(bar.error.text, "e");
    assert_eq!(bar.info.text, "i");
}

#[test]
fn info_time_is_kept_up_to_ten_seconds() {
    let mut bar = StatusBar::new();
    bar.show_info("saved");
    bar.info.ttl = 8000;
    assert_eq!(bar.most_important_text_display(0), (String::from("saved (8.0s)"), StatusLevel::Info));
    assert_eq!(bar.info.ttl, 8000);
    bar.info.ttl = 12000;
    bar.most_important_text_display(0);
    assert_eq!(bar.info.ttl, 10000);
}
