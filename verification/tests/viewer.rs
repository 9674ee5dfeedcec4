use cloak_core::viewer::{handle_key, Tab, ViewerAction, ViewerKey, ViewerState};

#[test]
fn tab_titles_and_indices() {
    assert_eq!(Tab::BitPlane.title(), "Bit Planes");
    assert_eq!(Tab::Histogram.title(), "Histogram");
    assert_eq!(Tab::Analysis.title(), "Analysis");
    let all = Tab::all();
    for (i, t) in all.iter().enumerate() {
        assert_eq!(t.index(), i);
    }
}

#[test]
fn tab_next_and_prev_cycle() {
    assert_eq!(Tab::BitPlane.next(), Tab::Histogram);
    assert_eq!(Tab::Analysis.next(), Tab::BitPlane);
    assert_eq!(Tab::BitPlane.prev(), Tab::Analysis);
    for t in Tab::all() {
        assert_eq!(t.next().prev(), t);
        assert_eq!(t.prev().next(), t);
        assert_eq!(t.next().next().next(), t);
        assert_eq!(t.next().index(), (t.index() + 1) % 3);
    }
}

#[test]
fn viewer_keys_change_state() {
    let s = ViewerState::new();
    assert_eq!(s.channel_name(), "Red");

    let (s, action) = handle_key(&s, ViewerKey::NextTab);
    assert_eq!(s.active_tab, Tab::Histogram);
    assert_eq!(action, ViewerAction::Redraw);

    let (s, action) = handle_key(&s, ViewerKey::Channel(2));
    assert_eq!(s.bp_channel, 2);
    assert_eq!(s.channel_name(), "Blue");
    assert_eq!(action, ViewerAction::ReloadBitPlane);

    // the bit stays within 0..=7
    let (s, action) = handle_key(&s, ViewerKey::BitDown);
    assert_eq!(s.bp_bit, 0);
    assert_eq!(action, ViewerAction::Redraw);
    let mut s = s;
    for _ in 0..10 {
        s = handle_key(&s, ViewerKey::BitUp).0;
    }
    assert_eq!(s.bp_bit, 7);

    let (s2, action) = handle_key(&s, ViewerKey::Quit);
    assert_eq!(s2, s);
    assert_eq!(action, ViewerAction::Quit);

    let (s3, action) = handle_key(&s, ViewerKey::Channel(5));
    assert_eq!(s3, s);
    assert_eq!(action, ViewerAction::Redraw);
}
