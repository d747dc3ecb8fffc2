use convert_to_jpg::tui::{
    detail_text, item_label, list_title, ImageEntry, Selection, SelectionAction, SelectionEvent,
};

#[test]
fn confirming_at_once_keeps_every_file() {
    let mut s = Selection::new(3);
    assert_eq!(s.handle(SelectionEvent::Confirm), SelectionAction::Quit);
    assert_eq!(s.selected_indices(), vec![0, 1, 2]);
}

#[test]
fn toggling_drops_the_focused_file() {
    let mut s = Selection::new(4);
    assert_eq!(s.handle(SelectionEvent::Down), SelectionAction::MoveTo(1));
    assert_eq!(s.handle(SelectionEvent::Toggle), SelectionAction::Redraw(1));
    assert!(!s.is_accepted(1));
    assert_eq!(s.handle(SelectionEvent::Highlight(3)), SelectionAction::ShowDetail(3));
    assert_eq!(s.handle(SelectionEvent::Toggle), SelectionAction::Redraw(3));
    assert_eq!(s.handle(SelectionEvent::Confirm), SelectionAction::Quit);
    assert_eq!(s.selected_indices(), vec![0, 2]);
}

#[test]
fn toggling_twice_restores() {
    let mut s = Selection::new(2);
    s.handle(SelectionEvent::Toggle);
    s.handle(SelectionEvent::Toggle);
    assert!(s.is_accepted(0));
    s.handle(SelectionEvent::Confirm);
    assert_eq!(s.selected_indices(), vec![0, 1]);
}

#[test]
fn cancel_selects_nothing() {
    let mut s = Selection::new(3);
    assert_eq!(s.handle(SelectionEvent::Cancel), SelectionAction::Quit);
    assert_eq!(s.selected_indices(), Vec::<usize>::new());
    assert!(!s.is_choosing());
}

#[test]
fn accept_all_overrides_toggles() {
    let mut s = Selection::new(3);
    s.handle(SelectionEvent::Toggle);
    s.handle(SelectionEvent::Down);
    s.handle(SelectionEvent::Toggle);
    assert_eq!(s.handle(SelectionEvent::AcceptAll), SelectionAction::Quit);
    assert_eq!(s.selected_indices(), vec![0, 1, 2]);
}

#[test]
fn focus_stays_within_the_list() {
    let mut s = Selection::new(2);
    assert_eq!(s.handle(SelectionEvent::Up), SelectionAction::MoveTo(0));
    assert_eq!(s.handle(SelectionEvent::Down), SelectionAction::MoveTo(1));
    assert_eq!(s.handle(SelectionEvent::Down), SelectionAction::MoveTo(1));
    assert_eq!(s.focus(), 1);
    assert_eq!(s.handle(SelectionEvent::Highlight(7)), SelectionAction::Nothing);
    assert_eq!(s.focus(), 1);
}

#[test]
fn events_after_closing_do_nothing() {
    let mut s = Selection::new(2);
    s.handle(SelectionEvent::Confirm);
    assert_eq!(s.handle(SelectionEvent::Toggle), SelectionAction::Nothing);
    assert_eq!(s.handle(SelectionEvent::Cancel), SelectionAction::Nothing);
    assert_eq!(s.selected_indices(), vec![0, 1]);
}

#[test]
fn labels_and_details() {
    let e = ImageEntry::for_file("/pics/Beach.Heic".to_string(), 2_516_582);
    assert_eq!(e.filename, "Beach.Heic");
    assert_eq!(e.format, "HEIC");
    assert_eq!(item_label(&e, true), "[\u{2713}]  Beach.Heic");
    assert_eq!(item_label(&e, false), "[\u{2717}]  Beach.Heic");
    assert_eq!(
        detail_text(&e),
        "  Path:    /pics/Beach.Heic\n  Format:  HEIC\n  Size:    2.4 MB"
    );
    let plain = ImageEntry::for_file("/pics/README".to_string(), 10);
    assert_eq!(plain.format, "UNKNOWN");
    assert_eq!(plain.filename, "README");
}

#[test]
fn list_titles() {
    assert_eq!(list_title(1), "Convert to JPEG (1 file)");
    assert_eq!(list_title(0), "Convert to JPEG (0 files)");
    assert_eq!(list_title(12), "Convert to JPEG (12 files)");
}
