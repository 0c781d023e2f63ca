use text_reader::editor::{FindOpen, TabContent, TextEditor};
use text_reader::find::SearchStep;

type Editor = TextEditor<u32>;

fn titles(e: &Editor) -> Vec<String> {
    e.tabs.iter().map(|t| t.title.clone()).collect()
}

fn is_file(e: &Editor, i: usize) -> bool {
    matches!(e.tabs[i].content, TabContent::File(_))
}

#[test]
fn new_editor_has_one_scratch_tab() {
    let e = Editor::new();
    assert_eq!(titles(&e), vec!["Untitled"]);
    assert!(matches!(e.tabs[0].content, TabContent::Scratch));
    assert!(e.tabs[0].needs_focus);
    assert_eq!(e.active_tab, 0);
    assert!(e.find.is_none());
    assert_eq!(e.font_size, 13);
}

#[test]
fn zoom_is_clamped() {
    let mut e = Editor::new();
    for _ in 0..100 {
        e.zoom_in();
    }
    assert_eq!(e.font_size, 48);
    for _ in 0..100 {
        e.zoom_out();
    }
    assert_eq!(e.font_size, 8);
    e.zoom_in();
    assert_eq!(e.font_size, 9);
}

#[test]
fn scratch_tabs_are_numbered() {
    let mut e = Editor::new();
    e.new_scratch_tab();
    e.new_scratch_tab();
    assert_eq!(titles(&e), vec!["Untitled", "Untitled 2", "Untitled 3"]);
    assert_eq!(e.active_tab, 2);
}

#[test]
fn open_file_adds_or_switches() {
    let mut e = Editor::new();
    e.open_file("/d/a.log".to_string(), "a.log".to_string(), Ok(1));
    e.open_file("/d/b.log".to_string(), "b.log".to_string(), Err("denied".to_string()));
    assert_eq!(titles(&e), vec!["Untitled", "a.log", "b.log"]);
    assert_eq!(e.active_tab, 2);
    assert!(is_file(&e, 1));
    assert!(e.tabs[1].needs_focus);
    assert!(!e.tabs[2].needs_focus);
    assert!(matches!(&e.tabs[2].content, TabContent::Error(msg) if msg == "denied"));
    e.open_file("/d/a.log".to_string(), "a.log".to_string(), Ok(2));
    assert_eq!(e.tabs.len(), 3);
    assert_eq!(e.active_tab, 1);
    assert_eq!(e.tab_with_path(&"/d/b.log".to_string()), Some(2));
    assert_eq!(e.tab_with_path(&"/d/c.log".to_string()), None);
}

#[test]
fn close_tab_adjusts_active() {
    let mut e = Editor::new();
    e.open_file("/a".to_string(), "a".to_string(), Ok(1));
    e.open_file("/b".to_string(), "b".to_string(), Ok(2));
    e.open_file("/c".to_string(), "c".to_string(), Ok(3));
    e.select_tab(1);
    e.close_tab(0);
    assert_eq!(titles(&e), vec!["a", "b", "c"]);
    assert_eq!(e.active_tab, 0);
    e.select_tab(2);
    e.close_tab(2);
    assert_eq!(e.active_tab, 1);
    e.close_tab(7);
    assert_eq!(titles(&e), vec!["a", "b"]);
    e.close_tab(1);
    e.close_tab(0);
    assert_eq!(titles(&e), vec!["Untitled"]);
    assert_eq!(e.active_tab, 0);
}

#[test]
fn close_tab_closes_find_of_vanished_tab() {
    let mut e = Editor::new();
    e.open_file("/a".to_string(), "a".to_string(), Ok(1));
    assert!(matches!(e.open_find(), FindOpen::Opened));
    assert_eq!(e.find.as_ref().unwrap().tab_index, 1);
    e.close_tab(1);
    assert!(e.find.is_none());
}

#[test]
fn find_bar_lifecycle() {
    let mut e = Editor::new();
    assert!(matches!(e.open_find(), FindOpen::Ignored));
    e.open_file("/a".to_string(), "a".to_string(), Ok(1));
    assert!(matches!(e.open_find(), FindOpen::Opened));
    assert!(matches!(e.open_find(), FindOpen::Refocus));
    match e.kick_off_search("q".to_string()) {
        SearchStep::Start { generation, case_insensitive } => {
            assert_eq!(generation, 1);
            assert!(case_insensitive);
            assert!(e.finish_search(generation, 4));
        }
        _ => panic!("expected a search"),
    }
    assert!(matches!(e.kick_off_search("q".to_string()), SearchStep::Idle));
    assert!(e.find_next());
    assert_eq!(e.find.as_ref().unwrap().current, 1);
    assert!(e.find_prev());
    assert!(e.find_prev());
    assert_eq!(e.find.as_ref().unwrap().current, 3);
    match e.toggle_find_case("q".to_string()) {
        SearchStep::Start { generation, case_insensitive } => {
            assert_eq!(generation, 2);
            assert!(!case_insensitive);
        }
        _ => panic!("expected a search"),
    }
    assert!(e.close_find());
    assert!(!e.close_find());
    assert!(!e.finish_search(2, 1));
}

#[test]
fn scroll_targets() {
    let mut e = Editor::new();
    assert_eq!(e.scroll_lines(3, 0, 10), None);
    assert_eq!(e.scroll_to_start(), None);
    assert_eq!(e.scroll_to_end(10), None);
    e.open_file("/a".to_string(), "a".to_string(), Ok(1));
    assert_eq!(e.scroll_lines(3, 5, 100), Some(8));
    assert_eq!(e.scroll_lines(-10, 5, 100), Some(0));
    assert_eq!(e.scroll_lines(10, 95, 100), Some(99));
    assert_eq!(e.scroll_to_start(), Some(0));
    assert_eq!(e.scroll_to_end(10), Some(9));
    assert_eq!(e.scroll_to_end(0), Some(0));
}

#[test]
fn needs_focus_is_taken_once() {
    let mut e = Editor::new();
    assert!(e.take_needs_focus());
    assert!(!e.take_needs_focus());
    e.active_tab = 5;
    e.clamp_active_tab();
    assert_eq!(e.active_tab, 0);
}

#[test]
fn same_name_in_another_directory_opens_a_new_tab() {
    let mut e = Editor::new();
    e.open_file("/a/x.txt".to_string(), "x.txt".to_string(), Ok(1));
    e.open_file("/b/x.txt".to_string(), "x.txt".to_string(), Ok(2));
    assert_eq!(titles(&e), vec!["Untitled", "x.txt", "x.txt"]);
    assert_eq!(e.active_tab, 2);
    assert_eq!(e.tabs[2].path.as_deref(), Some("/b/x.txt"));
    e.open_file("/a/x.txt".to_string(), "x.txt".to_string(), Ok(3));
    assert_eq!(e.tabs.len(), 3);
    assert_eq!(e.active_tab, 1);
}

#[test]
fn find_bar_follows_or_closes_with_its_tab() {
    // Closing the find bar's own tab closes it, even with another file moving in.
    let mut e = Editor::new();
    e.open_file("/a".to_string(), "a".to_string(), Ok(1));
    e.open_file("/b".to_string(), "b".to_string(), Ok(2));
    e.select_tab(1);
    assert!(matches!(e.open_find(), FindOpen::Opened));
    e.close_tab(1);
    assert!(e.find.is_none());
    // Closing an earlier tab keeps it on the same tab, now one index lower.
    let mut e = Editor::new();
    e.open_file("/a".to_string(), "a".to_string(), Ok(1));
    e.open_file("/b".to_string(), "b".to_string(), Ok(2));
    assert!(matches!(e.open_find(), FindOpen::Opened));
    assert_eq!(e.find.as_ref().unwrap().tab_index, 2);
    e.close_tab(0);
    assert_eq!(e.find.as_ref().unwrap().tab_index, 1);
    assert_eq!(e.tabs[1].title, "b");
    // Closing a later tab leaves it alone.
    e.open_file("/c".to_string(), "c".to_string(), Ok(3));
    e.close_tab(2);
    assert_eq!(e.find.as_ref().unwrap().tab_index, 1);
}

#[test]
fn pending_scroll_is_taken_once() {
    let mut e = Editor::new();
    e.open_file("/a".to_string(), "a".to_string(), Ok(1));
    e.open_find();
    if let SearchStep::Start { generation, .. } = e.kick_off_search("q".to_string()) {
        assert!(e.finish_search(generation, 2));
    }
    assert_eq!(e.take_pending_scroll(0, Some(10)), None);
    assert_eq!(e.take_pending_scroll(1, Some(10)), Some(7));
    assert_eq!(e.take_pending_scroll(1, Some(10)), None);
    e.find_next();
    assert_eq!(e.take_pending_scroll(1, Some(1)), Some(0));
}

#[test]
fn toggle_case_keeps_matches() {
    let mut e = Editor::new();
    e.open_file("/a".to_string(), "a".to_string(), Ok(1));
    e.open_find();
    if let SearchStep::Start { generation, .. } = e.kick_off_search("q".to_string()) {
        e.finish_search(generation, 5);
    }
    e.find_next();
    let step = e.toggle_find_case(String::new());
    assert!(matches!(step, SearchStep::Idle));
    let f = e.find.as_ref().unwrap();
    assert_eq!(f.num_matches, 5);
    assert_eq!(f.current, 1);
    assert!(f.case_sensitive);
}

#[test]
fn taking_focus_keeps_the_tab() {
    let mut e = Editor::new();
    e.open_file("/d/a.log".to_string(), "a.log".to_string(), Ok(1));
    assert!(e.take_needs_focus());
    assert_eq!(e.tabs[1].path, Some("/d/a.log".to_string()));
    assert_eq!(e.tabs[1].title, "a.log");
    assert!(is_file(&e, 1));
    e.open_file("/d/a.log".to_string(), "a.log".to_string(), Ok(2));
    assert_eq!(e.tabs.len(), 2);
    assert_eq!(e.active_tab, 1);
}
