use donedone::entry::Entry;
use donedone::ui::io::{Action, KeyInput, KeyPress, MouseInput, CONTROL_BITS};
use donedone::ui::render::{
    FileChange, LineStyle, StyledLine, UIState, UiCommand, SCROLL_THRESHOLD_ITEMS,
};

fn entry(path: &str, line: usize, comment: Option<&str>) -> Entry {
    Entry { path: path.to_string(), line, comment: comment.map(|c| c.to_string()) }
}

fn key(c: char, modifiers: u8) -> KeyPress {
    KeyPress { code: KeyInput::Char(c), modifiers }
}

fn entries(n: usize) -> Vec<Entry> {
    (0..n).map(|i| entry(&format!("f{}.rs", i), i + 1, Some("note"))).collect()
}

#[test]
fn keys_quit() {
    assert_eq!(key('q', 0).to_action(), Ok(Action::Exit));
    assert_eq!(KeyPress { code: KeyInput::Esc, modifiers: 0 }.to_action(), Ok(Action::Exit));
    assert_eq!(key('c', CONTROL_BITS).to_action(), Ok(Action::Exit));
    assert_eq!(key('c', 0).to_action(), Err(()));
}

#[test]
fn keys_jump() {
    assert_eq!(key('d', CONTROL_BITS).to_action(), Ok(Action::JumpDown));
    assert_eq!(key('u', CONTROL_BITS).to_action(), Ok(Action::JumpUp));
    assert_eq!(key('u', 0).to_action(), Err(()));
    assert_eq!(key('G', 0).to_action(), Ok(Action::JumpToBottom));
    assert_eq!(key('g', 0).to_action(), Ok(Action::JumpToTop));
}

#[test]
fn keys_move_and_edit() {
    assert_eq!(key('j', 0).to_action(), Ok(Action::MoveDown));
    assert_eq!(key('k', 0).to_action(), Ok(Action::MoveUp));
    assert_eq!(KeyPress { code: KeyInput::Down, modifiers: 0 }.to_action(), Ok(Action::MoveDown));
    assert_eq!(KeyPress { code: KeyInput::Up, modifiers: 0 }.to_action(), Ok(Action::MoveUp));
    assert_eq!(key('h', 0).to_action(), Ok(Action::SwapEntryUp));
    assert_eq!(key('l', 0).to_action(), Ok(Action::SwapEntryDown));
    assert_eq!(key('d', 0).to_action(), Ok(Action::DeleteSelectedEntry));
    // Control together with shift is not control alone.
    assert_eq!(key('d', CONTROL_BITS | 1).to_action(), Ok(Action::DeleteSelectedEntry));
    assert_eq!(key('x', 0).to_action(), Err(()));
    assert_eq!(KeyPress { code: KeyInput::Other, modifiers: 0 }.to_action(), Err(()));
}

#[test]
fn mouse_scroll() {
    assert_eq!(MouseInput::ScrollDown.to_action(), Ok(Action::MoveDown));
    assert_eq!(MouseInput::ScrollUp.to_action(), Ok(Action::MoveUp));
    assert_eq!(MouseInput::Other.to_action(), Err(()));
}

#[test]
fn max_width() {
    assert_eq!(UIState::get_entry_max_width(10), 0);
    assert_eq!(UIState::get_entry_max_width(80), 70);
}

#[test]
fn wrap_words_into_lines() {
    let e = entry("a", 1, Some("hello world foo"));
    assert_eq!(UIState::split_entry_comments(&e, 20), vec!["hello".to_string(), "world foo".to_string()]);
}

#[test]
fn wrap_collapses_white_space() {
    let e = entry("a", 1, Some("  one \t two\n\nthree  "));
    assert_eq!(UIState::split_entry_comments(&e, 100), vec!["one two three".to_string()]);
}

#[test]
fn wrap_cuts_long_word() {
    let e = entry("a", 1, Some("abcdefghijklmno"));
    assert_eq!(UIState::split_entry_comments(&e, 15), vec!["abcde".to_string()]);
}

#[test]
fn wrap_no_comment() {
    let e = entry("a", 1, None);
    assert!(UIState::split_entry_comments(&e, 15).is_empty());
    let blank = entry("a", 1, Some("   "));
    assert!(UIState::split_entry_comments(&blank, 15).is_empty());
}

#[test]
fn wrap_lines_fit_width() {
    let e = entry("a", 1, Some("the quick brown fox jumps over the lazy dog again and again"));
    for l in UIState::split_entry_comments(&e, 22) {
        assert!(l.len() <= 12);
    }
}

#[test]
fn wrap_panicking_inputs_are_refused() {
    // A cut inside a two-byte character.
    let e = entry("a", 1, Some("ééé"));
    assert_eq!(UIState::try_split_entry_comments(&e, 13), None);
    assert!(!UIState::comment_fits_width(&e, 13));
    assert!(UIState::comment_fits_width(&e, 14));
    // No room for a second word.
    let two = entry("a", 1, Some("a b"));
    assert_eq!(UIState::try_split_entry_comments(&two, 10), None);
    assert_eq!(UIState::try_split_entry_comments(&entry("a", 1, Some("a")), 10), Some(vec!["".to_string()]));
    // Too narrow a screen.
    assert_eq!(UIState::try_split_entry_comments(&entry("a", 1, None), 9), None);
}

#[test]
fn new_state() {
    let s = UIState::new(entries(3), 40, 20);
    assert_eq!(s.entries.len(), 3);
    assert_eq!(s.entry_comments, vec![vec!["note".to_string()]; 3]);
    assert_eq!((s.selected_entry_index, s.top_index, s.bottom_index), (0, 0, 0));
    assert_eq!(s.previous_action, None);
}

#[test]
fn move_down_and_up() {
    // Each entry takes 1 comment line + 2 rows + 1 gap; a window of 8 rows holds 2 entries.
    let mut s = UIState::new(entries(10), 40, 8);
    s.bottom_index = 2;
    assert!(s.can_handle(&Action::MoveDown));
    assert_eq!(s.handle_action(Action::MoveDown), UiCommand::Redraw);
    assert_eq!(s.selected_entry_index, 1);
    // The list scrolls so that entries 2 and 3 end the screen.
    assert_eq!(s.top_index, 2);
    assert_eq!(s.handle_action(Action::MoveUp), UiCommand::Redraw);
    assert_eq!((s.selected_entry_index, s.top_index), (0, 0));
    assert_eq!(s.handle_action(Action::MoveUp), UiCommand::Nothing);
    assert_eq!(s.previous_action, Some(Action::MoveUp));
}

#[test]
fn scrolling_a_short_list_panics() {
    // All three entries fit: scrolling down would step the first entry below zero.
    let mut s = UIState::new(entries(3), 40, 40);
    s.bottom_index = 3;
    assert!(!s.can_handle(&Action::MoveDown));
    assert!(!s.can_handle(&Action::JumpToBottom));
    assert!(s.can_handle(&Action::MoveUp));
}

#[test]
fn move_down_at_end_does_nothing() {
    let mut s = UIState::new(entries(2), 40, 40);
    s.selected_entry_index = 1;
    assert_eq!(s.handle_action(Action::MoveDown), UiCommand::Nothing);
    assert_eq!(s.selected_entry_index, 1);
}

#[test]
fn scroll_down_when_window_is_small() {
    // Each entry takes 1 comment line + 2 rows + 1 gap; a window of 8 rows holds 2 entries.
    let mut s = UIState::new(entries(10), 40, 8);
    s.bottom_index = 2;
    s.select_entry(1, 8, SCROLL_THRESHOLD_ITEMS);
    assert_eq!(s.selected_entry_index, 1);
    // goal is entry 3; entries 3 and 2 fit, so the list starts at entry 2.
    assert_eq!(s.top_index, 2);
}

#[test]
fn scroll_up_near_top() {
    let mut s = UIState::new(entries(10), 40, 8);
    s.top_index = 5;
    s.bottom_index = 7;
    s.select_entry(4, 8, SCROLL_THRESHOLD_ITEMS);
    assert_eq!((s.selected_entry_index, s.top_index), (4, 2));
}

#[test]
fn select_past_end_selects_last() {
    let mut s = UIState::new(entries(4), 40, 100);
    s.bottom_index = 4;
    s.select_entry(99, 100, 0);
    assert_eq!(s.selected_entry_index, 3);
}

#[test]
fn tall_entry_scrolls_past_selection() {
    let mut s = UIState::new(entries(3), 40, 2);
    s.bottom_index = 0;
    s.select_entry(0, 2, 0);
    // The entry needs 3 rows, more than the window: none fits.
    assert_eq!(s.top_index, 1);
}

#[test]
fn swap_up_then_down_restores() {
    let es = entries(3);
    let mut s = UIState::new(es.clone(), 40, 5);
    s.bottom_index = 3;
    s.selected_entry_index = 2;
    assert!(s.can_handle(&Action::SwapEntryUp));
    assert_eq!(
        s.handle_action(Action::SwapEntryUp),
        UiCommand::ChangeFile(FileChange::Swap { index_a: 2, index_b: 1 })
    );
    assert_eq!(s.entries, vec![es[0].clone(), es[2].clone(), es[1].clone()]);
    assert_eq!(s.selected_entry_index, 1);
    assert!(s.can_handle(&Action::SwapEntryDown));
    assert_eq!(
        s.handle_action(Action::SwapEntryDown),
        UiCommand::ChangeFile(FileChange::Swap { index_a: 1, index_b: 2 })
    );
    assert_eq!(s.entries, es);
    assert_eq!(s.selected_entry_index, 2);
}

#[test]
fn swap_at_edges_does_nothing() {
    let mut s = UIState::new(entries(2), 40, 40);
    assert_eq!(s.handle_action(Action::SwapEntryUp), UiCommand::Nothing);
    s.selected_entry_index = 1;
    assert_eq!(s.handle_action(Action::SwapEntryDown), UiCommand::Nothing);
    let mut one = UIState::new(entries(1), 40, 40);
    assert_eq!(one.handle_action(Action::SwapEntryDown), UiCommand::Nothing);
}

#[test]
fn delete_takes_two_presses() {
    let es = entries(3);
    let mut s = UIState::new(es.clone(), 40, 40);
    s.bottom_index = 3;
    s.selected_entry_index = 1;
    assert_eq!(s.file_change_for(&Action::DeleteSelectedEntry), None);
    assert_eq!(s.handle_action(Action::DeleteSelectedEntry), UiCommand::Nothing);
    assert_eq!(s.entries, es);
    assert_eq!(s.previous_action, Some(Action::DeleteSelectedEntry));
    assert!(s.can_handle(&Action::DeleteSelectedEntry));
    assert_eq!(s.file_change_for(&Action::DeleteSelectedEntry), Some(FileChange::Remove { index: 1 }));
    assert_eq!(
        s.handle_action(Action::DeleteSelectedEntry),
        UiCommand::ChangeFile(FileChange::Remove { index: 1 })
    );
    assert_eq!(s.entries, vec![es[0].clone(), es[2].clone()]);
    assert_eq!(s.entry_comments.len(), 2);
    assert_eq!(s.previous_action, None);
    assert_eq!(s.selected_entry_index, 1);
}

#[test]
fn delete_interrupted_by_other_action() {
    let mut s = UIState::new(entries(3), 40, 40);
    s.bottom_index = 3;
    s.handle_action(Action::DeleteSelectedEntry);
    s.handle_action(Action::NextPage);
    assert_eq!(s.handle_action(Action::DeleteSelectedEntry), UiCommand::Nothing);
    assert_eq!(s.entries.len(), 3);
}

#[test]
fn jumps() {
    let mut s = UIState::new(entries(20), 40, 20);
    s.bottom_index = 10;
    assert!(s.can_handle(&Action::JumpDown));
    assert_eq!(s.handle_action(Action::JumpDown), UiCommand::Redraw);
    assert_eq!(s.selected_entry_index, 5);
    assert!(s.can_handle(&Action::JumpToBottom));
    assert_eq!(s.handle_action(Action::JumpToBottom), UiCommand::Redraw);
    assert_eq!(s.selected_entry_index, 19);
    // Five entries fit in 20 rows.
    assert_eq!(s.top_index, 15);
    s.top_index = 0;
    s.bottom_index = 20;
    assert_eq!(s.handle_action(Action::JumpUp), UiCommand::Redraw);
    assert_eq!(s.selected_entry_index, 9);
    assert_eq!(s.handle_action(Action::JumpToTop), UiCommand::Redraw);
    assert_eq!(s.selected_entry_index, 0);
}

#[test]
fn exit_and_ignored_actions() {
    let mut s = UIState::new(entries(2), 40, 40);
    assert_eq!(s.handle_action(Action::Exit), UiCommand::Exit);
    assert_eq!(s.handle_action(Action::PreviousPage), UiCommand::Nothing);
    assert_eq!(s.handle_action(Action::SyncEntries { entries: vec![] }), UiCommand::Nothing);
    assert_eq!(s.entries.len(), 2);
}

#[test]
fn resize_rewraps_comments() {
    let mut s = UIState::new(vec![entry("a", 1, Some("hello world foo"))], 100, 40);
    assert_eq!(s.entry_comments, vec![vec!["hello world foo".to_string()]]);
    assert_eq!(s.handle_action(Action::Resize { y_size: 30, x_size: 20 }), UiCommand::Redraw);
    assert_eq!((s.x_size, s.y_size), (20, 30));
    assert_eq!(s.entry_comments, vec![vec!["hello".to_string(), "world foo".to_string()]]);
}

#[test]
fn panicking_actions_are_reported() {
    let s = UIState::new(vec![], 40, 40);
    assert!(!s.can_handle(&Action::MoveDown));
    assert!(!s.can_handle(&Action::JumpToTop));
    assert!(s.can_handle(&Action::MoveUp));
    assert!(!s.can_handle(&Action::Resize { y_size: 10, x_size: 9 }));
    let mut one = UIState::new(entries(1), 40, 40);
    one.previous_action = Some(Action::DeleteSelectedEntry);
    assert!(!one.can_handle(&Action::DeleteSelectedEntry));
    let mut bad = UIState::new(entries(2), 40, 40);
    bad.top_index = 2;
    bad.bottom_index = 1;
    assert!(!bad.can_handle(&Action::JumpDown));
}

fn line(text: &str, style: LineStyle) -> StyledLine {
    StyledLine { text: text.to_string(), style }
}

#[test]
fn selected_index_counter() {
    let mut s = UIState::new(entries(3), 40, 40);
    s.selected_entry_index = 1;
    assert_eq!(
        s.render_selected_index(),
        vec![line("2", LineStyle::Magenta), line("/", LineStyle::Plain), line("3", LineStyle::Plain)]
    );
    let empty = UIState::new(vec![], 40, 40);
    assert_eq!(
        empty.render_selected_index(),
        vec![line("0", LineStyle::Magenta), line("/", LineStyle::Plain), line("0", LineStyle::Plain)]
    );
}

#[test]
fn entry_rendering() {
    let es = vec![entry("src/a.rs", 12, Some("fix")), entry("src/b.rs", 3, None)];
    let s = UIState::new(es.clone(), 40, 40);
    assert_eq!(
        s.render_entry(&es[0], 0, "src/a.rs", Some("   let x = 1;  "), 40),
        vec![
            line("fix", LineStyle::Magenta),
            line("src/a.rs:12", LineStyle::UnderlinedMagenta),
            line("let x = 1;", LineStyle::ItalicDarkGrey),
        ]
    );
    assert_eq!(
        s.render_entry(&es[1], 1, "src/b.rs", None, 5),
        vec![line("src/b:3", LineStyle::Underlined)]
    );
}

#[test]
fn entries_fill_screen() {
    let mut s = UIState::new(entries(3), 40, 40);
    let rendered: Vec<Vec<StyledLine>> = (0..3)
        .map(|i| vec![line("note", LineStyle::Plain), line(&format!("f{}.rs:{}", i, i + 1), LineStyle::Underlined)])
        .collect();
    let out = s.render_entries(&rendered, 7);
    // Two entries of two lines with a gap after each, then the third entry does not fit.
    assert_eq!(out.len(), 6);
    assert_eq!(out[2], line("", LineStyle::Plain));
    assert_eq!(s.bottom_index, 2);
    let out_full = s.render_entries(&rendered, 8);
    assert_eq!(out_full.len(), 8);
    assert_eq!(s.bottom_index, 3);
}
