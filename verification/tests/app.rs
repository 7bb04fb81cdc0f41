use seqhist::app::App;
use seqhist::bins::{compute_bins, Bin};
use seqhist::catalog::{Catalog, SequenceFile};
use seqhist::filter::FilterRange;
use seqhist::state::{Key, Mode, QUICK_MAX, QUICK_MIN};

fn catalog() -> Catalog {
    Catalog::from_files(vec![
        SequenceFile::new(b"b.fa".to_vec(), vec![20, 2000, 20000, 1000, 10000]),
        SequenceFile::new(b"a.fa".to_vec(), vec![5, 150, 300, 999, 1000]),
        SequenceFile::new(b"c.fa".to_vec(), vec![]),
    ])
}

fn loaded() -> App {
    let mut app = App::new(catalog());
    app.load_selected_file();
    app
}

fn type_text(app: &mut App, text: &str) {
    for c in text.chars() {
        app.handle_key(Key::Char(c));
    }
}

fn typed(app: &App) -> String {
    app.input().iter().collect()
}

#[test]
fn default_controller_is_empty() {
    let app = App::default();
    assert_eq!(app.catalog().len(), 0);
    assert_eq!(app.selected_file(), 0);
    assert_eq!(app.selected_seq(), 0);
    assert_eq!(app.lengths(), &Vec::<usize>::new());
    assert_eq!(app.bins(), &Vec::<Bin>::new());
    assert_eq!(app.filter(), FilterRange::new(0, usize::MAX));
    assert_eq!(typed(&app), "");
    assert_eq!(app.mode(), Mode::Browsing);
    assert!(!app.should_quit());
}

#[test]
fn new_controller_has_nothing_loaded() {
    let app = App::new(catalog());
    assert_eq!(app.catalog().len(), 3);
    assert_eq!(app.selected_file(), 0);
    assert_eq!(app.lengths(), &Vec::<usize>::new());
    assert_eq!(app.bins(), &Vec::<Bin>::new());
    assert_eq!(app.filter().upper_bound(), None);
}

#[test]
fn loading_fills_the_snapshot() {
    let app = loaded();
    assert_eq!(app.lengths(), &vec![5, 150, 300, 999, 1000]);
    assert_eq!(app.bins(), &compute_bins(&vec![5, 150, 300, 999, 1000]));
    assert_eq!(app.bins().len(), 11);
    assert_eq!(app.bins()[10].label, "1000-1099");
    assert_eq!(app.selected_length(), 5);
}

#[test]
fn loading_with_empty_catalog_changes_nothing() {
    let mut app = App::default();
    app.load_selected_file();
    app.apply_filter();
    app.update_bins();
    assert_eq!(app.lengths(), &Vec::<usize>::new());
    assert_eq!(app.bins(), &Vec::<Bin>::new());
    assert_eq!(app.selected_length(), 0);
    app.handle_key(Key::Down);
    app.handle_key(Key::Up);
    app.handle_key(Key::Right);
    app.handle_key(Key::Left);
    assert_eq!(app.selected_file(), 0);
    assert_eq!(app.selected_seq(), 0);
}

#[test]
fn moving_between_files_loads_them() {
    let mut app = loaded();
    app.next_file();
    assert_eq!(app.selected_file(), 1);
    assert_eq!(app.lengths(), &vec![20, 2000, 20000, 1000, 10000]);
    assert_eq!(app.bins(), &compute_bins(&vec![20, 2000, 20000, 1000, 10000]));
    app.next_file();
    assert_eq!(app.selected_file(), 2);
    assert_eq!(app.lengths(), &Vec::<usize>::new());
    assert_eq!(app.bins(), &Vec::<Bin>::new());
    app.previous_file();
    assert_eq!(app.selected_file(), 1);
    assert_eq!(app.lengths().len(), 5);
}

#[test]
fn moving_past_the_last_file_changes_nothing() {
    let mut app = loaded();
    app.next_file();
    app.next_file();
    assert_eq!(app.selected_file(), 2);
    app.next_file();
    assert_eq!(app.selected_file(), 2);
    app.handle_key(Key::Down);
    assert_eq!(app.selected_file(), 2);
}

#[test]
fn moving_before_the_first_file_changes_nothing() {
    let mut app = loaded();
    app.previous_file();
    assert_eq!(app.selected_file(), 0);
    assert_eq!(app.lengths(), &vec![5, 150, 300, 999, 1000]);
}

#[test]
fn moving_between_lengths() {
    let mut app = loaded();
    app.next_seq();
    assert_eq!(app.selected_seq(), 1);
    assert_eq!(app.selected_length(), 150);
    app.next_seq();
    app.next_seq();
    app.next_seq();
    assert_eq!(app.selected_seq(), 4);
    assert_eq!(app.selected_length(), 1000);
    app.next_seq();
    assert_eq!(app.selected_seq(), 4);
    app.handle_key(Key::Right);
    assert_eq!(app.selected_seq(), 4);
    app.previous_seq();
    assert_eq!(app.selected_seq(), 3);
    app.handle_key(Key::Left);
    app.handle_key(Key::Left);
    app.handle_key(Key::Left);
    app.handle_key(Key::Left);
    assert_eq!(app.selected_seq(), 0);
    assert_eq!(app.lengths(), &vec![5, 150, 300, 999, 1000]);
}

#[test]
fn sequence_selection_is_pulled_back_when_the_list_shrinks() {
    let mut app = loaded();
    for _ in 0..4 {
        app.next_seq();
    }
    assert_eq!(app.selected_seq(), 4);
    app.set_filter_max(300);
    assert_eq!(app.lengths(), &vec![5, 150, 300]);
    assert_eq!(app.selected_seq(), 2);
    app.set_filter_min(100000);
    assert_eq!(app.lengths(), &Vec::<usize>::new());
    assert_eq!(app.selected_seq(), 0);
    assert_eq!(app.selected_length(), 0);
}

#[test]
fn setting_bounds_filters_from_the_raw_lengths() {
    let mut app = loaded();
    app.set_filter_min(200);
    assert_eq!(app.filter(), FilterRange::new(200, usize::MAX));
    assert_eq!(app.lengths(), &vec![300, 999, 1000]);
    app.set_filter_max(999);
    assert_eq!(app.filter(), FilterRange::new(200, 999));
    assert_eq!(app.lengths(), &vec![300, 999]);
    assert_eq!(app.bins(), &compute_bins(&vec![300, 999]));
    // a wider range brings back what a narrower one had hidden
    app.set_filter_min(0);
    app.set_filter_max(usize::MAX);
    assert_eq!(app.lengths(), &vec![5, 150, 300, 999, 1000]);
    app.set_filter(FilterRange::new(150, 150));
    assert_eq!(app.lengths(), &vec![150]);
}

#[test]
fn filter_stays_when_the_file_changes() {
    let mut app = loaded();
    app.set_filter(FilterRange::new(1000, 10000));
    assert_eq!(app.lengths(), &vec![1000]);
    app.next_file();
    assert_eq!(app.lengths(), &vec![2000, 1000, 10000]);
    assert_eq!(app.filter(), FilterRange::new(1000, 10000));
}

#[test]
fn quick_filters_set_the_presets() {
    assert_eq!(QUICK_MIN, 1000);
    assert_eq!(QUICK_MAX, 10000);
    let mut app = loaded();
    app.next_file();
    app.handle_key(Key::Char('m'));
    assert_eq!(app.filter(), FilterRange::new(1000, usize::MAX));
    assert_eq!(app.lengths(), &vec![2000, 20000, 1000, 10000]);
    app.handle_key(Key::Char('M'));
    assert_eq!(app.filter(), FilterRange::new(1000, 10000));
    assert_eq!(app.lengths(), &vec![2000, 1000, 10000]);
    assert_eq!(app.bins(), &compute_bins(&vec![2000, 1000, 10000]));
}

#[test]
fn recomputing_again_changes_nothing() {
    let mut app = loaded();
    app.set_filter(FilterRange::new(100, 1000));
    app.next_seq();
    let lengths = app.lengths().clone();
    let bins = app.bins().clone();
    app.update_bins();
    assert_eq!(app.bins(), &bins);
    app.apply_filter();
    assert_eq!(app.lengths(), &lengths);
    assert_eq!(app.bins(), &bins);
    app.load_selected_file();
    assert_eq!(app.lengths(), &lengths);
    assert_eq!(app.bins(), &bins);
    assert_eq!(app.selected_seq(), 1);
}

#[test]
fn committing_a_range_sets_the_filter() {
    let mut app = loaded();
    app.handle_key(Key::Char('i'));
    assert_eq!(app.mode(), Mode::FilterInput);
    type_text(&mut app, "100-500");
    assert_eq!(typed(&app), "100-500");
    assert_eq!(app.filter(), FilterRange::new(0, usize::MAX));
    app.handle_key(Key::Enter);
    assert_eq!(app.mode(), Mode::Browsing);
    assert_eq!(typed(&app), "");
    assert_eq!(app.filter(), FilterRange::new(100, 500));
    assert_eq!(app.filter().min, 100);
    assert_eq!(app.filter().max, 500);
    assert_eq!(app.lengths(), &vec![150, 300]);
    assert_eq!(app.bins(), &compute_bins(&vec![150, 300]));
}

#[test]
fn committing_nonsense_leaves_the_filter() {
    let mut app = loaded();
    app.set_filter(FilterRange::new(100, 1000));
    let lengths = app.lengths().clone();
    let bins = app.bins().clone();
    app.handle_key(Key::Char('i'));
    type_text(&mut app, "abc");
    app.handle_key(Key::Enter);
    assert_eq!(app.mode(), Mode::Browsing);
    assert_eq!(typed(&app), "");
    assert_eq!(app.filter(), FilterRange::new(100, 1000));
    assert_eq!(app.lengths(), &lengths);
    assert_eq!(app.bins(), &bins);
}

#[test]
fn committing_nothing_leaves_the_filter() {
    let mut app = loaded();
    app.begin_input();
    app.commit_input();
    assert_eq!(app.mode(), Mode::Browsing);
    assert_eq!(app.filter(), FilterRange::new(0, usize::MAX));
}

#[test]
fn cancelling_drops_the_text() {
    let mut app = loaded();
    app.handle_key(Key::Char('i'));
    type_text(&mut app, "100-500");
    app.handle_key(Key::Esc);
    assert_eq!(app.mode(), Mode::Browsing);
    assert_eq!(typed(&app), "");
    assert_eq!(app.filter(), FilterRange::new(0, usize::MAX));
    assert_eq!(app.lengths(), &vec![5, 150, 300, 999, 1000]);
}

#[test]
fn backspace_takes_the_last_character() {
    let mut app = loaded();
    app.handle_key(Key::Char('i'));
    app.handle_key(Key::Backspace);
    assert_eq!(typed(&app), "");
    type_text(&mut app, "12x");
    app.handle_key(Key::Backspace);
    assert_eq!(typed(&app), "12");
    type_text(&mut app, "-7");
    app.handle_key(Key::Enter);
    assert_eq!(app.filter(), FilterRange::new(12, 7));
    assert_eq!(app.lengths(), &Vec::<usize>::new());
}

#[test]
fn entering_input_clears_old_text() {
    let mut app = loaded();
    app.begin_input();
    app.push_char('9');
    app.cancel_input();
    app.begin_input();
    assert_eq!(typed(&app), "");
    assert_eq!(app.mode(), Mode::FilterInput);
}

#[test]
fn keys_are_text_while_typing() {
    let mut app = loaded();
    app.handle_key(Key::Char('i'));
    type_text(&mut app, "qmMi");
    app.handle_key(Key::Up);
    app.handle_key(Key::Down);
    app.handle_key(Key::Left);
    app.handle_key(Key::Right);
    app.handle_key(Key::Other);
    assert_eq!(typed(&app), "qmMi");
    assert!(!app.should_quit());
    assert_eq!(app.mode(), Mode::FilterInput);
    assert_eq!(app.selected_file(), 0);
    assert_eq!(app.selected_seq(), 0);
    assert_eq!(app.filter(), FilterRange::new(0, usize::MAX));
}

#[test]
fn keys_without_meaning_change_nothing_while_browsing() {
    let mut app = loaded();
    for key in [Key::Enter, Key::Esc, Key::Backspace, Key::Other, Key::Char('x'), Key::Char('Q')] {
        app.handle_key(key);
    }
    assert_eq!(app.mode(), Mode::Browsing);
    assert!(!app.should_quit());
    assert_eq!(typed(&app), "");
    assert_eq!(app.filter(), FilterRange::new(0, usize::MAX));
    assert_eq!(app.lengths(), &vec![5, 150, 300, 999, 1000]);
}

#[test]
fn quitting_ends_the_session() {
    let mut app = loaded();
    app.handle_key(Key::Char('q'));
    assert!(app.should_quit());
    app.handle_key(Key::Down);
    app.handle_key(Key::Char('i'));
    app.handle_key(Key::Char('m'));
    assert_eq!(app.selected_file(), 0);
    assert_eq!(app.mode(), Mode::Browsing);
    assert_eq!(app.filter(), FilterRange::new(0, usize::MAX));
}

#[test]
fn arrow_keys_move_the_selection() {
    let mut app = loaded();
    app.handle_key(Key::Down);
    assert_eq!(app.selected_file(), 1);
    app.handle_key(Key::Right);
    assert_eq!(app.selected_seq(), 1);
    assert_eq!(app.selected_length(), 2000);
    app.handle_key(Key::Up);
    assert_eq!(app.selected_file(), 0);
    assert_eq!(app.selected_seq(), 1);
    assert_eq!(app.selected_length(), 150);
}
