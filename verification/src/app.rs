//! The controller: it owns the state and moves it from key to key.

use vstd::prelude::*;
use crate::bins::{bin_views, compute_bins, Bin};
use crate::catalog::Catalog;
use crate::filter::{apply_filter, FilterRange};
use crate::range_text::{parse_range, range_of};
use crate::state::{clamped, AppView, Key, Mode, QUICK_MAX, QUICK_MIN};

verus! {

/// The controller. It owns the catalog, the selection, the filter, the
/// input text and the snapshot, and changes them only through the
/// transitions below.
#[derive(Debug)]
pub struct App {
    catalog: Catalog,
    selected_file: usize,
    selected_seq: usize,
    lengths: Vec<usize>,
    bins: Vec<Bin>,
    filter: FilterRange,
    input: Vec<char>,
    mode: Mode,
    should_quit: bool,
}

impl View for App {
    type V = AppView;

    closed spec fn view(&self) -> AppView {
        AppView {
            files: self.catalog@,
            selected_file: self.selected_file as nat,
            selected_seq: self.selected_seq as nat,
            lengths: self.lengths@,
            bins: bin_views(self.bins@),
            filter: self.filter,
            input: self.input@,
            mode: self.mode,
            should_quit: self.should_quit,
        }
    }
}

impl Default for App {
    /// A controller over the empty catalog.
    fn default() -> (app: App)
        ensures
            app@.files.len() == 0,
            app@.selected_file == 0,
            app@.selected_seq == 0,
            app@.lengths.len() == 0,
            app@.bins.len() == 0,
            app@.filter.is_unbounded(),
            app@.input.len() == 0,
            app@.mode == Mode::Browsing,
            !app@.should_quit,
    {
        App::new(Catalog::empty())
    }
}

impl App {
    #[verifier::type_invariant]
    spec fn selections_in_range(&self) -> bool {
        &&& self.selected_file as nat == clamped(self.selected_file as nat, self.catalog@.len())
        &&& self.selected_seq as nat == clamped(self.selected_seq as nat, self.lengths@.len())
    }

    /// A controller over `catalog`: the first file selected, no filter,
    /// browsing. The snapshot stays empty until the selected file is loaded.
    pub fn new(catalog: Catalog) -> (app: App)
        ensures
            app@ == (AppView {
                files: catalog@,
                selected_file: 0,
                selected_seq: 0,
                lengths: Seq::empty(),
                bins: Seq::empty(),
                filter: FilterRange { min: 0, max: usize::MAX },
                input: Seq::empty(),
                mode: Mode::Browsing,
                should_quit: false,
            }),
            app@.inv(),
    {
        let app = App {
            catalog,
            selected_file: 0,
            selected_seq: 0,
            lengths: Vec::new(),
            bins: Vec::new(),
            filter: FilterRange::unbounded(),
            input: Vec::new(),
            mode: Mode::Browsing,
            should_quit: false,
        };
        proof {
            use_type_invariant(&app.catalog);
            assert(app@.bins =~= Seq::empty());
        }
        app
    }

    /// Computes the bins anew from the filtered lengths.
    pub fn update_bins(&mut self)
        ensures
            final(self)@ == old(self)@.update_bins(),
    {
        proof {
            use_type_invariant(&*self);
        }
        self.bins = compute_bins(&self.lengths);
    }

    /// Filters the raw lengths of the selected file by the current range,
    /// computes the bins of what is left, and pulls the sequence selection
    /// back into it. The raw lengths stay as they are.
    pub fn apply_filter(&mut self)
        ensures
            final(self)@ == old(self)@.apply_filter(),
            final(self)@.is_current(),
    {
        proof {
            use_type_invariant(&*self);
        }
        let kept = match self.catalog.get(self.selected_file) {
            Some(file) => apply_filter(file.raw_lengths(), &self.filter),
            None => {
                proof {
                    reveal(Seq::filter);
                }
                Vec::new()
            },
        };
        let bins = compute_bins(&kept);
        if self.selected_seq >= kept.len() {
            self.selected_seq = if kept.len() == 0 {
                0
            } else {
                kept.len() - 1
            };
        }
        self.lengths = kept;
        self.bins = bins;
    }

    /// Brings the snapshot in line with the selected file and the filter.
    /// Where the catalog is empty there is nothing to load.
    pub fn load_selected_file(&mut self)
        ensures
            final(self)@ == old(self)@.load_selected_file(),
    {
        if self.selected_file < self.catalog.len() {
            self.apply_filter();
        }
    }

    /// Selects the next file and loads it. At the last file nothing
    /// changes.
    pub fn next_file(&mut self)
        ensures
            final(self)@ == old(self)@.next_file(),
    {
        proof {
            use_type_invariant(&*self);
        }
        if self.selected_file < self.catalog.len().saturating_sub(1) {
            self.selected_file += 1;
            self.load_selected_file();
        }
    }

    /// Selects the previous file and loads it. At the first file nothing
    /// changes.
    pub fn previous_file(&mut self)
        ensures
            final(self)@ == old(self)@.previous_file(),
    {
        proof {
            use_type_invariant(&*self);
        }
        if self.selected_file > 0 {
            self.selected_file -= 1;
            self.load_selected_file();
        }
    }

    /// Selects the next of the filtered lengths. At the last one nothing
    /// changes.
    pub fn next_seq(&mut self)
        ensures
            final(self)@ == old(self)@.next_seq(),
    {
        proof {
            use_type_invariant(&*self);
        }
        if self.selected_seq < self.lengths.len().saturating_sub(1) {
            self.selected_seq += 1;
        }
    }

    /// Selects the previous of the filtered lengths. At the first one
    /// nothing changes.
    pub fn previous_seq(&mut self)
        ensures
            final(self)@ == old(self)@.previous_seq(),
    {
        proof {
            use_type_invariant(&*self);
        }
        if self.selected_seq > 0 {
            self.selected_seq -= 1;
        }
    }

    /// Makes `range` the filter and brings the snapshot in line with it.
    pub fn set_filter(&mut self, range: FilterRange)
        ensures
            final(self)@ == old(self)@.set_filter(range),
    {
        proof {
            use_type_invariant(&*self);
        }
        self.filter = range;
        self.load_selected_file();
    }

    /// Sets the lower bound of the filter and brings the snapshot in line
    /// with it.
    pub fn set_filter_min(&mut self, min: usize)
        ensures
            final(self)@ == old(self)@.set_filter_min(min),
    {
        let range = FilterRange::new(min, self.filter.max);
        self.set_filter(range);
    }

    /// Sets the upper bound of the filter and brings the snapshot in line
    /// with it.
    pub fn set_filter_max(&mut self, max: usize)
        ensures
            final(self)@ == old(self)@.set_filter_max(max),
    {
        let range = FilterRange::new(self.filter.min, max);
        self.set_filter(range);
    }

    /// Hands out the typed text and leaves none behind. A field of a type
    /// with an invariant cannot be lent to a call that may unwind, so the
    /// text is edited outside and put back.
    fn take_input(&mut self) -> (text: Vec<char>)
        ensures
            text@ == old(self)@.input,
            final(self)@ == (AppView { input: Seq::empty(), ..old(self)@ }),
    {
        proof {
            use_type_invariant(&*self);
        }
        let mut text: Vec<char> = Vec::new();
        core::mem::swap(&mut self.input, &mut text);
        text
    }

    /// Starts the typing of a filter range, with no text yet.
    pub fn begin_input(&mut self)
        ensures
            final(self)@ == old(self)@.begin_input(),
    {
        proof {
            use_type_invariant(&*self);
        }
        self.input = Vec::new();
        self.mode = Mode::FilterInput;
    }

    /// Adds `c` to the typed text. The text may grow without bound and is
    /// not looked at before it is committed.
    pub fn push_char(&mut self, c: char)
        ensures
            final(self)@ == old(self)@.push_char(c),
    {
        let mut text = self.take_input();
        text.push(c);
        proof {
            use_type_invariant(&*self);
        }
        self.input = text;
    }

    /// Takes the last character off the typed text, if there is one.
    pub fn backspace(&mut self)
        ensures
            final(self)@ == old(self)@.backspace(),
    {
        let mut text = self.take_input();
        if text.len() > 0 {
            text.pop();
        }
        proof {
            use_type_invariant(&*self);
        }
        self.input = text;
    }

    /// Drops the typed text and goes back to browsing. The filter stays as
    /// it was.
    pub fn cancel_input(&mut self)
        ensures
            final(self)@ == old(self)@.cancel_input(),
    {
        proof {
            use_type_invariant(&*self);
        }
        self.input = Vec::new();
        self.mode = Mode::Browsing;
    }

    /// Ends the typing. Where the text denotes a range, that range becomes
    /// the filter and the snapshot follows; where it does not, the text is
    /// dropped without a word and the filter stays as it was. Either way
    /// browsing resumes.
    pub fn commit_input(&mut self)
        ensures
            final(self)@ == old(self)@.commit_input(),
            range_of(old(self)@.input) is None ==> final(self)@ == (AppView {
                mode: Mode::Browsing,
                input: Seq::empty(),
                ..old(self)@
            }),
            range_of(old(self)@.input) matches Some(range) ==> final(self)@.filter == range,
    {
        let typed = parse_range(&self.input);
        self.cancel_input();
        match typed {
            Some(range) => {
                self.set_filter(range);
            },
            None => {},
        }
    }

    /// Marks the session as over.
    pub fn quit(&mut self)
        ensures
            final(self)@ == old(self)@.quit(),
    {
        proof {
            use_type_invariant(&*self);
        }
        self.should_quit = true;
    }

    /// Takes one key and moves to the state that follows from it.
    pub fn handle_key(&mut self, key: Key)
        ensures
            final(self)@ == old(self)@.handle_key(key),
    {
        if self.should_quit {
            return;
        }
        match self.mode {
            Mode::Browsing => match key {
                Key::Char(c) => {
                    if c == 'q' {
                        self.quit();
                    } else if c == 'm' {
                        self.set_filter_min(QUICK_MIN);
                    } else if c == 'M' {
                        self.set_filter_max(QUICK_MAX);
                    } else if c == 'i' {
                        self.begin_input();
                    }
                },
                Key::Down => self.next_file(),
                Key::Up => self.previous_file(),
                Key::Right => self.next_seq(),
                Key::Left => self.previous_seq(),
                _ => {},
            },
            Mode::FilterInput => match key {
                Key::Enter => self.commit_input(),
                Key::Esc => self.cancel_input(),
                Key::Backspace => self.backspace(),
                Key::Char(c) => self.push_char(c),
                _ => {},
            },
        }
    }

    /// The catalog that is browsed.
    pub fn catalog(&self) -> (catalog: &Catalog)
        ensures
            catalog@ == self@.files,
    {
        &self.catalog
    }

    /// The position of the selected file in the catalog.
    pub fn selected_file(&self) -> (index: usize)
        ensures
            index == self@.selected_file,
            self@.inv(),
    {
        proof {
            use_type_invariant(self);
            use_type_invariant(&self.catalog);
        }
        self.selected_file
    }

    /// The position of the selected length among the filtered lengths.
    pub fn selected_seq(&self) -> (index: usize)
        ensures
            index == self@.selected_seq,
            self@.inv(),
    {
        proof {
            use_type_invariant(self);
            use_type_invariant(&self.catalog);
        }
        self.selected_seq
    }

    /// The selected length itself; zero where no length is left to select.
    pub fn selected_length(&self) -> (length: usize)
        ensures
            length == (if self@.selected_seq < self@.lengths.len() {
                self@.lengths[self@.selected_seq as int]
            } else {
                0
            }),
    {
        if self.selected_seq < self.lengths.len() {
            self.lengths[self.selected_seq]
        } else {
            0
        }
    }

    /// The lengths of the selected file that pass the filter.
    pub fn lengths(&self) -> (lengths: &Vec<usize>)
        ensures
            lengths@ == self@.lengths,
    {
        &self.lengths
    }

    /// The histogram of the filtered lengths.
    pub fn bins(&self) -> (bins: &Vec<Bin>)
        ensures
            bin_views(bins@) == self@.bins,
    {
        &self.bins
    }

    /// The filter in force.
    pub fn filter(&self) -> (range: FilterRange)
        ensures
            range == self@.filter,
    {
        self.filter
    }

    /// The text typed so far.
    pub fn input(&self) -> (text: &Vec<char>)
        ensures
            text@ == self@.input,
    {
        &self.input
    }

    /// What the keys currently mean.
    pub fn mode(&self) -> (mode: Mode)
        ensures
            mode == self@.mode,
    {
        self.mode
    }

    /// Whether the session is over.
    pub fn should_quit(&self) -> (over: bool)
        ensures
            over == self@.should_quit,
    {
        self.should_quit
    }
}

} // verus!
