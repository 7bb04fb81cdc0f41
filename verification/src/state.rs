//! The states of the controller and the transitions between them, as
//! plain mathematics: what each key does to the selection, the filter, the
//! typed text and the snapshot.

use vstd::prelude::*;
use crate::bins::{histogram, BinView};
use crate::catalog::{ascending, SequenceFileView};
use crate::filter::{filtered, FilterRange};
use crate::range_text::{lemma_no_hyphen_no_range, range_of};

verus! {

/// The lower bound that the quick filter for long records sets.
pub const QUICK_MIN: usize = 1000;

/// The upper bound that the quick filter for short records sets.
pub const QUICK_MAX: usize = 10000;

/// What the keys currently mean.
#[derive(Clone, Copy, Debug, PartialEq, Eq, Structural)]
pub enum Mode {
    /// Keys move the selection and set quick filters.
    Browsing,
    /// Keys edit the text of a filter range.
    FilterInput,
}

/// One input event.
#[derive(Clone, Copy, Debug, PartialEq, Eq, Structural)]
pub enum Key {
    Char(char),
    Up,
    Down,
    Left,
    Right,
    Enter,
    Esc,
    Backspace,
    /// Any key that has no meaning here.
    Other,
}

/// `index`, pulled back to the last position of a collection of `len`
/// items; zero where the collection is empty.
pub open spec fn clamped(index: nat, len: nat) -> nat {
    if index < len {
        index
    } else if len == 0 {
        0
    } else {
        (len - 1) as nat
    }
}

/// The state of the controller, as the contracts speak of it.
pub struct AppView {
    pub files: Seq<SequenceFileView>,
    pub selected_file: nat,
    pub selected_seq: nat,
    /// The lengths of the selected file that pass the filter.
    pub lengths: Seq<usize>,
    pub bins: Seq<BinView>,
    pub filter: FilterRange,
    pub input: Seq<char>,
    pub mode: Mode,
    pub should_quit: bool,
}

impl AppView {
    /// What holds of every state: the catalog is in order and both
    /// selections point into their collections (or at zero where those
    /// are empty).
    pub open spec fn inv(self) -> bool {
        &&& ascending(self.files)
        &&& self.selected_file == clamped(self.selected_file, self.files.len())
        &&& self.selected_seq == clamped(self.selected_seq, self.lengths.len())
    }

    /// The record lengths of the selected file, before any filter; none
    /// where the catalog is empty.
    pub open spec fn raw_lengths(self) -> Seq<usize> {
        if self.selected_file < self.files.len() {
            self.files[self.selected_file as int].raw_lengths
        } else {
            Seq::empty()
        }
    }

    /// The snapshot is the one that the selected file and the filter call
    /// for.
    pub open spec fn is_current(self) -> bool {
        &&& self.lengths == filtered(self.raw_lengths(), self.filter)
        &&& self.bins == histogram(self.lengths)
    }

    /// The bins are computed anew from the filtered lengths.
    pub open spec fn update_bins(self) -> AppView {
        AppView { bins: histogram(self.lengths), ..self }
    }

    /// The snapshot is computed anew from the raw lengths of the selected
    /// file, and the sequence selection pulled back into it.
    pub open spec fn apply_filter(self) -> AppView {
        let lengths = filtered(self.raw_lengths(), self.filter);
        AppView {
            lengths,
            bins: histogram(lengths),
            selected_seq: clamped(self.selected_seq, lengths.len()),
            ..self
        }
    }

    /// As [`AppView::apply_filter`], where a file is selected; otherwise
    /// nothing changes.
    pub open spec fn load_selected_file(self) -> AppView {
        if self.selected_file < self.files.len() {
            self.apply_filter()
        } else {
            self
        }
    }

    /// The next file is selected and loaded; at the last file nothing
    /// changes.
    pub open spec fn next_file(self) -> AppView {
        if self.selected_file + 1 < self.files.len() {
            AppView { selected_file: self.selected_file + 1, ..self }.load_selected_file()
        } else {
            self
        }
    }

    /// The previous file is selected and loaded; at the first file nothing
    /// changes.
    pub open spec fn previous_file(self) -> AppView {
        if self.selected_file > 0 {
            AppView { selected_file: (self.selected_file - 1) as nat, ..self }.load_selected_file()
        } else {
            self
        }
    }

    /// The next filtered length is selected; at the last one nothing
    /// changes. The snapshot is not touched.
    pub open spec fn next_seq(self) -> AppView {
        if self.selected_seq + 1 < self.lengths.len() {
            AppView { selected_seq: self.selected_seq + 1, ..self }
        } else {
            self
        }
    }

    /// The previous filtered length is selected; at the first one nothing
    /// changes. The snapshot is not touched.
    pub open spec fn previous_seq(self) -> AppView {
        if self.selected_seq > 0 {
            AppView { selected_seq: (self.selected_seq - 1) as nat, ..self }
        } else {
            self
        }
    }

    /// `range` becomes the filter and the selected file is loaded under it.
    pub open spec fn set_filter(self, range: FilterRange) -> AppView {
        AppView { filter: range, ..self }.load_selected_file()
    }

    /// As [`AppView::set_filter`], with the upper bound kept.
    pub open spec fn set_filter_min(self, min: usize) -> AppView {
        self.set_filter(FilterRange { min, max: self.filter.max })
    }

    /// As [`AppView::set_filter`], with the lower bound kept.
    pub open spec fn set_filter_max(self, max: usize) -> AppView {
        self.set_filter(FilterRange { min: self.filter.min, max })
    }

    /// Typing starts, with no text yet.
    pub open spec fn begin_input(self) -> AppView {
        AppView { mode: Mode::FilterInput, input: Seq::empty(), ..self }
    }

    /// `c` is added to the typed text.
    pub open spec fn push_char(self, c: char) -> AppView {
        AppView { input: self.input.push(c), ..self }
    }

    /// The last typed character is taken off, if there is one.
    pub open spec fn backspace(self) -> AppView {
        if self.input.len() > 0 {
            AppView { input: self.input.drop_last(), ..self }
        } else {
            self
        }
    }

    /// The typed text is dropped and browsing resumes; the filter stays.
    pub open spec fn cancel_input(self) -> AppView {
        AppView { mode: Mode::Browsing, input: Seq::empty(), ..self }
    }

    /// The typed text becomes the filter if it denotes a range; either way
    /// the text is dropped and browsing resumes.
    pub open spec fn commit_input(self) -> AppView {
        let back = self.cancel_input();
        match range_of(self.input) {
            Some(range) => back.set_filter(range),
            None => back,
        }
    }

    /// The session is marked as over.
    pub open spec fn quit(self) -> AppView {
        AppView { should_quit: true, ..self }
    }

    /// What a key does while browsing.
    pub open spec fn browse(self, key: Key) -> AppView {
        match key {
            Key::Char(c) => if c == 'q' {
                self.quit()
            } else if c == 'm' {
                self.set_filter_min(QUICK_MIN)
            } else if c == 'M' {
                self.set_filter_max(QUICK_MAX)
            } else if c == 'i' {
                self.begin_input()
            } else {
                self
            },
            Key::Down => self.next_file(),
            Key::Up => self.previous_file(),
            Key::Right => self.next_seq(),
            Key::Left => self.previous_seq(),
            _ => self,
        }
    }

    /// What a key does while a filter range is typed.
    pub open spec fn edit(self, key: Key) -> AppView {
        match key {
            Key::Enter => self.commit_input(),
            Key::Esc => self.cancel_input(),
            Key::Backspace => self.backspace(),
            Key::Char(c) => self.push_char(c),
            _ => self,
        }
    }

    /// The state after one key. Once the session has been quit no key
    /// changes anything.
    pub open spec fn handle_key(self, key: Key) -> AppView {
        if self.should_quit {
            self
        } else {
            match self.mode {
                Mode::Browsing => self.browse(key),
                Mode::FilterInput => self.edit(key),
            }
        }
    }
}

/// No lengths in, no lengths out, whatever the range.
proof fn lemma_filtered_empty(range: FilterRange)
    ensures
        filtered(Seq::empty(), range) == Seq::<usize>::empty(),
{
    reveal(Seq::filter);
}

/// Every transition keeps the selections inside their collections and the
/// catalog in order.
pub proof fn lemma_handle_key_keeps_inv(state: AppView, key: Key)
    requires
        state.inv(),
    ensures
        state.handle_key(key).inv(),
{
}

/// Once the snapshot is the one that the selected file and the filter call
/// for, it stays so under every key: whatever changes the selected file or
/// the filter computes the snapshot anew.
pub proof fn lemma_handle_key_keeps_current(state: AppView, key: Key)
    requires
        state.inv(),
        state.is_current(),
    ensures
        state.handle_key(key).is_current(),
{
    lemma_filtered_empty(state.filter);
    lemma_filtered_empty(FilterRange { min: QUICK_MIN, max: state.filter.max });
    lemma_filtered_empty(FilterRange { min: state.filter.min, max: QUICK_MAX });
    match range_of(state.input) {
        Some(range) => lemma_filtered_empty(range),
        None => {},
    }
}

/// Loading brings the snapshot in line wherever a file is selected.
pub proof fn lemma_load_makes_current(state: AppView)
    requires
        state.selected_file < state.files.len(),
    ensures
        state.load_selected_file().is_current(),
{
}

/// Computing the snapshot a second time changes nothing.
pub proof fn lemma_recompute_is_idempotent(state: AppView)
    ensures
        state.update_bins().update_bins() == state.update_bins(),
        state.apply_filter().apply_filter() == state.apply_filter(),
        state.load_selected_file().load_selected_file() == state.load_selected_file(),
{
}

/// Filtering destroys nothing: the lengths and bins under a range do not
/// depend on the ranges that were in force before it.
pub proof fn lemma_filter_forgets_history(state: AppView, earlier: FilterRange, range: FilterRange)
    ensures
        state.set_filter(earlier).set_filter(range).lengths == state.set_filter(range).lengths,
        state.set_filter(earlier).set_filter(range).bins == state.set_filter(range).bins,
{
}

/// Moving on from the last file, or from the last length, changes nothing.
pub proof fn lemma_advance_past_last_is_noop(state: AppView)
    ensures
        state.selected_file + 1 >= state.files.len() ==> state.next_file() == state,
        state.selected_seq + 1 >= state.lengths.len() ==> state.next_seq() == state,
        state.selected_file == 0 ==> state.previous_file() == state,
        state.selected_seq == 0 ==> state.previous_seq() == state,
{
}

/// Moving between lengths computes nothing anew.
pub proof fn lemma_sequence_moves_keep_snapshot(state: AppView)
    ensures
        state.next_seq().lengths == state.lengths && state.next_seq().bins == state.bins,
        state.previous_seq().lengths == state.lengths && state.previous_seq().bins == state.bins,
{
}

/// While a range is typed, only committing can change the filter or the
/// snapshot, and only where the text denotes a range.
pub proof fn lemma_typing_keeps_filter(state: AppView, key: Key)
    requires
        !state.should_quit,
        state.mode == Mode::FilterInput,
        key != Key::Enter || range_of(state.input) is None,
    ensures
        state.handle_key(key).filter == state.filter,
        state.handle_key(key).lengths == state.lengths,
        state.handle_key(key).bins == state.bins,
        state.handle_key(key).selected_file == state.selected_file,
        state.handle_key(key).selected_seq == state.selected_seq,
        key == Key::Enter || key == Key::Esc ==> state.handle_key(key).mode == Mode::Browsing
            && state.handle_key(key).input.len() == 0,
{
}

/// Committing text that denotes no range changes nothing but the mode
/// and the text: the filter, the selection and the snapshot stay as they
/// were, the text is dropped and browsing resumes. Nothing is reported.
pub proof fn lemma_commit_without_range_keeps_filter(state: AppView)
    requires
        range_of(state.input) is None,
    ensures
        state.commit_input() == (AppView {
            mode: Mode::Browsing,
            input: Seq::empty(),
            ..state
        }),
        state.mode == Mode::FilterInput && !state.should_quit ==> state.handle_key(Key::Enter)
            == state.commit_input(),
{
}

/// Committing text that denotes a range makes that range the filter,
/// drops the text and resumes browsing; where a file is selected the
/// snapshot is computed anew under the new range.
pub proof fn lemma_commit_with_range_sets_filter(state: AppView, range: FilterRange)
    requires
        range_of(state.input) == Some(range),
    ensures
        state.commit_input().filter == range,
        state.commit_input().mode == Mode::Browsing,
        state.commit_input().input.len() == 0,
        state.commit_input().should_quit == state.should_quit,
        state.commit_input().selected_file == state.selected_file,
        state.selected_file < state.files.len() ==> state.commit_input().lengths == filtered(
            state.raw_lengths(),
            range,
        ) && state.commit_input().bins == histogram(state.commit_input().lengths),
        state.mode == Mode::FilterInput && !state.should_quit ==> state.handle_key(Key::Enter)
            == state.commit_input(),
{
}

/// Text without a hyphen is no range, so committing it leaves the filter
/// and the snapshot alone.
pub proof fn lemma_commit_without_hyphen_keeps_filter(state: AppView)
    requires
        forall|i: int| 0 <= i < state.input.len() ==> #[trigger] state.input[i] != '-',
    ensures
        state.commit_input() == (AppView {
            mode: Mode::Browsing,
            input: Seq::empty(),
            ..state
        }),
{
    lemma_no_hyphen_no_range(state.input);
}

/// The session can only be quit while browsing, and only by the key `q`.
pub proof fn lemma_quit_only_while_browsing(state: AppView, key: Key)
    requires
        !state.should_quit,
        state.handle_key(key).should_quit,
    ensures
        state.mode == Mode::Browsing,
        key == Key::Char('q'),
{
}

} // verus!
