//! The file-selection screen: entry texts, and the state of the choice
//! (which files are accepted, which is focused, how the screen ended).
//! The terminal UI itself reports key presses and performs the actions.

use vstd::prelude::*;
use crate::paths::{extension, file_name, path_extension, path_file_name};
use crate::text::{decimal, push_char, push_decimal, to_uppercase, uppercase};
use crate::utils::{file_size_text, format_file_size};

verus! {

broadcast use vstd::string::group_string_axioms;

/// A file offered for conversion.
#[derive(Debug, Clone)]
pub struct ImageEntry {
    /// Full path of the file.
    pub path: String,
    /// File name shown in the list.
    pub filename: String,
    /// Upper-case extension shown as the format.
    pub format: String,
    /// Size in bytes.
    pub file_size: u64,
}

/// The file name shown for a path: its final component, or nothing.
pub open spec fn entry_filename(path: Seq<char>) -> Seq<char> {
    match path_file_name(path) {
        Some(name) => name,
        None => seq![],
    }
}

/// The format shown for a path: its extension in upper case, or "UNKNOWN"
/// (the upper case of "unknown") when it has none.
pub open spec fn entry_format(path: Seq<char>) -> Seq<char> {
    match path_extension(path) {
        Some(ext) => uppercase(ext),
        None => uppercase(seq!['u', 'n', 'k', 'n', 'o', 'w', 'n']),
    }
}

impl ImageEntry {
    /// The entry shown for the file at `path` of `file_size` bytes.
    pub fn for_file(path: String, file_size: u64) -> (entry: Self)
        ensures
            entry.path@ == path@,
            entry.filename@ == entry_filename(path@),
            entry.format@ == entry_format(path@),
            entry.file_size == file_size,
    {
        let filename = match file_name(path.as_str()) {
            Some(name) => name,
            None => String::new(),
        };
        let format = match extension(path.as_str()) {
            Some(ext) => to_uppercase(ext.as_str()),
            None => {
                proof {
                    reveal_strlit("unknown");
                    assert("unknown"@ =~= seq!['u', 'n', 'k', 'n', 'o', 'w', 'n']);
                }
                to_uppercase("unknown")
            },
        };
        assert(filename@ =~= entry_filename(path@));
        ImageEntry { path, filename, format, file_size }
    }
}

fn push_str(s: &mut String, tail: &str)
    ensures
        final(s)@ == old(s)@ + tail@,
{
    s.append(tail);
}

/// The list label of an entry: a check mark when it is accepted, a cross
/// when not, then its file name.
pub open spec fn label_text(filename: Seq<char>, accepted: bool) -> Seq<char> {
    seq!['[', if accepted { '\u{2713}' } else { '\u{2717}' }, ']', ' ', ' '] + filename
}

/// The list label of an entry (see `label_text`).
pub fn item_label(entry: &ImageEntry, accepted: bool) -> (label: String)
    ensures
        label@ == label_text(entry.filename@, accepted),
{
    let mut label = String::new();
    push_char(&mut label, '[');
    push_char(&mut label, if accepted { '\u{2713}' } else { '\u{2717}' });
    push_char(&mut label, ']');
    push_char(&mut label, ' ');
    push_char(&mut label, ' ');
    push_str(&mut label, entry.filename.as_str());
    assert(label@ =~= label_text(entry.filename@, accepted));
    label
}

/// The detail panel of an entry: its path, format and size on three lines.
pub open spec fn detail_lines(path: Seq<char>, format: Seq<char>, file_size: nat) -> Seq<char> {
    "  Path:    "@ + path + "\n"@ + "  Format:  "@ + format + "\n"@ + "  Size:    "@ + file_size_text(file_size)
}

/// The detail panel of an entry (see `detail_lines`).
pub fn detail_text(entry: &ImageEntry) -> (text: String)
    ensures
        text@ == detail_lines(entry.path@, entry.format@, entry.file_size as nat),
{
    let mut text = String::new();
    push_str(&mut text, "  Path:    ");
    push_str(&mut text, entry.path.as_str());
    push_str(&mut text, "\n");
    push_str(&mut text, "  Format:  ");
    push_str(&mut text, entry.format.as_str());
    push_str(&mut text, "\n");
    push_str(&mut text, "  Size:    ");
    let size = format_file_size(entry.file_size);
    push_str(&mut text, size.as_str());
    assert(text@ =~= detail_lines(entry.path@, entry.format@, entry.file_size as nat));
    text
}

/// The title of the file list for `count` files, e.g.
/// "Convert to JPEG (1 file)", "Convert to JPEG (3 files)".
pub open spec fn title_text(count: nat) -> Seq<char> {
    "Convert to JPEG ("@ + decimal(count) + " file"@ + (if count == 1 { seq![] } else { seq!['s'] }) + seq![')']
}

/// The title of the file list (see `title_text`).
pub fn list_title(count: usize) -> (title: String)
    ensures
        title@ == title_text(count as nat),
{
    let mut title = String::new();
    push_str(&mut title, "Convert to JPEG (");
    push_decimal(&mut title, count as u64);
    push_str(&mut title, " file");
    if count != 1 {
        push_char(&mut title, 's');
    }
    push_char(&mut title, ')');
    assert(title@ =~= title_text(count as nat));
    title
}

/// How far the choice has come.
#[derive(Debug, Clone, Copy, PartialEq, Eq, Structural)]
pub enum SelectionStatus {
    /// Keys are still being read.
    Choosing,
    /// The user confirmed the choice.
    Confirmed,
    /// The user cancelled: nothing is converted.
    Cancelled,
}

/// A key press or list movement reported by the terminal UI.
#[derive(Debug, Clone, Copy, PartialEq, Eq, Structural)]
pub enum SelectionEvent {
    /// The list moved its highlight to this entry (arrow keys, mouse).
    Highlight(usize),
    /// 'j': one entry down.
    Down,
    /// 'k': one entry up.
    Up,
    /// Space: flip whether the focused entry is accepted.
    Toggle,
    /// 'a': accept every entry and finish.
    AcceptAll,
    /// Enter: finish with the current choice.
    Confirm,
    /// 'q' or Esc: finish without converting anything.
    Cancel,
}

/// What the terminal UI does in answer to an event.
#[derive(Debug, Clone, Copy, PartialEq, Eq, Structural)]
pub enum SelectionAction {
    /// Show the details of this entry.
    ShowDetail(usize),
    /// Move the list's highlight to this entry (details stay as they are).
    MoveTo(usize),
    /// Redraw every label, highlight this entry and show its details.
    Redraw(usize),
    /// Close the screen.
    Quit,
    /// Nothing.
    Nothing,
}

/// The state of the choice, as a mathematical value.
pub struct SelectionModel {
    /// For each entry, whether it is accepted.
    pub flags: Seq<bool>,
    /// The focused entry.
    pub focus: nat,
    /// How far the choice has come.
    pub status: SelectionStatus,
}

/// A state the screen can be in: the focus is on an entry (or 0 when there
/// are none).
pub open spec fn model_wf(m: SelectionModel) -> bool {
    if m.flags.len() == 0 {
        m.focus == 0
    } else {
        m.focus < m.flags.len()
    }
}

/// The state when the screen opens on `count` entries: all accepted, the
/// first focused.
pub open spec fn initial_model(count: nat) -> SelectionModel {
    SelectionModel { flags: Seq::new(count, |i: int| true), focus: 0, status: SelectionStatus::Choosing }
}

/// The state after an event, and the action the UI takes. Once the choice
/// is finished, events change nothing.
pub open spec fn step(m: SelectionModel, e: SelectionEvent) -> (SelectionModel, SelectionAction) {
    if m.status != SelectionStatus::Choosing {
        (m, SelectionAction::Nothing)
    } else {
        match e {
            SelectionEvent::Highlight(i) => if i < m.flags.len() {
                (SelectionModel { focus: i as nat, ..m }, SelectionAction::ShowDetail(i))
            } else {
                (m, SelectionAction::Nothing)
            },
            SelectionEvent::Down => {
                let last: nat = if m.flags.len() == 0 { 0 } else { (m.flags.len() - 1) as nat };
                let f: nat = if m.focus + 1 <= last { m.focus + 1 } else { last };
                (SelectionModel { focus: f, ..m }, SelectionAction::MoveTo(f as usize))
            },
            SelectionEvent::Up => {
                let f: nat = if m.focus == 0 { 0 } else { (m.focus - 1) as nat };
                (SelectionModel { focus: f, ..m }, SelectionAction::MoveTo(f as usize))
            },
            SelectionEvent::Toggle => if m.focus < m.flags.len() {
                (
                    SelectionModel { flags: m.flags.update(m.focus as int, !m.flags[m.focus as int]), ..m },
                    SelectionAction::Redraw(m.focus as usize),
                )
            } else {
                (m, SelectionAction::Nothing)
            },
            SelectionEvent::AcceptAll => (
                SelectionModel {
                    flags: Seq::new(m.flags.len(), |i: int| true),
                    status: SelectionStatus::Confirmed,
                    ..m
                },
                SelectionAction::Quit,
            ),
            SelectionEvent::Confirm => (SelectionModel { status: SelectionStatus::Confirmed, ..m }, SelectionAction::Quit),
            SelectionEvent::Cancel => (SelectionModel { status: SelectionStatus::Cancelled, ..m }, SelectionAction::Quit),
        }
    }
}

/// The indices of the accepted entries, in increasing order.
pub open spec fn accepted_indices(flags: Seq<bool>) -> Seq<usize>
    decreases flags.len(),
{
    if flags.len() == 0 {
        seq![]
    } else if flags.last() {
        accepted_indices(flags.drop_last()).push((flags.len() - 1) as usize)
    } else {
        accepted_indices(flags.drop_last())
    }
}

/// The entries to convert: none when the choice was cancelled, else the
/// accepted ones.
pub open spec fn chosen(m: SelectionModel) -> Seq<usize> {
    if m.status == SelectionStatus::Cancelled {
        seq![]
    } else {
        accepted_indices(m.flags)
    }
}

/// Every entry index below `count`, in increasing order.
pub open spec fn all_indices(count: nat) -> Seq<usize> {
    Seq::new(count, |i: int| i as usize)
}

/// Flipping the focused entry twice leaves the choice as it was.
pub proof fn lemma_toggle_twice_restores(m: SelectionModel)
    requires
        model_wf(m),
        m.status == SelectionStatus::Choosing,
    ensures
        step(step(m, SelectionEvent::Toggle).0, SelectionEvent::Toggle).0 == m,
{
    let once = step(m, SelectionEvent::Toggle).0;
    if m.focus < m.flags.len() {
        assert(once.flags.update(m.focus as int, !once.flags[m.focus as int]) =~= m.flags);
    }
}

/// Every event keeps the focus on an entry.
pub proof fn lemma_step_keeps_focus_in_range(m: SelectionModel, e: SelectionEvent)
    requires
        model_wf(m),
    ensures
        model_wf(step(m, e).0),
        step(m, e).0.flags.len() == m.flags.len(),
{
}

/// Once the screen is closed, events change nothing and do nothing.
pub proof fn lemma_finished_ignores_events(m: SelectionModel, e: SelectionEvent)
    requires
        m.status != SelectionStatus::Choosing,
    ensures
        step(m, e) == (m, SelectionAction::Nothing),
{
}

/// The accepted indices are increasing, each names an accepted entry, and
/// every accepted entry is among them.
pub proof fn lemma_accepted_indices(flags: Seq<bool>)
    requires
        flags.len() <= usize::MAX + 1,
    ensures
        forall|k: int| 0 <= k < accepted_indices(flags).len() ==> {
            let i = #[trigger] accepted_indices(flags)[k];
            i < flags.len() && flags[i as int]
        },
        forall|k: int, l: int| 0 <= k < l < accepted_indices(flags).len()
            ==> #[trigger] accepted_indices(flags)[k] < #[trigger] accepted_indices(flags)[l],
        forall|i: int| 0 <= i < flags.len() && flags[i] ==> accepted_indices(flags).contains(i as usize),
    decreases flags.len(),
{
    if flags.len() > 0 {
        let front = flags.drop_last();
        lemma_accepted_indices(front);
        let prev = accepted_indices(front);
        assert forall|i: int| 0 <= i < flags.len() && flags[i] implies accepted_indices(flags).contains(i as usize) by {
            if i < flags.len() - 1 {
                assert(front[i] == flags[i]);
                let k = choose|k: int| 0 <= k < prev.len() && prev[k] == i as usize;
                assert(accepted_indices(flags)[k] == i as usize);
            } else {
                assert(accepted_indices(flags).last() == i as usize);
            }
        }
        assert forall|k: int| 0 <= k < accepted_indices(flags).len() implies {
            let i = #[trigger] accepted_indices(flags)[k];
            i < flags.len() && flags[i as int]
        } by {
            if k < prev.len() {
                assert(accepted_indices(flags)[k] == prev[k]);
                assert(front[prev[k] as int] == flags[prev[k] as int]);
            }
        }
    }
}

proof fn lemma_all_accepted_indices(count: nat)
    requires
        count <= usize::MAX + 1,
    ensures
        accepted_indices(Seq::new(count, |i: int| true)) == all_indices(count),
    decreases count,
{
    if count > 0 {
        let flags = Seq::new(count, |i: int| true);
        assert(flags.drop_last() =~= Seq::new((count - 1) as nat, |i: int| true));
        lemma_all_accepted_indices((count - 1) as nat);
        assert(all_indices((count - 1) as nat).push((count - 1) as usize) =~= all_indices(count));
    } else {
        assert(accepted_indices(Seq::new(count, |i: int| true)) =~= all_indices(count));
    }
}

/// Cancelling converts nothing, whatever was accepted.
pub proof fn lemma_cancel_chooses_nothing(m: SelectionModel)
    requires
        m.status == SelectionStatus::Choosing,
    ensures
        chosen(step(m, SelectionEvent::Cancel).0) == Seq::<usize>::empty(),
        step(m, SelectionEvent::Cancel).1 == SelectionAction::Quit,
{
}

/// Accepting all converts every entry, whatever was flipped before.
pub proof fn lemma_accept_all_chooses_every_entry(m: SelectionModel)
    requires
        m.status == SelectionStatus::Choosing,
        m.flags.len() <= usize::MAX + 1,
    ensures
        chosen(step(m, SelectionEvent::AcceptAll).0) == all_indices(m.flags.len()),
        step(m, SelectionEvent::AcceptAll).1 == SelectionAction::Quit,
{
    lemma_all_accepted_indices(m.flags.len());
}

/// Every entry starts accepted: confirming at once converts them all.
pub proof fn lemma_confirm_at_once_chooses_every_entry(count: nat)
    requires
        count <= usize::MAX + 1,
    ensures
        chosen(step(initial_model(count), SelectionEvent::Confirm).0) == all_indices(count),
{
    lemma_all_accepted_indices(count);
}

/// 'k' moves the focus one entry up, staying on the first entry; 'j' moves
/// it one entry down, staying on the last; a highlight of an entry focuses
/// it. None of them changes which entries are accepted or ends the choice,
/// and the list is told where the focus went.
pub proof fn lemma_moves_shift_focus(m: SelectionModel, i: usize)
    requires
        model_wf(m),
        m.status == SelectionStatus::Choosing,
    ensures
        ({
            let (up, act) = step(m, SelectionEvent::Up);
            &&& up.focus == (if m.focus > 0 { m.focus - 1 } else { 0 })
            &&& up.flags == m.flags && up.status == m.status
            &&& act == SelectionAction::MoveTo(up.focus as usize)
        }),
        ({
            let (down, act) = step(m, SelectionEvent::Down);
            &&& down.focus == (if m.focus + 1 < m.flags.len() { m.focus + 1 } else { m.focus })
            &&& down.flags == m.flags && down.status == m.status
            &&& act == SelectionAction::MoveTo(down.focus as usize)
        }),
        ({
            let (lit, act) = step(m, SelectionEvent::Highlight(i));
            &&& lit.focus == (if i < m.flags.len() { i as nat } else { m.focus })
            &&& lit.flags == m.flags && lit.status == m.status
            &&& act == (if i < m.flags.len() { SelectionAction::ShowDetail(i) } else { SelectionAction::Nothing })
        }),
        m.focus > 0 ==> step(step(m, SelectionEvent::Up).0, SelectionEvent::Down).0 == m,
{
}

/// Space flips the focused entry and no other, keeps the focus, and has
/// the list redrawn there.
pub proof fn lemma_toggle_flips_focused_entry(m: SelectionModel)
    requires
        model_wf(m),
        m.status == SelectionStatus::Choosing,
        m.flags.len() > 0,
    ensures
        ({
            let (t, act) = step(m, SelectionEvent::Toggle);
            &&& t.flags.len() == m.flags.len()
            &&& t.flags[m.focus as int] == !m.flags[m.focus as int]
            &&& forall|k: int| 0 <= k < m.flags.len() && k != m.focus ==> t.flags[k] == m.flags[k]
            &&& t.focus == m.focus && t.status == m.status
            &&& act == SelectionAction::Redraw(m.focus as usize)
        }),
{
}

/// Enter ends the choice with the entries accepted at that moment: an
/// entry is converted exactly when it is accepted.
pub proof fn lemma_confirm_chooses_accepted(m: SelectionModel, k: int)
    requires
        m.status == SelectionStatus::Choosing,
        m.flags.len() <= usize::MAX + 1,
        0 <= k < m.flags.len(),
    ensures
        step(m, SelectionEvent::Confirm).1 == SelectionAction::Quit,
        chosen(step(m, SelectionEvent::Confirm).0).contains(k as usize) == m.flags[k],
{
    lemma_accepted_indices(m.flags);
    let c = chosen(step(m, SelectionEvent::Confirm).0);
    if c.contains(k as usize) {
        let j = choose|j: int| 0 <= j < c.len() && c[j] == k as usize;
        assert(c[j] == k as usize);
    }
}

/// The state of the file-selection screen.
pub struct Selection {
    accepted: Vec<bool>,
    focus: usize,
    status: SelectionStatus,
}

impl View for Selection {
    type V = SelectionModel;

    closed spec fn view(&self) -> SelectionModel {
        SelectionModel { flags: self.accepted@, focus: self.focus as nat, status: self.status }
    }
}

fn all_true(count: usize) -> (flags: Vec<bool>)
    ensures
        flags@ == Seq::new(count as nat, |i: int| true),
{
    let mut flags: Vec<bool> = Vec::new();
    while flags.len() < count
        invariant
            flags.len() <= count,
            forall|i: int| 0 <= i < flags.len() ==> flags@[i],
        decreases count - flags.len(),
    {
        flags.push(true);
    }
    assert(flags@ =~= Seq::new(count as nat, |i: int| true));
    flags
}

impl Selection {
    /// The focus is always on an entry (or 0 when there are none).
    #[verifier::type_invariant]
    closed spec fn focus_on_an_entry(self) -> bool {
        model_wf(self@)
    }

    /// The screen as it opens on `count` entries.
    pub fn new(count: usize) -> (sel: Self)
        ensures
            sel@ == initial_model(count as nat),
            model_wf(sel@),
    {
        let sel = Selection { accepted: all_true(count), focus: 0, status: SelectionStatus::Choosing };
        assert(sel@.flags =~= initial_model(count as nat).flags);
        sel
    }

    /// The focused entry.
    pub fn focus(&self) -> (focus: usize)
        ensures
            focus == self@.focus,
    {
        self.focus
    }

    /// Whether the entry at `index` is accepted (false past the end).
    pub fn is_accepted(&self, index: usize) -> (accepted: bool)
        ensures
            accepted == (index < self@.flags.len() && self@.flags[index as int]),
    {
        index < self.accepted.len() && self.accepted[index]
    }

    /// Whether the screen is still reading keys.
    pub fn is_choosing(&self) -> (choosing: bool)
        ensures
            choosing == (self@.status == SelectionStatus::Choosing),
    {
        match self.status {
            SelectionStatus::Choosing => true,
            _ => false,
        }
    }

    /// Applies an event and returns what the UI does in answer.
    pub fn handle(&mut self, event: SelectionEvent) -> (action: SelectionAction)
        ensures
            (final(self)@, action) == step(old(self)@, event),
            model_wf(final(self)@),
    {
        proof {
            use_type_invariant(&*self);
        }
        match self.status {
            SelectionStatus::Choosing => {},
            _ => return SelectionAction::Nothing,
        }
        let n = self.accepted.len();
        match event {
            SelectionEvent::Highlight(i) => {
                if i < n {
                    self.focus = i;
                    SelectionAction::ShowDetail(i)
                } else {
                    SelectionAction::Nothing
                }
            },
            SelectionEvent::Down => {
                let last = if n == 0 { 0 } else { n - 1 };
                self.focus = if self.focus < last { self.focus + 1 } else { last };
                SelectionAction::MoveTo(self.focus)
            },
            SelectionEvent::Up => {
                self.focus = if self.focus == 0 { 0 } else { self.focus - 1 };
                SelectionAction::MoveTo(self.focus)
            },
            SelectionEvent::Toggle => {
                if self.focus < n {
                    let f = self.focus;
                    let mut flags = self.accepted.clone();
                    assert(flags@ =~= self.accepted@);
                    let flipped = !flags[f];
                    flags.set(f, flipped);
                    self.accepted = flags;
                    SelectionAction::Redraw(f)
                } else {
                    SelectionAction::Nothing
                }
            },
            SelectionEvent::AcceptAll => {
                self.accepted = all_true(n);
                self.status = SelectionStatus::Confirmed;
                SelectionAction::Quit
            },
            SelectionEvent::Confirm => {
                self.status = SelectionStatus::Confirmed;
                SelectionAction::Quit
            },
            SelectionEvent::Cancel => {
                self.status = SelectionStatus::Cancelled;
                SelectionAction::Quit
            },
        }
    }

    /// The indices of the entries to convert (see `chosen`).
    pub fn selected_indices(&self) -> (indices: Vec<usize>)
        ensures
            indices@ == chosen(self@),
    {
        let mut indices: Vec<usize> = Vec::new();
        match self.status {
            SelectionStatus::Cancelled => {
                assert(indices@ =~= chosen(self@));
                return indices;
            },
            _ => {},
        }
        let n = self.accepted.len();
        let mut i: usize = 0;
        assert(self.accepted@.take(0) =~= Seq::<bool>::empty());
        while i < n
            invariant
                i <= n == self.accepted@.len(),
                indices@ == accepted_indices(self.accepted@.take(i as int)),
            decreases n - i,
        {
            assert(self.accepted@.take(i + 1).drop_last() =~= self.accepted@.take(i as int));
            if self.accepted[i] {
                indices.push(i);
            }
            i = i + 1;
        }
        assert(self.accepted@.take(n as int) =~= self.accepted@);
        indices
    }
}

} // verus!
