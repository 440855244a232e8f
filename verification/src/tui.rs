//! The state of the interactive terminal view: the listening processes, the
//! search that filters them, the selected row, and what each key does. The
//! terminal, the listing and the signals are the caller's: a key or an
//! outcome goes in, and an [`Effect`] comes out for the caller to carry out.
use vstd::prelude::*;

use crate::cli::command_text;
use crate::ports::{PortEntry, PortEntryView, entries_view, protocol_label};
use crate::text::{
    chars_of, contains_chars, contains_seq, decimal, decimal_chars, decimal_string, lowercase,
    pop_char, push_char, push_chars, push_str, to_lowercase,
};

verus! {

/// What the view shows and which keys it takes.
#[derive(Debug, Clone, Copy, PartialEq, Eq, Structural)]
pub enum Mode {
    /// The table of processes.
    Normal,
    /// Typing a search.
    Search,
    /// The details of the selected process.
    Details,
    /// Asking whether to send SIGTERM.
    ConfirmKill,
    /// Asking whether to send SIGKILL.
    ConfirmForceKill,
}

/// A key press, as the view tells keys apart.
#[derive(Debug, Clone, Copy, PartialEq, Eq, Structural)]
pub enum Key {
    Char(char),
    Up,
    Down,
    Enter,
    Esc,
    Backspace,
    /// Any other key.
    Other,
}

/// Work that the caller carries out, passing the outcome back.
#[derive(Debug, Clone, Copy, PartialEq, Eq, Structural)]
pub enum Effect {
    /// Nothing to do.
    Nothing,
    /// List the processes again and pass the outcome to [`App::refresh`].
    Refresh,
    /// Send SIGTERM to the PID and pass the outcome to
    /// [`App::terminate_result`].
    Terminate(u32),
    /// Pass whether the PID still runs to [`App::running_result`].
    CheckRunning(u32),
    /// Send SIGKILL to the PID and pass the outcome to
    /// [`App::force_kill_result`].
    ForceKill(u32),
}

/// The state of the terminal view.
pub struct App {
    entries: Vec<PortEntry>,
    filtered: Vec<PortEntry>,
    selected: usize,
    search: String,
    old_search: String,
    mode: Mode,
    status: String,
    should_quit: bool,
}

/// What an [`App`] holds.
#[verifier::ext_equal]
pub struct AppView {
    /// All listening processes.
    pub entries: Seq<PortEntryView>,
    /// Those that match the search, in order.
    pub filtered: Seq<PortEntryView>,
    /// The position of the selected row among `filtered`.
    pub selected: usize,
    /// The search text.
    pub search: Seq<char>,
    /// The search text when the search began, restored by Esc.
    pub old_search: Seq<char>,
    pub mode: Mode,
    /// The status line.
    pub status: Seq<char>,
    pub should_quit: bool,
}

impl View for App {
    type V = AppView;

    closed spec fn view(&self) -> AppView {
        AppView {
            entries: entries_view(self.entries@),
            filtered: entries_view(self.filtered@),
            selected: self.selected,
            search: self.search@,
            old_search: self.old_search@,
            mode: self.mode,
            status: self.status@,
            should_quit: self.should_quit,
        }
    }
}

// ---------------------------------------------------------------------------
// The model
// ---------------------------------------------------------------------------

/// Does `e` match the lowercase query `q`: an empty query matches everything,
/// and otherwise `q` must occur in the port, the PID, or the lowercase
/// process name or command.
pub open spec fn matches_query(e: PortEntryView, q: Seq<char>) -> bool {
    ||| q.len() == 0
    ||| contains_seq(decimal(e.port as nat), q)
    ||| contains_seq(decimal(e.pid as nat), q)
    ||| contains_seq(lowercase(e.process_name), q)
    ||| contains_seq(lowercase(command_text(e)), q)
}

/// The entries that match the lowercase query `q`, in order.
pub open spec fn query_filter(es: Seq<PortEntryView>, q: Seq<char>) -> Seq<PortEntryView> {
    es.filter(|e: PortEntryView| matches_query(e, q))
}

/// The entries that the search text `search` lets through: all of them
/// when it is empty, else those that match it in lowercase.
pub open spec fn search_filter(es: Seq<PortEntryView>, search: Seq<char>) -> Seq<PortEntryView> {
    if search.len() == 0 {
        es
    } else {
        query_filter(es, lowercase(search))
    }
}

/// A selection kept among `len` rows: the last row at most, and 0 when there
/// are none.
pub open spec fn clamp(selected: usize, len: nat) -> usize {
    if len == 0 {
        0
    } else if selected < len {
        selected
    } else {
        (len - 1) as usize
    }
}

/// The state after the filter is applied again.
pub open spec fn with_filter(a: AppView) -> AppView {
    let f = search_filter(a.entries, a.search);
    AppView { filtered: f, selected: clamp(a.selected, f.len()), ..a }
}

/// The state's invariant: the rows are the entries that the search lets
/// through, and the selection is a row (or 0 when there is none).
pub open spec fn app_wf(a: AppView) -> bool {
    &&& a.filtered == search_filter(a.entries, a.search)
    &&& a.selected == clamp(a.selected, a.filtered.len())
}

/// The selected row, if there is one.
pub open spec fn selected_entry(a: AppView) -> Option<PortEntryView> {
    if a.selected < a.filtered.len() {
        Some(a.filtered[a.selected as int])
    } else {
        None
    }
}

/// The models of a listing: the processes found, or an error message.
pub open spec fn listing_view(l: Result<Vec<PortEntry>, String>) -> Result<
    Seq<PortEntryView>,
    Seq<char>,
> {
    match l {
        Ok(es) => Ok(entries_view(es@)),
        Err(m) => Err(m@),
    }
}

/// The status line after a listing of `n` processes.
pub open spec fn count_status(n: nat) -> Seq<char> {
    decimal(n) + " listening process(es)"@
}

/// The state after a listing: its processes, filtered again, and their
/// number in the status line; or, on an error, the error in the status line.
pub open spec fn refreshed(a: AppView, listing: Result<Seq<PortEntryView>, Seq<char>>) -> AppView {
    match listing {
        Ok(es) => AppView { status: count_status(es.len()), ..with_filter(AppView { entries: es, ..a }) },
        Err(m) => AppView { status: m, ..a },
    }
}

/// The state in which the view starts, before its first listing.
pub open spec fn initial_view() -> AppView {
    AppView {
        entries: seq![],
        filtered: seq![],
        selected: 0,
        search: seq![],
        old_search: seq![],
        mode: Mode::Normal,
        status: seq![],
        should_quit: false,
    }
}

/// The search text after Backspace.
pub open spec fn search_without_last(s: Seq<char>) -> Seq<char> {
    if s.len() > 0 {
        s.drop_last()
    } else {
        s
    }
}

/// The state after the selection moves up a row, if it can.
pub open spec fn moved_up(a: AppView) -> AppView {
    AppView { selected: if a.selected > 0 { (a.selected - 1) as usize } else { 0 }, ..a }
}

/// The state after the selection moves down a row, if it can.
pub open spec fn moved_down(a: AppView) -> AppView {
    AppView {
        selected: if a.selected + 1 < a.filtered.len() { (a.selected + 1) as usize } else { a.selected },
        ..a
    }
}

/// What a key does in each mode: the next state and the work to carry out.
pub open spec fn key_step(a: AppView, key: Key) -> (AppView, Effect) {
    match a.mode {
        Mode::Normal => {
            if key == Key::Char('q') || key == Key::Esc {
                (AppView { should_quit: true, ..a }, Effect::Nothing)
            } else if key == Key::Up || key == Key::Char('k') {
                (moved_up(a), Effect::Nothing)
            } else if key == Key::Down || key == Key::Char('j') {
                (moved_down(a), Effect::Nothing)
            } else if key == Key::Char('r') {
                (a, Effect::Refresh)
            } else if key == Key::Char('/') {
                (AppView { old_search: a.search, mode: Mode::Search, ..a }, Effect::Nothing)
            } else if key == Key::Enter && selected_entry(a) is Some {
                (AppView { mode: Mode::Details, ..a }, Effect::Nothing)
            } else if key == Key::Char('x') && selected_entry(a) is Some {
                (AppView { mode: Mode::ConfirmKill, ..a }, Effect::Nothing)
            } else {
                (a, Effect::Nothing)
            }
        },
        Mode::Search => match key {
            Key::Enter => (AppView { mode: Mode::Normal, ..a }, Effect::Nothing),
            Key::Esc => (AppView { mode: Mode::Normal, ..with_filter(AppView { search: a.old_search, ..a }) }, Effect::Nothing),
            Key::Backspace => (with_filter(AppView { search: search_without_last(a.search), ..a }), Effect::Nothing),
            Key::Char(c) => (with_filter(AppView { search: a.search.push(c), ..a }), Effect::Nothing),
            _ => (a, Effect::Nothing),
        },
        Mode::Details => {
            if key == Key::Esc {
                (AppView { mode: Mode::Normal, ..a }, Effect::Nothing)
            } else if key == Key::Char('x') {
                (AppView { mode: Mode::ConfirmKill, ..a }, Effect::Nothing)
            } else {
                (a, Effect::Nothing)
            }
        },
        Mode::ConfirmKill => {
            if key == Key::Char('y') || key == Key::Char('Y') {
                match selected_entry(a) {
                    Some(e) => (a, Effect::Terminate(e.pid)),
                    None => (a, Effect::Nothing),
                }
            } else if key == Key::Char('n') || key == Key::Char('N') || key == Key::Esc {
                (AppView { mode: Mode::Normal, ..a }, Effect::Nothing)
            } else {
                (a, Effect::Nothing)
            }
        },
        Mode::ConfirmForceKill => {
            if key == Key::Char('y') || key == Key::Char('Y') {
                match selected_entry(a) {
                    Some(e) => (a, Effect::ForceKill(e.pid)),
                    None => (a, Effect::Nothing),
                }
            } else if key == Key::Char('n') || key == Key::Char('N') || key == Key::Esc {
                (AppView { mode: Mode::Normal, ..a }, Effect::Nothing)
            } else {
                (a, Effect::Nothing)
            }
        },
    }
}

/// The notice after the signal `signal` was sent to `e`.
pub open spec fn signal_status(signal: Seq<char>, e: PortEntryView) -> Seq<char> {
    "Sent "@ + signal + " to "@ + e.process_name + " PID "@ + decimal(e.pid as nat)
}

/// The status line after a signal could not be sent.
pub open spec fn failure_status(error: Seq<char>) -> Seq<char> {
    error + "\nTry running with sudo or terminate it manually."@
}

/// The state after the outcome of SIGTERM to the selected process: on
/// success a notice and a check whether it still runs; on an error the
/// error, back in the table.
pub open spec fn terminate_step(a: AppView, result: Result<(), Seq<char>>) -> (AppView, Effect) {
    match selected_entry(a) {
        None => (a, Effect::Nothing),
        Some(e) => match result {
            Ok(()) => (AppView { status: signal_status("SIGTERM"@, e), ..a }, Effect::CheckRunning(e.pid)),
            Err(m) => (AppView { status: failure_status(m), mode: Mode::Normal, ..a }, Effect::Nothing),
        },
    }
}

/// The state after learning whether the process still runs: if so, the
/// question whether to send SIGKILL; if not, the table, listed again.
pub open spec fn running_step(a: AppView, running: bool) -> (AppView, Effect) {
    if running {
        (AppView { mode: Mode::ConfirmForceKill, ..a }, Effect::Nothing)
    } else {
        (AppView { mode: Mode::Normal, ..a }, Effect::Refresh)
    }
}

/// The state after the outcome of SIGKILL to the selected process: the
/// table, with a notice and listed again on success, with the error
/// otherwise.
pub open spec fn force_kill_step(a: AppView, result: Result<(), Seq<char>>) -> (AppView, Effect) {
    match selected_entry(a) {
        None => (a, Effect::Nothing),
        Some(e) => match result {
            Ok(()) => (AppView { status: signal_status("SIGKILL"@, e), mode: Mode::Normal, ..a }, Effect::Refresh),
            Err(m) => (AppView { status: failure_status(m), mode: Mode::Normal, ..a }, Effect::Nothing),
        },
    }
}

/// The model of the outcome of a signal.
pub open spec fn outcome_view(r: Result<(), String>) -> Result<(), Seq<char>> {
    match r {
        Ok(()) => Ok(()),
        Err(m) => Err(m@),
    }
}

// ---------------------------------------------------------------------------
// What the view shows
// ---------------------------------------------------------------------------

/// The title above the table, with the number of rows.
pub open spec fn title_text(a: AppView) -> Seq<char> {
    "Unbind - Local listening ports ("@ + decimal(a.filtered.len()) + ")"@
}

/// The notice shown in place of an empty table.
pub open spec fn empty_notice_text(a: AppView) -> Option<Seq<char>> {
    if a.filtered.len() > 0 {
        None
    } else if a.search.len() == 0 {
        Some("No local TCP listening ports found."@)
    } else {
        Some("No ports match the current search."@)
    }
}

/// The line under the table: the search being typed, or the status line
/// with the keys.
pub open spec fn help_text_of(a: AppView) -> Seq<char> {
    if a.mode == Mode::Search {
        "Search: "@ + a.search + "  [Enter] Confirm  [Esc] Cancel"@
    } else {
        a.status + "  [j/k] Move  [/] Search  [Enter] Details  [x] Kill  [r] Refresh  [q] Quit"@
    }
}

/// The cells of the table row of `e`.
pub open spec fn cells_of(e: PortEntryView) -> Seq<Seq<char>> {
    seq![
        decimal(e.port as nat),
        protocol_label(e.protocol),
        decimal(e.pid as nat),
        e.process_name,
        e.address,
        command_text(e),
    ]
}

/// The lines of the details of `e`.
pub open spec fn details_of(e: PortEntryView) -> Seq<Seq<char>> {
    seq![
        "Port:      "@ + decimal(e.port as nat),
        "Protocol:  "@ + protocol_label(e.protocol),
        "Address:   "@ + e.address,
        "Process:   "@ + e.process_name,
        "PID:       "@ + decimal(e.pid as nat),
        "Command:   "@ + command_text(e),
        Seq::empty(),
        "[Esc] Back  [x] Kill"@,
    ]
}

/// The lines of the question whether to send SIGTERM (or, with `force`,
/// SIGKILL) to `e`.
pub open spec fn confirm_of(e: PortEntryView, force: bool) -> Seq<Seq<char>> {
    seq![
        if force { "Process did not exit. Force kill with SIGKILL?"@ } else { "Kill this process with SIGTERM?"@ },
        Seq::empty(),
        "Process: "@ + e.process_name,
        "PID:     "@ + decimal(e.pid as nat),
        "Port:    "@ + decimal(e.port as nat),
        "Command: "@ + command_text(e),
        Seq::empty(),
        "[y] Yes    [n] No"@,
    ]
}

/// The models of some strings.
pub open spec fn strings_view(v: Seq<String>) -> Seq<Seq<char>> {
    v.map_values(|s: String| s@)
}

// ---------------------------------------------------------------------------
// The implementation
// ---------------------------------------------------------------------------

/// Does `e` match the lowercase query `q`?
fn entry_matches(e: &PortEntry, q: &Vec<char>) -> (r: bool)
    ensures
        r == matches_query(e@, q@),
{
    if q.len() == 0 {
        return true;
    }
    let port = decimal_chars(e.port as u64);
    if contains_chars(&port, q) {
        return true;
    }
    let pid = decimal_chars(e.pid as u64);
    if contains_chars(&pid, q) {
        return true;
    }
    let name = to_lowercase(e.process_name.as_str());
    let name_chars = chars_of(name.as_str());
    if contains_chars(&name_chars, q) {
        return true;
    }
    let command = match &e.command {
        Some(c) => to_lowercase(c.as_str()),
        None => {
            let empty = "";
            proof {
                reveal_strlit("");
            }
            assert(empty@ =~= command_text(e@));
            to_lowercase(empty)
        },
    };
    let command_chars = chars_of(command.as_str());
    contains_chars(&command_chars, q)
}

impl App {
    /// The state's invariant holds.
    pub open spec fn wf(&self) -> bool {
        app_wf(self@)
    }

    /// The view before anything was listed, with the outcome of the first
    /// listing applied.
    pub fn new(listing: Result<Vec<PortEntry>, String>) -> (r: App)
        ensures
            r.wf(),
            r@ == refreshed(initial_view(), listing_view(listing)),
    {
        let mut app = App {
            entries: Vec::new(),
            filtered: Vec::new(),
            selected: 0,
            search: String::new(),
            old_search: String::new(),
            mode: Mode::Normal,
            status: String::new(),
            should_quit: false,
        };
        proof {
            assert(entries_view(app.entries@) =~= Seq::<PortEntryView>::empty());
            assert(entries_view(app.filtered@) =~= Seq::<PortEntryView>::empty());
            assert(app@ =~= initial_view());
            assert(search_filter(app@.entries, app@.search) =~= Seq::<PortEntryView>::empty());
        }
        app.refresh(listing);
        app
    }

    /// Applies the filter of the search text again, keeping the selection
    /// among the rows.
    fn apply_filter(&mut self)
        ensures
            final(self)@ == with_filter(old(self)@),
    {
        let keep_all = self.search.as_str().is_empty();
        let query = to_lowercase(self.search.as_str());
        let q = chars_of(query.as_str());
        let ghost es = entries_view(self.entries@);
        let ghost qv = q@;
        let mut filtered: Vec<PortEntry> = Vec::new();
        let mut i: usize = 0;
        assert(es.take(0) =~= Seq::<PortEntryView>::empty());
        proof {
            reveal_with_fuel(Seq::<_>::filter, 1);
        }
        assert(entries_view(filtered@) =~= query_filter(es.take(0), qv));
        assert(entries_view(filtered@) =~= es.take(0));
        while i < self.entries.len()
            invariant
                i <= self.entries@.len(),
                es == entries_view(self.entries@),
                qv == q@,
                keep_all ==> entries_view(filtered@) == es.take(i as int),
                !keep_all ==> entries_view(filtered@) == query_filter(es.take(i as int), qv),
            decreases self.entries@.len() - i,
        {
            proof {
                assert(es.take(i + 1).drop_last() =~= es.take(i as int));
                assert(es.take(i + 1).last() == self.entries@[i as int]@);
            }
            let e = &self.entries[i];
            let ghost before = entries_view(filtered@);
            let ghost pred = |x: PortEntryView| matches_query(x, qv);
            let ghost t = es.take(i + 1);
            proof {
                reveal_with_fuel(Seq::<_>::filter, 1);
            }
            assert(query_filter(t, qv) == t.filter(pred));
            if keep_all || entry_matches(e, &q) {
                filtered.push(e.duplicate());
                assert(entries_view(filtered@) =~= before.push(e@));
                assert(keep_all ==> entries_view(filtered@) =~= es.take(i + 1));
            }
            i = i + 1;
        }
        assert(es.take(self.entries@.len() as int) =~= es);
        self.filtered = filtered;
        let n = self.filtered.len();
        if n == 0 {
            self.selected = 0;
        } else if self.selected >= n {
            self.selected = n - 1;
        }
        proof {
            assert(self@ =~= with_filter(old(self)@));
        }
    }

    /// Takes the outcome of listing the processes: the processes, or the
    /// error message.
    pub fn refresh(&mut self, listing: Result<Vec<PortEntry>, String>)
        ensures
            final(self)@ == refreshed(old(self)@, listing_view(listing)),
            old(self).wf() || listing is Ok ==> final(self).wf(),
    {
        match listing {
            Ok(entries) => {
                let n = entries.len();
                self.entries = entries;
                self.apply_filter();
                let mut status = String::new();
                let digits = decimal_chars(n as u64);
                push_chars(&mut status, &digits);
                push_str(&mut status, " listening process(es)");
                self.status = status;
                proof {
                    assert(self@ =~= refreshed(old(self)@, listing_view(listing)));
                }
            },
            Err(message) => {
                self.status = message;
                proof {
                    assert(self@ =~= refreshed(old(self)@, listing_view(listing)));
                }
            },
        }
    }

    /// The selected row, if there is one.
    pub fn selected(&self) -> (r: Option<&PortEntry>)
        ensures
            match r {
                Some(e) => selected_entry(self@) == Some(e@),
                None => selected_entry(self@) is None,
            },
    {
        if self.selected < self.filtered.len() {
            Some(&self.filtered[self.selected])
        } else {
            None
        }
    }

    fn move_up(&mut self)
        ensures
            final(self)@ == moved_up(old(self)@),
    {
        if self.selected > 0 {
            self.selected = self.selected - 1;
        }
        proof {
            assert(self@ =~= moved_up(old(self)@));
        }
    }

    fn move_down(&mut self)
        ensures
            final(self)@ == moved_down(old(self)@),
    {
        if self.selected < self.filtered.len() && self.selected + 1 < self.filtered.len() {
            self.selected = self.selected + 1;
        }
        proof {
            assert(self@ =~= moved_down(old(self)@));
        }
    }

    /// Carries out what a key does in the current mode (see [`key_step`]).
    pub fn handle_key(&mut self, key: Key) -> (r: Effect)
        ensures
            (final(self)@, r) == key_step(old(self)@, key),
            old(self).wf() ==> final(self).wf(),
    {
        proof {
            if app_wf(self@) {
                keys_keep_invariant(self@, key);
            }
        }
        let ghost a = self@;
        match self.mode {
            Mode::Normal => match key {
                Key::Char('q') | Key::Esc => {
                    self.should_quit = true;
                    assert(self@ =~= key_step(a, key).0);
                    Effect::Nothing
                },
                Key::Up | Key::Char('k') => {
                    self.move_up();
                    Effect::Nothing
                },
                Key::Down | Key::Char('j') => {
                    self.move_down();
                    Effect::Nothing
                },
                Key::Char('r') => Effect::Refresh,
                Key::Char('/') => {
                    self.old_search = self.search.clone();
                    self.mode = Mode::Search;
                    assert(self@ =~= key_step(a, key).0);
                    Effect::Nothing
                },
                Key::Enter => {
                    if self.selected().is_some() {
                        self.mode = Mode::Details;
                        assert(self@ =~= key_step(a, key).0);
                    }
                    Effect::Nothing
                },
                Key::Char('x') => {
                    if self.selected().is_some() {
                        self.mode = Mode::ConfirmKill;
                        assert(self@ =~= key_step(a, key).0);
                    }
                    Effect::Nothing
                },
                _ => Effect::Nothing,
            },
            Mode::Search => match key {
                Key::Enter => {
                    self.mode = Mode::Normal;
                    assert(self@ =~= key_step(a, key).0);
                    Effect::Nothing
                },
                Key::Esc => {
                    self.search = self.old_search.clone();
                    self.apply_filter();
                    self.mode = Mode::Normal;
                    assert(self@ =~= key_step(a, key).0);
                    Effect::Nothing
                },
                Key::Backspace => {
                    pop_char(&mut self.search);
                    self.apply_filter();
                    Effect::Nothing
                },
                Key::Char(c) => {
                    push_char(&mut self.search, c);
                    self.apply_filter();
                    Effect::Nothing
                },
                _ => Effect::Nothing,
            },
            Mode::Details => match key {
                Key::Esc => {
                    self.mode = Mode::Normal;
                    assert(self@ =~= key_step(a, key).0);
                    Effect::Nothing
                },
                Key::Char('x') => {
                    self.mode = Mode::ConfirmKill;
                    assert(self@ =~= key_step(a, key).0);
                    Effect::Nothing
                },
                _ => Effect::Nothing,
            },
            Mode::ConfirmKill => match key {
                Key::Char('y') | Key::Char('Y') => self.confirm_kill(),
                Key::Char('n') | Key::Char('N') | Key::Esc => {
                    self.mode = Mode::Normal;
                    assert(self@ =~= key_step(a, key).0);
                    Effect::Nothing
                },
                _ => Effect::Nothing,
            },
            Mode::ConfirmForceKill => match key {
                Key::Char('y') | Key::Char('Y') => self.confirm_force_kill(),
                Key::Char('n') | Key::Char('N') | Key::Esc => {
                    self.mode = Mode::Normal;
                    assert(self@ =~= key_step(a, key).0);
                    Effect::Nothing
                },
                _ => Effect::Nothing,
            },
        }
    }

    /// Asks to send SIGTERM to the selected process, if there is one.
    fn confirm_kill(&self) -> (r: Effect)
        ensures
            r == match selected_entry(self@) {
                Some(e) => Effect::Terminate(e.pid),
                None => Effect::Nothing,
            },
    {
        match self.selected() {
            Some(e) => Effect::Terminate(e.pid),
            None => Effect::Nothing,
        }
    }

    /// Asks to send SIGKILL to the selected process, if there is one.
    fn confirm_force_kill(&self) -> (r: Effect)
        ensures
            r == match selected_entry(self@) {
                Some(e) => Effect::ForceKill(e.pid),
                None => Effect::Nothing,
            },
    {
        match self.selected() {
            Some(e) => Effect::ForceKill(e.pid),
            None => Effect::Nothing,
        }
    }

    /// Takes the outcome of SIGTERM to the selected process (see
    /// [`terminate_step`]).
    pub fn terminate_result(&mut self, result: Result<(), String>) -> (r: Effect)
        ensures
            (final(self)@, r) == terminate_step(old(self)@, outcome_view(result)),
            old(self).wf() ==> final(self).wf(),
    {
        proof {
            if app_wf(self@) {
                outcomes_keep_invariant(self@, Err(Seq::empty()), outcome_view(result), false);
            }
        }
        let ghost a = self@;
        let (pid, status) = match self.selected() {
            None => {
                return Effect::Nothing;
            },
            Some(e) => (e.pid, signal_message("SIGTERM", e)),
        };
        match result {
            Ok(()) => {
                self.status = status;
                assert(self@ =~= terminate_step(a, outcome_view(result)).0);
                Effect::CheckRunning(pid)
            },
            Err(message) => {
                let mut m = message;
                push_str(&mut m, "\nTry running with sudo or terminate it manually.");
                self.status = m;
                self.mode = Mode::Normal;
                assert(self@ =~= terminate_step(a, outcome_view(result)).0);
                Effect::Nothing
            },
        }
    }

    /// Takes whether the process still runs after SIGTERM (see
    /// [`running_step`]).
    pub fn running_result(&mut self, running: bool) -> (r: Effect)
        ensures
            (final(self)@, r) == running_step(old(self)@, running),
            old(self).wf() ==> final(self).wf(),
    {
        proof {
            if app_wf(self@) {
                outcomes_keep_invariant(self@, Err(Seq::empty()), Ok(()), running);
            }
        }
        let ghost a = self@;
        if running {
            self.mode = Mode::ConfirmForceKill;
            assert(self@ =~= running_step(a, running).0);
            Effect::Nothing
        } else {
            self.mode = Mode::Normal;
            assert(self@ =~= running_step(a, running).0);
            Effect::Refresh
        }
    }

    /// Takes the outcome of SIGKILL to the selected process (see
    /// [`force_kill_step`]).
    pub fn force_kill_result(&mut self, result: Result<(), String>) -> (r: Effect)
        ensures
            (final(self)@, r) == force_kill_step(old(self)@, outcome_view(result)),
            old(self).wf() ==> final(self).wf(),
    {
        proof {
            if app_wf(self@) {
                outcomes_keep_invariant(self@, Err(Seq::empty()), outcome_view(result), false);
            }
        }
        let ghost a = self@;
        let status = match self.selected() {
            None => {
                return Effect::Nothing;
            },
            Some(e) => signal_message("SIGKILL", e),
        };
        match result {
            Ok(()) => {
                self.status = status;
                self.mode = Mode::Normal;
                assert(self@ =~= force_kill_step(a, outcome_view(result)).0);
                Effect::Refresh
            },
            Err(message) => {
                let mut m = message;
                push_str(&mut m, "\nTry running with sudo or terminate it manually.");
                self.status = m;
                self.mode = Mode::Normal;
                assert(self@ =~= force_kill_step(a, outcome_view(result)).0);
                Effect::Nothing
            },
        }
    }

    /// The rows: the entries that the search lets through.
    pub fn rows(&self) -> (r: &Vec<PortEntry>)
        ensures
            entries_view(r@) == self@.filtered,
    {
        &self.filtered
    }

    /// The position of the selected row.
    pub fn selected_index(&self) -> (r: usize)
        ensures
            r == self@.selected,
    {
        self.selected
    }

    /// The search text.
    pub fn search(&self) -> (r: &str)
        ensures
            r@ == self@.search,
    {
        self.search.as_str()
    }

    /// What the view shows and which keys it takes.
    pub fn mode(&self) -> (r: Mode)
        ensures
            r == self@.mode,
    {
        self.mode
    }

    /// The status line.
    pub fn status(&self) -> (r: &str)
        ensures
            r@ == self@.status,
    {
        self.status.as_str()
    }

    /// Has a key asked to leave the view?
    pub fn should_quit(&self) -> (r: bool)
        ensures
            r == self@.should_quit,
    {
        self.should_quit
    }

    /// The title above the table.
    pub fn title(&self) -> (r: String)
        ensures
            r@ == title_text(self@),
    {
        let mut t = String::new();
        push_str(&mut t, "Unbind - Local listening ports (");
        let digits = decimal_chars(self.filtered.len() as u64);
        push_chars(&mut t, &digits);
        push_str(&mut t, ")");
        assert(t@ =~= title_text(self@));
        t
    }

    /// The notice shown in place of an empty table, if the table is empty.
    pub fn empty_notice(&self) -> (r: Option<String>)
        ensures
            match r {
                Some(t) => empty_notice_text(self@) == Some(t@),
                None => empty_notice_text(self@) is None,
            },
    {
        if self.filtered.len() > 0 {
            return None;
        }
        let mut t = String::new();
        if self.search.as_str().is_empty() {
            push_str(&mut t, "No local TCP listening ports found.");
        } else {
            push_str(&mut t, "No ports match the current search.");
        }
        assert(t@ =~= empty_notice_text(self@).unwrap());
        Some(t)
    }

    /// The line under the table.
    pub fn help_text(&self) -> (r: String)
        ensures
            r@ == help_text_of(self@),
    {
        let mut t = String::new();
        if self.mode == Mode::Search {
            push_str(&mut t, "Search: ");
            push_str(&mut t, self.search.as_str());
            push_str(&mut t, "  [Enter] Confirm  [Esc] Cancel");
        } else {
            push_str(&mut t, self.status.as_str());
            push_str(&mut t, "  [j/k] Move  [/] Search  [Enter] Details  [x] Kill  [r] Refresh  [q] Quit");
        }
        assert(t@ =~= help_text_of(self@));
        t
    }

    /// The lines of the details of the selected process, if there is one.
    pub fn details(&self) -> (r: Option<Vec<String>>)
        ensures
            match r {
                Some(v) => selected_entry(self@) is Some && strings_view(v@) == details_of(selected_entry(self@).unwrap()),
                None => selected_entry(self@) is None,
            },
    {
        match self.selected() {
            None => None,
            Some(e) => {
                let mut v: Vec<String> = Vec::new();
                v.push(labelled("Port:      ", &decimal_string(e.port as u64)));
                v.push(labelled("Protocol:  ", e.protocol.label()));
                v.push(labelled("Address:   ", e.address.as_str()));
                v.push(labelled("Process:   ", e.process_name.as_str()));
                v.push(labelled("PID:       ", &decimal_string(e.pid as u64)));
                v.push(command_line("Command:   ", e));
                v.push(String::new());
                v.push(labelled("[Esc] Back  [x] Kill", ""));
                proof {
                    reveal_strlit("");
                    assert(strings_view(v@) =~= details_of(e@));
                }
                Some(v)
            },
        }
    }

    /// The lines of the question whether to send SIGTERM (or, with `force`,
    /// SIGKILL) to the selected process, if there is one.
    pub fn confirmation(&self, force: bool) -> (r: Option<Vec<String>>)
        ensures
            match r {
                Some(v) => selected_entry(self@) is Some && strings_view(v@) == confirm_of(selected_entry(self@).unwrap(), force),
                None => selected_entry(self@) is None,
            },
    {
        match self.selected() {
            None => None,
            Some(e) => {
                let mut v: Vec<String> = Vec::new();
                if force {
                    v.push(labelled("Process did not exit. Force kill with SIGKILL?", ""));
                } else {
                    v.push(labelled("Kill this process with SIGTERM?", ""));
                }
                v.push(String::new());
                v.push(labelled("Process: ", e.process_name.as_str()));
                v.push(labelled("PID:     ", &decimal_string(e.pid as u64)));
                v.push(labelled("Port:    ", &decimal_string(e.port as u64)));
                v.push(command_line("Command: ", e));
                v.push(String::new());
                v.push(labelled("[y] Yes    [n] No", ""));
                proof {
                    reveal_strlit("");
                    assert(strings_view(v@) =~= confirm_of(e@, force));
                }
                Some(v)
            },
        }
    }

}

/// The status after the signal `signal` was sent to `e`.
fn signal_message(signal: &str, e: &PortEntry) -> (r: String)
    ensures
        r@ == signal_status(signal@, e@),
{
    let mut m = String::new();
    push_str(&mut m, "Sent ");
    push_str(&mut m, signal);
    push_str(&mut m, " to ");
    push_str(&mut m, e.process_name.as_str());
    push_str(&mut m, " PID ");
    let digits = decimal_chars(e.pid as u64);
    push_chars(&mut m, &digits);
    assert(m@ =~= signal_status(signal@, e@));
    m
}

/// The cells of the table row of `e`.
pub fn table_cells(e: &PortEntry) -> (r: Vec<String>)
    ensures
        strings_view(r@) == cells_of(e@),
{
    let mut v: Vec<String> = Vec::new();
    v.push(decimal_string(e.port as u64));
    v.push(labelled(e.protocol.label(), ""));
    v.push(decimal_string(e.pid as u64));
    v.push(e.process_name.clone());
    v.push(e.address.clone());
    v.push(command_line("", e));
    proof {
        reveal_strlit("");
        assert(strings_view(v@) =~= cells_of(e@));
    }
    v
}

/// `label` followed by `value`.
fn labelled(label: &str, value: &str) -> (r: String)
    ensures
        r@ == label@ + value@,
{
    let mut s = String::new();
    push_str(&mut s, label);
    push_str(&mut s, value);
    assert(s@ =~= label@ + value@);
    s
}

/// `label` followed by the command of `e`.
fn command_line(label: &str, e: &PortEntry) -> (r: String)
    ensures
        r@ == label@ + command_text(e@),
{
    let mut s = String::new();
    push_str(&mut s, label);
    match &e.command {
        Some(c) => push_str(&mut s, c.as_str()),
        None => {},
    }
    assert(s@ =~= label@ + command_text(e@));
    s
}

/// A rectangle of terminal cells.
#[derive(Debug, Clone, Copy, PartialEq, Eq, Structural)]
pub struct Area {
    pub x: u16,
    pub y: u16,
    pub width: u16,
    pub height: u16,
}

/// `a - b`, or 0 when `b` is larger.
pub open spec fn sat_sub(a: u16, b: int) -> u16 {
    if a >= b {
        (a - b) as u16
    } else {
        0
    }
}

/// `a + b`, or the largest `u16` when the sum is larger.
pub open spec fn sat_add(a: u16, b: u16) -> u16 {
    if a + b <= u16::MAX {
        (a + b) as u16
    } else {
        u16::MAX
    }
}

/// The part of `area` that leaves a margin of `horizontal` cells on the left
/// and right and `vertical` cells at the top and bottom, shrunk to nothing
/// where the area is too small.
pub fn inner(area: Area, horizontal: u16, vertical: u16) -> (r: Area)
    requires
        horizontal * 2 <= u16::MAX,
        vertical * 2 <= u16::MAX,
    ensures
        r == (Area {
            x: sat_add(area.x, horizontal),
            y: sat_add(area.y, vertical),
            width: sat_sub(area.width, horizontal * 2),
            height: sat_sub(area.height, vertical * 2),
        }),
{
    Area {
        x: area.x.saturating_add(horizontal),
        y: area.y.saturating_add(vertical),
        width: area.width.saturating_sub(horizontal * 2),
        height: area.height.saturating_sub(vertical * 2),
    }
}

// ---------------------------------------------------------------------------
// Laws
// ---------------------------------------------------------------------------

/// Filtering again always yields a state that keeps the invariant.
pub proof fn filtering_restores_invariant(a: AppView)
    ensures
        app_wf(with_filter(a)),
{
}

/// Every key keeps the invariant: the rows are always the entries that the
/// search lets through, and the selection always a row.
pub proof fn keys_keep_invariant(a: AppView, key: Key)
    requires
        app_wf(a),
    ensures
        app_wf(key_step(a, key).0),
{
}

/// Every outcome that the caller passes back keeps the invariant.
pub proof fn outcomes_keep_invariant(
    a: AppView,
    listing: Result<Seq<PortEntryView>, Seq<char>>,
    result: Result<(), Seq<char>>,
    running: bool,
)
    requires
        app_wf(a),
    ensures
        app_wf(refreshed(a, listing)),
        app_wf(terminate_step(a, result).0),
        app_wf(running_step(a, running).0),
        app_wf(force_kill_step(a, result).0),
{
}

/// The state after the keys `keys`, one after the other.
pub open spec fn after_keys(a: AppView, keys: Seq<Key>) -> AppView
    decreases keys.len(),
{
    if keys.len() == 0 {
        a
    } else {
        key_step(after_keys(a, keys.drop_last()), keys.last()).0
    }
}

/// Is `k` a key that edits the search text (a character or Backspace)?
pub open spec fn is_edit_key(k: Key) -> bool {
    k matches Key::Char(_) || k == Key::Backspace
}

proof fn lemma_editing_stays_in_search(a: AppView, keys: Seq<Key>)
    requires
        a.mode == Mode::Search,
        forall|i: int| 0 <= i < keys.len() ==> is_edit_key(#[trigger] keys[i]),
    ensures
        after_keys(a, keys).mode == Mode::Search,
        after_keys(a, keys).old_search == a.old_search,
        after_keys(a, keys).entries == a.entries,
    decreases keys.len(),
{
    if keys.len() > 0 {
        assert forall|i: int| 0 <= i < keys.drop_last().len() implies is_edit_key(
            #[trigger] keys.drop_last()[i],
        ) by {
            assert(keys.drop_last()[i] == keys[i]);
        }
        lemma_editing_stays_in_search(a, keys.drop_last());
        assert(is_edit_key(keys[keys.len() - 1]));
    }
}

/// Starting a search with '/', editing it with any characters and
/// Backspace, and leaving it with Esc gives back the search text and the
/// rows from before, in the table.
pub proof fn cancelled_search_restores_rows(a: AppView, keys: Seq<Key>)
    requires
        app_wf(a),
        a.mode == Mode::Normal,
        forall|i: int| 0 <= i < keys.len() ==> is_edit_key(#[trigger] keys[i]),
    ensures
        ({
            let b = key_step(after_keys(key_step(a, Key::Char('/')).0, keys), Key::Esc).0;
            &&& b.mode == Mode::Normal
            &&& b.search == a.search
            &&& b.entries == a.entries
            &&& b.filtered == a.filtered
        }),
{
    let started = key_step(a, Key::Char('/')).0;
    lemma_editing_stays_in_search(started, keys);
}

/// Moving the selection down a row and back up returns to the row one
/// started from, whenever there is a row below it.
pub proof fn down_then_up_returns(a: AppView)
    requires
        a.filtered.len() <= usize::MAX,
        a.selected + 1 < a.filtered.len(),
    ensures
        moved_up(moved_down(a)) == a,
{
    assert(moved_up(moved_down(a)) =~= a);
}

/// An empty query lets every entry through.
pub proof fn empty_query_keeps_all(es: Seq<PortEntryView>)
    ensures
        query_filter(es, Seq::empty()) == es,
    decreases es.len(),
{
    reveal_with_fuel(Seq::<_>::filter, 1);
    if es.len() > 0 {
        empty_query_keeps_all(es.drop_last());
        assert(es.drop_last().push(es.last()) =~= es);
    }
}

/// The rows are the entries that the search lets through: with an empty
/// search every entry is a row; otherwise each row is an entry that matches
/// the lowercase search, and each entry that matches it is a row.
pub proof fn rows_are_matching_entries(a: AppView)
    requires
        app_wf(a),
    ensures
        a.search.len() == 0 ==> a.filtered == a.entries,
        a.search.len() > 0 ==> forall|i: int|
            0 <= i < a.filtered.len() ==> a.entries.contains(#[trigger] a.filtered[i])
                && matches_query(a.filtered[i], lowercase(a.search)),
        a.search.len() > 0 ==> forall|i: int|
            0 <= i < a.entries.len() && matches_query(#[trigger] a.entries[i], lowercase(a.search))
                ==> a.filtered.contains(a.entries[i]),
{
    if a.search.len() > 0 {
        let q = lowercase(a.search);
        let pred = |e: PortEntryView| matches_query(e, q);
        assert(a.filtered == a.entries.filter(pred));
        assert forall|i: int| 0 <= i < a.filtered.len() implies a.entries.contains(
            #[trigger] a.filtered[i],
        ) && matches_query(a.filtered[i], q) by {
            assert(a.filtered.contains(a.filtered[i]));
            a.entries.lemma_filter_contains_rev(pred, a.filtered[i]);
            a.entries.lemma_filter_pred(pred, i);
        }
        assert forall|i: int|
            0 <= i < a.entries.len() && matches_query(#[trigger] a.entries[i], q) implies a.filtered.contains(
            a.entries[i],
        ) by {
            a.entries.lemma_filter_contains(pred, i);
        }
    }
}

/// An empty search shows every entry.
pub proof fn empty_search_shows_every_entry(es: Seq<PortEntryView>)
    ensures
        search_filter(es, Seq::empty()) == es,
{
}

/// If `needle` occurs in `mid` and `mid` occurs in `hay`, `needle` occurs in
/// `hay`.
proof fn lemma_contains_trans(hay: Seq<char>, mid: Seq<char>, needle: Seq<char>)
    requires
        contains_seq(hay, mid),
        contains_seq(mid, needle),
    ensures
        contains_seq(hay, needle),
{
    let i = choose|i: int|
        0 <= i && i + mid.len() <= hay.len() && #[trigger] hay.subrange(i, i + mid.len()) == mid;
    let j = choose|j: int|
        0 <= j && j + needle.len() <= mid.len() && #[trigger] mid.subrange(j, j + needle.len())
            == needle;
    assert forall|k: int| 0 <= k < needle.len() implies hay.subrange(
        i + j,
        i + j + needle.len(),
    )[k] == needle[k] by {
        assert(hay.subrange(i, i + mid.len())[j + k] == mid[j + k]);
        assert(mid.subrange(j, j + needle.len())[k] == needle[k]);
    }
    assert(hay.subrange(i + j, i + j + needle.len()) =~= needle);
}

/// An entry that matches a query matches every part of it.
proof fn lemma_matches_narrower(e: PortEntryView, qa: Seq<char>, qb: Seq<char>)
    requires
        contains_seq(qb, qa),
        matches_query(e, qb),
    ensures
        matches_query(e, qa),
{
    if qb.len() == 0 {
        assert(qa.len() == 0);
    } else if contains_seq(decimal(e.port as nat), qb) {
        lemma_contains_trans(decimal(e.port as nat), qb, qa);
    } else if contains_seq(decimal(e.pid as nat), qb) {
        lemma_contains_trans(decimal(e.pid as nat), qb, qa);
    } else if contains_seq(lowercase(e.process_name), qb) {
        lemma_contains_trans(lowercase(e.process_name), qb, qa);
    } else {
        lemma_contains_trans(lowercase(command_text(e)), qb, qa);
    }
}

/// Filtering by a stronger predicate picks among what the weaker one keeps.
proof fn lemma_filter_narrower(
    es: Seq<PortEntryView>,
    weak: spec_fn(PortEntryView) -> bool,
    strong: spec_fn(PortEntryView) -> bool,
)
    requires
        forall|x: PortEntryView| #[trigger] strong(x) ==> weak(x),
    ensures
        es.filter(strong) == es.filter(weak).filter(strong),
    decreases es.len(),
{
    reveal_with_fuel(Seq::<_>::filter, 1);
    if es.len() > 0 {
        lemma_filter_narrower(es.drop_last(), weak, strong);
        let fw = es.drop_last().filter(weak);
        if weak(es.last()) {
            assert(fw.push(es.last()).drop_last() =~= fw);
            assert(fw.push(es.last()).last() == es.last());
        }
    }
}

/// Narrowing the search never adds rows: when the lowercase first search
/// occurs in the lowercase second one (or the first is empty), the rows of
/// the second are the rows of the first, filtered once more, and no more of
/// them.
pub proof fn narrowing_search_never_adds_rows(es: Seq<PortEntryView>, a: Seq<char>, b: Seq<char>)
    requires
        a.len() == 0 || (b.len() > 0 && contains_seq(lowercase(b), lowercase(a))),
    ensures
        search_filter(es, b) == search_filter(search_filter(es, a), b),
        search_filter(es, b).len() <= search_filter(es, a).len(),
{
    broadcast use vstd::seq_lib::group_filter_ensures;
    if a.len() > 0 {
        let qa = lowercase(a);
        let qb = lowercase(b);
        let weak = |e: PortEntryView| matches_query(e, qa);
        let strong = |e: PortEntryView| matches_query(e, qb);
        assert forall|x: PortEntryView| #[trigger] strong(x) implies weak(x) by {
            lemma_matches_narrower(x, qa, qb);
        }
        lemma_filter_narrower(es, weak, strong);
        assert(es.filter(weak).filter(strong).len() <= es.filter(weak).len());
    } else if b.len() > 0 {
        let strong = |e: PortEntryView| matches_query(e, lowercase(b));
        assert(es.filter(strong).len() <= es.len());
    }
}

/// The search finds an entry by its port, its PID, its process name or its
/// command, ignoring case: with a non-empty search, every entry whose port
/// or PID in decimal, or whose lowercase process name or command, holds the
/// lowercase search is a row; and every row is an entry that holds it in one
/// of these four.
pub proof fn search_finds_port_pid_name_or_command(a: AppView, e: PortEntryView)
    requires
        app_wf(a),
        a.search.len() > 0,
    ensures
        ({
            let q = lowercase(a.search);
            let command = match e.command {
                Some(c) => c,
                None => Seq::<char>::empty(),
            };
            a.entries.contains(e) && (contains_seq(decimal(e.port as nat), q) || contains_seq(
                decimal(e.pid as nat),
                q,
            ) || contains_seq(lowercase(e.process_name), q) || contains_seq(lowercase(command), q))
                ==> a.filtered.contains(e)
        }),
        ({
            let q = lowercase(a.search);
            let command = match e.command {
                Some(c) => c,
                None => Seq::<char>::empty(),
            };
            a.filtered.contains(e) ==> a.entries.contains(e) && (contains_seq(
                decimal(e.port as nat),
                q,
            ) || contains_seq(decimal(e.pid as nat), q) || contains_seq(lowercase(e.process_name), q)
                || contains_seq(lowercase(command), q))
        }),
{
    let q = lowercase(a.search);
    rows_are_matching_entries(a);
    if a.entries.contains(e) {
        let i = choose|i: int| 0 <= i < a.entries.len() && a.entries[i] == e;
        assert(a.entries[i] == e);
    }
    if a.filtered.contains(e) {
        let i = choose|i: int| 0 <= i < a.filtered.len() && a.filtered[i] == e;
        assert(a.filtered[i] == e);
        assert(q.len() > 0 || matches_query(e, q));
        if q.len() == 0 {
            assert(contains_seq(decimal(e.port as nat), q)) by {
                assert(q =~= Seq::<char>::empty());
                assert(decimal(e.port as nat).subrange(0int, 0int + q.len()) =~= q);
            }
        }
    }
}

/// What the keys do to the mode. In the table: 'q' and Esc quit, '/'
/// starts a search (remembering the search text), and Enter and 'x' open
/// the details and the SIGTERM question when a row is selected. In a search:
/// Enter and Esc return to the table, Esc with the search text from before,
/// and 'q' is typed, not taken for quitting. In the details: Esc returns to the
/// table and 'x' asks whether to send SIGTERM. In either question: 'n', 'N'
/// and Esc return to the table; 'y' and 'Y' send the signal to the selected
/// process and keep the question open until its outcome comes back.
pub proof fn keys_move_between_modes(a: AppView)
    ensures
        a.mode == Mode::Normal ==> key_step(a, Key::Char('q')).0.should_quit && key_step(
            a,
            Key::Esc,
        ).0.should_quit,
        a.mode == Mode::Normal ==> key_step(a, Key::Char('/')).0.mode == Mode::Search
            && key_step(a, Key::Char('/')).0.old_search == a.search && key_step(
            a,
            Key::Char('/'),
        ).0.search == a.search,
        a.mode == Mode::Normal && a.selected < a.filtered.len() ==> key_step(a, Key::Enter).0.mode
            == Mode::Details && key_step(a, Key::Char('x')).0.mode == Mode::ConfirmKill,
        a.mode == Mode::Normal && a.selected >= a.filtered.len() ==> key_step(a, Key::Enter).0.mode
            == Mode::Normal && key_step(a, Key::Char('x')).0.mode == Mode::Normal,
        a.mode == Mode::Normal ==> key_step(a, Key::Char('r')).1 == Effect::Refresh,
        a.mode == Mode::Search ==> key_step(a, Key::Enter).0.mode == Mode::Normal && key_step(
            a,
            Key::Esc,
        ).0.mode == Mode::Normal && key_step(a, Key::Esc).0.search == a.old_search,
        a.mode == Mode::Search ==> key_step(a, Key::Char('q')).0.search == a.search.push('q')
            && key_step(a, Key::Char('q')).0.should_quit == a.should_quit,
        a.mode == Mode::Details ==> key_step(a, Key::Char('x')).0.mode == Mode::ConfirmKill
            && key_step(a, Key::Esc).0.mode == Mode::Normal,
        a.mode == Mode::ConfirmKill ==> key_step(a, Key::Char('n')).0.mode == Mode::Normal
            && key_step(a, Key::Char('N')).0.mode == Mode::Normal && key_step(a, Key::Esc).0.mode
            == Mode::Normal,
        a.mode == Mode::ConfirmForceKill ==> key_step(a, Key::Char('n')).0.mode == Mode::Normal
            && key_step(a, Key::Char('N')).0.mode == Mode::Normal && key_step(a, Key::Esc).0.mode
            == Mode::Normal,
        a.mode == Mode::ConfirmKill && a.selected < a.filtered.len() ==> key_step(
            a,
            Key::Char('y'),
        ) == (a, Effect::Terminate(a.filtered[a.selected as int].pid)) && key_step(
            a,
            Key::Char('Y'),
        ) == (a, Effect::Terminate(a.filtered[a.selected as int].pid)),
        a.mode == Mode::ConfirmForceKill && a.selected < a.filtered.len() ==> key_step(
            a,
            Key::Char('y'),
        ) == (a, Effect::ForceKill(a.filtered[a.selected as int].pid)) && key_step(
            a,
            Key::Char('Y'),
        ) == (a, Effect::ForceKill(a.filtered[a.selected as int].pid)),
{
}

/// In the list, Down and 'j' select the next row when there is one, and Up
/// and 'k' the previous row when there is one; nothing else changes.
pub proof fn arrows_move_the_selection(a: AppView)
    requires
        a.mode == Mode::Normal,
        a.filtered.len() <= usize::MAX,
    ensures
        a.selected + 1 < a.filtered.len() ==> key_step(a, Key::Down) == (AppView {
            selected: (a.selected + 1) as usize,
            ..a
        }, Effect::Nothing) && key_step(a, Key::Char('j')) == key_step(a, Key::Down),
        a.selected + 1 >= a.filtered.len() ==> key_step(a, Key::Down) == (a, Effect::Nothing)
            && key_step(a, Key::Char('j')) == (a, Effect::Nothing),
        a.selected > 0 ==> key_step(a, Key::Up) == (AppView {
            selected: (a.selected - 1) as usize,
            ..a
        }, Effect::Nothing) && key_step(a, Key::Char('k')) == key_step(a, Key::Up),
        a.selected == 0 ==> key_step(a, Key::Up) == (a, Effect::Nothing) && key_step(
            a,
            Key::Char('k'),
        ) == (a, Effect::Nothing),
{
    if a.selected == 0 {
        assert(moved_up(a) =~= a);
    }
    if a.selected + 1 >= a.filtered.len() {
        assert(moved_down(a) =~= a);
    }
}

/// While searching, a typed character is added to the end of the search and
/// Backspace takes the last one away; the rows are then the entries that the
/// new search lets through, and the view stays in search mode.
pub proof fn typing_edits_the_search(a: AppView, c: char)
    requires
        a.mode == Mode::Search,
    ensures
        key_step(a, Key::Char(c)).0.search == a.search.push(c),
        key_step(a, Key::Char(c)).0.filtered == search_filter(a.entries, a.search.push(c)),
        key_step(a, Key::Char(c)).0.mode == Mode::Search,
        key_step(a, Key::Char(c)).0.entries == a.entries,
        key_step(a, Key::Char(c)).1 == Effect::Nothing,
        a.search.len() > 0 ==> key_step(a, Key::Backspace).0.search == a.search.drop_last()
            && key_step(a, Key::Backspace).0.filtered == search_filter(
            a.entries,
            a.search.drop_last(),
        ),
        a.search.len() == 0 ==> key_step(a, Key::Backspace).0.search == a.search,
        key_step(a, Key::Backspace).0.mode == Mode::Search,
        key_step(a, Key::Backspace).1 == Effect::Nothing,
{
}

} // verus!
