//! The command-line commands: the text that `list` and `find` print, and the
//! steps of `kill`, which asks, signals, waits and asks again.
use vstd::prelude::*;

use crate::ports::{PortEntry, PortEntryView, protocol_label};
use crate::text::{
    chars_of, decimal, decimal_chars, is_ws, pad_right, push_chars, push_padded, push_str, trim,
    trim_end_ws, trim_start_ws, trim_ws,
};

verus! {

// ---------------------------------------------------------------------------
// list and find
// ---------------------------------------------------------------------------

/// The command of an entry as shown: empty when it has none.
pub open spec fn command_text(e: PortEntryView) -> Seq<char> {
    match e.command {
        Some(c) => c,
        None => Seq::empty(),
    }
}

/// The header line of the table of entries.
pub open spec fn table_header() -> Seq<char> {
    pad_right("PORT"@, 7) + " "@ + pad_right("PROTOCOL"@, 9) + " "@ + pad_right("PID"@, 8) + " "@
        + pad_right("PROCESS"@, 16) + " "@ + pad_right("ADDRESS"@, 18) + " COMMAND\n"@
}

/// The line of the table that shows `e`: its columns left-aligned in
/// fields of 7, 9, 8, 16 and 18 characters, then its command.
pub open spec fn table_row(e: PortEntryView) -> Seq<char> {
    pad_right(decimal(e.port as nat), 7) + " "@ + pad_right(protocol_label(e.protocol), 9) + " "@
        + pad_right(decimal(e.pid as nat), 8) + " "@ + pad_right(e.process_name, 16) + " "@
        + pad_right(e.address, 18) + " "@ + command_text(e) + "\n"@
}

/// The lines of the table that show `es`, in order.
pub open spec fn table_lines(es: Seq<PortEntryView>) -> Seq<char>
    decreases es.len(),
{
    if es.len() == 0 {
        Seq::empty()
    } else {
        table_lines(es.drop_last()) + table_row(es.last())
    }
}

/// The table of entries: the header, then one line per entry.
pub open spec fn entries_table(es: Seq<PortEntryView>) -> Seq<char> {
    table_header() + table_lines(es)
}

fn push_padded_str(s: &mut String, t: &str, width: usize)
    ensures
        final(s)@ == old(s)@ + pad_right(t@, width as nat),
{
    let v = chars_of(t);
    push_padded(s, &v, width);
}

fn push_number(s: &mut String, n: u64)
    ensures
        final(s)@ == old(s)@ + decimal(n as nat),
{
    let v = decimal_chars(n);
    push_chars(s, &v);
}

fn push_command(s: &mut String, e: &PortEntry)
    ensures
        final(s)@ == old(s)@ + command_text(e@),
{
    match &e.command {
        Some(c) => push_str(s, c.as_str()),
        None => {
            assert(old(s)@ =~= old(s)@ + command_text(e@));
        },
    }
}

/// Appends the line of the table that shows `e`.
fn push_table_row(s: &mut String, e: &PortEntry)
    ensures
        final(s)@ == old(s)@ + table_row(e@),
{
    let ghost start = s@;
    let port = decimal_chars(e.port as u64);
    push_padded(s, &port, 7);
    push_str(s, " ");
    push_padded_str(s, e.protocol.label(), 9);
    push_str(s, " ");
    let pid = decimal_chars(e.pid as u64);
    push_padded(s, &pid, 8);
    push_str(s, " ");
    push_padded_str(s, e.process_name.as_str(), 16);
    push_str(s, " ");
    push_padded_str(s, e.address.as_str(), 18);
    push_str(s, " ");
    push_command(s, e);
    push_str(s, "\n");
    assert(s@ =~= start + table_row(e@));
}

/// The table that `list` prints: a header, then one line per entry.
pub fn format_entries_table(entries: &[PortEntry]) -> (r: String)
    ensures
        r@ == entries_table(entries@.map_values(|e: PortEntry| e@)),
{
    let ghost es = entries@.map_values(|e: PortEntry| e@);
    let mut output = String::new();
    push_padded_str(&mut output, "PORT", 7);
    push_str(&mut output, " ");
    push_padded_str(&mut output, "PROTOCOL", 9);
    push_str(&mut output, " ");
    push_padded_str(&mut output, "PID", 8);
    push_str(&mut output, " ");
    push_padded_str(&mut output, "PROCESS", 16);
    push_str(&mut output, " ");
    push_padded_str(&mut output, "ADDRESS", 18);
    push_str(&mut output, " COMMAND\n");
    assert(output@ =~= table_header());
    assert(es.take(0) =~= Seq::<PortEntryView>::empty());
    let mut i: usize = 0;
    while i < entries.len()
        invariant
            i <= entries@.len(),
            es == entries@.map_values(|e: PortEntry| e@),
            output@ == table_header() + table_lines(es.take(i as int)),
        decreases entries@.len() - i,
    {
        proof {
            assert(es.take(i + 1).drop_last() =~= es.take(i as int));
            assert(es.take(i + 1).last() == entries@[i as int]@);
        }
        push_table_row(&mut output, &entries[i]);
        i = i + 1;
        assert(output@ =~= table_header() + table_lines(es.take(i as int)));
    }
    assert(es.take(entries@.len() as int) =~= es);
    output
}

/// What `find` prints for the process on `port`.
pub open spec fn find_result(port: u16, e: PortEntryView) -> Seq<char> {
    "Port "@ + decimal(port as nat) + " is used by:\n\nProcess: "@ + e.process_name
        + "\nPID:     "@ + decimal(e.pid as nat) + "\nCommand: "@ + command_text(e) + "\n"@
}

/// The line that says that nothing listens on `port`.
pub open spec fn free_port_message(port: u16) -> Seq<char> {
    "Port "@ + decimal(port as nat) + " is free."@
}

/// What `find` prints for the process `entry` that listens on `port`.
pub fn format_find_result(port: u16, entry: &PortEntry) -> (r: String)
    ensures
        r@ == find_result(port, entry@),
{
    let mut s = String::new();
    push_str(&mut s, "Port ");
    push_number(&mut s, port as u64);
    push_str(&mut s, " is used by:\n\nProcess: ");
    push_str(&mut s, entry.process_name.as_str());
    push_str(&mut s, "\nPID:     ");
    push_number(&mut s, entry.pid as u64);
    push_str(&mut s, "\nCommand: ");
    push_command(&mut s, entry);
    push_str(&mut s, "\n");
    assert(s@ =~= find_result(port, entry@));
    s
}

/// The line that says that nothing listens on `port`.
pub fn format_free_port(port: u16) -> (r: String)
    ensures
        r@ == free_port_message(port),
{
    let mut s = String::new();
    push_str(&mut s, "Port ");
    push_number(&mut s, port as u64);
    push_str(&mut s, " is free.");
    assert(s@ =~= free_port_message(port));
    s
}

/// Everything that `find` prints: the process on `port`, or a line that
/// says that the port is free.
pub fn find_report(port: u16, found: &Option<PortEntry>) -> (r: String)
    ensures
        r@ == match found {
            Some(e) => find_result(port, e@),
            None => free_port_message(port) + "\n"@,
        },
{
    match found {
        Some(e) => format_find_result(port, e),
        None => {
            let mut s = format_free_port(port);
            push_str(&mut s, "\n");
            s
        },
    }
}

// ---------------------------------------------------------------------------
// kill
// ---------------------------------------------------------------------------

/// Does the answer to a yes/no question mean yes: "y", "Y", "yes" or "YES",
/// around which whitespace is ignored?
pub open spec fn affirmative(answer: Seq<char>) -> bool {
    let t = trim_ws(answer);
    t == "y"@ || t == "Y"@ || t == "yes"@ || t == "YES"@
}

fn chars_equal(a: &Vec<char>, b: &str) -> (r: bool)
    ensures
        r == (a@ == b@),
{
    let bv = chars_of(b);
    if a.len() != bv.len() {
        return false;
    }
    let mut i: usize = 0;
    while i < a.len()
        invariant
            i <= a@.len(),
            a@.len() == bv@.len(),
            bv@ == b@,
            forall|j: int| 0 <= j < i ==> a@[j] == bv@[j],
        decreases a@.len() - i,
    {
        if a[i] != bv[i] {
            return false;
        }
        i = i + 1;
    }
    assert(a@ =~= bv@);
    true
}

/// Does the answer to a yes/no question mean yes?
pub fn is_affirmative(answer: &str) -> (r: bool)
    ensures
        r == affirmative(answer@),
{
    let t = trim(answer);
    chars_equal(&t, "y") || chars_equal(&t, "Y") || chars_equal(&t, "yes") || chars_equal(
        &t,
        "YES",
    )
}

/// Where `kill` stands.
#[derive(Debug, Clone, Copy, PartialEq, Eq, Structural)]
pub enum KillStage {
    /// Waiting for the answer to "Kill ...? [y/N]".
    Confirming,
    /// Waiting for the outcome of SIGTERM.
    Terminating,
    /// Waiting to learn whether the process still runs.
    Checking,
    /// Waiting for the answer to "Force kill with SIGKILL? [y/N]".
    ConfirmingForce,
    /// Waiting for the outcome of SIGKILL.
    ForceKilling,
    /// Done.
    Finished,
}

/// How far `kill` has come: every step moves it on, so it ends after at
/// most five steps.
pub open spec fn stage_rank(s: KillStage) -> nat {
    match s {
        KillStage::Confirming => 0,
        KillStage::Terminating => 1,
        KillStage::Checking => 2,
        KillStage::ConfirmingForce => 3,
        KillStage::ForceKilling => 4,
        KillStage::Finished => 5,
    }
}

/// What `kill` asks of the terminal and the operating system next.
#[derive(Debug, PartialEq, Eq)]
pub enum KillCommand {
    /// Print the question (no line break), read a line, and pass it to
    /// [`KillFlow::answer`].
    Prompt(String),
    /// Send SIGTERM to the PID and pass the outcome to
    /// [`KillFlow::terminated`].
    Terminate(u32),
    /// Print the notice as a line, wait a moment, and pass whether the PID
    /// still runs to [`KillFlow::checked`].
    Wait { notice: String, pid: u32 },
    /// Send SIGKILL to the PID and pass the outcome to
    /// [`KillFlow::force_killed`].
    ForceKill(u32),
    /// Print the message as a line, if any, and end successfully.
    Finish(Option<String>),
    /// End with the error message.
    Fail(String),
}

/// The question before SIGTERM.
pub open spec fn kill_prompt(e: PortEntryView) -> Seq<char> {
    "Kill "@ + e.process_name + " PID "@ + decimal(e.pid as nat) + " using port "@ + decimal(
        e.port as nat,
    ) + "? [y/N] "@
}

/// The question before SIGKILL.
pub open spec fn force_prompt() -> Seq<char> {
    "Process is still running. Force kill with SIGKILL? [y/N] "@
}

/// The notice after a signal named `signal` was sent to `e`.
pub open spec fn sent_notice(signal: Seq<char>, e: PortEntryView) -> Seq<char> {
    "Sent "@ + signal + " to "@ + e.process_name + " PID "@ + decimal(e.pid as nat) + "."@
}

/// The error after a signal could not be sent.
pub open spec fn signal_error(error: Seq<char>) -> Seq<char> {
    error + "\n\nTry running with sudo or terminate it manually."@
}

/// The state of one `kill` command: the process it is about, and where it
/// stands.
pub struct KillFlow {
    entry: Option<PortEntry>,
    stage: KillStage,
}

/// What a [`KillFlow`] holds.
pub struct KillFlowView {
    pub entry: Option<PortEntryView>,
    pub stage: KillStage,
}

impl View for KillFlow {
    type V = KillFlowView;

    closed spec fn view(&self) -> KillFlowView {
        KillFlowView {
            entry: match self.entry {
                Some(e) => Some(e@),
                None => None,
            },
            stage: self.stage,
        }
    }
}

impl KillFlow {
    /// Every stage but the last has a process.
    #[verifier::type_invariant]
    spec fn has_target(&self) -> bool {
        self.stage != KillStage::Finished ==> self.entry is Some
    }

    /// The process, once known.
    pub open spec fn target(&self) -> PortEntryView {
        self@.entry.unwrap()
    }

    /// Where `kill` stands.
    pub fn stage(&self) -> (r: KillStage)
        ensures
            r == self@.stage,
    {
        self.stage
    }

    /// Starts `kill` for `port`, given the process found on it: without one
    /// it is done and says that the port is free; with `force` it sends
    /// SIGTERM at once, and otherwise it first asks.
    pub fn start(port: u16, force: bool, found: Option<PortEntry>) -> (r: (KillFlow, KillCommand))
        ensures
            match found {
                None => r.0@.stage == KillStage::Finished && (r.1 matches KillCommand::Finish(Some(m))
                    && m@ == free_port_message(port)),
                Some(e) => r.0@.entry is Some && r.0.target() == e@ && if force {
                    r.0@.stage == KillStage::Terminating && r.1 == KillCommand::Terminate(e.pid)
                } else {
                    r.0@.stage == KillStage::Confirming && (r.1 matches KillCommand::Prompt(q)
                        && q@ == kill_prompt(e@))
                },
            },
    {
        match found {
            None => {
                let m = format_free_port(port);
                (KillFlow { entry: None, stage: KillStage::Finished }, KillCommand::Finish(Some(m)))
            },
            Some(e) => {
                if force {
                    let pid = e.pid;
                    (KillFlow { entry: Some(e), stage: KillStage::Terminating }, KillCommand::Terminate(pid))
                } else {
                    let mut q = String::new();
                    push_str(&mut q, "Kill ");
                    push_str(&mut q, e.process_name.as_str());
                    push_str(&mut q, " PID ");
                    push_number(&mut q, e.pid as u64);
                    push_str(&mut q, " using port ");
                    push_number(&mut q, e.port as u64);
                    push_str(&mut q, "? [y/N] ");
                    assert(q@ =~= kill_prompt(e@));
                    (KillFlow { entry: Some(e), stage: KillStage::Confirming }, KillCommand::Prompt(q))
                }
            },
        }
    }

    /// Takes the answer to a question: yes to the first sends SIGTERM and
    /// no cancels; yes to the second sends SIGKILL and no ends quietly.
    pub fn answer(&mut self, answer: &str) -> (r: KillCommand)
        requires
            old(self)@.stage == KillStage::Confirming || old(self)@.stage
                == KillStage::ConfirmingForce,
        ensures
            stage_rank(final(self)@.stage) > stage_rank(old(self)@.stage),
            old(self)@.entry is Some,
            final(self)@.entry == old(self)@.entry,
            old(self)@.stage == KillStage::Confirming ==> if affirmative(answer@) {
                final(self)@.stage == KillStage::Terminating && r == KillCommand::Terminate(
                    old(self).target().pid,
                )
            } else {
                final(self)@.stage == KillStage::Finished && (r matches KillCommand::Finish(Some(m))
                    && m@ == "Cancelled."@)
            },
            old(self)@.stage == KillStage::ConfirmingForce ==> if affirmative(answer@) {
                final(self)@.stage == KillStage::ForceKilling && r == KillCommand::ForceKill(
                    old(self).target().pid,
                )
            } else {
                final(self)@.stage == KillStage::Finished && r == KillCommand::Finish(None)
            },
    {
        proof {
            use_type_invariant(&*self);
        }
        let pid = match &self.entry {
            Some(e) => e.pid,
            None => 0,
        };
        let yes = is_affirmative(answer);
        if self.stage == KillStage::Confirming {
            if yes {
                self.stage = KillStage::Terminating;
                KillCommand::Terminate(pid)
            } else {
                self.stage = KillStage::Finished;
                let mut m = String::new();
                push_str(&mut m, "Cancelled.");
                KillCommand::Finish(Some(m))
            }
        } else {
            if yes {
                self.stage = KillStage::ForceKilling;
                KillCommand::ForceKill(pid)
            } else {
                self.stage = KillStage::Finished;
                KillCommand::Finish(None)
            }
        }
    }

    /// Takes the outcome of SIGTERM: an error ends `kill` with it; success
    /// prints a notice and, after a wait, checks whether the process runs.
    pub fn terminated(&mut self, result: Result<(), String>) -> (r: KillCommand)
        requires
            old(self)@.stage == KillStage::Terminating,
        ensures
            stage_rank(final(self)@.stage) > stage_rank(old(self)@.stage),
            old(self)@.entry is Some,
            final(self)@.entry == old(self)@.entry,
            match result {
                Err(e) => final(self)@.stage == KillStage::Finished && (r matches KillCommand::Fail(m)
                    && m@ == signal_error(e@)),
                Ok(()) => final(self)@.stage == KillStage::Checking && (r matches KillCommand::Wait {
                    notice,
                    pid,
                } && pid == old(self).target().pid && notice@ == sent_notice(
                    "SIGTERM"@,
                    old(self).target(),
                )),
            },
    {
        proof {
            use_type_invariant(&*self);
        }
        match result {
            Err(e) => {
                self.stage = KillStage::Finished;
                let mut m = e;
                push_str(&mut m, "\n\nTry running with sudo or terminate it manually.");
                KillCommand::Fail(m)
            },
            Ok(()) => {
                self.stage = KillStage::Checking;
                match &self.entry {
                    Some(e) => {
                        let notice = sent_message("SIGTERM", e);
                        KillCommand::Wait { notice, pid: e.pid }
                    },
                    None => KillCommand::Finish(None),
                }
            },
        }
    }

    /// Takes whether the process still runs: if it does, asks whether to
    /// send SIGKILL; otherwise `kill` is done.
    pub fn checked(&mut self, running: bool) -> (r: KillCommand)
        requires
            old(self)@.stage == KillStage::Checking,
        ensures
            stage_rank(final(self)@.stage) > stage_rank(old(self)@.stage),
            old(self)@.entry is Some,
            final(self)@.entry == old(self)@.entry,
            if running {
                final(self)@.stage == KillStage::ConfirmingForce && (r matches KillCommand::Prompt(q)
                    && q@ == force_prompt())
            } else {
                final(self)@.stage == KillStage::Finished && r == KillCommand::Finish(None)
            },
    {
        proof {
            use_type_invariant(&*self);
        }
        if running {
            self.stage = KillStage::ConfirmingForce;
            let mut q = String::new();
            push_str(&mut q, "Process is still running. Force kill with SIGKILL? [y/N] ");
            KillCommand::Prompt(q)
        } else {
            self.stage = KillStage::Finished;
            KillCommand::Finish(None)
        }
    }

    /// Takes the outcome of SIGKILL: an error ends `kill` with it; success
    /// ends it with a notice.
    pub fn force_killed(&mut self, result: Result<(), String>) -> (r: KillCommand)
        requires
            old(self)@.stage == KillStage::ForceKilling,
        ensures
            stage_rank(final(self)@.stage) > stage_rank(old(self)@.stage),
            old(self)@.entry is Some,
            final(self)@.entry == old(self)@.entry,
            final(self)@.stage == KillStage::Finished,
            match result {
                Err(e) => r matches KillCommand::Fail(m) && m@ == signal_error(e@),
                Ok(()) => r matches KillCommand::Finish(Some(m)) && m@ == sent_notice(
                    "SIGKILL"@,
                    old(self).target(),
                ),
            },
    {
        proof {
            use_type_invariant(&*self);
        }
        self.stage = KillStage::Finished;
        match result {
            Err(e) => {
                let mut m = e;
                push_str(&mut m, "\n\nTry running with sudo or terminate it manually.");
                KillCommand::Fail(m)
            },
            Ok(()) => match &self.entry {
                Some(e) => KillCommand::Finish(Some(sent_message("SIGKILL", e))),
                None => KillCommand::Finish(None),
            },
        }
    }
}

/// The notice after the signal `signal` was sent to `e`.
fn sent_message(signal: &str, e: &PortEntry) -> (r: String)
    ensures
        r@ == sent_notice(signal@, e@),
{
    let mut m = String::new();
    push_str(&mut m, "Sent ");
    push_str(&mut m, signal);
    push_str(&mut m, " to ");
    push_str(&mut m, e.process_name.as_str());
    push_str(&mut m, " PID ");
    push_number(&mut m, e.pid as u64);
    push_str(&mut m, ".");
    assert(m@ =~= sent_notice(signal@, e@));
    m
}

// ---------------------------------------------------------------------------
// Laws
// ---------------------------------------------------------------------------

/// Only "y", "Y", "yes" and "YES", with any whitespace around them, mean
/// yes; anything else, a blank line (just Enter) among them, means no.
pub proof fn only_yes_words_are_affirmative(answer: Seq<char>)
    ensures
        affirmative(answer) ==> ({
            let t = trim_ws(answer);
            t == seq!['y'] || t == seq!['Y'] || t == seq!['y', 'e', 's'] || t == seq!['Y', 'E', 'S']
        }),
        trim_ws(answer).len() == 0 ==> !affirmative(answer),
        trim_ws(answer).len() > 3 ==> !affirmative(answer),
{
    reveal_strlit("y");
    reveal_strlit("Y");
    reveal_strlit("yes");
    reveal_strlit("YES");
    assert("y"@ =~= seq!['y']);
    assert("Y"@ =~= seq!['Y']);
    assert("yes"@ =~= seq!['y', 'e', 's']);
    assert("YES"@ =~= seq!['Y', 'E', 'S']);
}

/// Each of the four yes words, with any whitespace around it, means yes.
pub proof fn yes_words_are_affirmative(before: Seq<char>, word: Seq<char>, after: Seq<char>)
    requires
        word == seq!['y'] || word == seq!['Y'] || word == seq!['y', 'e', 's'] || word == seq![
            'Y',
            'E',
            'S',
        ],
        forall|i: int| 0 <= i < before.len() ==> is_ws(#[trigger] before[i]),
        forall|i: int| 0 <= i < after.len() ==> is_ws(#[trigger] after[i]),
    ensures
        affirmative(before + word + after),
{
    reveal_strlit("y");
    reveal_strlit("Y");
    reveal_strlit("yes");
    reveal_strlit("YES");
    assert("y"@ =~= seq!['y']);
    assert("Y"@ =~= seq!['Y']);
    assert("yes"@ =~= seq!['y', 'e', 's']);
    assert("YES"@ =~= seq!['Y', 'E', 'S']);
    lemma_trim_end_past(before + word, after);
    lemma_trim_start_past(before, word);
}

proof fn lemma_trim_end_past(x: Seq<char>, after: Seq<char>)
    requires
        x.len() > 0,
        !is_ws(x.last()),
        forall|i: int| 0 <= i < after.len() ==> is_ws(#[trigger] after[i]),
    ensures
        trim_end_ws(x + after) == x,
    decreases after.len(),
{
    if after.len() == 0 {
        assert(x + after =~= x);
    } else {
        let a = after.drop_last();
        assert forall|i: int| 0 <= i < a.len() implies is_ws(#[trigger] a[i]) by {
            assert(a[i] == after[i]);
        }
        lemma_trim_end_past(x, a);
        assert((x + after).drop_last() =~= x + a);
        assert((x + after).last() == after[after.len() - 1]);
    }
}

proof fn lemma_trim_start_past(before: Seq<char>, word: Seq<char>)
    requires
        word.len() > 0,
        !is_ws(word[0]),
        !is_ws(word.last()),
        forall|i: int| 0 <= i < before.len() ==> is_ws(#[trigger] before[i]),
    ensures
        trim_start_ws(before + word) == word,
        (before + word).last() == word.last(),
    decreases before.len(),
{
    if before.len() == 0 {
        assert(before + word =~= word);
    } else {
        let b = before.drop_first();
        assert forall|i: int| 0 <= i < b.len() implies is_ws(#[trigger] b[i]) by {
            assert(b[i] == before[i + 1]);
        }
        lemma_trim_start_past(b, word);
        assert((before + word).drop_first() =~= b + word);
        assert((before + word)[0] == before[0]);
    }
}

/// The table shows the entries in order, one line each: the table of no
/// entries is the header, and adding an entry at the end adds its line at
/// the end.
pub proof fn table_grows_by_one_row_per_entry(es: Seq<PortEntryView>, e: PortEntryView)
    ensures
        entries_table(Seq::empty()) == table_header(),
        entries_table(es.push(e)) == entries_table(es) + table_row(e),
{
    assert(table_header() + Seq::<char>::empty() =~= table_header());
    assert(es.push(e).drop_last() =~= es);
    assert(table_header() + (table_lines(es) + table_row(e)) =~= table_header() + table_lines(es)
        + table_row(e));
}

/// The line of an entry shows its port, protocol, PID, process name and
/// address left-aligned in columns of 7, 9, 8, 16 and 18 characters, each
/// followed by a space, then its command and a line feed.
pub proof fn table_row_shows_the_entry(e: PortEntryView)
    ensures
        table_row(e).take(pad_right(decimal(e.port as nat), 7).len() as int) == pad_right(
            decimal(e.port as nat),
            7,
        ),
        table_row(e).len() >= 7 + 1 + 9 + 1 + 8 + 1 + 16 + 1 + 18 + 1 + 1,
        table_row(e).last() == '\n',
{
    reveal_strlit(" ");
    reveal_strlit("\n");
    let p = pad_right(decimal(e.port as nat), 7);
    let rest = table_row(e).skip(p.len() as int);
    assert(table_row(e) =~= p + (" "@ + pad_right(protocol_label(e.protocol), 9) + " "@
        + pad_right(decimal(e.pid as nat), 8) + " "@ + pad_right(e.process_name, 16) + " "@
        + pad_right(e.address, 18) + " "@ + command_text(e) + "\n"@));
}

} // verus!
