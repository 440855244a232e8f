//! Listening ports: the entries that `lsof` reports, and the parser for its
//! two output formats (the field format of `lsof -F pcPn`, and the table).
use vstd::prelude::*;

use crate::text::{chars_of, decimal, decimal_parses_back, is_ascii_digit, is_digit, is_whitespace, is_ws, parse_number, parse_unsigned, push_chars, push_str, string_of, trim, trim_ws};

verus! {

// ---------------------------------------------------------------------------
// Types and their models
// ---------------------------------------------------------------------------

/// The transport protocol of a listening socket.
#[derive(Debug, Clone, Copy, PartialEq, Eq, Structural)]
pub enum Protocol {
    Tcp,
}

/// The name under which a protocol is shown.
pub open spec fn protocol_label(p: Protocol) -> Seq<char> {
    match p {
        Protocol::Tcp => seq!['T', 'C', 'P'],
    }
}

impl Protocol {
    /// The name under which the protocol is shown ("TCP").
    pub fn label(&self) -> (s: &'static str)
        ensures
            s@ == protocol_label(*self),
    {
        match self {
            Protocol::Tcp => {
                let s = "TCP";
                proof {
                    reveal_strlit("TCP");
                }
                s
            },
        }
    }
}

/// One process listening on one local port.
#[derive(Debug, Clone, PartialEq, Eq)]
pub struct PortEntry {
    pub port: u16,
    pub protocol: Protocol,
    pub address: String,
    pub pid: u32,
    pub process_name: String,
    pub command: Option<String>,
}

/// What a [`PortEntry`] holds, with its strings as character sequences.
pub struct PortEntryView {
    pub port: u16,
    pub protocol: Protocol,
    pub address: Seq<char>,
    pub pid: u32,
    pub process_name: Seq<char>,
    pub command: Option<Seq<char>>,
}

pub open spec fn option_string_view(o: Option<String>) -> Option<Seq<char>> {
    match o {
        Some(s) => Some(s@),
        None => None,
    }
}

impl View for PortEntry {
    type V = PortEntryView;

    open spec fn view(&self) -> PortEntryView {
        PortEntryView {
            port: self.port,
            protocol: self.protocol,
            address: self.address@,
            pid: self.pid,
            process_name: self.process_name@,
            command: option_string_view(self.command),
        }
    }
}

/// The models of a sequence of entries.
pub open spec fn entries_view(es: Seq<PortEntry>) -> Seq<PortEntryView> {
    es.map_values(|e: PortEntry| e@)
}

impl PortEntry {
    /// A copy of the entry, stated to be equal to it (a derived `clone`
    /// states nothing to the verifier).
    pub fn duplicate(&self) -> (r: PortEntry)
        ensures
            r@ == self@,
    {
        let command = match &self.command {
            Some(c) => Some(c.clone()),
            None => None,
        };
        PortEntry {
            port: self.port,
            protocol: self.protocol,
            address: self.address.clone(),
            pid: self.pid,
            process_name: self.process_name.clone(),
            command,
        }
    }
}

// ---------------------------------------------------------------------------
// Lines
// ---------------------------------------------------------------------------

/// The pieces of `s` between newline characters (`s.split('\n')`); there is
/// always at least one, the last one following the last newline.
pub open spec fn line_parts(s: Seq<char>) -> Seq<Seq<char>>
    decreases s.len(),
{
    if s.len() == 0 {
        seq![Seq::<char>::empty()]
    } else {
        let p = line_parts(s.drop_last());
        if s.last() == '\n' {
            p.push(Seq::<char>::empty())
        } else {
            p.update(p.len() - 1, p.last().push(s.last()))
        }
    }
}

/// A line without the carriage return that ends it, if any.
pub open spec fn strip_cr(l: Seq<char>) -> Seq<char> {
    if l.len() > 0 && l.last() == '\r' {
        l.drop_last()
    } else {
        l
    }
}

/// The lines of `s`, as `str::lines` gives them: the text between line
/// feeds, a line that a line feed ends losing a carriage return before it,
/// and no line after a final line feed.
pub open spec fn lines(s: Seq<char>) -> Seq<Seq<char>> {
    let p = line_parts(s);
    let ended = p.drop_last().map_values(|l: Seq<char>| strip_cr(l));
    if p.last().len() == 0 {
        ended
    } else {
        ended.push(p.last())
    }
}

/// Are the line bounds `r` those of the lines of `s`?
pub open spec fn line_bounds(s: Seq<char>, r: Seq<(usize, usize)>) -> bool {
    &&& r.len() == lines(s).len()
    &&& forall|j: int|
        0 <= j < r.len() ==> {
            &&& (#[trigger] r[j]).0 <= r[j].1 <= s.len()
            &&& s.subrange(r[j].0 as int, r[j].1 as int) == lines(s)[j]
        }
}

/// The bounds of the lines of `v`.
fn split_lines(v: &Vec<char>) -> (r: Vec<(usize, usize)>)
    ensures
        line_bounds(v@, r@),
{
    let n = v.len();
    let mut out: Vec<(usize, usize)> = Vec::new();
    let mut start: usize = 0;
    let mut i: usize = 0;
    assert(v@.take(0) =~= Seq::<char>::empty());
    assert(v@.subrange(0, 0) =~= Seq::<char>::empty());
    while i < n
        invariant
            n == v@.len(),
            start <= i <= n,
            line_parts(v@.take(i as int)).len() == out@.len() + 1,
            line_parts(v@.take(i as int)).last() == v@.subrange(start as int, i as int),
            forall|j: int|
                0 <= j < out@.len() ==> {
                    &&& (#[trigger] out@[j]).0 <= out@[j].1 <= n
                    &&& v@.subrange(out@[j].0 as int, out@[j].1 as int) == strip_cr(
                        line_parts(v@.take(i as int))[j],
                    )
                },
        decreases n - i,
    {
        let ghost p = line_parts(v@.take(i as int));
        proof {
            assert(v@.take(i + 1).drop_last() =~= v@.take(i as int));
            assert(v@.take(i + 1).last() == v@[i as int]);
        }
        if v[i] == '\n' {
            let end = if i > start && v[i - 1] == '\r' { i - 1 } else { i };
            proof {
                let l = v@.subrange(start as int, i as int);
                if i > start && v@[i - 1] == '\r' {
                    assert(l.drop_last() =~= v@.subrange(start as int, end as int));
                } else {
                    assert(l =~= v@.subrange(start as int, end as int));
                }
            }
            out.push((start, end));
            start = i + 1;
            proof {
                let p2 = line_parts(v@.take(i + 1));
                assert(p2 == p.push(Seq::<char>::empty()));
                assert(v@.subrange(start as int, i + 1) =~= Seq::<char>::empty());
                assert forall|j: int| 0 <= j < out@.len() implies {
                    &&& (#[trigger] out@[j]).0 <= out@[j].1 <= n
                    &&& v@.subrange(out@[j].0 as int, out@[j].1 as int) == strip_cr(p2[j])
                } by {
                    assert(p2[j] == p[j]);
                }
            }
        } else {
            proof {
                let p2 = line_parts(v@.take(i + 1));
                assert(p2 == p.update(p.len() - 1, p.last().push(v@[i as int])));
                assert(v@.subrange(start as int, i + 1) =~= v@.subrange(start as int, i as int).push(
                    v@[i as int],
                ));
                assert forall|j: int| 0 <= j < out@.len() implies {
                    &&& (#[trigger] out@[j]).0 <= out@[j].1 <= n
                    &&& v@.subrange(out@[j].0 as int, out@[j].1 as int) == strip_cr(p2[j])
                } by {
                    assert(p2[j] == p[j]);
                }
            }
        }
        i = i + 1;
    }
    assert(v@.take(n as int) =~= v@);
    let ghost p = line_parts(v@);
    let ghost ended = p.drop_last().map_values(|l: Seq<char>| strip_cr(l));
    if start < n {
        out.push((start, n));
        proof {
            assert(lines(v@) == ended.push(p.last()));
            assert forall|j: int| 0 <= j < out@.len() implies {
                &&& (#[trigger] out@[j]).0 <= out@[j].1 <= v@.len()
                &&& v@.subrange(out@[j].0 as int, out@[j].1 as int) == lines(v@)[j]
            } by {
                if j < out@.len() - 1 {
                    assert(lines(v@)[j] == ended[j]);
                }
            }
        }
    } else {
        proof {
            assert(p.last().len() == 0);
            assert(lines(v@) == ended);
        }
    }
    out
}

/// The characters `v[lo..hi]`.
fn slice(v: &Vec<char>, lo: usize, hi: usize) -> (r: Vec<char>)
    requires
        lo <= hi <= v@.len(),
    ensures
        r@ == v@.subrange(lo as int, hi as int),
{
    let mut r = Vec::new();
    let mut i = lo;
    while i < hi
        invariant
            lo <= i <= hi <= v@.len(),
            r@ == v@.subrange(lo as int, i as int),
        decreases hi - i,
    {
        r.push(v[i]);
        i = i + 1;
        assert(r@ =~= v@.subrange(lo as int, i as int));
    }
    r
}

// ---------------------------------------------------------------------------
// Columns of a table row
// ---------------------------------------------------------------------------

/// The whitespace-separated words of `s`, as `str::split_whitespace` gives
/// them.
pub open spec fn words(s: Seq<char>) -> Seq<Seq<char>>
    decreases s.len(),
{
    if s.len() == 0 {
        seq![]
    } else {
        let w = words(s.drop_last());
        let c = s.last();
        if is_ws(c) {
            w
        } else if s.len() > 1 && !is_ws(s[s.len() - 2]) {
            w.update(w.len() - 1, w.last().push(c))
        } else {
            w.push(seq![c])
        }
    }
}

/// Are the bounds `r` those of the words of `s`?
pub open spec fn word_bounds(s: Seq<char>, r: Seq<(usize, usize)>) -> bool {
    &&& r.len() == words(s).len()
    &&& forall|j: int|
        0 <= j < r.len() ==> {
            &&& (#[trigger] r[j]).0 <= r[j].1 <= s.len()
            &&& s.subrange(r[j].0 as int, r[j].1 as int) == words(s)[j]
        }
}

/// The bounds of the words of `v`.
fn split_words(v: &Vec<char>) -> (r: Vec<(usize, usize)>)
    ensures
        word_bounds(v@, r@),
{
    let n = v.len();
    let mut out: Vec<(usize, usize)> = Vec::new();
    let mut i: usize = 0;
    assert(v@.take(0) =~= Seq::<char>::empty());
    while i < n
        invariant
            n == v@.len(),
            i <= n,
            word_bounds(v@.take(i as int), out@),
            forall|j: int| 0 <= j < out@.len() ==> (#[trigger] out@[j]).1 <= i,
            i > 0 && !is_ws(v@[i - 1]) ==> out@.len() > 0 && out@.last().1 == i,
        decreases n - i,
    {
        let ghost w = words(v@.take(i as int));
        let ghost t = v@.take(i + 1);
        proof {
            assert(t.drop_last() =~= v@.take(i as int));
            assert(t.last() == v@[i as int]);
            assert forall|j: int| 0 <= j < out@.len() implies t.subrange(
                (#[trigger] out@[j]).0 as int,
                out@[j].1 as int,
            ) == v@.take(i as int).subrange(out@[j].0 as int, out@[j].1 as int) by {
                assert(t.subrange(out@[j].0 as int, out@[j].1 as int) =~= v@.take(
                    i as int,
                ).subrange(out@[j].0 as int, out@[j].1 as int));
            }
        }
        let c = v[i];
        if is_whitespace(c) {
            assert(words(t) == w);
        } else if i > 0 && !is_whitespace(v[i - 1]) {
            let last = out.len() - 1;
            let (a, _) = out[last];
            out.set(last, (a, i + 1));
            proof {
                assert(t[t.len() - 2] == v@[i - 1]);
                assert(words(t) == w.update(w.len() - 1, w.last().push(c)));
                assert(t.subrange(a as int, i + 1) =~= v@.take(i as int).subrange(
                    a as int,
                    i as int,
                ).push(c));
                assert forall|j: int| 0 <= j < out@.len() implies {
                    &&& (#[trigger] out@[j]).0 <= out@[j].1 <= t.len()
                    &&& t.subrange(out@[j].0 as int, out@[j].1 as int) == words(t)[j]
                } by {
                    if j < last {
                        assert(words(t)[j] == w[j]);
                    }
                }
            }
        } else {
            out.push((i, i + 1));
            proof {
                if i > 0 {
                    assert(t[t.len() - 2] == v@[i - 1]);
                }
                assert(words(t) == w.push(seq![c]));
                assert(t.subrange(i as int, i + 1) =~= seq![c]);
                assert forall|j: int| 0 <= j < out@.len() implies {
                    &&& (#[trigger] out@[j]).0 <= out@[j].1 <= t.len()
                    &&& t.subrange(out@[j].0 as int, out@[j].1 as int) == words(t)[j]
                } by {
                    if j < out@.len() - 1 {
                        assert(words(t)[j] == w[j]);
                    }
                }
            }
        }
        i = i + 1;
    }
    assert(v@.take(n as int) =~= v@);
    out
}

/// Are the characters `v[lo..hi]` the word `w`?
fn range_is(v: &Vec<char>, lo: usize, hi: usize, w: &Vec<char>) -> (r: bool)
    requires
        lo <= hi <= v@.len(),
    ensures
        r == (v@.subrange(lo as int, hi as int) == w@),
{
    if hi - lo != w.len() {
        return false;
    }
    let mut k: usize = 0;
    while k < w.len()
        invariant
            lo <= hi <= v@.len(),
            hi - lo == w@.len(),
            k <= w@.len(),
            forall|m: int| 0 <= m < k ==> v@[lo + m] == w@[m],
        decreases w@.len() - k,
    {
        if v[lo + k] != w[k] {
            assert(v@.subrange(lo as int, hi as int)[k as int] != w@[k as int]);
            return false;
        }
        k = k + 1;
    }
    assert(v@.subrange(lo as int, hi as int) =~= w@);
    true
}

// ---------------------------------------------------------------------------
// Endpoints
// ---------------------------------------------------------------------------

/// The suffix " (LISTEN)".
pub open spec fn listen_suffix() -> Seq<char> {
    seq![' ', '(', 'L', 'I', 'S', 'T', 'E', 'N', ')']
}

/// `s` without the suffix " (LISTEN)", if it has it.
pub open spec fn strip_listen(s: Seq<char>) -> Seq<char> {
    if s.len() >= 9 && s.subrange(s.len() - 9, s.len() as int) == listen_suffix() {
        s.subrange(0, s.len() - 9)
    } else {
        s
    }
}

/// `s` without any number of trailing "->".
pub open spec fn trim_end_arrows(s: Seq<char>) -> Seq<char>
    decreases s.len(),
{
    if s.len() >= 2 && s[s.len() - 2] == '-' && s[s.len() - 1] == '>' {
        trim_end_arrows(s.subrange(0, s.len() - 2))
    } else {
        s
    }
}

/// `s` without any number of leading `c`.
pub open spec fn trim_start_char(s: Seq<char>, c: char) -> Seq<char>
    decreases s.len(),
{
    if s.len() > 0 && s[0] == c {
        trim_start_char(s.drop_first(), c)
    } else {
        s
    }
}

/// `s` without any number of trailing `c`.
pub open spec fn trim_end_char(s: Seq<char>, c: char) -> Seq<char>
    decreases s.len(),
{
    if s.len() > 0 && s.last() == c {
        trim_end_char(s.drop_last(), c)
    } else {
        s
    }
}

/// The position of the last `c` in `s`.
pub open spec fn last_index_of(s: Seq<char>, c: char) -> Option<int>
    decreases s.len(),
{
    if s.len() == 0 {
        None
    } else if s.last() == c {
        Some(s.len() - 1)
    } else {
        last_index_of(s.drop_last(), c)
    }
}

/// The address and port of an endpoint such as "127.0.0.1:3000",
/// "*:5432" or "[::1]:3000": a trailing " (LISTEN)" and trailing "->" are
/// dropped, the text is split at its last colon, the address loses its
/// brackets, and the port, without its closing brackets, must be a `u16`.
pub open spec fn spec_parse_endpoint(e: Seq<char>) -> Option<(Seq<char>, u16)> {
    let e1 = trim_start_char(trim_end_arrows(strip_listen(e)), '[');
    match last_index_of(e1, ':') {
        None => None,
        Some(i) => {
            let address = trim_end_char(trim_start_char(e1.take(i), '['), ']');
            match parse_unsigned(trim_end_char(e1.skip(i + 1), ']'), u16::MAX as nat) {
                Some(port) => Some((address, port as u16)),
                None => None,
            }
        },
    }
}

/// The end of `v[..hi]` without the suffix " (LISTEN)".
fn strip_listen_end(v: &Vec<char>, hi: usize) -> (r: usize)
    requires
        hi <= v@.len(),
    ensures
        r <= hi,
        v@.take(r as int) == strip_listen(v@.take(hi as int)),
{
    let ghost s = v@.take(hi as int);
    let text = " (LISTEN)";
    proof {
        reveal_strlit(" (LISTEN)");
    }
    let suffix = chars_of(text);
    assert(suffix@ =~= listen_suffix());
    if hi >= 9 && range_is(v, hi - 9, hi, &suffix) {
        assert(s.subrange(s.len() - 9, s.len() as int) =~= v@.subrange(hi - 9, hi as int));
        assert(v@.take(hi - 9) =~= s.subrange(0, s.len() - 9));
        hi - 9
    } else {
        proof {
            if hi >= 9 {
                assert(s.subrange(s.len() - 9, s.len() as int) =~= v@.subrange(
                    hi - 9,
                    hi as int,
                ));
            }
        }
        hi
    }
}

/// The end of `v[..hi]` without its trailing "->".
fn trim_end_arrows_end(v: &Vec<char>, hi: usize) -> (r: usize)
    requires
        hi <= v@.len(),
    ensures
        r <= hi,
        v@.take(r as int) == trim_end_arrows(v@.take(hi as int)),
{
    let mut e = hi;
    while e >= 2 && v[e - 2] == '-' && v[e - 1] == '>'
        invariant
            e <= hi <= v@.len(),
            trim_end_arrows(v@.take(hi as int)) == trim_end_arrows(v@.take(e as int)),
        decreases e,
    {
        assert(v@.take(e as int).subrange(0, e - 2) =~= v@.take(e - 2));
        e = e - 2;
    }
    e
}

/// The start of `v[lo..hi]` without its leading `c`.
fn trim_start_from(v: &Vec<char>, lo: usize, hi: usize, c: char) -> (r: usize)
    requires
        lo <= hi <= v@.len(),
    ensures
        lo <= r <= hi,
        v@.subrange(r as int, hi as int) == trim_start_char(v@.subrange(lo as int, hi as int), c),
{
    let mut b = lo;
    while b < hi && v[b] == c
        invariant
            lo <= b <= hi <= v@.len(),
            trim_start_char(v@.subrange(lo as int, hi as int), c) == trim_start_char(
                v@.subrange(b as int, hi as int),
                c,
            ),
        decreases hi - b,
    {
        assert(v@.subrange(b as int, hi as int).drop_first() =~= v@.subrange(b + 1, hi as int));
        b = b + 1;
    }
    b
}

/// The end of `v[lo..hi]` without its trailing `c`.
fn trim_end_to(v: &Vec<char>, lo: usize, hi: usize, c: char) -> (r: usize)
    requires
        lo <= hi <= v@.len(),
    ensures
        lo <= r <= hi,
        v@.subrange(lo as int, r as int) == trim_end_char(v@.subrange(lo as int, hi as int), c),
{
    let mut e = hi;
    while e > lo && v[e - 1] == c
        invariant
            lo <= e <= hi <= v@.len(),
            trim_end_char(v@.subrange(lo as int, hi as int), c) == trim_end_char(
                v@.subrange(lo as int, e as int),
                c,
            ),
        decreases e,
    {
        assert(v@.subrange(lo as int, e as int).drop_last() =~= v@.subrange(lo as int, e - 1));
        e = e - 1;
    }
    e
}

/// The position of the last `c` in `v[lo..hi]`.
fn last_index(v: &Vec<char>, lo: usize, hi: usize, c: char) -> (r: Option<usize>)
    requires
        lo <= hi <= v@.len(),
    ensures
        match r {
            Some(k) => lo <= k < hi && last_index_of(v@.subrange(lo as int, hi as int), c) == Some(
                k - lo,
            ),
            None => last_index_of(v@.subrange(lo as int, hi as int), c) is None,
        },
{
    let mut e = hi;
    while e > lo
        invariant
            lo <= e <= hi <= v@.len(),
            last_index_of(v@.subrange(lo as int, hi as int), c) == last_index_of(
                v@.subrange(lo as int, e as int),
                c,
            ),
        decreases e,
    {
        if v[e - 1] == c {
            return Some(e - 1);
        }
        assert(v@.subrange(lo as int, e as int).drop_last() =~= v@.subrange(lo as int, e - 1));
        e = e - 1;
    }
    None
}

/// The address and port of an endpoint, such as "127.0.0.1:3000".
fn parse_endpoint(endpoint: &Vec<char>) -> (r: Option<(String, u16)>)
    ensures
        match r {
            Some((address, port)) => spec_parse_endpoint(endpoint@) == Some((address@, port)),
            None => spec_parse_endpoint(endpoint@) is None,
        },
{
    let v = endpoint;
    let ghost s = v@;
    let end1 = strip_listen_end(v, v.len());
    let end2 = trim_end_arrows_end(v, end1);
    assert(v@.take(v@.len() as int) =~= s);
    assert(v@.take(end2 as int) =~= v@.subrange(0, end2 as int));
    let start = trim_start_from(v, 0, end2, '[');
    let ghost e1 = v@.subrange(start as int, end2 as int);
    assert(e1 == trim_start_char(trim_end_arrows(strip_listen(s)), '['));
    let colon = match last_index(v, start, end2, ':') {
        Some(k) => k,
        None => {
            return None;
        },
    };
    let ghost i = colon - start;
    assert(e1.take(i) =~= v@.subrange(start as int, colon as int));
    assert(e1.skip(i + 1) =~= v@.subrange(colon + 1, end2 as int));
    let a_start = trim_start_from(v, start, colon, '[');
    let a_end = trim_end_to(v, a_start, colon, ']');
    let p_end = trim_end_to(v, colon + 1, end2, ']');
    let port_chars = slice(v, colon + 1, p_end);
    match parse_number(&port_chars, 65535) {
        Some(port) => {
            let address = string_of(v, a_start, a_end);
            Some((address, port as u16))
        },
        None => None,
    }
}

// ---------------------------------------------------------------------------
// Table rows
// ---------------------------------------------------------------------------

/// The word "TCP".
pub open spec fn tcp_word() -> Seq<char> {
    seq!['T', 'C', 'P']
}

/// The position of the first `w` among `cols` (their number if none).
pub open spec fn first_index_of(cols: Seq<Seq<char>>, w: Seq<char>) -> int
    decreases cols.len(),
{
    if cols.len() == 0 {
        0
    } else if cols[0] == w {
        0
    } else {
        1 + first_index_of(cols.drop_first(), w)
    }
}

proof fn lemma_first_index_of(cols: Seq<Seq<char>>, w: Seq<char>, i: int)
    requires
        0 <= i < cols.len(),
        cols[i] == w,
        forall|j: int| 0 <= j < i ==> cols[j] != w,
    ensures
        first_index_of(cols, w) == i,
    decreases i,
{
    if i > 0 {
        assert(cols[0] != w);
        lemma_first_index_of(cols.drop_first(), w, i - 1);
    }
}

/// The entry that a row of the `lsof` table describes: a row of at least
/// nine columns whose eighth is "TCP", whose first is the process name and
/// whose second its PID, with the endpoint in the column after the first
/// "TCP".
pub open spec fn spec_parse_line(line: Seq<char>) -> Option<PortEntryView> {
    let cols = words(line);
    if cols.len() < 9 || cols[7] != tcp_word() {
        None
    } else {
        let t = first_index_of(cols, tcp_word());
        match (parse_unsigned(cols[1], u32::MAX as nat), spec_parse_endpoint(cols[t + 1])) {
            (Some(pid), Some((address, port))) => Some(
                PortEntryView {
                    port,
                    protocol: Protocol::Tcp,
                    address,
                    pid: pid as u32,
                    process_name: cols[0],
                    command: Some(cols[0]),
                },
            ),
            _ => None,
        }
    }
}

/// The entry that a row of the `lsof` table describes, if any.
fn parse_lsof_line(line: &Vec<char>) -> (r: Option<PortEntry>)
    ensures
        match r {
            Some(e) => spec_parse_line(line@) == Some(e@),
            None => spec_parse_line(line@) is None,
        },
{
    let columns = split_words(line);
    let ghost cols = words(line@);
    let tcp_text = "TCP";
    proof {
        reveal_strlit("TCP");
    }
    let tcp = chars_of(tcp_text);
    assert(tcp@ =~= tcp_word());
    if columns.len() < 9 {
        return None;
    }
    let (c7a, c7b) = columns[7];
    if !range_is(line, c7a, c7b, &tcp) {
        return None;
    }
    let mut t: usize = 0;
    loop
        invariant
            t <= 7,
            columns@.len() == cols.len(),
            columns@.len() >= 9,
            cols == words(line@),
            word_bounds(line@, columns@),
            cols[7] == tcp_word(),
            tcp@ == tcp_word(),
            forall|j: int| 0 <= j < t ==> cols[j] != tcp_word(),
        ensures
            t <= 7,
            cols[t as int] == tcp_word(),
            forall|j: int| 0 <= j < t ==> cols[j] != tcp_word(),
        decreases 7 - t,
    {
        let (a, b) = columns[t];
        if range_is(line, a, b, &tcp) {
            break;
        }
        t = t + 1;
    }
    proof {
        lemma_first_index_of(cols, tcp_word(), t as int);
    }
    let (n0, n1) = columns[0];
    let (p0, p1) = columns[1];
    let pid_chars = slice(line, p0, p1);
    let pid = match parse_number(&pid_chars, 4294967295) {
        Some(pid) => pid,
        None => {
            return None;
        },
    };
    let (e0, e1) = columns[t + 1];
    let endpoint = slice(line, e0, e1);
    match parse_endpoint(&endpoint) {
        Some((address, port)) => {
            let process_name = string_of(line, n0, n1);
            let command = string_of(line, n0, n1);
            Some(
                PortEntry {
                    port,
                    protocol: Protocol::Tcp,
                    address,
                    pid: pid as u32,
                    process_name,
                    command: Some(command),
                },
            )
        },
        None => None,
    }
}

// ---------------------------------------------------------------------------
// Removing repeated entries
// ---------------------------------------------------------------------------

/// What makes two entries the same: port, address, PID and process name.
pub open spec fn entry_key(e: PortEntryView) -> (u16, Seq<char>, u32, Seq<char>) {
    (e.port, e.address, e.pid, e.process_name)
}

/// Does an entry of `es` have the key `k`?
pub open spec fn has_key(es: Seq<PortEntryView>, k: (u16, Seq<char>, u32, Seq<char>)) -> bool {
    exists|j: int| 0 <= j < es.len() && entry_key(#[trigger] es[j]) == k
}

/// `es` without the entries whose key an earlier entry has.
pub open spec fn deduped(es: Seq<PortEntryView>) -> Seq<PortEntryView>
    decreases es.len(),
{
    if es.len() == 0 {
        seq![]
    } else {
        let d = deduped(es.drop_last());
        if has_key(d, entry_key(es.last())) {
            d
        } else {
            d.push(es.last())
        }
    }
}

/// Do the entries have the same key?
fn same_key(a: &PortEntry, b: &PortEntry) -> (r: bool)
    ensures
        r == (entry_key(a@) == entry_key(b@)),
{
    a.port == b.port && a.pid == b.pid && a.address == b.address && a.process_name
        == b.process_name
}

/// The entries, each only the first time its key occurs.
fn dedupe(entries: Vec<PortEntry>) -> (r: Vec<PortEntry>)
    ensures
        entries_view(r@) == deduped(entries_view(entries@)),
{
    let mut out: Vec<PortEntry> = Vec::new();
    let mut i: usize = 0;
    assert(entries_view(entries@).take(0) =~= Seq::<PortEntryView>::empty());
    assert(entries_view(out@) =~= Seq::<PortEntryView>::empty());
    while i < entries.len()
        invariant
            i <= entries@.len(),
            entries_view(out@) == deduped(entries_view(entries@).take(i as int)),
        decreases entries@.len() - i,
    {
        let ghost ev = entries_view(entries@);
        let ghost d = entries_view(out@);
        proof {
            assert(ev.take(i + 1).drop_last() =~= ev.take(i as int));
            assert(ev.take(i + 1).last() == entries@[i as int]@);
        }
        let e = &entries[i];
        let mut found = false;
        let mut k: usize = 0;
        while k < out.len()
            invariant
                k <= out@.len(),
                d == entries_view(out@),
                e@ == ev[i as int],
                found == (exists|j: int| 0 <= j < k && entry_key(#[trigger] d[j]) == entry_key(e@)),
            decreases out@.len() - k,
        {
            if same_key(&out[k], e) {
                found = true;
            }
            assert(d[k as int] == out@[k as int]@);
            k = k + 1;
        }
        if !found {
            let copy = e.duplicate();
            out.push(copy);
            assert(entries_view(out@) =~= d.push(e@));
        }
        i = i + 1;
    }
    assert(entries_view(entries@).take(entries@.len() as int) =~= entries_view(entries@));
    out
}

// ---------------------------------------------------------------------------
// The field format
// ---------------------------------------------------------------------------

/// What the field parser has read so far: the last PID and process name, and
/// the entries found.
pub struct FieldState {
    pub pid: Option<u32>,
    pub process: Option<Seq<char>>,
    pub entries: Seq<PortEntryView>,
}

/// The state after one line of `lsof -F pcPn` output. The first character
/// names the field and the rest is its value: `p` sets the PID (or forgets it
/// when the value is no `u32`), `c` sets the process name, `n` adds an entry
/// for a well-formed endpoint once a PID and a process name are known. A `P`
/// line names the protocol; TCP, the only one there is, is what entries
/// carry. Other lines, and empty ones, change nothing.
pub open spec fn field_step(st: FieldState, line: Seq<char>) -> FieldState {
    if line.len() == 0 {
        st
    } else {
        let value = line.drop_first();
        if line[0] == 'p' {
            FieldState {
                pid: match parse_unsigned(value, u32::MAX as nat) {
                    Some(n) => Some(n as u32),
                    None => None,
                },
                process: st.process,
                entries: st.entries,
            }
        } else if line[0] == 'c' {
            FieldState { pid: st.pid, process: Some(value), entries: st.entries }
        } else if line[0] == 'n' {
            match (st.pid, st.process, spec_parse_endpoint(value)) {
                (Some(pid), Some(name), Some((address, port))) => FieldState {
                    pid: st.pid,
                    process: st.process,
                    entries: st.entries.push(
                        PortEntryView {
                            port,
                            protocol: Protocol::Tcp,
                            address,
                            pid,
                            process_name: name,
                            command: Some(name),
                        },
                    ),
                },
                _ => st,
            }
        } else {
            st
        }
    }
}

/// The state after all the lines `ls`, in order.
pub open spec fn field_fold(ls: Seq<Seq<char>>) -> FieldState
    decreases ls.len(),
{
    if ls.len() == 0 {
        FieldState { pid: None, process: None, entries: seq![] }
    } else {
        field_step(field_fold(ls.drop_last()), ls.last())
    }
}

/// Is `l` a PID line of the field format: "p" and then a digit?
pub open spec fn is_pid_field(l: Seq<char>) -> bool {
    l.len() >= 2 && l[0] == 'p' && is_digit(l[1])
}

/// Is the output in the field format: does one of its lines hold a PID field?
pub open spec fn is_field_output(ls: Seq<Seq<char>>) -> bool {
    exists|i: int| 0 <= i < ls.len() && is_pid_field(#[trigger] ls[i])
}

/// The entries of output in the field format, each once.
fn parse_lsof_fields(output: &str) -> (r: Vec<PortEntry>)
    ensures
        entries_view(r@) == deduped(field_fold(lines(output@)).entries),
{
    let v = chars_of(output);
    let ranges = split_lines(&v);
    let ghost ls = lines(v@);
    let tcp_text = "TCP";
    proof {
        reveal_strlit("TCP");
    }
    let tcp = chars_of(tcp_text);
    let mut entries: Vec<PortEntry> = Vec::new();
    let mut current_pid: Option<u32> = None;
    let mut current_process: Option<String> = None;
    let mut current_protocol = Protocol::Tcp;
    let mut k: usize = 0;
    assert(ls.take(0) =~= Seq::<Seq<char>>::empty());
    assert(entries_view(entries@) =~= Seq::<PortEntryView>::empty());
    while k < ranges.len()
        invariant
            k <= ranges@.len(),
            ls == lines(v@),
            line_bounds(v@, ranges@),
            current_protocol == Protocol::Tcp,
            current_pid == field_fold(ls.take(k as int)).pid,
            option_string_view(current_process) == field_fold(ls.take(k as int)).process,
            entries_view(entries@) == field_fold(ls.take(k as int)).entries,
        decreases ranges@.len() - k,
    {
        let ghost st = field_fold(ls.take(k as int));
        proof {
            assert(ls.take(k + 1).drop_last() =~= ls.take(k as int));
            assert(ls.take(k + 1).last() == ls[k as int]);
        }
        let (a, b) = ranges[k];
        let line = slice(&v, a, b);
        assert(line@ == ls[k as int]);
        if line.len() > 0 {
            let value = slice(&line, 1, line.len());
            assert(value@ =~= line@.drop_first());
            let field = line[0];
            if field == 'p' {
                current_pid = match parse_number(&value, 4294967295) {
                    Some(n) => Some(n as u32),
                    None => None,
                };
            } else if field == 'c' {
                current_process = Some(string_of(&line, 1, line.len()));
            } else if field == 'P' {
                if value.len() == 3 && range_is(&value, 0, 3, &tcp) {
                    current_protocol = Protocol::Tcp;
                }
            } else if field == 'n' {
                let found = parse_endpoint(&value);
                match (current_pid, &current_process, found) {
                    (Some(pid), Some(name), Some((address, port))) => {
                        let process_name = name.clone();
                        let command = name.clone();
                        let e = PortEntry {
                            port,
                            protocol: current_protocol,
                            address,
                            pid,
                            process_name,
                            command: Some(command),
                        };
                        let ghost before = entries_view(entries@);
                        entries.push(e);
                        assert(entries_view(entries@) =~= before.push(e@));
                    },
                    _ => {},
                }
            }
        }
        k = k + 1;
    }
    assert(ls.take(ranges@.len() as int) =~= ls);
    dedupe(entries)
}

// ---------------------------------------------------------------------------
// The table format
// ---------------------------------------------------------------------------

/// The entries of the rows of a table, after its header line.
pub open spec fn table_rows(ls: Seq<Seq<char>>) -> Seq<PortEntryView> {
    if ls.len() == 0 {
        seq![]
    } else {
        ls.drop_first().filter_map(|l: Seq<char>| spec_parse_line(l))
    }
}

/// The entries of output in the table format, each once.
fn parse_lsof_table(output: &str) -> (r: Vec<PortEntry>)
    ensures
        entries_view(r@) == deduped(table_rows(lines(output@))),
{
    let v = chars_of(output);
    let ranges = split_lines(&v);
    let ghost ls = lines(v@);
    let mut rows: Vec<PortEntry> = Vec::new();
    if ranges.len() == 0 {
        assert(entries_view(rows@) =~= table_rows(ls));
        return dedupe(rows);
    }
    let mut k: usize = 1;
    assert(ls.subrange(1, 1) =~= Seq::<Seq<char>>::empty());
    assert(entries_view(rows@) =~= Seq::<PortEntryView>::empty());
    while k < ranges.len()
        invariant
            1 <= k <= ranges@.len(),
            ls == lines(v@),
            line_bounds(v@, ranges@),
            entries_view(rows@) == ls.subrange(1, k as int).filter_map(
                |l: Seq<char>| spec_parse_line(l),
            ),
        decreases ranges@.len() - k,
    {
        proof {
            assert(ls.subrange(1, k + 1).drop_last() =~= ls.subrange(1, k as int));
            assert(ls.subrange(1, k + 1).last() == ls[k as int]);
        }
        let (a, b) = ranges[k];
        let line = slice(&v, a, b);
        let ghost before = entries_view(rows@);
        match parse_lsof_line(&line) {
            Some(e) => {
                rows.push(e);
                assert(entries_view(rows@) =~= before + seq![e@]);
            },
            None => {},
        }
        k = k + 1;
    }
    assert(ls.subrange(1, ranges@.len() as int) =~= ls.drop_first());
    dedupe(rows)
}

// ---------------------------------------------------------------------------
// Both formats
// ---------------------------------------------------------------------------

/// The entries that `lsof` output describes, each once, in the order in which
/// they first occur: field output when a line holds a PID field, a table
/// with a header line otherwise.
pub open spec fn spec_parse_lsof(output: Seq<char>) -> Seq<PortEntryView> {
    let ls = lines(output);
    if is_field_output(ls) {
        deduped(field_fold(ls).entries)
    } else {
        deduped(table_rows(ls))
    }
}

/// Parses the output of `lsof -n -P -iTCP -sTCP:LISTEN`, in the field format
/// that `-F pcPn` selects or as a table: the listening processes, each
/// (port, address, PID, process name) once, in the order in which they occur.
pub fn parse_lsof(output: &str) -> (r: Vec<PortEntry>)
    ensures
        entries_view(r@) == spec_parse_lsof(output@),
{
    let v = chars_of(output);
    let ranges = split_lines(&v);
    let ghost ls = lines(v@);
    let mut k: usize = 0;
    while k < ranges.len()
        invariant
            k <= ranges@.len(),
            ls == lines(v@),
            line_bounds(v@, ranges@),
            v@ == output@,
            forall|j: int| 0 <= j < k ==> !is_pid_field(#[trigger] ls[j]),
        decreases ranges@.len() - k,
    {
        let (a, b) = ranges[k];
        if b - a >= 2 && v[a] == 'p' && is_ascii_digit(v[a + 1]) {
            assert(ls[k as int][0] == v@[a as int]);
            assert(ls[k as int][1] == v@[a + 1]);
            assert(is_pid_field(ls[k as int]));
            return parse_lsof_fields(output);
        }
        proof {
            if ls[k as int].len() >= 2 {
                assert(ls[k as int][0] == v@[a as int]);
                assert(ls[k as int][1] == v@[a + 1]);
            }
        }
        k = k + 1;
    }
    parse_lsof_table(output)
}

// ---------------------------------------------------------------------------
// Looking entries up, and naming their commands
// ---------------------------------------------------------------------------

/// The position of the first entry of `es` on `port` (their number if none).
pub open spec fn first_on_port(es: Seq<PortEntryView>, port: u16) -> int
    decreases es.len(),
{
    if es.len() == 0 {
        0
    } else if es[0].port == port {
        0
    } else {
        1 + first_on_port(es.drop_first(), port)
    }
}

proof fn lemma_first_on_port(es: Seq<PortEntryView>, port: u16, i: int)
    requires
        0 <= i <= es.len(),
        i < es.len() ==> es[i].port == port,
        forall|j: int| 0 <= j < i ==> (#[trigger] es[j]).port != port,
    ensures
        first_on_port(es, port) == i,
    decreases i,
{
    if i > 0 {
        assert(es[0].port != port);
        assert forall|j: int| 0 <= j < i - 1 implies (#[trigger] es.drop_first()[j]).port
            != port by {
            assert(es.drop_first()[j] == es[j + 1]);
        }
        lemma_first_on_port(es.drop_first(), port, i - 1);
    }
}

/// The first entry on `port`, if any.
pub fn find_port(entries: &[PortEntry], port: u16) -> (r: Option<PortEntry>)
    ensures
        ({
            let es = entries_view(entries@);
            let i = first_on_port(es, port);
            match r {
                Some(e) => i < es.len() && e@ == es[i],
                None => i == es.len(),
            }
        }),
{
    let ghost es = entries_view(entries@);
    let mut i: usize = 0;
    while i < entries.len()
        invariant
            i <= entries@.len(),
            es == entries_view(entries@),
            forall|j: int| 0 <= j < i ==> (#[trigger] es[j]).port != port,
        decreases entries@.len() - i,
    {
        if entries[i].port == port {
            proof {
                lemma_first_on_port(es, port, i as int);
            }
            return Some(entries[i].duplicate());
        }
        i = i + 1;
    }
    proof {
        lemma_first_on_port(es, port, i as int);
    }
    None
}

/// The PIDs of `es`, each once, in the order in which they first occur.
pub open spec fn distinct_pids(es: Seq<PortEntryView>) -> Seq<u32>
    decreases es.len(),
{
    if es.len() == 0 {
        seq![]
    } else {
        let d = distinct_pids(es.drop_last());
        if d.contains(es.last().pid) {
            d
        } else {
            d.push(es.last().pid)
        }
    }
}

/// The PIDs whose command lines `fill_commands` needs, each once, in the
/// order in which they first occur.
pub fn pids_to_look_up(entries: &[PortEntry]) -> (r: Vec<u32>)
    ensures
        r@ == distinct_pids(entries_view(entries@)),
{
    let ghost es = entries_view(entries@);
    let mut out: Vec<u32> = Vec::new();
    let mut i: usize = 0;
    assert(es.take(0) =~= Seq::<PortEntryView>::empty());
    while i < entries.len()
        invariant
            i <= entries@.len(),
            es == entries_view(entries@),
            out@ == distinct_pids(es.take(i as int)),
        decreases entries@.len() - i,
    {
        proof {
            assert(es.take(i + 1).drop_last() =~= es.take(i as int));
            assert(es.take(i + 1).last() == es[i as int]);
        }
        let pid = entries[i].pid;
        let mut k: usize = 0;
        let mut seen = false;
        while k < out.len()
            invariant
                k <= out@.len(),
                seen == (exists|j: int| 0 <= j < k && out@[j] == pid),
            decreases out@.len() - k,
        {
            if out[k] == pid {
                seen = true;
            }
            k = k + 1;
        }
        if !seen {
            out.push(pid);
        }
        i = i + 1;
    }
    assert(es.take(entries@.len() as int) =~= es);
    out
}

/// The first looked-up command line of `pid` among `found`: `None` if `pid`
/// was not looked up, `Some(None)` if the lookup gave nothing.
pub open spec fn lookup(found: Seq<(u32, Option<Seq<char>>)>, pid: u32) -> Option<
    Option<Seq<char>>,
>
    decreases found.len(),
{
    if found.len() == 0 {
        None
    } else if found[0].0 == pid {
        Some(found[0].1)
    } else {
        lookup(found.drop_first(), pid)
    }
}

/// The process name of the first entry of `es` with PID `pid`.
pub open spec fn first_name_of(es: Seq<PortEntryView>, pid: u32) -> Seq<char>
    decreases es.len(),
{
    if es.len() == 0 {
        Seq::empty()
    } else if es[0].pid == pid {
        es[0].process_name
    } else {
        first_name_of(es.drop_first(), pid)
    }
}

/// The command shown for the processes with PID `pid`: the command line
/// that was looked up for it, or else the name of the first of its entries.
pub open spec fn command_for(
    es: Seq<PortEntryView>,
    found: Seq<(u32, Option<Seq<char>>)>,
    pid: u32,
) -> Seq<char> {
    match lookup(found, pid) {
        Some(Some(c)) => c,
        _ => first_name_of(es, pid),
    }
}

/// The models of looked-up command lines.
pub open spec fn found_view(found: Seq<(u32, Option<String>)>) -> Seq<(u32, Option<Seq<char>>)> {
    found.map_values(|f: (u32, Option<String>)| (f.0, option_string_view(f.1)))
}

/// The looked-up command line of `pid`, if any.
fn find_command(found: &Vec<(u32, Option<String>)>, pid: u32) -> (r: Option<String>)
    ensures
        match lookup(found_view(found@), pid) {
            Some(Some(c)) => r is Some && r.unwrap()@ == c,
            _ => r is None,
        },
{
    let ghost fv = found_view(found@);
    let mut i: usize = 0;
    assert(fv.skip(0) =~= fv);
    while i < found.len()
        invariant
            i <= found@.len(),
            fv == found_view(found@),
            lookup(fv, pid) == lookup(fv.skip(i as int), pid),
        decreases found@.len() - i,
    {
        assert(fv.skip(i as int)[0] == fv[i as int]);
        if found[i].0 == pid {
            return match &found[i].1 {
                Some(c) => Some(c.clone()),
                None => None,
            };
        }
        assert(fv.skip(i as int).drop_first() =~= fv.skip(i + 1));
        i = i + 1;
    }
    assert(fv.skip(i as int) =~= Seq::<(u32, Option<Seq<char>>)>::empty());
    None
}

/// The name of the first entry with PID `pid`.
fn first_name(entries: &Vec<PortEntry>, pid: u32) -> (r: String)
    ensures
        r@ == first_name_of(entries_view(entries@), pid),
{
    let ghost es = entries_view(entries@);
    let mut i: usize = 0;
    assert(es.skip(0) =~= es);
    while i < entries.len()
        invariant
            i <= entries@.len(),
            es == entries_view(entries@),
            first_name_of(es, pid) == first_name_of(es.skip(i as int), pid),
        decreases entries@.len() - i,
    {
        assert(es.skip(i as int)[0] == es[i as int]);
        if entries[i].pid == pid {
            return entries[i].process_name.clone();
        }
        assert(es.skip(i as int).drop_first() =~= es.skip(i + 1));
        i = i + 1;
    }
    assert(es.skip(i as int) =~= Seq::<PortEntryView>::empty());
    String::new()
}

/// The entries, each with the command shown for its PID.
pub open spec fn filled(es: Seq<PortEntryView>, found: Seq<(u32, Option<Seq<char>>)>) -> Seq<
    PortEntryView,
> {
    Seq::new(
        es.len(),
        |i: int| PortEntryView { command: Some(command_for(es, found, es[i].pid)), ..es[i] },
    )
}

/// Sets the command of every entry: the command line looked up for its PID
/// (`found` pairs each PID that was looked up with what the lookup gave), or
/// the process name of the first entry with that PID when there is none.
pub fn fill_commands(entries: &mut Vec<PortEntry>, found: &Vec<(u32, Option<String>)>)
    ensures
        entries_view(final(entries)@) == filled(entries_view(old(entries)@), found_view(found@)),
{
    let ghost es = entries_view(entries@);
    let mut out: Vec<PortEntry> = Vec::new();
    let mut i: usize = 0;
    while i < entries.len()
        invariant
            i <= entries@.len(),
            es == entries_view(entries@),
            out@.len() == i,
            forall|j: int|
                0 <= j < i ==> {
                    let e = entries@[j]@;
                    #[trigger] out@[j]@ == PortEntryView {
                        command: Some(command_for(es, found_view(found@), e.pid)),
                        ..e
                    }
                },
        decreases entries@.len() - i,
    {
        let e = &entries[i];
        let command = match find_command(found, e.pid) {
            Some(c) => c,
            None => first_name(entries, e.pid),
        };
        let mut copy = e.duplicate();
        copy.command = Some(command);
        out.push(copy);
        i = i + 1;
    }
    assert(entries_view(out@) =~= filled(es, found_view(found@)));
    *entries = out;
}

/// The command line in the output of `ps -o command=`: the output without
/// surrounding whitespace, if anything is left.
pub open spec fn spec_ps_command(stdout: Seq<char>) -> Option<Seq<char>> {
    let t = trim_ws(stdout);
    if t.len() == 0 {
        None
    } else {
        Some(t)
    }
}

/// The command line that `ps -p PID -o command=` printed, if any.
pub fn parse_ps_command(stdout: &str) -> (r: Option<String>)
    ensures
        match r {
            Some(c) => spec_ps_command(stdout@) == Some(c@),
            None => spec_ps_command(stdout@) is None,
        },
{
    let t = trim(stdout);
    if t.len() == 0 {
        None
    } else {
        Some(string_of(&t, 0, t.len()))
    }
}

/// The error that an `lsof` run reports: one that failed and printed nothing
/// on standard output, with what it printed on standard error, trimmed, as
/// the reason when there is any.
pub open spec fn spec_lsof_failure(succeeded: bool, stdout_empty: bool, stderr: Seq<char>) -> Option<
    Seq<char>,
> {
    if !succeeded && stdout_empty {
        let t = trim_ws(stderr);
        let reason = if t.len() == 0 {
            Seq::<char>::empty()
        } else {
            "\nReason: "@ + t
        };
        Some(
            "Could not inspect listening ports."@ + reason
                + "\nTry running with sudo if you need full process details."@,
        )
    } else {
        None
    }
}

/// The error message for an `lsof` run that `succeeded` or not, whose
/// standard output was empty or not, and which wrote `stderr`.
pub fn lsof_failure(succeeded: bool, stdout_empty: bool, stderr: &str) -> (r: Option<String>)
    ensures
        match r {
            Some(m) => spec_lsof_failure(succeeded, stdout_empty, stderr@) == Some(m@),
            None => spec_lsof_failure(succeeded, stdout_empty, stderr@) is None,
        },
{
    if succeeded || !stdout_empty {
        return None;
    }
    let t = trim(stderr);
    let mut m = String::new();
    push_str(&mut m, "Could not inspect listening ports.");
    if t.len() > 0 {
        push_str(&mut m, "\nReason: ");
        push_chars(&mut m, &t);
    }
    push_str(&mut m, "\nTry running with sudo if you need full process details.");
    proof {
        let t = trim_ws(stderr@);
        if t.len() == 0 {
            assert(m@ =~= "Could not inspect listening ports."@ + Seq::<char>::empty()
                + "\nTry running with sudo if you need full process details."@);
        } else {
            assert(m@ =~= "Could not inspect listening ports."@ + ("\nReason: "@ + t)
                + "\nTry running with sudo if you need full process details."@);
        }
    }
    Some(m)
}

// ---------------------------------------------------------------------------
// Laws
// ---------------------------------------------------------------------------

/// No two entries that `deduped` keeps have the same key.
pub proof fn deduped_keys_unique(es: Seq<PortEntryView>)
    ensures
        forall|i: int, j: int|
            0 <= i < j < deduped(es).len() ==> entry_key(#[trigger] deduped(es)[i])
                != entry_key(#[trigger] deduped(es)[j]),
    decreases es.len(),
{
    if es.len() > 0 {
        deduped_keys_unique(es.drop_last());
        let d = deduped(es.drop_last());
        if !has_key(d, entry_key(es.last())) {
            let d2 = d.push(es.last());
            assert forall|i: int, j: int|
                0 <= i < j < d2.len() implies entry_key(#[trigger] d2[i]) != entry_key(
                #[trigger] d2[j],
            ) by {
                if j == d2.len() - 1 {
                    assert(d2[i] == d[i]);
                    if entry_key(d[i]) == entry_key(es.last()) {
                        assert(has_key(d, entry_key(es.last())));
                    }
                } else {
                    assert(d2[i] == d[i] && d2[j] == d[j]);
                }
            }
        }
    }
}

/// Every key of `es` is the key of an entry that `deduped` keeps.
pub proof fn deduped_keeps_every_key(es: Seq<PortEntryView>)
    ensures
        forall|i: int| 0 <= i < es.len() ==> has_key(deduped(es), entry_key(#[trigger] es[i])),
    decreases es.len(),
{
    if es.len() > 0 {
        deduped_keeps_every_key(es.drop_last());
        let d = deduped(es.drop_last());
        assert forall|i: int| 0 <= i < es.len() implies has_key(
            deduped(es),
            entry_key(#[trigger] es[i]),
        ) by {
            if i < es.len() - 1 {
                assert(es[i] == es.drop_last()[i]);
                assert(has_key(d, entry_key(es[i])));
                if !has_key(d, entry_key(es.last())) {
                    let j = choose|j: int| 0 <= j < d.len() && entry_key(#[trigger] d[j]) == entry_key(es[i]);
                    assert(d.push(es.last())[j] == d[j]);
                }
            } else {
                if !has_key(d, entry_key(es.last())) {
                    assert(d.push(es.last())[d.len() as int] == es.last());
                }
            }
        }
    }
}

/// Every entry that `deduped` keeps is an entry of `es`.
pub proof fn deduped_keeps_only_entries(es: Seq<PortEntryView>)
    ensures
        forall|j: int| 0 <= j < deduped(es).len() ==> es.contains(#[trigger] deduped(es)[j]),
    decreases es.len(),
{
    if es.len() > 0 {
        deduped_keeps_only_entries(es.drop_last());
        let d = deduped(es.drop_last());
        assert forall|j: int| 0 <= j < deduped(es).len() implies es.contains(
            #[trigger] deduped(es)[j],
        ) by {
            if j < d.len() {
                assert(deduped(es)[j] == d[j]);
                assert(es.drop_last().contains(d[j]));
                let k = choose|k: int| 0 <= k < es.drop_last().len() && es.drop_last()[k] == d[j];
                assert(es[k] == d[j]);
            } else {
                assert(deduped(es)[j] == es.last());
                assert(es[es.len() - 1] == es.last());
            }
        }
    }
}

/// The entries that `parse_lsof` gives differ pairwise in port, address,
/// PID or process name: each listening process is listed once per address
/// and port.
pub proof fn parse_lsof_lists_each_once(output: Seq<char>)
    ensures
        forall|i: int, j: int|
            0 <= i < j < spec_parse_lsof(output).len() ==> entry_key(
                #[trigger] spec_parse_lsof(output)[i],
            ) != entry_key(#[trigger] spec_parse_lsof(output)[j]),
{
    let ls = lines(output);
    if is_field_output(ls) {
        deduped_keys_unique(field_fold(ls).entries);
    } else {
        deduped_keys_unique(table_rows(ls));
    }
}

/// Every entry that `parse_lsof` gives carries the protocol TCP and has its
/// process name as its command.
pub proof fn parse_lsof_entries_are_tcp_named(output: Seq<char>)
    ensures
        forall|i: int|
            0 <= i < spec_parse_lsof(output).len() ==> {
                let e = #[trigger] spec_parse_lsof(output)[i];
                e.protocol == Protocol::Tcp && e.command == Some(e.process_name)
            },
{
    let ls = lines(output);
    let raw = if is_field_output(ls) {
        field_fold(ls).entries
    } else {
        table_rows(ls)
    };
    if is_field_output(ls) {
        lemma_field_entries_tcp_named(ls);
    } else if ls.len() > 0 {
        lemma_rows_tcp_named(ls.drop_first());
    }
    deduped_keeps_only_entries(raw);
    assert forall|i: int| 0 <= i < spec_parse_lsof(output).len() implies {
        let e = #[trigger] spec_parse_lsof(output)[i];
        e.protocol == Protocol::Tcp && e.command == Some(e.process_name)
    } by {
        assert(raw.contains(deduped(raw)[i]));
    }
}

/// Is every entry of `es` a TCP entry whose command is its process name?
pub open spec fn tcp_named(es: Seq<PortEntryView>) -> bool {
    forall|i: int|
        0 <= i < es.len() ==> (#[trigger] es[i]).protocol == Protocol::Tcp && es[i].command == Some(
            es[i].process_name,
        )
}

proof fn lemma_field_entries_tcp_named(ls: Seq<Seq<char>>)
    ensures
        tcp_named(field_fold(ls).entries),
    decreases ls.len(),
{
    if ls.len() > 0 {
        lemma_field_entries_tcp_named(ls.drop_last());
        let st = field_fold(ls.drop_last());
        let st2 = field_step(st, ls.last());
        assert forall|i: int| 0 <= i < st2.entries.len() implies (#[trigger] st2.entries[i]).protocol
            == Protocol::Tcp && st2.entries[i].command == Some(st2.entries[i].process_name) by {
            if i < st.entries.len() {
                assert(st2.entries[i] == st.entries[i]);
            }
        }
    }
}

proof fn lemma_rows_tcp_named(ls: Seq<Seq<char>>)
    ensures
        tcp_named(ls.filter_map(|l: Seq<char>| spec_parse_line(l))),
    decreases ls.len(),
{
    if ls.len() > 0 {
        lemma_rows_tcp_named(ls.drop_last());
        let r = ls.drop_last().filter_map(|l: Seq<char>| spec_parse_line(l));
        let r2 = ls.filter_map(|l: Seq<char>| spec_parse_line(l));
        assert forall|i: int| 0 <= i < r2.len() implies (#[trigger] r2[i]).protocol == Protocol::Tcp
            && r2[i].command == Some(r2[i].process_name) by {
            if i < r.len() {
                assert(r2[i] == r[i]);
            }
        }
    }
}

/// Entries with the same PID get the same command from `fill_commands`,
/// and every entry keeps all else it held.
pub proof fn fill_commands_agree_on_pid(
    es: Seq<PortEntryView>,
    found: Seq<(u32, Option<Seq<char>>)>,
)
    ensures
        filled(es, found).len() == es.len(),
        forall|i: int, j: int|
            0 <= i < es.len() && 0 <= j < es.len() && es[i].pid == es[j].pid ==> (#[trigger] filled(
                es,
                found,
            )[i]).command == (#[trigger] filled(es, found)[j]).command,
        forall|i: int|
            0 <= i < es.len() ==> {
                let f = #[trigger] filled(es, found)[i];
                &&& f.port == es[i].port
                &&& f.protocol == es[i].protocol
                &&& f.address == es[i].address
                &&& f.pid == es[i].pid
                &&& f.process_name == es[i].process_name
            },
{
}

/// `deduped` never lengthens the list.
pub proof fn deduped_no_longer(es: Seq<PortEntryView>)
    ensures
        deduped(es).len() <= es.len(),
    decreases es.len(),
{
    if es.len() > 0 {
        deduped_no_longer(es.drop_last());
    }
}

/// A list whose keys are all different is left as it is by `deduped`.
pub proof fn deduped_keeps_distinct_list(es: Seq<PortEntryView>)
    requires
        forall|i: int, j: int|
            0 <= i < j < es.len() ==> entry_key(#[trigger] es[i]) != entry_key(#[trigger] es[j]),
    ensures
        deduped(es) == es,
    decreases es.len(),
{
    if es.len() > 0 {
        let p = es.drop_last();
        assert forall|i: int, j: int| 0 <= i < j < p.len() implies entry_key(#[trigger] p[i])
            != entry_key(#[trigger] p[j]) by {
            assert(p[i] == es[i] && p[j] == es[j]);
        }
        deduped_keeps_distinct_list(p);
        if has_key(p, entry_key(es.last())) {
            let j = choose|j: int| 0 <= j < p.len() && entry_key(#[trigger] p[j]) == entry_key(es.last());
            assert(p[j] == es[j]);
            assert(entry_key(es[j]) != entry_key(es[es.len() - 1]));
        }
        assert(p.push(es.last()) =~= es);
    }
}

/// Removing repeated entries twice changes nothing, and never lengthens the
/// list.
pub proof fn deduped_twice_is_once(es: Seq<PortEntryView>)
    ensures
        deduped(deduped(es)) == deduped(es),
        deduped(es).len() <= es.len(),
{
    deduped_keys_unique(es);
    deduped_keeps_distinct_list(deduped(es));
    deduped_no_longer(es);
}

/// Does the line of field output change what the parser has read: a `p`,
/// `c` or `n` field? (Empty lines, `P` lines and lines of other fields,
/// such as lsof's `f`, `t` or `L`, do not.)
pub open spec fn is_state_field(l: Seq<char>) -> bool {
    l.len() > 0 && (l[0] == 'p' || l[0] == 'c' || l[0] == 'n')
}

/// The field parser reads only `p`, `c` and `n` lines: leaving out all other
/// lines, empty ones among them, gives the same state.
pub proof fn field_parse_ignores_other_lines(ls: Seq<Seq<char>>)
    ensures
        field_fold(ls) == field_fold(ls.filter(|l: Seq<char>| is_state_field(l))),
    decreases ls.len(),
{
    reveal_with_fuel(Seq::<_>::filter, 1);
    if ls.len() > 0 {
        field_parse_ignores_other_lines(ls.drop_last());
        let f = ls.drop_last().filter(|l: Seq<char>| is_state_field(l));
        if is_state_field(ls.last()) {
            assert(f.push(ls.last()).drop_last() =~= f);
            assert(f.push(ls.last()).last() == ls.last());
        }
    }
}

/// Inserting or removing lines that are empty or of other fields than `p`,
/// `c` and `n` does not change the entries of field output.
pub proof fn field_parse_same_for_same_field_lines(ls1: Seq<Seq<char>>, ls2: Seq<Seq<char>>)
    requires
        ls1.filter(|l: Seq<char>| is_state_field(l)) == ls2.filter(|l: Seq<char>| is_state_field(l)),
    ensures
        deduped(field_fold(ls1).entries) == deduped(field_fold(ls2).entries),
{
    field_parse_ignores_other_lines(ls1);
    field_parse_ignores_other_lines(ls2);
}

proof fn lemma_line_parts_nonempty(s: Seq<char>)
    ensures
        line_parts(s).len() >= 1,
    decreases s.len(),
{
    if s.len() > 0 {
        lemma_line_parts_nonempty(s.drop_last());
    }
}

proof fn lemma_line_parts_one_line(h: Seq<char>)
    requires
        forall|i: int| 0 <= i < h.len() ==> h[i] != '\n',
    ensures
        line_parts(h) == seq![h],
    decreases h.len(),
{
    if h.len() == 0 {
        assert(h =~= Seq::<char>::empty());
        assert(line_parts(h) =~= seq![h]);
    } else {
        let d = h.drop_last();
        assert forall|i: int| 0 <= i < d.len() implies d[i] != '\n' by {
            assert(d[i] == h[i]);
        }
        lemma_line_parts_one_line(d);
        assert(h[h.len() - 1] != '\n');
        assert(d.push(h.last()) =~= h);
        assert(line_parts(h) == seq![d].update(0, d.push(h.last())));
        assert(line_parts(h) =~= seq![h]);
    }
}

proof fn lemma_line_parts_concat(p: Seq<char>, r: Seq<char>)
    requires
        p.len() > 0,
        p.last() == '\n',
    ensures
        line_parts(p + r) == line_parts(p).drop_last() + line_parts(r),
    decreases r.len(),
{
    lemma_line_parts_nonempty(p.drop_last());
    if r.len() == 0 {
        assert(p + r =~= p);
        assert(line_parts(p) == line_parts(p.drop_last()).push(Seq::<char>::empty()));
        assert(line_parts(p).drop_last() + line_parts(r) =~= line_parts(p));
    } else {
        lemma_line_parts_concat(p, r.drop_last());
        lemma_line_parts_nonempty(r.drop_last());
        assert((p + r).drop_last() =~= p + r.drop_last());
        assert((p + r).last() == r.last());
        let a = line_parts(p).drop_last();
        let b = line_parts(r.drop_last());
        let c = r.last();
        if c == '\n' {
            assert((a + b).push(Seq::<char>::empty()) =~= a + b.push(Seq::<char>::empty()));
        } else {
            assert((a + b).last() == b.last());
            assert((a + b).update((a + b).len() - 1, (a + b).last().push(c)) =~= a + b.update(
                b.len() - 1,
                b.last().push(c),
            ));
        }
    }
}

/// The lines of a first line `h`, a line feed and `r` are `h` (without a
/// carriage return at its end) and then the lines of `r`.
proof fn lemma_lines_after_first(h: Seq<char>, r: Seq<char>)
    requires
        forall|i: int| 0 <= i < h.len() ==> h[i] != '\n',
    ensures
        lines(h + seq!['\n'] + r) == seq![strip_cr(h)] + lines(r),
{
    let p = h + seq!['\n'];
    lemma_line_parts_one_line(h);
    assert(p.drop_last() =~= h);
    assert(line_parts(p) == seq![h].push(Seq::<char>::empty()));
    assert(line_parts(p).drop_last() =~= seq![h]);
    lemma_line_parts_concat(p, r);
    lemma_line_parts_nonempty(r);
    let q = line_parts(r);
    let all = seq![h] + q;
    assert(line_parts(h + seq!['\n'] + r) == all);
    assert(all.drop_last() =~= seq![h] + q.drop_last());
    assert((seq![h] + q.drop_last()).map_values(|l: Seq<char>| strip_cr(l)) =~= seq![strip_cr(h)]
        + q.drop_last().map_values(|l: Seq<char>| strip_cr(l)));
    assert(all.last() == q.last());
    let ended = q.drop_last().map_values(|l: Seq<char>| strip_cr(l));
    if q.last().len() == 0 {
        assert(lines(r) == ended);
    } else {
        assert(lines(r) == ended.push(q.last()));
        assert((seq![strip_cr(h)] + ended).push(q.last()) =~= seq![strip_cr(h)] + ended.push(
            q.last(),
        ));
    }
}

/// The table parser skips its first line, whatever it says: the entries of
/// a header `h`, a line feed and the rows `rest` are the entries of the
/// rows of `rest`, each once, in order.
pub proof fn table_parse_ignores_header(h: Seq<char>, rest: Seq<char>)
    requires
        forall|i: int| 0 <= i < h.len() ==> h[i] != '\n',
    ensures
        table_rows(lines(h + seq!['\n'] + rest)) == lines(rest).filter_map(
            |l: Seq<char>| spec_parse_line(l),
        ),
        deduped(table_rows(lines(h + seq!['\n'] + rest))) == deduped(
            lines(rest).filter_map(|l: Seq<char>| spec_parse_line(l)),
        ),
{
    lemma_lines_after_first(h, rest);
    assert((seq![strip_cr(h)] + lines(rest)).drop_first() =~= lines(rest));
}

proof fn lemma_last_index_past(x: Seq<char>, d: Seq<char>, c: char)
    requires
        forall|i: int| 0 <= i < d.len() ==> d[i] != c,
    ensures
        last_index_of(x + d, c) == last_index_of(x, c),
    decreases d.len(),
{
    if d.len() == 0 {
        assert(x + d =~= x);
    } else {
        let dd = d.drop_last();
        assert forall|i: int| 0 <= i < dd.len() implies dd[i] != c by {
            assert(dd[i] == d[i]);
        }
        lemma_last_index_past(x, dd, c);
        assert((x + d).drop_last() =~= x + dd);
        assert((x + d).last() == d[d.len() - 1]);
    }
}

/// Can `addr` stand as the address of an endpoint: it neither starts with
/// '[' nor ends with ']'?
pub open spec fn plain_address(addr: Seq<char>) -> bool {
    addr.len() == 0 || (addr[0] != '[' && addr.last() != ']')
}

/// The parse of `x + ":" + decimal(port)`, where `x` may still carry the
/// closing bracket of an IPv6 address.
proof fn lemma_endpoint_tail(x: Seq<char>, addr: Seq<char>, port: u16)
    requires
        plain_address(addr),
        x == addr || x == addr.push(']'),
    ensures
        ({
            let e = x + seq![':'] + decimal(port as nat);
            &&& strip_listen(e) == e
            &&& trim_end_arrows(e) == e
            &&& last_index_of(e, ':') == Some(x.len() as int)
            &&& e.take(x.len() as int) == x
            &&& trim_end_char(trim_start_char(x, '['), ']') == addr
            &&& parse_unsigned(trim_end_char(e.skip(x.len() as int + 1), ']'), u16::MAX as nat) == Some(
                port as nat,
            )
        }),
{
    let d = decimal(port as nat);
    decimal_parses_back(port as nat, u16::MAX as nat);
    let e = x + seq![':'] + d;
    assert(e.last() == d[d.len() - 1]);
    assert(is_digit(d[d.len() - 1]));
    if e.len() >= 9 {
        assert(e.subrange(e.len() - 9, e.len() as int)[8] == e.last());
    }
    assert forall|i: int| 0 <= i < d.len() implies d[i] != ':' by {
        assert(is_digit(d[i]));
    }
    lemma_last_index_past(x + seq![':'], d, ':');
    assert((x + seq![':']).last() == ':');
    assert(e.take(x.len() as int) =~= x);
    assert(e.skip(x.len() as int + 1) =~= d);
    assert(trim_end_char(d, ']') == d);
    if x.len() > 0 {
        assert(x[0] != '[') by {
            if addr.len() > 0 {
                assert(x[0] == addr[0]);
            }
        }
    }
    assert(trim_start_char(x, '[') == x);
    if x == addr.push(']') {
        assert(x.drop_last() =~= addr);
    }
    assert(trim_end_char(addr, ']') == addr);
}

/// An endpoint written as an address, a colon and a port parses back to the
/// same address and port, whether written plainly, with the address in
/// brackets (as lsof writes IPv6 addresses), or followed by " (LISTEN)".
/// The address may hold colons; it must not start with '[' or end with
/// ']', which the parser would take for brackets.
pub proof fn endpoint_parses_back(addr: Seq<char>, port: u16)
    requires
        plain_address(addr),
    ensures
        spec_parse_endpoint(addr + seq![':'] + decimal(port as nat)) == Some((addr, port)),
        spec_parse_endpoint(seq!['['] + addr + seq![']', ':'] + decimal(port as nat)) == Some(
            (addr, port),
        ),
        spec_parse_endpoint(addr + seq![':'] + decimal(port as nat) + listen_suffix()) == Some(
            (addr, port),
        ),
{
    let d = decimal(port as nat);
    lemma_endpoint_tail(addr, addr, port);
    let e = addr + seq![':'] + d;
    let el = e + listen_suffix();
    assert(el.subrange(el.len() - 9, el.len() as int) =~= listen_suffix());
    assert(el.subrange(0, el.len() - 9) =~= e);
    assert(strip_listen(el) == e);

    let x = addr.push(']');
    lemma_endpoint_tail(x, addr, port);
    let eb = x + seq![':'] + d;
    let b = seq!['['] + addr + seq![']', ':'] + d;
    assert(b.drop_first() =~= eb);
    assert(b =~= seq!['['] + eb);
    assert(b.len() >= 9 ==> b.subrange(b.len() - 9, b.len() as int)[8] == eb.last());
    assert(strip_listen(b) == b);
    assert(b[b.len() - 1] == eb[eb.len() - 1]);
    assert(trim_end_arrows(b) == b);
    assert(eb.len() > 0 && eb[0] != '[') by {
        if addr.len() > 0 {
            assert(eb[0] == addr[0]);
        } else {
            assert(eb[0] == ']');
        }
    }
    assert(trim_start_char(b, '[') == trim_start_char(eb, '['));
    assert(trim_start_char(eb, '[') == eb);
}

/// The entries that the lines of `lsof` output describe, repeats included,
/// in order: those of the field format, or the rows of the table.
pub open spec fn parsed_rows(output: Seq<char>) -> Seq<PortEntryView> {
    let ls = lines(output);
    if is_field_output(ls) {
        field_fold(ls).entries
    } else {
        table_rows(ls)
    }
}

/// `parse_lsof` keeps every listening process: for every entry that the
/// output describes, the result holds an entry with the same port, address,
/// PID and process name. Every entry of the result is one that the output
/// describes, and no two of them agree in all four of port, address, PID and
/// process name. So two rows that differ in PID alone (an nginx master and a
/// worker on one port) are both kept.
pub proof fn parse_lsof_keeps_every_process(output: Seq<char>)
    ensures
        spec_parse_lsof(output) == deduped(parsed_rows(output)),
        forall|i: int|
            #![trigger parsed_rows(output)[i]]
            0 <= i < parsed_rows(output).len() ==> exists|j: int|
                #![trigger spec_parse_lsof(output)[j]]
                0 <= j < spec_parse_lsof(output).len() && {
                    let row = parsed_rows(output)[i];
                    let e = spec_parse_lsof(output)[j];
                    &&& e.port == row.port
                    &&& e.address == row.address
                    &&& e.pid == row.pid
                    &&& e.process_name == row.process_name
                },
        forall|j: int|
            0 <= j < spec_parse_lsof(output).len() ==> parsed_rows(output).contains(
                #[trigger] spec_parse_lsof(output)[j],
            ),
        forall|i: int, j: int|
            0 <= i < j < spec_parse_lsof(output).len() ==> {
                let a = #[trigger] spec_parse_lsof(output)[i];
                let b = #[trigger] spec_parse_lsof(output)[j];
                !(a.port == b.port && a.address == b.address && a.pid == b.pid && a.process_name
                    == b.process_name)
            },
{
    let raw = parsed_rows(output);
    let r = deduped(raw);
    assert(spec_parse_lsof(output) == r);
    deduped_keeps_every_key(raw);
    deduped_keeps_only_entries(raw);
    deduped_keys_unique(raw);
    assert forall|i: int| #![trigger raw[i]] 0 <= i < raw.len() implies exists|j: int|
        #![trigger r[j]]
        0 <= j < r.len() && {
            let row = raw[i];
            let e = r[j];
            &&& e.port == row.port
            &&& e.address == row.address
            &&& e.pid == row.pid
            &&& e.process_name == row.process_name
        } by {
        assert(has_key(r, entry_key(raw[i])));
        let j = choose|j: int| 0 <= j < r.len() && entry_key(#[trigger] r[j]) == entry_key(raw[i]);
        assert(entry_key(r[j]) == entry_key(raw[i]));
    }
    assert forall|i: int, j: int| 0 <= i < j < r.len() implies {
        let a = #[trigger] r[i];
        let b = #[trigger] r[j];
        !(a.port == b.port && a.address == b.address && a.pid == b.pid && a.process_name
            == b.process_name)
    } by {
        assert(entry_key(r[i]) != entry_key(r[j]));
    }
}

/// `find_port` gives the first entry on the port: the position it names is
/// that of an entry on `port`, with no entry on `port` before it; when it
/// names no entry, no entry is on `port`.
pub proof fn find_port_finds_the_first(es: Seq<PortEntryView>, port: u16)
    ensures
        0 <= first_on_port(es, port) <= es.len(),
        first_on_port(es, port) < es.len() ==> es[first_on_port(es, port)].port == port,
        forall|j: int| 0 <= j < first_on_port(es, port) ==> (#[trigger] es[j]).port != port,
    decreases es.len(),
{
    if es.len() > 0 && es[0].port != port {
        find_port_finds_the_first(es.drop_first(), port);
        assert forall|j: int| 0 <= j < first_on_port(es, port) implies (#[trigger] es[j]).port
            != port by {
            if j > 0 {
                assert(es[j] == es.drop_first()[j - 1]);
            }
        }
    }
}

/// `pids_to_look_up` names each PID of the entries exactly once, and no
/// other PID.
pub proof fn distinct_pids_are_the_pids(es: Seq<PortEntryView>)
    ensures
        forall|i: int| 0 <= i < es.len() ==> distinct_pids(es).contains(#[trigger] es[i].pid),
        forall|k: int|
            #![trigger distinct_pids(es)[k]]
            0 <= k < distinct_pids(es).len() ==> exists|i: int|
                0 <= i < es.len() && #[trigger] es[i].pid == distinct_pids(es)[k],
        forall|k: int, m: int|
            0 <= k < m < distinct_pids(es).len() ==> #[trigger] distinct_pids(es)[k]
                != #[trigger] distinct_pids(es)[m],
    decreases es.len(),
{
    if es.len() > 0 {
        let p = es.drop_last();
        distinct_pids_are_the_pids(p);
        let d = distinct_pids(p);
        let d2 = distinct_pids(es);
        assert forall|i: int| 0 <= i < es.len() implies d2.contains(#[trigger] es[i].pid) by {
            if i < p.len() {
                assert(es[i] == p[i]);
                assert(d.contains(p[i].pid));
                if !d.contains(es.last().pid) {
                    let k = choose|k: int| 0 <= k < d.len() && d[k] == p[i].pid;
                    assert(d.push(es.last().pid)[k] == d[k]);
                }
            } else {
                if !d.contains(es.last().pid) {
                    assert(d.push(es.last().pid)[d.len() as int] == es.last().pid);
                }
            }
        }
        assert forall|k: int| #![trigger d2[k]] 0 <= k < d2.len() implies exists|i: int|
            0 <= i < es.len() && #[trigger] es[i].pid == d2[k] by {
            if k < d.len() {
                assert(d2[k] == d[k]);
                let i = choose|i: int| 0 <= i < p.len() && #[trigger] p[i].pid == d[k];
                assert(es[i] == p[i]);
            } else {
                assert(es[es.len() - 1].pid == d2[k]);
            }
        }
        assert forall|k: int, m: int| 0 <= k < m < d2.len() implies #[trigger] d2[k]
            != #[trigger] d2[m] by {
            if m < d.len() {
                assert(d2[k] == d[k] && d2[m] == d[m]);
            } else {
                assert(d2[k] == d[k]);
                assert(!d.contains(es.last().pid));
            }
        }
    }
}

} // verus!
