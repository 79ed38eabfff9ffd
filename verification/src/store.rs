use vstd::prelude::*;

use crate::text::{
    append_chars, char_chunks_view, chars_of, copy_chars, decimal, digit_char, digit_value,
    digits_value, equals_str, has_prefix, is_radix_digit, lemma_line_len, lines, parse_unsigned,
    parse_unsigned_chars, push_decimal, push_str, split_lines, starts_with, string_of, strip_cr,
    unsigned_digits,
};

verus! {

// ---------------------------------------------------------------------------
// Escaping
// ---------------------------------------------------------------------------

/// How one character is written in a snapshot field.
pub open spec fn escape_char(c: char) -> Seq<char> {
    if c == '\\' {
        seq!['\\', '\\']
    } else if c == '|' {
        seq!['\\', 'p']
    } else if c == '\n' {
        seq!['\\', 'n']
    } else {
        seq![c]
    }
}

/// `s` with `\` written as `\\`, `|` as `\p` and line feeds as `\n`.
pub open spec fn spec_escape(s: Seq<char>) -> Seq<char>
    decreases s.len(),
{
    if s.len() == 0 {
        Seq::empty()
    } else {
        escape_char(s[0]) + spec_escape(s.drop_first())
    }
}

/// Reads back escaped text; an unknown escape keeps its backslash.
pub open spec fn spec_unescape(s: Seq<char>) -> Seq<char>
    decreases s.len(),
{
    if s.len() == 0 {
        Seq::empty()
    } else if s[0] == '\\' {
        if s.len() == 1 {
            seq!['\\']
        } else if s[1] == 'n' {
            seq!['\n'] + spec_unescape(s.skip(2))
        } else if s[1] == 'p' {
            seq!['|'] + spec_unescape(s.skip(2))
        } else if s[1] == '\\' {
            seq!['\\'] + spec_unescape(s.skip(2))
        } else {
            seq!['\\', s[1]] + spec_unescape(s.skip(2))
        }
    } else {
        seq![s[0]] + spec_unescape(s.drop_first())
    }
}

/// Escaping distributes over concatenation.
pub proof fn lemma_escape_concat(a: Seq<char>, b: Seq<char>)
    ensures
        spec_escape(a + b) == spec_escape(a) + spec_escape(b),
    decreases a.len(),
{
    if a.len() == 0 {
        assert(a + b =~= b);
    } else {
        assert((a + b).drop_first() =~= a.drop_first() + b);
        lemma_escape_concat(a.drop_first(), b);
        assert(spec_escape(a + b) =~= escape_char(a[0]) + (spec_escape(a.drop_first())
            + spec_escape(b)));
    }
}

/// Unescaping what was escaped gives the same text back.
pub proof fn law_unescape_escape(s: Seq<char>)
    ensures
        spec_unescape(spec_escape(s)) == s,
    decreases s.len(),
{
    if s.len() > 0 {
        law_unescape_escape(s.drop_first());
        let e = spec_escape(s);
        let rest = spec_escape(s.drop_first());
        let c = s[0];
        if c == '\\' || c == '|' || c == '\n' {
            assert(e.skip(2) =~= rest);
        } else {
            assert(e.drop_first() =~= rest);
        }
        assert(s =~= seq![c] + s.drop_first());
    }
}

/// Escaped text holds neither `|` nor a line feed.
pub proof fn lemma_escape_clean(s: Seq<char>)
    ensures
        forall|i: int|
            0 <= i < spec_escape(s).len() ==> #[trigger] spec_escape(s)[i] != '|'
                && spec_escape(s)[i] != '\n',
    decreases s.len(),
{
    if s.len() > 0 {
        lemma_escape_clean(s.drop_first());
        let head = escape_char(s[0]);
        let rest = spec_escape(s.drop_first());
        assert(spec_escape(s) == head + rest);
        assert forall|i: int| 0 <= i < spec_escape(s).len() implies #[trigger] spec_escape(s)[i]
            != '|' && spec_escape(s)[i] != '\n' by {
            if i >= head.len() {
                assert(spec_escape(s)[i] == rest[i - head.len()]);
            }
        }
    }
}

proof fn lemma_escape_single(c: char)
    ensures
        spec_escape(seq![c]) == escape_char(c),
{
    let s = seq![c];
    assert(s.drop_first() =~= Seq::<char>::empty());
    assert(spec_escape(s.drop_first()) == Seq::<char>::empty());
    assert(escape_char(c) + Seq::<char>::empty() =~= escape_char(c));
}

fn escape_chars(s: &[char]) -> (out: Vec<char>)
    ensures
        out@ == spec_escape(s@),
{
    let mut out: Vec<char> = Vec::new();
    let mut i: usize = 0;
    assert(s@.take(0) =~= Seq::<char>::empty());
    while i < s.len()
        invariant
            i <= s.len(),
            out@ == spec_escape(s@.take(i as int)),
        decreases s.len() - i,
    {
        let c = s[i];
        let ghost before = out@;
        if c == '\\' {
            out.push('\\');
            out.push('\\');
        } else if c == '|' {
            out.push('\\');
            out.push('p');
        } else if c == '\n' {
            out.push('\\');
            out.push('n');
        } else {
            out.push(c);
        }
        proof {
            assert(s@.take(i + 1) =~= s@.take(i as int) + seq![c]);
            lemma_escape_concat(s@.take(i as int), seq![c]);
            lemma_escape_single(c);
            assert(out@ =~= before + escape_char(c));
        }
        i += 1;
    }
    assert(s@.take(s.len() as int) =~= s@);
    out
}

/// Escapes `\`, `|` and line feeds so the text fits in one snapshot field.
pub fn escape(input: &str) -> (s: String)
    ensures
        s@ == spec_escape(input@),
{
    let cs = chars_of(input);
    let out = escape_chars(cs.as_slice());
    string_of(out.as_slice())
}

fn unescape_chars(s: &[char]) -> (out: Vec<char>)
    ensures
        out@ == spec_unescape(s@),
{
    let mut out: Vec<char> = Vec::new();
    let mut i: usize = 0;
    assert(s@.skip(0) =~= s@);
    assert(out@ + spec_unescape(s@) =~= spec_unescape(s@));
    while i < s.len()
        invariant
            i <= s.len(),
            out@ + spec_unescape(s@.skip(i as int)) == spec_unescape(s@),
        decreases s.len() - i,
    {
        let ghost rest = s@.skip(i as int);
        let ghost before = out@;
        let c = s[i];
        if c == '\\' {
            if i + 1 == s.len() {
                out.push('\\');
                assert(s@.skip(i + 1) =~= Seq::<char>::empty());
                assert(out@ + spec_unescape(s@.skip(i + 1)) =~= before + spec_unescape(rest));
                i += 1;
            } else {
                let d = s[i + 1];
                if d == 'n' {
                    out.push('\n');
                } else if d == 'p' {
                    out.push('|');
                } else if d == '\\' {
                    out.push('\\');
                } else {
                    out.push('\\');
                    out.push(d);
                }
                assert(rest.skip(2) =~= s@.skip(i + 2));
                assert(out@ + spec_unescape(s@.skip(i + 2)) =~= before + spec_unescape(rest));
                i += 2;
            }
        } else {
            out.push(c);
            assert(rest.drop_first() =~= s@.skip(i + 1));
            assert(out@ + spec_unescape(s@.skip(i + 1)) =~= before + spec_unescape(rest));
            i += 1;
        }
    }
    assert(out@ + Seq::<char>::empty() =~= out@);
    out
}

/// Reads back text written by [`escape`].
pub fn unescape(input: &str) -> (s: String)
    ensures
        s@ == spec_unescape(input@),
{
    let cs = chars_of(input);
    let out = unescape_chars(cs.as_slice());
    string_of(out.as_slice())
}

// ---------------------------------------------------------------------------
// Snapshots
// ---------------------------------------------------------------------------

/// A serial session saved with a project.
#[derive(Debug, Clone, PartialEq, Eq)]
pub struct SessionProfile {
    /// Session id.
    pub session_id: String,
    /// Serial endpoint.
    pub endpoint: String,
    /// Baud rate.
    pub baud_rate: u32,
}

/// Mathematical model of a [`SessionProfile`].
pub struct SessionProfileView {
    pub session_id: Seq<char>,
    pub endpoint: Seq<char>,
    pub baud_rate: u32,
}

impl View for SessionProfile {
    type V = SessionProfileView;

    open spec fn view(&self) -> SessionProfileView {
        SessionProfileView {
            session_id: self.session_id@,
            endpoint: self.endpoint@,
            baud_rate: self.baud_rate,
        }
    }
}

/// The views of a sequence of session profiles.
pub open spec fn profiles_view(v: Seq<SessionProfile>) -> Seq<SessionProfileView> {
    v.map_values(|p: SessionProfile| p@)
}

/// The character views of a sequence of strings.
pub open spec fn texts_view(v: Seq<String>) -> Seq<Seq<char>> {
    v.map_values(|s: String| s@)
}

/// A saved project.
#[derive(Debug, Clone, PartialEq, Eq)]
pub struct ProjectSnapshot {
    /// Project id.
    pub project_id: String,
    /// Project name.
    pub name: String,
    /// Last update, in milliseconds since the Unix epoch.
    pub updated_at_ms: u128,
    /// Session profiles.
    pub sessions: Vec<SessionProfile>,
    /// Task ids.
    pub task_ids: Vec<String>,
    /// Log file names.
    pub log_files: Vec<String>,
}

/// Mathematical model of a [`ProjectSnapshot`].
pub struct ProjectSnapshotView {
    pub project_id: Seq<char>,
    pub name: Seq<char>,
    pub updated_at_ms: u128,
    pub sessions: Seq<SessionProfileView>,
    pub task_ids: Seq<Seq<char>>,
    pub log_files: Seq<Seq<char>>,
}

impl View for ProjectSnapshot {
    type V = ProjectSnapshotView;

    open spec fn view(&self) -> ProjectSnapshotView {
        ProjectSnapshotView {
            project_id: self.project_id@,
            name: self.name@,
            updated_at_ms: self.updated_at_ms,
            sessions: profiles_view(self.sessions@),
            task_ids: texts_view(self.task_ids@),
            log_files: texts_view(self.log_files@),
        }
    }
}

/// A reading of the system clock, carried through without looking inside.
#[verifier::external_type_specification]
#[verifier::external_body]
pub struct ExSystemTime(std::time::SystemTime);

/// `SystemTime::now`: the current reading of the system clock. Nothing is
/// promised of it.
#[verifier::external_body]
fn clock_now() -> std::time::SystemTime {
    std::time::SystemTime::now()
}

/// `SystemTime::duration_since(UNIX_EPOCH)`: the time elapsed since the Unix
/// epoch, `None` where the reading lies before it. Nothing is promised of the
/// value.
#[verifier::external_body]
fn since_epoch(t: &std::time::SystemTime) -> Option<std::time::Duration> {
    t.duration_since(std::time::UNIX_EPOCH).ok()
}

/// `Duration::as_millis`: the whole milliseconds of `d`. Nothing is stated of
/// the value, as `Duration` is opaque here.
#[verifier::external_body]
fn whole_millis(d: &std::time::Duration) -> u128 {
    d.as_millis()
}

/// Milliseconds since the Unix epoch by the system clock; zero for a reading
/// before the epoch.
fn now_ms() -> u128 {
    match since_epoch(&clock_now()) {
        Some(d) => whole_millis(&d),
        None => 0,
    }
}

impl ProjectSnapshot {
    /// An empty project stamped with the current time.
    pub fn new(project_id: &str, name: &str) -> (p: Self)
        ensures
            p.project_id@ == project_id@,
            p.name@ == name@,
            p.sessions@.len() == 0,
            p.task_ids@.len() == 0,
            p.log_files@.len() == 0,
    {
        ProjectSnapshot::new_at(project_id, name, now_ms())
    }

    /// An empty project stamped with `updated_at_ms`.
    pub fn new_at(project_id: &str, name: &str, updated_at_ms: u128) -> (p: Self)
        ensures
            p.project_id@ == project_id@,
            p.name@ == name@,
            p.updated_at_ms == updated_at_ms,
            p.sessions@.len() == 0,
            p.task_ids@.len() == 0,
            p.log_files@.len() == 0,
    {
        ProjectSnapshot {
            project_id: String::from_str(project_id),
            name: String::from_str(name),
            updated_at_ms,
            sessions: Vec::new(),
            task_ids: Vec::new(),
            log_files: Vec::new(),
        }
    }

    /// Stamps the project with the current time; nothing else changes.
    pub fn touch(&mut self)
        ensures
            final(self).project_id == old(self).project_id,
            final(self).name == old(self).name,
            final(self).sessions == old(self).sessions,
            final(self).task_ids == old(self).task_ids,
            final(self).log_files == old(self).log_files,
    {
        self.stamp(now_ms());
    }

    /// Stamps the project with `updated_at_ms`; nothing else changes.
    pub fn stamp(&mut self, updated_at_ms: u128)
        ensures
            *final(self) == (ProjectSnapshot { updated_at_ms, ..*old(self) }),
    {
        self.updated_at_ms = updated_at_ms;
    }
}

/// Why saving or loading a project failed.
#[derive(Debug, Clone)]
pub enum StoreError {
    Io(String),
    Parse(String),
}

/// Mathematical model of a [`StoreError`].
pub enum StoreErrorView {
    Io(Seq<char>),
    Parse(Seq<char>),
}

impl View for StoreError {
    type V = StoreErrorView;

    open spec fn view(&self) -> StoreErrorView {
        match self {
            StoreError::Io(m) => StoreErrorView::Io(m@),
            StoreError::Parse(m) => StoreErrorView::Parse(m@),
        }
    }
}

/// The message of each store error.
pub open spec fn store_error_message(e: StoreErrorView) -> Seq<char> {
    match e {
        StoreErrorView::Io(m) => "io error: "@ + m,
        StoreErrorView::Parse(m) => "parse error: "@ + m,
    }
}

impl StoreError {
    /// Human-readable description of the error.
    pub fn message(&self) -> (s: String)
        ensures
            s@ == store_error_message(self@),
    {
        let mut out: Vec<char> = Vec::new();
        match self {
            StoreError::Io(m) => {
                push_str(&mut out, "io error: ");
                push_str(&mut out, m.as_str());
            },
            StoreError::Parse(m) => {
                push_str(&mut out, "parse error: ");
                push_str(&mut out, m.as_str());
            },
        }
        string_of(out.as_slice())
    }
}

/// `SESSION|{id}|{endpoint}|{baud}`.
pub open spec fn session_line(p: SessionProfileView) -> Seq<char> {
    "SESSION|"@ + spec_escape(p.session_id) + "|"@ + spec_escape(p.endpoint) + "|"@ + decimal(
        p.baud_rate as nat,
    )
}

/// `TASK|{id}`.
pub open spec fn task_line(t: Seq<char>) -> Seq<char> {
    "TASK|"@ + spec_escape(t)
}

/// `LOG|{file}`.
pub open spec fn log_line(l: Seq<char>) -> Seq<char> {
    "LOG|"@ + spec_escape(l)
}

/// The lines of a snapshot file.
pub open spec fn snapshot_lines(p: ProjectSnapshotView) -> Seq<Seq<char>> {
    seq![
        "PROJECT_ID="@ + spec_escape(p.project_id),
        "NAME="@ + spec_escape(p.name),
        "UPDATED_AT_MS="@ + decimal(p.updated_at_ms as nat),
        "SESSIONS="@ + decimal(p.sessions.len()),
    ] + p.sessions.map_values(|s: SessionProfileView| session_line(s)) + seq![
        "TASKS="@ + decimal(p.task_ids.len()),
    ] + p.task_ids.map_values(|t: Seq<char>| task_line(t)) + seq![
        "LOGS="@ + decimal(p.log_files.len()),
    ] + p.log_files.map_values(|l: Seq<char>| log_line(l))
}

/// Lines joined by line feeds.
pub open spec fn join_lines(ls: Seq<Seq<char>>) -> Seq<char>
    decreases ls.len(),
{
    if ls.len() == 0 {
        Seq::empty()
    } else if ls.len() == 1 {
        ls[0]
    } else {
        ls[0] + seq!['\n'] + join_lines(ls.drop_first())
    }
}

/// The text of a snapshot file.
pub open spec fn spec_encode_snapshot(p: ProjectSnapshotView) -> Seq<char> {
    join_lines(snapshot_lines(p))
}

proof fn lemma_join_push(ls: Seq<Seq<char>>, x: Seq<char>)
    requires
        ls.len() >= 1,
    ensures
        join_lines(ls.push(x)) == join_lines(ls) + seq!['\n'] + x,
    decreases ls.len(),
{
    let nl = seq!['\n'];
    if ls.len() == 1 {
        assert(ls.push(x).drop_first() =~= seq![x]);
        assert(join_lines(seq![x]) == x);
        assert(join_lines(ls) == ls[0]);
        assert(join_lines(ls.push(x)) == ls[0] + nl + x);
    } else {
        assert(ls.push(x).drop_first() =~= ls.drop_first().push(x));
        lemma_join_push(ls.drop_first(), x);
        let r = join_lines(ls.drop_first());
        assert(join_lines(ls.push(x)) == ls[0] + nl + (r + nl + x));
        assert(join_lines(ls) == ls[0] + nl + r);
        assert(ls[0] + nl + (r + nl + x) =~= ls[0] + nl + r + nl + x);
    }
}

fn join_char_lines(ls: &Vec<Vec<char>>) -> (out: Vec<char>)
    ensures
        out@ == join_lines(char_chunks_view(ls@)),
{
    let ghost lv = char_chunks_view(ls@);
    let mut out: Vec<char> = Vec::new();
    let mut i: usize = 0;
    assert(lv.take(0) =~= Seq::<Seq<char>>::empty());
    while i < ls.len()
        invariant
            i <= ls.len(),
            lv == char_chunks_view(ls@),
            out@ == join_lines(lv.take(i as int)),
        decreases ls.len() - i,
    {
        let ghost before = out@;
        assert(lv.take(i + 1) =~= lv.take(i as int).push(ls@[i as int]@));
        if i == 0 {
            append_chars(&mut out, ls[i].as_slice());
            assert(lv.take(1).len() == 1);
        } else {
            out.push('\n');
            append_chars(&mut out, ls[i].as_slice());
            proof {
                lemma_join_push(lv.take(i as int), ls@[i as int]@);
            }
            assert(out@ =~= before + seq!['\n'] + ls@[i as int]@);
        }
        i += 1;
    }
    assert(lv.take(ls.len() as int) =~= lv);
    out
}

fn line_of(prefix: &str, value: &[char]) -> (l: Vec<char>)
    ensures
        l@ == prefix@ + value@,
{
    let mut l: Vec<char> = Vec::new();
    push_str(&mut l, prefix);
    append_chars(&mut l, value);
    l
}

fn line_of_number(prefix: &str, n: u128) -> (l: Vec<char>)
    ensures
        l@ == prefix@ + decimal(n as nat),
{
    let mut l: Vec<char> = Vec::new();
    push_str(&mut l, prefix);
    push_decimal(&mut l, n);
    l
}

fn escaped_line(prefix: &str, value: &String) -> (l: Vec<char>)
    ensures
        l@ == prefix@ + spec_escape(value@),
{
    let cs = chars_of(value.as_str());
    let e = escape_chars(cs.as_slice());
    line_of(prefix, e.as_slice())
}

/// Writes a snapshot in the line-based project file format.
pub fn encode_snapshot(snapshot: &ProjectSnapshot) -> (text: String)
    ensures
        text@ == spec_encode_snapshot(snapshot@),
{
    let ghost p = snapshot@;
    let mut ls: Vec<Vec<char>> = Vec::new();
    ls.push(escaped_line("PROJECT_ID=", &snapshot.project_id));
    ls.push(escaped_line("NAME=", &snapshot.name));
    ls.push(line_of_number("UPDATED_AT_MS=", snapshot.updated_at_ms));
    ls.push(line_of_number("SESSIONS=", snapshot.sessions.len() as u128));
    let ghost head = char_chunks_view(ls@);
    assert(head =~= seq![
        "PROJECT_ID="@ + spec_escape(p.project_id),
        "NAME="@ + spec_escape(p.name),
        "UPDATED_AT_MS="@ + decimal(p.updated_at_ms as nat),
        "SESSIONS="@ + decimal(p.sessions.len()),
    ]);
    let ghost sl = p.sessions.map_values(|s: SessionProfileView| session_line(s));
    let mut i: usize = 0;
    while i < snapshot.sessions.len()
        invariant
            i <= snapshot.sessions.len(),
            p == snapshot@,
            sl == p.sessions.map_values(|s: SessionProfileView| session_line(s)),
            char_chunks_view(ls@) == head + sl.take(i as int),
        decreases snapshot.sessions.len() - i,
    {
        let s = &snapshot.sessions[i];
        let mut l = escaped_line("SESSION|", &s.session_id);
        push_str(&mut l, "|");
        let ep = chars_of(s.endpoint.as_str());
        let e = escape_chars(ep.as_slice());
        append_chars(&mut l, e.as_slice());
        push_str(&mut l, "|");
        push_decimal(&mut l, s.baud_rate as u128);
        assert(p.sessions[i as int] == s@);
        assert(l@ =~= session_line(s@));
        let ghost before = char_chunks_view(ls@);
        ls.push(l);
        assert(char_chunks_view(ls@) =~= before.push(l@));
        assert(sl.take(i + 1) =~= sl.take(i as int).push(l@));
        i += 1;
    }
    assert(sl.take(i as int) =~= sl);
    ls.push(line_of_number("TASKS=", snapshot.task_ids.len() as u128));
    let ghost mid = char_chunks_view(ls@);
    assert(mid =~= head + sl + seq!["TASKS="@ + decimal(p.task_ids.len())]);
    let ghost tl = p.task_ids.map_values(|t: Seq<char>| task_line(t));
    let mut i: usize = 0;
    while i < snapshot.task_ids.len()
        invariant
            i <= snapshot.task_ids.len(),
            p == snapshot@,
            tl == p.task_ids.map_values(|t: Seq<char>| task_line(t)),
            char_chunks_view(ls@) == mid + tl.take(i as int),
        decreases snapshot.task_ids.len() - i,
    {
        let l = escaped_line("TASK|", &snapshot.task_ids[i]);
        let ghost before = char_chunks_view(ls@);
        ls.push(l);
        assert(char_chunks_view(ls@) =~= before.push(l@));
        assert(tl.take(i + 1) =~= tl.take(i as int).push(l@));
        i += 1;
    }
    assert(tl.take(i as int) =~= tl);
    ls.push(line_of_number("LOGS=", snapshot.log_files.len() as u128));
    let ghost mid2 = char_chunks_view(ls@);
    assert(mid2 =~= mid + tl + seq!["LOGS="@ + decimal(p.log_files.len())]);
    let ghost ll = p.log_files.map_values(|l: Seq<char>| log_line(l));
    let mut i: usize = 0;
    while i < snapshot.log_files.len()
        invariant
            i <= snapshot.log_files.len(),
            p == snapshot@,
            ll == p.log_files.map_values(|l: Seq<char>| log_line(l)),
            char_chunks_view(ls@) == mid2 + ll.take(i as int),
        decreases snapshot.log_files.len() - i,
    {
        let l = escaped_line("LOG|", &snapshot.log_files[i]);
        let ghost before = char_chunks_view(ls@);
        ls.push(l);
        assert(char_chunks_view(ls@) =~= before.push(l@));
        assert(ll.take(i + 1) =~= ll.take(i as int).push(l@));
        i += 1;
    }
    assert(ll.take(i as int) =~= ll);
    assert(char_chunks_view(ls@) =~= snapshot_lines(p));
    let out = join_char_lines(&ls);
    string_of(out.as_slice())
}

/// Length of the leading run of characters that are not `|`.
pub open spec fn field_len(s: Seq<char>) -> nat
    decreases s.len(),
{
    if s.len() == 0 || s[0] == '|' {
        0
    } else {
        1 + field_len(s.drop_first())
    }
}

pub proof fn lemma_field_len_bound(s: Seq<char>)
    ensures
        field_len(s) <= s.len(),
    decreases s.len(),
{
    if s.len() > 0 && s[0] != '|' {
        lemma_field_len_bound(s.drop_first());
    }
}

/// The `|`-separated fields of `s` (`str::split('|')`).
pub open spec fn split_fields(s: Seq<char>) -> Seq<Seq<char>>
    decreases s.len(),
{
    if field_len(s) >= s.len() {
        seq![s]
    } else {
        proof {
            lemma_field_len_bound(s);
        }
        seq![s.take(field_len(s) as int)] + split_fields(s.skip(field_len(s) as int + 1))
    }
}

proof fn lemma_field_len(s: Seq<char>, i: int, j: int)
    requires
        0 <= i <= j <= s.len(),
        forall|k: int| i <= k < j ==> s[k] != '|',
        j == s.len() || s[j] == '|',
    ensures
        field_len(s.skip(i)) == j - i,
    decreases j - i,
{
    if i < j {
        assert(s.skip(i).drop_first() =~= s.skip(i + 1));
        lemma_field_len(s, i + 1, j);
    } else if j < s.len() {
        assert(s.skip(i)[0] == s[j]);
    }
}

fn split_bar_fields(s: &[char]) -> (out: Vec<Vec<char>>)
    ensures
        char_chunks_view(out@) == split_fields(s@),
{
    let mut out: Vec<Vec<char>> = Vec::new();
    let mut i: usize = 0;
    assert(s@.skip(0) =~= s@);
    assert(char_chunks_view(out@) + split_fields(s@) =~= split_fields(s@));
    loop
        invariant
            i <= s.len(),
            char_chunks_view(out@) + split_fields(s@.skip(i as int)) == split_fields(s@),
        decreases s.len() - i,
    {
        let ghost rest = s@.skip(i as int);
        let mut j: usize = i;
        while j < s.len() && s[j] != '|'
            invariant
                i <= j <= s.len(),
                forall|k: int| i <= k < j ==> s@[k] != '|',
            decreases s.len() - j,
        {
            j += 1;
        }
        proof {
            lemma_field_len(s@, i as int, j as int);
        }
        let ghost before = char_chunks_view(out@);
        let field = copy_chars(s, i, j);
        if j == s.len() {
            assert(field@ =~= rest);
            out.push(field);
            assert(char_chunks_view(out@) =~= before + seq![field@]);
            return out;
        }
        assert(field@ =~= rest.take(j - i));
        assert(rest.skip(j - i + 1) =~= s@.skip(j + 1));
        out.push(field);
        assert(char_chunks_view(out@) =~= before.push(field@));
        let ghost tail = split_fields(s@.skip(j + 1));
        assert(before + (seq![field@] + tail) =~= before.push(field@) + tail);
        i = j + 1;
    }
}

/// What has been read of a snapshot file so far.
pub struct SnapshotDraft {
    pub project_id: Option<Seq<char>>,
    pub name: Option<Seq<char>>,
    pub updated_at_ms: Option<u128>,
    pub sessions: Seq<SessionProfileView>,
    pub task_ids: Seq<Seq<char>>,
    pub log_files: Seq<Seq<char>>,
}

/// Nothing read yet.
pub open spec fn empty_draft() -> SnapshotDraft {
    SnapshotDraft {
        project_id: None,
        name: None,
        updated_at_ms: None,
        sessions: Seq::empty(),
        task_ids: Seq::empty(),
        log_files: Seq::empty(),
    }
}

/// The error for malformed content.
pub open spec fn parse_error(msg: Seq<char>) -> StoreErrorView {
    StoreErrorView::Parse(msg)
}

/// Reads one line of a snapshot file; unknown lines are ignored.
pub open spec fn read_line(d: SnapshotDraft, line: Seq<char>) -> Result<SnapshotDraft, StoreErrorView> {
    if has_prefix(line, "PROJECT_ID="@) {
        Ok(SnapshotDraft { project_id: Some(spec_unescape(line.skip("PROJECT_ID="@.len() as int))), ..d })
    } else if has_prefix(line, "NAME="@) {
        Ok(SnapshotDraft { name: Some(spec_unescape(line.skip("NAME="@.len() as int))), ..d })
    } else if has_prefix(line, "UPDATED_AT_MS="@) {
        match parse_unsigned(line.skip("UPDATED_AT_MS="@.len() as int), 10, u128::MAX as nat) {
            Some(v) => Ok(SnapshotDraft { updated_at_ms: Some(v as u128), ..d }),
            None => Err(parse_error("invalid UPDATED_AT_MS"@)),
        }
    } else if has_prefix(line, "SESSION|"@) {
        let parts = split_fields(line.skip("SESSION|"@.len() as int));
        if parts.len() != 3 {
            Err(parse_error("invalid SESSION line"@))
        } else {
            match parse_unsigned(parts[2], 10, u32::MAX as nat) {
                Some(b) => Ok(
                    SnapshotDraft {
                        sessions: d.sessions.push(
                            SessionProfileView {
                                session_id: spec_unescape(parts[0]),
                                endpoint: spec_unescape(parts[1]),
                                baud_rate: b as u32,
                            },
                        ),
                        ..d
                    },
                ),
                None => Err(parse_error("invalid session baud_rate"@)),
            }
        }
    } else if has_prefix(line, "TASK|"@) {
        Ok(SnapshotDraft { task_ids: d.task_ids.push(spec_unescape(line.skip("TASK|"@.len() as int))), ..d })
    } else if has_prefix(line, "LOG|"@) {
        Ok(SnapshotDraft { log_files: d.log_files.push(spec_unescape(line.skip("LOG|"@.len() as int))), ..d })
    } else {
        Ok(d)
    }
}

/// Reads lines in order; the first bad line decides the error.
pub open spec fn read_lines(d: SnapshotDraft, ls: Seq<Seq<char>>) -> Result<SnapshotDraft, StoreErrorView>
    decreases ls.len(),
{
    if ls.len() == 0 {
        Ok(d)
    } else {
        match read_lines(d, ls.drop_last()) {
            Err(e) => Err(e),
            Ok(d2) => read_line(d2, ls.last()),
        }
    }
}

/// The snapshot that a project file holds.
pub open spec fn spec_decode_snapshot(content: Seq<char>) -> Result<ProjectSnapshotView, StoreErrorView> {
    match read_lines(empty_draft(), lines(content)) {
        Err(e) => Err(e),
        Ok(d) => match d.project_id {
            None => Err(parse_error("missing PROJECT_ID"@)),
            Some(project_id) => match d.name {
                None => Err(parse_error("missing NAME"@)),
                Some(name) => match d.updated_at_ms {
                    None => Err(parse_error("missing UPDATED_AT_MS"@)),
                    Some(updated_at_ms) => Ok(
                        ProjectSnapshotView {
                            project_id,
                            name,
                            updated_at_ms,
                            sessions: d.sessions,
                            task_ids: d.task_ids,
                            log_files: d.log_files,
                        },
                    ),
                },
            },
        },
    }
}

struct Draft {
    project_id: Option<String>,
    name: Option<String>,
    updated_at_ms: Option<u128>,
    sessions: Vec<SessionProfile>,
    task_ids: Vec<String>,
    log_files: Vec<String>,
}

pub open spec fn opt_text(o: Option<String>) -> Option<Seq<char>> {
    match o {
        Some(s) => Some(s@),
        None => None,
    }
}

impl View for Draft {
    type V = SnapshotDraft;

    closed spec fn view(&self) -> SnapshotDraft {
        SnapshotDraft {
            project_id: opt_text(self.project_id),
            name: opt_text(self.name),
            updated_at_ms: self.updated_at_ms,
            sessions: profiles_view(self.sessions@),
            task_ids: texts_view(self.task_ids@),
            log_files: texts_view(self.log_files@),
        }
    }
}

fn strip_prefix(line: &[char], prefix: &str) -> (r: Option<Vec<char>>)
    ensures
        r is Some <==> has_prefix(line@, prefix@),
        r matches Some(rest) ==> rest@ == line@.skip(prefix@.len() as int),
{
    if starts_with(line, prefix) {
        let n = chars_of(prefix).len();
        Some(copy_chars(line, n, line.len()))
    } else {
        None
    }
}

fn unescaped(s: &[char]) -> (t: String)
    ensures
        t@ == spec_unescape(s@),
{
    let u = unescape_chars(s);
    string_of(u.as_slice())
}

fn parse_err(msg: &str) -> (e: StoreError)
    ensures
        e@ == parse_error(msg@),
{
    StoreError::Parse(String::from_str(msg))
}

fn read_one_line(d: &mut Draft, line: &[char]) -> (r: Result<(), StoreError>)
    ensures
        match r {
            Ok(()) => read_line(old(d)@, line@) == Ok::<_, StoreErrorView>(final(d)@),
            Err(e) => read_line(old(d)@, line@) == Err::<SnapshotDraft, _>(e@),
        },
{
    if let Some(rest) = strip_prefix(line, "PROJECT_ID=") {
        d.project_id = Some(unescaped(rest.as_slice()));
        return Ok(());
    }
    if let Some(rest) = strip_prefix(line, "NAME=") {
        d.name = Some(unescaped(rest.as_slice()));
        return Ok(());
    }
    if let Some(rest) = strip_prefix(line, "UPDATED_AT_MS=") {
        match parse_unsigned_chars(rest.as_slice(), 10, u128::MAX) {
            Some(ts) => {
                d.updated_at_ms = Some(ts);
                return Ok(());
            },
            None => {
                return Err(parse_err("invalid UPDATED_AT_MS"));
            },
        }
    }
    if let Some(rest) = strip_prefix(line, "SESSION|") {
        let parts = split_bar_fields(rest.as_slice());
        let ghost pv = char_chunks_view(parts@);
        if parts.len() != 3 {
            return Err(parse_err("invalid SESSION line"));
        }
        assert(pv[0] == parts@[0]@ && pv[1] == parts@[1]@ && pv[2] == parts@[2]@);
        match parse_unsigned_chars(parts[2].as_slice(), 10, u32::MAX as u128) {
            Some(b) => {
                let profile = SessionProfile {
                    session_id: unescaped(parts[0].as_slice()),
                    endpoint: unescaped(parts[1].as_slice()),
                    baud_rate: b as u32,
                };
                let ghost before = d.sessions@;
                d.sessions.push(profile);
                assert(profiles_view(d.sessions@) =~= profiles_view(before).push(profile@));
                return Ok(());
            },
            None => {
                return Err(parse_err("invalid session baud_rate"));
            },
        }
    }
    if let Some(rest) = strip_prefix(line, "TASK|") {
        let t = unescaped(rest.as_slice());
        let ghost before = d.task_ids@;
        d.task_ids.push(t);
        assert(texts_view(d.task_ids@) =~= texts_view(before).push(t@));
        return Ok(());
    }
    if let Some(rest) = strip_prefix(line, "LOG|") {
        let l = unescaped(rest.as_slice());
        let ghost before = d.log_files@;
        d.log_files.push(l);
        assert(texts_view(d.log_files@) =~= texts_view(before).push(l@));
        return Ok(());
    }
    Ok(())
}

proof fn lemma_read_lines_keeps_error(d: SnapshotDraft, ls: Seq<Seq<char>>, k: int, e: StoreErrorView)
    requires
        0 <= k <= ls.len(),
        read_lines(d, ls.take(k)) == Err::<SnapshotDraft, _>(e),
    ensures
        read_lines(d, ls) == Err::<SnapshotDraft, _>(e),
    decreases ls.len() - k,
{
    if k == ls.len() {
        assert(ls.take(k) =~= ls);
    } else {
        assert(ls.take(k + 1).drop_last() =~= ls.take(k));
        lemma_read_lines_keeps_error(d, ls, k + 1, e);
    }
}

/// Reads a project file written by [`encode_snapshot`].
pub fn decode_snapshot(content: &str) -> (r: Result<ProjectSnapshot, StoreError>)
    ensures
        match r {
            Ok(p) => spec_decode_snapshot(content@) == Ok::<_, StoreErrorView>(p@),
            Err(e) => spec_decode_snapshot(content@) == Err::<ProjectSnapshotView, _>(e@),
        },
{
    let cs = chars_of(content);
    let ls = split_lines(cs.as_slice());
    let ghost lv = char_chunks_view(ls@);
    let mut d = Draft {
        project_id: None,
        name: None,
        updated_at_ms: None,
        sessions: Vec::new(),
        task_ids: Vec::new(),
        log_files: Vec::new(),
    };
    assert(profiles_view(d.sessions@) =~= Seq::<SessionProfileView>::empty());
    assert(texts_view(d.task_ids@) =~= Seq::<Seq<char>>::empty());
    assert(texts_view(d.log_files@) =~= Seq::<Seq<char>>::empty());
    assert(d@ == empty_draft());
    let mut i: usize = 0;
    assert(lv.take(0) =~= Seq::<Seq<char>>::empty());
    while i < ls.len()
        invariant
            i <= ls.len(),
            lv == char_chunks_view(ls@),
            lv == lines(content@),
            read_lines(empty_draft(), lv.take(i as int)) == Ok::<_, StoreErrorView>(d@),
        decreases ls.len() - i,
    {
        assert(lv.take(i + 1).drop_last() =~= lv.take(i as int));
        assert(lv.take(i + 1).last() == ls@[i as int]@);
        match read_one_line(&mut d, ls[i].as_slice()) {
            Ok(()) => {},
            Err(e) => {
                proof {
                    lemma_read_lines_keeps_error(empty_draft(), lv, i + 1, e@);
                }
                return Err(e);
            },
        }
        i += 1;
    }
    assert(lv.take(ls.len() as int) =~= lv);
    let project_id = match d.project_id {
        Some(v) => v,
        None => {
            return Err(parse_err("missing PROJECT_ID"));
        },
    };
    let name = match d.name {
        Some(v) => v,
        None => {
            return Err(parse_err("missing NAME"));
        },
    };
    let updated_at_ms = match d.updated_at_ms {
        Some(v) => v,
        None => {
            return Err(parse_err("missing UPDATED_AT_MS"));
        },
    };
    Ok(
        ProjectSnapshot {
            project_id,
            name,
            updated_at_ms,
            sessions: d.sessions,
            task_ids: d.task_ids,
            log_files: d.log_files,
        },
    )
}

// ---------------------------------------------------------------------------
// Reading back what was written
// ---------------------------------------------------------------------------

proof fn lemma_digit_char(d: nat)
    requires
        d < 10,
    ensures
        '0' <= digit_char(d) <= '9',
        digit_value(digit_char(d)) == d,
{
}

/// A decimal representation is a non-empty run of digits with the right value.
pub proof fn lemma_decimal(n: nat)
    ensures
        decimal(n).len() >= 1,
        forall|i: int| 0 <= i < decimal(n).len() ==> '0' <= #[trigger] decimal(n)[i] <= '9',
        digits_value(decimal(n), 10) == n,
    decreases n,
{
    if n < 10 {
        lemma_digit_char(n);
        let s = decimal(n);
        assert(s.drop_last() =~= Seq::<char>::empty());
        assert(digits_value(s.drop_last(), 10) == 0);
    } else {
        lemma_decimal(n / 10);
        lemma_digit_char(n % 10);
        let s = decimal(n);
        assert(s.drop_last() =~= decimal(n / 10));
        assert(s.last() == digit_char(n % 10));
        assert forall|i: int| 0 <= i < s.len() implies '0' <= #[trigger] s[i] <= '9' by {
            if i < s.len() - 1 {
                assert(s[i] == decimal(n / 10)[i]);
            }
        }
        assert(digits_value(s, 10) == digits_value(decimal(n / 10), 10) * 10 + digit_value(
            digit_char(n % 10),
        ));
        assert((n / 10) * 10 + n % 10 == n) by (nonlinear_arith);
    }
}

/// A decimal representation reads back as its value.
pub proof fn lemma_parse_decimal(n: nat, max: nat)
    requires
        n <= max,
    ensures
        parse_unsigned(decimal(n), 10, max) == Some(n),
{
    lemma_decimal(n);
    let s = decimal(n);
    assert(unsigned_digits(s) == s);
    assert forall|i: int| 0 <= i < s.len() implies is_radix_digit(#[trigger] s[i], 10) by {}
}

/// No line break inside any line, and no line but the last ends in `'\r'`.
pub open spec fn splittable_lines(ls: Seq<Seq<char>>) -> bool {
    &&& ls.len() >= 1
    &&& ls.last().len() > 0
    &&& forall|i: int, j: int| 0 <= i < ls.len() && 0 <= j < ls[i].len() ==> #[trigger] ls[i][j] != '\n'
    &&& forall|i: int| 0 <= i < ls.len() - 1 ==> !(#[trigger] ls[i].len() > 0 && ls[i].last() == '\r')
}

/// Splitting joined lines gives the lines back.
pub proof fn lemma_lines_join(ls: Seq<Seq<char>>)
    requires
        splittable_lines(ls),
    ensures
        lines(join_lines(ls)) == ls,
    decreases ls.len(),
{
    let s = join_lines(ls);
    let first = ls[0];
    assert(forall|j: int| 0 <= j < first.len() ==> first[j] != '\n') by {
        assert forall|j: int| 0 <= j < first.len() implies first[j] != '\n' by {
            assert(ls[0][j] != '\n');
        }
    }
    if ls.len() == 1 {
        assert(s == first);
        lemma_line_len(s, 0, s.len() as int);
        assert(s.skip(0) =~= s);
        assert(lines(s) == seq![s]);
        assert(ls =~= seq![first]);
    } else {
        let rest = ls.drop_first();
        assert(splittable_lines(rest)) by {
            assert forall|i: int, j: int| 0 <= i < rest.len() && 0 <= j < rest[i].len() implies #[trigger] rest[i][j] != '\n' by {
                assert(rest[i] == ls[i + 1]);
            }
            assert forall|i: int| 0 <= i < rest.len() - 1 implies !(#[trigger] rest[i].len() > 0 && rest[i].last() == '\r') by {
                assert(rest[i] == ls[i + 1]);
            }
        }
        lemma_lines_join(rest);
        let tail = join_lines(rest);
        assert(s == first + seq!['\n'] + tail);
        assert forall|k: int| 0 <= k < first.len() implies s[k] != '\n' by {
            assert(s[k] == first[k]);
        }
        assert(s[first.len() as int] == '\n');
        lemma_line_len(s, 0, first.len() as int);
        assert(s.skip(0) =~= s);
        assert(s.take(first.len() as int) =~= first);
        assert(!(first.len() > 0 && first.last() == '\r'));
        assert(strip_cr(first) == first);
        assert(s.skip(first.len() as int + 1) =~= tail);
        assert(lines(s) == seq![first] + lines(tail));
        assert(ls =~= seq![first] + rest);
    }
}

proof fn lemma_read_lines_concat(d: SnapshotDraft, a: Seq<Seq<char>>, b: Seq<Seq<char>>)
    ensures
        read_lines(d, a + b) == match read_lines(d, a) {
            Ok(d2) => read_lines(d2, b),
            Err(e) => Err(e),
        },
    decreases b.len(),
{
    if b.len() == 0 {
        assert(a + b =~= a);
    } else {
        assert((a + b).drop_last() =~= a + b.drop_last());
        assert((a + b).last() == b.last());
        lemma_read_lines_concat(d, a, b.drop_last());
    }
}

proof fn lemma_read_push(d: SnapshotDraft, ls: Seq<Seq<char>>, line: Seq<char>)
    ensures
        read_lines(d, ls.push(line)) == match read_lines(d, ls) {
            Ok(d2) => read_line(d2, line),
            Err(e) => Err(e),
        },
{
    assert(ls.push(line).drop_last() =~= ls);
    assert(ls.push(line).last() == line);
}

proof fn lemma_read_single(d: SnapshotDraft, line: Seq<char>)
    ensures
        read_lines(d, seq![line]) == read_line(d, line),
{
    assert(read_lines(d, Seq::<Seq<char>>::empty()) == Ok::<_, StoreErrorView>(d));
    lemma_read_push(d, Seq::<Seq<char>>::empty(), line);
    assert(Seq::<Seq<char>>::empty().push(line) =~= seq![line]);
}

/// `prefix + x` starts with `prefix`, and what follows is `x`.
proof fn lemma_prefixed(prefix: Seq<char>, x: Seq<char>)
    ensures
        has_prefix(prefix + x, prefix),
        (prefix + x).skip(prefix.len() as int) == x,
{
    assert((prefix + x).take(prefix.len() as int) =~= prefix);
    assert((prefix + x).skip(prefix.len() as int) =~= x);
}

/// A line that differs from `prefix` at position `k` does not start with it.
proof fn lemma_not_prefixed(line: Seq<char>, prefix: Seq<char>, k: int)
    requires
        0 <= k < prefix.len(),
        k < line.len(),
        line[k] != prefix[k],
    ensures
        !has_prefix(line, prefix),
{
    if has_prefix(line, prefix) {
        assert(line.take(prefix.len() as int)[k] == line[k]);
    }
}

proof fn lemma_split_fields_last(s: Seq<char>)
    requires
        forall|i: int| 0 <= i < s.len() ==> s[i] != '|',
    ensures
        split_fields(s) == seq![s],
{
    lemma_field_len(s, 0, s.len() as int);
    assert(s.skip(0) =~= s);
}

proof fn lemma_split_fields_cons(x: Seq<char>, y: Seq<char>)
    requires
        forall|i: int| 0 <= i < x.len() ==> x[i] != '|',
    ensures
        split_fields(x + seq!['|'] + y) == seq![x] + split_fields(y),
{
    let s = x + seq!['|'] + y;
    assert forall|k: int| 0 <= k < x.len() implies s[k] != '|' by {
        assert(s[k] == x[k]);
    }
    lemma_field_len(s, 0, x.len() as int);
    assert(s.skip(0) =~= s);
    assert(s.take(x.len() as int) =~= x);
    assert(s.skip(x.len() as int + 1) =~= y);
}

proof fn lemma_read_session(d: SnapshotDraft, p: SessionProfileView)
    ensures
        read_line(d, session_line(p)) == Ok::<_, StoreErrorView>(
            SnapshotDraft { sessions: d.sessions.push(p), ..d },
        ),
{
    reveal_strlit("SESSION|");
    reveal_strlit("PROJECT_ID=");
    reveal_strlit("NAME=");
    reveal_strlit("UPDATED_AT_MS=");
    reveal_strlit("|");
    let id = spec_escape(p.session_id);
    let ep = spec_escape(p.endpoint);
    let dec = decimal(p.baud_rate as nat);
    let bar = "|"@;
    let line = session_line(p);
    let rest = id + bar + ep + bar + dec;
    assert(line =~= "SESSION|"@ + rest);
    lemma_prefixed("SESSION|"@, rest);
    lemma_not_prefixed(line, "PROJECT_ID="@, 0);
    lemma_not_prefixed(line, "NAME="@, 0);
    lemma_not_prefixed(line, "UPDATED_AT_MS="@, 0);
    lemma_escape_clean(p.session_id);
    lemma_escape_clean(p.endpoint);
    lemma_decimal(p.baud_rate as nat);
    assert(bar =~= seq!['|']);
    assert(rest =~= id + seq!['|'] + (ep + seq!['|'] + dec));
    lemma_split_fields_cons(id, ep + seq!['|'] + dec);
    lemma_split_fields_cons(ep, dec);
    lemma_split_fields_last(dec);
    let parts = split_fields(rest);
    assert(parts =~= seq![id, ep, dec]);
    lemma_parse_decimal(p.baud_rate as nat, u32::MAX as nat);
    law_unescape_escape(p.session_id);
    law_unescape_escape(p.endpoint);
}

proof fn lemma_read_sessions(d: SnapshotDraft, ss: Seq<SessionProfileView>)
    ensures
        read_lines(d, ss.map_values(|s: SessionProfileView| session_line(s))) == Ok::<
            _,
            StoreErrorView,
        >(SnapshotDraft { sessions: d.sessions + ss, ..d }),
    decreases ss.len(),
{
    let ls = ss.map_values(|s: SessionProfileView| session_line(s));
    if ss.len() == 0 {
        assert(d.sessions + ss =~= d.sessions);
    } else {
        assert(ls.drop_last() =~= ss.drop_last().map_values(|s: SessionProfileView| session_line(s)));
        lemma_read_sessions(d, ss.drop_last());
        let d2 = SnapshotDraft { sessions: d.sessions + ss.drop_last(), ..d };
        lemma_read_session(d2, ss.last());
        assert(d2.sessions.push(ss.last()) =~= d.sessions + ss);
    }
}

proof fn lemma_read_tasks(d: SnapshotDraft, ts: Seq<Seq<char>>)
    ensures
        read_lines(d, ts.map_values(|t: Seq<char>| task_line(t))) == Ok::<_, StoreErrorView>(
            SnapshotDraft { task_ids: d.task_ids + ts, ..d },
        ),
    decreases ts.len(),
{
    let ls = ts.map_values(|t: Seq<char>| task_line(t));
    if ts.len() == 0 {
        assert(d.task_ids + ts =~= d.task_ids);
    } else {
        assert(ls.drop_last() =~= ts.drop_last().map_values(|t: Seq<char>| task_line(t)));
        lemma_read_tasks(d, ts.drop_last());
        let d2 = SnapshotDraft { task_ids: d.task_ids + ts.drop_last(), ..d };
        reveal_strlit("TASK|");
        reveal_strlit("PROJECT_ID=");
        reveal_strlit("NAME=");
        reveal_strlit("UPDATED_AT_MS=");
        reveal_strlit("SESSION|");
        let line = task_line(ts.last());
        lemma_prefixed("TASK|"@, spec_escape(ts.last()));
        lemma_not_prefixed(line, "PROJECT_ID="@, 0);
        lemma_not_prefixed(line, "NAME="@, 0);
        lemma_not_prefixed(line, "UPDATED_AT_MS="@, 0);
        lemma_not_prefixed(line, "SESSION|"@, 0);
        law_unescape_escape(ts.last());
        assert(d2.task_ids.push(ts.last()) =~= d.task_ids + ts);
    }
}

proof fn lemma_read_logs(d: SnapshotDraft, ls0: Seq<Seq<char>>)
    ensures
        read_lines(d, ls0.map_values(|l: Seq<char>| log_line(l))) == Ok::<_, StoreErrorView>(
            SnapshotDraft { log_files: d.log_files + ls0, ..d },
        ),
    decreases ls0.len(),
{
    let ls = ls0.map_values(|l: Seq<char>| log_line(l));
    if ls0.len() == 0 {
        assert(d.log_files + ls0 =~= d.log_files);
    } else {
        assert(ls.drop_last() =~= ls0.drop_last().map_values(|l: Seq<char>| log_line(l)));
        lemma_read_logs(d, ls0.drop_last());
        let d2 = SnapshotDraft { log_files: d.log_files + ls0.drop_last(), ..d };
        reveal_strlit("LOG|");
        reveal_strlit("PROJECT_ID=");
        reveal_strlit("NAME=");
        reveal_strlit("UPDATED_AT_MS=");
        reveal_strlit("SESSION|");
        reveal_strlit("TASK|");
        let line = log_line(ls0.last());
        lemma_prefixed("LOG|"@, spec_escape(ls0.last()));
        lemma_not_prefixed(line, "PROJECT_ID="@, 0);
        lemma_not_prefixed(line, "NAME="@, 0);
        lemma_not_prefixed(line, "UPDATED_AT_MS="@, 0);
        lemma_not_prefixed(line, "SESSION|"@, 0);
        lemma_not_prefixed(line, "TASK|"@, 0);
        law_unescape_escape(ls0.last());
        assert(d2.log_files.push(ls0.last()) =~= d.log_files + ls0);
    }
}

/// The encoded lines hold no line feed, and the last one is not empty.
proof fn lemma_snapshot_lines_shape(p: ProjectSnapshotView)
    ensures
        snapshot_lines(p).len() >= 1,
        snapshot_lines(p).last().len() > 0,
        forall|i: int, j: int|
            0 <= i < snapshot_lines(p).len() && 0 <= j < snapshot_lines(p)[i].len()
                ==> #[trigger] snapshot_lines(p)[i][j] != '\n',
{
    reveal_strlit("PROJECT_ID=");
    reveal_strlit("NAME=");
    reveal_strlit("UPDATED_AT_MS=");
    reveal_strlit("SESSIONS=");
    reveal_strlit("SESSION|");
    reveal_strlit("|");
    reveal_strlit("TASKS=");
    reveal_strlit("TASK|");
    reveal_strlit("LOGS=");
    reveal_strlit("LOG|");
    lemma_escape_clean(p.project_id);
    lemma_escape_clean(p.name);
    lemma_decimal(p.updated_at_ms as nat);
    lemma_decimal(p.sessions.len());
    lemma_decimal(p.task_ids.len());
    lemma_decimal(p.log_files.len());
    let ls = snapshot_lines(p);
    assert forall|i: int, j: int| 0 <= i < ls.len() && 0 <= j < ls[i].len() implies #[trigger] ls[i][j] != '\n' by {
        let h = 4int;
        let ns = p.sessions.len() as int;
        let nt = p.task_ids.len() as int;
        if i < h {
        } else if i < h + ns {
            let s = p.sessions[i - h];
            assert(ls[i] == session_line(s));
            lemma_escape_clean(s.session_id);
            lemma_escape_clean(s.endpoint);
            lemma_decimal(s.baud_rate as nat);
        } else if i == h + ns {
        } else if i < h + ns + 1 + nt {
            let t = p.task_ids[i - h - ns - 1];
            assert(ls[i] == task_line(t));
            lemma_escape_clean(t);
        } else if i == h + ns + 1 + nt {
        } else {
            let l = p.log_files[i - h - ns - 2 - nt];
            assert(ls[i] == log_line(l));
            lemma_escape_clean(l);
        }
    }
}

/// The draft after the four header lines of `p`.
pub open spec fn header_draft(p: ProjectSnapshotView) -> SnapshotDraft {
    SnapshotDraft {
        project_id: Some(p.project_id),
        name: Some(p.name),
        updated_at_ms: Some(p.updated_at_ms),
        ..empty_draft()
    }
}

/// The four header lines of `p`.
pub open spec fn header_lines(p: ProjectSnapshotView) -> Seq<Seq<char>> {
    seq![
        "PROJECT_ID="@ + spec_escape(p.project_id),
        "NAME="@ + spec_escape(p.name),
        "UPDATED_AT_MS="@ + decimal(p.updated_at_ms as nat),
        "SESSIONS="@ + decimal(p.sessions.len()),
    ]
}

proof fn lemma_read_header(p: ProjectSnapshotView)
    ensures
        read_lines(empty_draft(), header_lines(p)) == Ok::<_, StoreErrorView>(header_draft(p)),
{
    reveal_strlit("PROJECT_ID=");
    reveal_strlit("NAME=");
    reveal_strlit("UPDATED_AT_MS=");
    reveal_strlit("SESSIONS=");
    reveal_strlit("SESSION|");
    reveal_strlit("TASK|");
    reveal_strlit("LOG|");
    let l0 = "PROJECT_ID="@ + spec_escape(p.project_id);
    let l1 = "NAME="@ + spec_escape(p.name);
    let l2 = "UPDATED_AT_MS="@ + decimal(p.updated_at_ms as nat);
    let l3 = "SESSIONS="@ + decimal(p.sessions.len());
    let d0 = empty_draft();
    lemma_prefixed("PROJECT_ID="@, spec_escape(p.project_id));
    law_unescape_escape(p.project_id);
    let d1 = SnapshotDraft { project_id: Some(p.project_id), ..d0 };
    assert(read_line(d0, l0) == Ok::<_, StoreErrorView>(d1));
    lemma_prefixed("NAME="@, spec_escape(p.name));
    lemma_not_prefixed(l1, "PROJECT_ID="@, 0);
    law_unescape_escape(p.name);
    let d2 = SnapshotDraft { name: Some(p.name), ..d1 };
    assert(read_line(d1, l1) == Ok::<_, StoreErrorView>(d2));
    lemma_prefixed("UPDATED_AT_MS="@, decimal(p.updated_at_ms as nat));
    lemma_not_prefixed(l2, "PROJECT_ID="@, 0);
    lemma_not_prefixed(l2, "NAME="@, 0);
    lemma_parse_decimal(p.updated_at_ms as nat, u128::MAX as nat);
    let d3 = header_draft(p);
    assert(read_line(d2, l2) == Ok::<_, StoreErrorView>(d3));
    lemma_decimal(p.sessions.len());
    lemma_not_prefixed(l3, "PROJECT_ID="@, 0);
    lemma_not_prefixed(l3, "NAME="@, 0);
    lemma_not_prefixed(l3, "UPDATED_AT_MS="@, 0);
    lemma_not_prefixed(l3, "SESSION|"@, 7);
    lemma_not_prefixed(l3, "TASK|"@, 0);
    lemma_not_prefixed(l3, "LOG|"@, 0);
    assert(read_line(d3, l3) == Ok::<_, StoreErrorView>(d3));
    lemma_read_single(d0, l0);
    lemma_read_push(d0, seq![l0], l1);
    assert(seq![l0].push(l1) =~= seq![l0, l1]);
    lemma_read_push(d0, seq![l0, l1], l2);
    assert(seq![l0, l1].push(l2) =~= seq![l0, l1, l2]);
    lemma_read_push(d0, seq![l0, l1, l2], l3);
    assert(seq![l0, l1, l2].push(l3) =~= header_lines(p));
}

proof fn lemma_read_task_count(d: SnapshotDraft, n: nat)
    ensures
        read_line(d, "TASKS="@ + decimal(n)) == Ok::<_, StoreErrorView>(d),
{
    reveal_strlit("PROJECT_ID=");
    reveal_strlit("NAME=");
    reveal_strlit("UPDATED_AT_MS=");
    reveal_strlit("SESSION|");
    reveal_strlit("TASKS=");
    reveal_strlit("TASK|");
    reveal_strlit("LOG|");
    let l = "TASKS="@ + decimal(n);
    lemma_decimal(n);
    lemma_not_prefixed(l, "PROJECT_ID="@, 0);
    lemma_not_prefixed(l, "NAME="@, 0);
    lemma_not_prefixed(l, "UPDATED_AT_MS="@, 0);
    lemma_not_prefixed(l, "SESSION|"@, 0);
    lemma_not_prefixed(l, "TASK|"@, 4);
    lemma_not_prefixed(l, "LOG|"@, 0);
}

proof fn lemma_read_log_count(d: SnapshotDraft, n: nat)
    ensures
        read_line(d, "LOGS="@ + decimal(n)) == Ok::<_, StoreErrorView>(d),
{
    reveal_strlit("PROJECT_ID=");
    reveal_strlit("NAME=");
    reveal_strlit("UPDATED_AT_MS=");
    reveal_strlit("SESSION|");
    reveal_strlit("LOGS=");
    reveal_strlit("TASK|");
    reveal_strlit("LOG|");
    let l = "LOGS="@ + decimal(n);
    lemma_decimal(n);
    lemma_not_prefixed(l, "PROJECT_ID="@, 0);
    lemma_not_prefixed(l, "NAME="@, 0);
    lemma_not_prefixed(l, "UPDATED_AT_MS="@, 0);
    lemma_not_prefixed(l, "SESSION|"@, 0);
    lemma_not_prefixed(l, "TASK|"@, 0);
    lemma_not_prefixed(l, "LOG|"@, 3);
}

/// Reading the lines of an encoded snapshot fills in every field.
proof fn lemma_read_snapshot_lines(p: ProjectSnapshotView)
    ensures
        read_lines(empty_draft(), snapshot_lines(p)) == Ok::<_, StoreErrorView>(
            SnapshotDraft {
                project_id: Some(p.project_id),
                name: Some(p.name),
                updated_at_ms: Some(p.updated_at_ms),
                sessions: p.sessions,
                task_ids: p.task_ids,
                log_files: p.log_files,
            },
        ),
{
    let d0 = empty_draft();
    let head = header_lines(p);
    let sl = p.sessions.map_values(|s: SessionProfileView| session_line(s));
    let l4 = "TASKS="@ + decimal(p.task_ids.len());
    let tl = p.task_ids.map_values(|t: Seq<char>| task_line(t));
    let l5 = "LOGS="@ + decimal(p.log_files.len());
    let ll = p.log_files.map_values(|l: Seq<char>| log_line(l));
    lemma_read_header(p);
    let d3 = header_draft(p);
    lemma_read_sessions(d3, p.sessions);
    assert(d3.sessions + p.sessions =~= p.sessions);
    let d4 = SnapshotDraft { sessions: p.sessions, ..d3 };
    lemma_read_lines_concat(d0, head, sl);
    lemma_read_task_count(d4, p.task_ids.len());
    lemma_read_push(d0, head + sl, l4);
    assert((head + sl).push(l4) =~= head + sl + seq![l4]);
    lemma_read_tasks(d4, p.task_ids);
    assert(d4.task_ids + p.task_ids =~= p.task_ids);
    let d5 = SnapshotDraft { task_ids: p.task_ids, ..d4 };
    lemma_read_lines_concat(d0, head + sl + seq![l4], tl);
    lemma_read_log_count(d5, p.log_files.len());
    lemma_read_push(d0, head + sl + seq![l4] + tl, l5);
    assert((head + sl + seq![l4] + tl).push(l5) =~= head + sl + seq![l4] + tl + seq![l5]);
    lemma_read_logs(d5, p.log_files);
    assert(d5.log_files + p.log_files =~= p.log_files);
    lemma_read_lines_concat(d0, head + sl + seq![l4] + tl + seq![l5], ll);
    assert(snapshot_lines(p) =~= head + sl + seq![l4] + tl + seq![l5] + ll);
}

/// Reading back an encoded snapshot gives the snapshot, unless a line other
/// than the last ends in `'\r'` (line splitting drops it).
pub proof fn law_decode_encode(p: ProjectSnapshotView)
    requires
        forall|i: int|
            0 <= i < snapshot_lines(p).len() - 1 ==> !(#[trigger] snapshot_lines(p)[i].len() > 0
                && snapshot_lines(p)[i].last() == '\r'),
    ensures
        spec_decode_snapshot(spec_encode_snapshot(p)) == Ok::<_, StoreErrorView>(p),
{
    lemma_snapshot_lines_shape(p);
    lemma_lines_join(snapshot_lines(p));
    lemma_read_snapshot_lines(p);
}

// ---------------------------------------------------------------------------
// Project files
// ---------------------------------------------------------------------------

/// Where project files live. Reading and writing the files is the caller's part;
/// the store names the files and reads their names.
#[derive(Debug, Clone)]
pub struct ProjectStore {
    /// Root directory of the project files.
    root_dir: String,
}

impl ProjectStore {
    /// A store rooted at `root_dir`.
    pub fn new(root_dir: &str) -> (s: Self)
        ensures
            s.root()@ == root_dir@,
    {
        ProjectStore { root_dir: String::from_str(root_dir) }
    }

    /// The root directory.
    pub closed spec fn root(&self) -> String {
        self.root_dir
    }

    /// The root directory.
    pub fn root_dir(&self) -> (r: &str)
        ensures
            r@ == self.root()@,
    {
        self.root_dir.as_str()
    }
}

/// `{project_id}.vsp`.
pub open spec fn spec_snapshot_file_name(project_id: Seq<char>) -> Seq<char> {
    project_id + ".vsp"@
}

/// The file name of a project's snapshot: `{project_id}.vsp`.
pub fn snapshot_file_name(project_id: &str) -> (name: String)
    ensures
        name@ == spec_snapshot_file_name(project_id@),
{
    let mut out = chars_of(project_id);
    push_str(&mut out, ".vsp");
    string_of(out.as_slice())
}

/// Offset of the last `'.'` in `s`, or -1.
pub open spec fn last_dot(s: Seq<char>) -> int
    decreases s.len(),
{
    if s.len() == 0 {
        -1
    } else if s.last() == '.' {
        s.len() - 1
    } else {
        last_dot(s.drop_last())
    }
}

proof fn lemma_last_dot(s: Seq<char>)
    ensures
        -1 <= last_dot(s) < s.len(),
        last_dot(s) >= 0 ==> s[last_dot(s)] == '.',
        forall|k: int| last_dot(s) < k < s.len() ==> s[k] != '.',
    decreases s.len(),
{
    if s.len() > 0 && s.last() != '.' {
        lemma_last_dot(s.drop_last());
        assert forall|k: int| last_dot(s) < k < s.len() implies s[k] != '.' by {
            if k < s.len() - 1 {
                assert(s[k] == s.drop_last()[k]);
            }
        }
    }
}

/// The project id a file name stands for: the stem of a `.vsp` file
/// (`Path::file_stem` where `Path::extension` is `vsp`; a name that starts
/// with its only dot has no extension).
pub open spec fn spec_project_id_of(file_name: Seq<char>) -> Option<Seq<char>> {
    let k = last_dot(file_name);
    if k > 0 && file_name.skip(k + 1) == "vsp"@ {
        Some(file_name.take(k))
    } else {
        None
    }
}

/// The project id a file name stands for, if it is a `.vsp` file.
pub fn project_id_of(file_name: &str) -> (r: Option<String>)
    ensures
        match r {
            Some(id) => spec_project_id_of(file_name@) == Some(id@),
            None => spec_project_id_of(file_name@) is None,
        },
{
    let cs = chars_of(file_name);
    let mut j: usize = cs.len();
    assert(cs@.take(cs.len() as int) =~= cs@);
    while j > 0 && cs[j - 1] != '.'
        invariant
            j <= cs.len(),
            cs@ == file_name@,
            last_dot(cs@.take(j as int)) == last_dot(cs@),
        decreases j,
    {
        assert(cs@.take(j as int).drop_last() =~= cs@.take(j - 1));
        j -= 1;
    }
    proof {
        assert(cs@.take(cs.len() as int) =~= cs@);
    }
    if j <= 1 {
        proof {
            if j == 1 {
                assert(cs@.take(1).last() == '.');
            } else {
                assert(cs@.take(0).len() == 0);
            }
        }
        return None;
    }
    let k = j - 1;
    assert(cs@.take(j as int).last() == '.');
    assert(last_dot(cs@) == k);
    let ext = copy_chars(cs.as_slice(), j, cs.len());
    assert(ext@ =~= cs@.skip(j as int));
    if !equals_str(ext.as_slice(), "vsp") {
        return None;
    }
    let stem = copy_chars(cs.as_slice(), 0, k);
    assert(stem@ =~= cs@.take(k as int));
    Some(string_of(stem.as_slice()))
}

/// Lexicographic order of character sequences (the order of `String`).
pub open spec fn lex_lt(a: Seq<char>, b: Seq<char>) -> bool
    decreases a.len(),
{
    if a.len() == 0 {
        b.len() > 0
    } else if b.len() == 0 {
        false
    } else if a[0] != b[0] {
        a[0] < b[0]
    } else {
        lex_lt(a.drop_first(), b.drop_first())
    }
}

/// `a` comes no later than `b`.
pub open spec fn lex_le(a: Seq<char>, b: Seq<char>) -> bool {
    a == b || lex_lt(a, b)
}

/// `a` comes before `b` exactly when `a` is a proper prefix of `b`, or `a` holds
/// the smaller character at the first position where the two differ; lengths
/// matter only through the prefix case.
pub proof fn law_lex_lt_order(a: Seq<char>, b: Seq<char>)
    ensures
        lex_lt(a, b) <==> {
            ||| a.len() < b.len() && b.take(a.len() as int) == a
            ||| exists|k: int|
                0 <= k < a.len() && k < b.len() && a.take(k) == b.take(k) && #[trigger] a[k]
                    < #[trigger] b[k]
        },
    decreases a.len(),
{
    if a.len() == 0 {
        assert(b.take(0) =~= a);
    } else if b.len() == 0 {
    } else if a[0] != b[0] {
        if a[0] < b[0] {
            assert(a.take(0) =~= b.take(0));
        }
        if a.len() < b.len() && b.take(a.len() as int) == a {
            assert(b.take(a.len() as int)[0] == b[0]);
        }
        assert forall|k: int|
            0 <= k < a.len() && k < b.len() && a.take(k) == b.take(k) && a[k] < b[k] implies a[0]
            < b[0] by {
            if k > 0 {
                assert(a.take(k)[0] == a[0] && b.take(k)[0] == b[0]);
            }
        }
    } else {
        let a1 = a.drop_first();
        let b1 = b.drop_first();
        law_lex_lt_order(a1, b1);
        if a.len() < b.len() {
            if b.take(a.len() as int) == a {
                assert(b1.take(a1.len() as int) =~= a1) by {
                    assert forall|j: int| 0 <= j < a1.len() implies b1.take(a1.len() as int)[j]
                        == a1[j] by {
                        assert(b.take(a.len() as int)[j + 1] == a[j + 1]);
                    }
                }
            }
            if b1.take(a1.len() as int) == a1 {
                assert(b.take(a.len() as int) =~= a) by {
                    assert forall|j: int| 0 <= j < a.len() implies b.take(a.len() as int)[j]
                        == a[j] by {
                        if j > 0 {
                            assert(b1.take(a1.len() as int)[j - 1] == a1[j - 1]);
                        }
                    }
                }
            }
        }
        if exists|k: int|
            0 <= k < a1.len() && k < b1.len() && a1.take(k) == b1.take(k) && #[trigger] a1[k]
                < #[trigger] b1[k] {
            let k = choose|k: int|
                0 <= k < a1.len() && k < b1.len() && a1.take(k) == b1.take(k) && #[trigger] a1[k]
                    < #[trigger] b1[k];
            assert(a.take(k + 1) =~= b.take(k + 1)) by {
                assert forall|j: int| 0 <= j < k + 1 implies #[trigger] a.take(k + 1)[j] == b.take(k + 1)[j] by {
                    if j > 0 {
                        assert(a1.take(k)[j - 1] == b1.take(k)[j - 1]);
                    }
                }
            }
            assert(a[k + 1] < b[k + 1]);
        }
        if exists|k: int|
            0 <= k < a.len() && k < b.len() && a.take(k) == b.take(k) && #[trigger] a[k]
                < #[trigger] b[k] {
            let k = choose|k: int|
                0 <= k < a.len() && k < b.len() && a.take(k) == b.take(k) && #[trigger] a[k]
                    < #[trigger] b[k];
            assert(k > 0);
            assert(a1.take(k - 1) =~= b1.take(k - 1)) by {
                assert forall|j: int| 0 <= j < k - 1 implies #[trigger] a1.take(k - 1)[j] == b1.take(k - 1)[j] by {
                    assert(a.take(k)[j + 1] == b.take(k)[j + 1]);
                }
            }
            assert(a1[k - 1] < b1[k - 1]);
        }
    }
}

/// Lexicographic order is total.
pub proof fn lemma_lex_total(a: Seq<char>, b: Seq<char>)
    ensures
        lex_lt(a, b) || lex_le(b, a),
    decreases a.len(),
{
    if a.len() == 0 {
        if b.len() == 0 {
            assert(a =~= b);
        }
    } else if b.len() > 0 && a[0] == b[0] {
        lemma_lex_total(a.drop_first(), b.drop_first());
        if a.drop_first() == b.drop_first() {
            assert(a =~= seq![a[0]] + a.drop_first());
            assert(b =~= seq![b[0]] + b.drop_first());
        }
    }
}

fn less_than(a: &[char], b: &[char]) -> (r: bool)
    ensures
        r == lex_lt(a@, b@),
{
    let mut i: usize = 0;
    assert(a@.skip(0) =~= a@);
    assert(b@.skip(0) =~= b@);
    while i < a.len() && i < b.len() && a[i] == b[i]
        invariant
            i <= a.len(),
            i <= b.len(),
            lex_lt(a@.skip(i as int), b@.skip(i as int)) == lex_lt(a@, b@),
        decreases a.len() - i,
    {
        assert(a@.skip(i as int).drop_first() =~= a@.skip(i + 1));
        assert(b@.skip(i as int).drop_first() =~= b@.skip(i + 1));
        i += 1;
    }
    if i == a.len() {
        i < b.len()
    } else if i == b.len() {
        false
    } else {
        a[i] < b[i]
    }
}

/// Adjacent elements are in order.
pub open spec fn sorted_texts(s: Seq<Seq<char>>) -> bool {
    forall|i: int| 0 <= i < s.len() - 1 ==> lex_le(#[trigger] s[i], s[i + 1])
}

/// The project ids among file names, in the order of the names.
pub open spec fn ids_in_names(names: Seq<Seq<char>>) -> Seq<Seq<char>>
    decreases names.len(),
{
    if names.len() == 0 {
        Seq::empty()
    } else {
        match spec_project_id_of(names.last()) {
            Some(id) => ids_in_names(names.drop_last()).push(id),
            None => ids_in_names(names.drop_last()),
        }
    }
}

fn insert_sorted(v: &mut Vec<String>, x: String)
    requires
        sorted_texts(texts_view(old(v)@)),
    ensures
        sorted_texts(texts_view(final(v)@)),
        texts_view(final(v)@).to_multiset() == texts_view(old(v)@).to_multiset().insert(x@),
{
    let ghost old_v = texts_view(v@);
    let xc = chars_of(x.as_str());
    let mut j: usize = 0;
    let mut found = false;
    while !found && j < v.len()
        invariant
            j <= v.len(),
            old_v == texts_view(v@),
            xc@ == x@,
            forall|k: int| 0 <= k < j ==> !lex_lt(x@, #[trigger] old_v[k]),
            found ==> j < v.len() && lex_lt(x@, old_v[j as int]),
        decreases v.len() - j + (if found { 0int } else { 1int }),
    {
        let vc = chars_of(v[j].as_str());
        if less_than(xc.as_slice(), vc.as_slice()) {
            found = true;
        } else {
            j += 1;
        }
    }
    let ghost xv = x@;
    v.insert(j, x);
    proof {
        let nv = texts_view(v@);
        assert(nv =~= old_v.insert(j as int, xv));
        vstd::seq_lib::to_multiset_insert(old_v, j as int, xv);
        assert forall|i: int| 0 <= i < nv.len() - 1 implies lex_le(#[trigger] nv[i], nv[i + 1]) by {
            if i + 1 < j {
                assert(nv[i] == old_v[i] && nv[i + 1] == old_v[i + 1]);
            } else if i + 1 == j {
                lemma_lex_total(xv, old_v[i]);
            } else if i == j {
            } else {
                assert(nv[i] == old_v[i - 1] && nv[i + 1] == old_v[i]);
            }
        }
    }
}

/// The project ids found among the file names of the root directory, sorted.
pub fn project_ids_from_file_names(names: &[String]) -> (ids: Vec<String>)
    ensures
        sorted_texts(texts_view(ids@)),
        texts_view(ids@).to_multiset() == ids_in_names(texts_view(names@)).to_multiset(),
{
    let ghost nv = texts_view(names@);
    let mut ids: Vec<String> = Vec::new();
    let mut i: usize = 0;
    assert(nv.take(0) =~= Seq::<Seq<char>>::empty());
    assert(texts_view(ids@) =~= Seq::<Seq<char>>::empty());
    while i < names.len()
        invariant
            i <= names.len(),
            nv == texts_view(names@),
            sorted_texts(texts_view(ids@)),
            texts_view(ids@).to_multiset() == ids_in_names(nv.take(i as int)).to_multiset(),
        decreases names.len() - i,
    {
        assert(nv.take(i + 1).drop_last() =~= nv.take(i as int));
        assert(nv.take(i + 1).last() == names@[i as int]@);
        match project_id_of(names[i].as_str()) {
            Some(id) => {
                proof {
                    vstd::seq_lib::to_multiset_build(ids_in_names(nv.take(i as int)), id@);
                }
                insert_sorted(&mut ids, id);
            },
            None => {},
        }
        i += 1;
    }
    assert(nv.take(names.len() as int) =~= nv);
    ids
}

} // verus!
