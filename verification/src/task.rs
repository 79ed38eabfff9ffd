use vstd::prelude::*;

use crate::bytes::{occurs_at, window_equals};
use crate::text::{
    append_chars, chars_of, char_chunks_view, decimal, hex_join, lemma_line_len,
    lemma_first_word, lemma_line_len_shape, lemma_trim_front, lemma_trim_trailing_space, line_len, lines,
    parse_unsigned, parse_unsigned_chars, push_decimal, push_hex_join, push_str, split_lines,
    split_words, string_of, strip_cr, trim, trimmed, upper_code, upper_equals, upper_is, words,
};

verus! {

/// What a task does when an action fails.
#[derive(Debug, Clone, Copy, PartialEq, Eq, Structural)]
pub enum FailurePolicy {
    StopOnFail,
    ContinueOnFail,
}

/// When a task runs its loops.
#[derive(Debug, Clone, Copy, PartialEq, Eq, Structural)]
pub enum Trigger {
    Manual,
    IntervalMs(u64),
}

/// One step of a task.
#[derive(Debug, Clone, PartialEq, Eq)]
pub enum TaskAction {
    /// Send these bytes.
    SendHex(Vec<u8>),
    /// Check that the latest received bytes contain these bytes.
    AssertContains(Vec<u8>),
    /// Wait this many milliseconds.
    SleepMs(u64),
}

/// Mathematical model of a [`TaskAction`].
pub enum TaskActionView {
    SendHex(Seq<u8>),
    AssertContains(Seq<u8>),
    SleepMs(u64),
}

impl View for TaskAction {
    type V = TaskActionView;

    open spec fn view(&self) -> TaskActionView {
        match self {
            TaskAction::SendHex(d) => TaskActionView::SendHex(d@),
            TaskAction::AssertContains(d) => TaskActionView::AssertContains(d@),
            TaskAction::SleepMs(ms) => TaskActionView::SleepMs(*ms),
        }
    }
}

/// The views of a sequence of actions.
pub open spec fn actions_view(v: Seq<TaskAction>) -> Seq<TaskActionView> {
    v.map_values(|a: TaskAction| a@)
}

/// Why a task script or a task step failed.
#[derive(Debug, Clone, PartialEq, Eq)]
pub enum TaskError {
    InvalidScriptLine(String),
    SendFailed(String),
    AssertionFailed(String),
}

/// Mathematical model of a [`TaskError`].
pub enum TaskErrorView {
    InvalidScriptLine(Seq<char>),
    SendFailed(Seq<char>),
    AssertionFailed(Seq<char>),
}

impl View for TaskError {
    type V = TaskErrorView;

    open spec fn view(&self) -> TaskErrorView {
        match self {
            TaskError::InvalidScriptLine(s) => TaskErrorView::InvalidScriptLine(s@),
            TaskError::SendFailed(s) => TaskErrorView::SendFailed(s@),
            TaskError::AssertionFailed(s) => TaskErrorView::AssertionFailed(s@),
        }
    }
}

/// The message of each task error.
pub open spec fn task_error_message(e: TaskErrorView) -> Seq<char> {
    match e {
        TaskErrorView::InvalidScriptLine(s) => "invalid script line: "@ + s,
        TaskErrorView::SendFailed(s) => "send failed: "@ + s,
        TaskErrorView::AssertionFailed(s) => "assertion failed: "@ + s,
    }
}

impl TaskError {
    /// Human-readable description of the error.
    pub fn message(&self) -> (s: String)
        ensures
            s@ == task_error_message(self@),
    {
        let mut out: Vec<char> = Vec::new();
        match self {
            TaskError::InvalidScriptLine(line) => {
                push_str(&mut out, "invalid script line: ");
                push_str(&mut out, line.as_str());
            },
            TaskError::SendFailed(msg) => {
                push_str(&mut out, "send failed: ");
                push_str(&mut out, msg.as_str());
            },
            TaskError::AssertionFailed(msg) => {
                push_str(&mut out, "assertion failed: ");
                push_str(&mut out, msg.as_str());
            },
        }
        string_of(out.as_slice())
    }
}

// ---------------------------------------------------------------------------
// Scripts
// ---------------------------------------------------------------------------

/// The bytes of hex tokens, each read as `u8::from_str_radix(token, 16)`.
pub open spec fn hex_bytes(tokens: Seq<Seq<char>>) -> Result<Seq<u8>, TaskErrorView>
    decreases tokens.len(),
{
    if tokens.len() == 0 {
        Ok(Seq::empty())
    } else {
        match hex_bytes(tokens.drop_last()) {
            Err(e) => Err(e),
            Ok(bytes) => match parse_unsigned(tokens.last(), 16, 255) {
                Some(v) => Ok(bytes.push(v as u8)),
                None => Err(
                    TaskErrorView::InvalidScriptLine("invalid hex token: "@ + tokens.last()),
                ),
            },
        }
    }
}

/// The bytes of a non-empty list of hex tokens.
pub open spec fn spec_parse_hex_tokens(tokens: Seq<Seq<char>>) -> Result<Seq<u8>, TaskErrorView> {
    if tokens.len() == 0 {
        Err(TaskErrorView::InvalidScriptLine("missing hex bytes"@))
    } else {
        hex_bytes(tokens)
    }
}

/// What one script line means: `None` for blank lines and comments.
pub open spec fn spec_parse_line(raw: Seq<char>) -> Option<Result<TaskActionView, TaskErrorView>> {
    let line = trim(raw);
    let tokens = words(line);
    let invalid = Err(TaskErrorView::InvalidScriptLine(line));
    if line.len() == 0 || line[0] == '#' || tokens.len() == 0 {
        None
    } else if upper_is(tokens[0], "SEND"@) {
        Some(
            match spec_parse_hex_tokens(tokens.skip(1)) {
                Ok(bytes) => Ok(TaskActionView::SendHex(bytes)),
                Err(e) => Err(e),
            },
        )
    } else if upper_is(tokens[0], "ASSERT"@) {
        if tokens.len() < 3 || !upper_is(tokens[1], "CONTAINS"@) {
            Some(invalid)
        } else {
            Some(
                match spec_parse_hex_tokens(tokens.skip(2)) {
                    Ok(bytes) => Ok(TaskActionView::AssertContains(bytes)),
                    Err(e) => Err(e),
                },
            )
        }
    } else if upper_is(tokens[0], "SLEEP"@) {
        if tokens.len() != 2 {
            Some(invalid)
        } else {
            match parse_unsigned(tokens[1], 10, u64::MAX as nat) {
                Some(ms) => Some(Ok(TaskActionView::SleepMs(ms as u64))),
                None => Some(invalid),
            }
        }
    } else {
        Some(invalid)
    }
}

/// The actions of a sequence of script lines; the first bad line decides the error.
pub open spec fn parse_lines(ls: Seq<Seq<char>>) -> Result<Seq<TaskActionView>, TaskErrorView>
    decreases ls.len(),
{
    if ls.len() == 0 {
        Ok(Seq::empty())
    } else {
        match parse_lines(ls.drop_last()) {
            Err(e) => Err(e),
            Ok(actions) => match spec_parse_line(ls.last()) {
                None => Ok(actions),
                Some(Err(e)) => Err(e),
                Some(Ok(a)) => Ok(actions.push(a)),
            },
        }
    }
}

/// The actions of a script.
pub open spec fn spec_parse_script(script: Seq<char>) -> Result<Seq<TaskActionView>, TaskErrorView> {
    parse_lines(lines(script))
}

/// Two parse results one after the other: the first error decides, else the
/// actions of both in order.
pub open spec fn then_parse(
    first: Result<Seq<TaskActionView>, TaskErrorView>,
    second: Result<Seq<TaskActionView>, TaskErrorView>,
) -> Result<Seq<TaskActionView>, TaskErrorView> {
    match first {
        Err(e) => Err(e),
        Ok(x) => match second {
            Err(e) => Err(e),
            Ok(y) => Ok(x + y),
        },
    }
}

/// Parsing lines one after the other is parsing each part and joining the results.
pub proof fn law_parse_lines_concat(x: Seq<Seq<char>>, y: Seq<Seq<char>>)
    ensures
        parse_lines(x + y) == then_parse(parse_lines(x), parse_lines(y)),
    decreases y.len(),
{
    if y.len() == 0 {
        assert(x + y =~= x);
        if let Ok(u) = parse_lines(x) {
            assert(u + Seq::<TaskActionView>::empty() =~= u);
        }
    } else {
        law_parse_lines_concat(x, y.drop_last());
        assert((x + y).drop_last() =~= x + y.drop_last());
        assert((x + y).last() == y.last());
        if let Ok(u) = parse_lines(x) {
            if let Ok(v) = parse_lines(y.drop_last()) {
                if let Some(Ok(a)) = spec_parse_line(y.last()) {
                    assert(u + v.push(a) =~= (u + v).push(a));
                }
            }
        }
    }
}

/// A line that holds no newline, and the lines it stands for.
proof fn lemma_single_line(a: Seq<char>)
    requires
        forall|k: int| 0 <= k < a.len() ==> a[k] != '\n',
    ensures
        parse_lines(lines(a)) == parse_lines(seq![strip_cr(a)]),
{
    lemma_line_len(a, 0, a.len() as int);
    assert(a.skip(0) =~= a);
    let one = seq![strip_cr(a)];
    assert(one.drop_last() =~= Seq::<Seq<char>>::empty());
    if a.len() == 0 {
        assert(lines(a) =~= Seq::<Seq<char>>::empty());
        assert(trim(strip_cr(a)).len() == 0);
    } else {
        assert(lines(a) =~= seq![a]);
        assert(seq![a].drop_last() =~= Seq::<Seq<char>>::empty());
        if a.last() == '\r' {
            lemma_trim_trailing_space(a);
        }
        assert(trim(strip_cr(a)) == trim(a));
    }
}

/// The lines of `a`, a newline and `b` are those of `a`, each cut at its own
/// newline, and then those of `b`, as far as parsing is concerned.
proof fn lemma_parse_joined_lines(a: Seq<char>, b: Seq<char>)
    ensures
        parse_lines(lines(a + "\n"@ + b)) == then_parse(
            parse_lines(lines(a)),
            parse_lines(lines(b)),
        ),
    decreases a.len(),
{
    let nl = "\n"@;
    reveal_strlit("\n");
    let s = a + nl + b;
    let k = line_len(a);
    if k == a.len() {
        lemma_line_len_shape(a);
        lemma_line_len(s, 0, a.len() as int);
        assert(s.skip(0) =~= s);
        assert(s.take(a.len() as int) =~= a);
        assert(s.skip(a.len() + 1int) =~= b);
        assert(lines(s) == seq![strip_cr(a)] + lines(b));
        law_parse_lines_concat(seq![strip_cr(a)], lines(b));
        lemma_single_line(a);
    } else {
        let rest = a.skip(k + 1int);
        lemma_line_len_shape(a);
        lemma_line_len(s, 0, k as int);
        assert(s.skip(0) =~= s);
        assert(s.take(k as int) =~= a.take(k as int));
        assert(s.skip(k + 1int) =~= rest + nl + b);
        let head = seq![strip_cr(a.take(k as int))];
        assert(lines(s) == head + lines(rest + nl + b));
        assert(lines(a) == head + lines(rest));
        lemma_parse_joined_lines(rest, b);
        law_parse_lines_concat(head, lines(rest + nl + b));
        law_parse_lines_concat(head, lines(rest));
        let h = parse_lines(head);
        let r = parse_lines(lines(rest));
        let t = parse_lines(lines(b));
        if let Ok(x) = h {
            if let Ok(y) = r {
                if let Ok(z) = t {
                    assert(x + (y + z) =~= (x + y) + z);
                }
            }
        }
    }
}

/// Two scripts joined by a newline parse to the actions of the first followed by
/// those of the second; the first error, in order, decides otherwise.
pub proof fn law_parse_script_concat(a: Seq<char>, b: Seq<char>)
    ensures
        spec_parse_script(a + "\n"@ + b) == then_parse(
            spec_parse_script(a),
            spec_parse_script(b),
        ),
{
    lemma_parse_joined_lines(a, b);
}

/// Blank lines and comment lines mean nothing: a script that is one such line
/// parses to no actions.
pub proof fn law_blank_or_comment_line(c: Seq<char>)
    requires
        forall|k: int| 0 <= k < c.len() ==> c[k] != '\n',
        trim(c).len() == 0 || trim(c)[0] == '#',
    ensures
        spec_parse_script(c) == Ok::<Seq<TaskActionView>, TaskErrorView>(Seq::empty()),
{
    lemma_single_line(c);
    if c.len() > 0 && c.last() == '\r' {
        lemma_trim_trailing_space(c);
    }
    assert(trim(strip_cr(c)) == trim(c));
    assert(spec_parse_line(strip_cr(c)) is None);
    let one = seq![strip_cr(c)];
    assert(one.drop_last() =~= Seq::<Seq<char>>::empty());
    assert(one.last() == strip_cr(c));
    assert(parse_lines(one.drop_last()) == Ok::<Seq<TaskActionView>, TaskErrorView>(
        Seq::empty(),
    ));
}

/// Hex tokens that all read as bytes give those bytes, one per token, in order.
proof fn lemma_hex_bytes_values(ts: Seq<Seq<char>>)
    requires
        forall|i: int| 0 <= i < ts.len() ==> (#[trigger] parse_unsigned(ts[i], 16, 255)) is Some,
    ensures
        hex_bytes(ts) == Ok::<Seq<u8>, TaskErrorView>(
            Seq::new(ts.len(), |i: int| parse_unsigned(ts[i], 16, 255)->Some_0 as u8),
        ),
    decreases ts.len(),
{
    if ts.len() > 0 {
        let front = ts.drop_last();
        assert forall|i: int| 0 <= i < front.len() implies (#[trigger] parse_unsigned(
            front[i],
            16,
            255,
        )) is Some by {
            assert(front[i] == ts[i]);
            assert(parse_unsigned(ts[i], 16, 255) is Some);
        }
        lemma_hex_bytes_values(front);
        assert(parse_unsigned(ts[ts.len() - 1], 16, 255) is Some);
        assert(Seq::new(front.len(), |i: int| parse_unsigned(front[i], 16, 255)->Some_0 as u8).push(
            parse_unsigned(ts.last(), 16, 255)->Some_0 as u8,
        ) =~= Seq::new(ts.len(), |i: int| parse_unsigned(ts[i], 16, 255)->Some_0 as u8));
    } else {
        assert(Seq::new(ts.len(), |i: int| parse_unsigned(ts[i], 16, 255)->Some_0 as u8)
            =~= Seq::<u8>::empty());
    }
}

/// `w` spells the keyword `kw`, written in capitals, with each letter in
/// either case.
pub open spec fn any_case(w: Seq<char>, kw: Seq<char>) -> bool {
    &&& w.len() == kw.len()
    &&& forall|i: int|
        0 <= i < w.len() ==> #[trigger] w[i] == kw[i] || w[i] as int == kw[i] as int + 32
}

/// A keyword written in capitals is recognised in any case.
proof fn lemma_upper_keyword(w: Seq<char>, kw: Seq<char>)
    requires
        forall|i: int| 0 <= i < kw.len() ==> 'A' <= #[trigger] kw[i] <= 'Z',
        any_case(w, kw),
    ensures
        upper_is(w, kw),
        w.len() > 0 ==> w[0] != '#',
{
    assert forall|i: int| 0 <= i < w.len() implies upper_code(#[trigger] w[i]) == kw[i] as u32 by {
        assert('A' <= kw[i] <= 'Z');
        if w[i] == kw[i] {
            assert(!('a' <= w[i] <= 'z'));
        } else {
            assert(w[i] as int == kw[i] as int + 32);
            assert('a' <= w[i] <= 'z');
            assert((w[i] as u32 - 32) as u32 == kw[i] as u32);
        }
    }
    if w.len() > 0 {
        assert('A' <= kw[0] <= 'Z');
        assert(w[0] == kw[0] || w[0] as int == kw[0] as int + 32);
    }
}

/// The command word and the line it stands in: a line whose words begin with `w`
/// is neither blank nor a comment, and `w` is its first word.
proof fn lemma_command_line(raw: Seq<char>, w: Seq<char>)
    requires
        words(trim(raw)).len() > 0,
        words(trim(raw))[0] == w,
        w.len() > 0,
        w[0] != '#',
    ensures
        trim(raw).len() > 0,
        trim(raw)[0] != '#',
{
    let line = trim(raw);
    if line.len() == 0 {
        assert(words(line).len() == 0);
    }
    lemma_trim_front(raw);
    lemma_first_word(line);
}

/// A line `ASSERT CONTAINS t1 .. tk`, its two words in any case, whose tokens
/// all read as hex bytes asserts the needle made of those bytes: one byte per
/// token, in order, each the value of its token.
pub proof fn law_assert_contains_line(
    raw: Seq<char>,
    w0: Seq<char>,
    w1: Seq<char>,
    ts: Seq<Seq<char>>,
)
    requires
        words(trim(raw)) == seq![w0, w1] + ts,
        any_case(w0, "ASSERT"@),
        any_case(w1, "CONTAINS"@),
        ts.len() >= 1,
        forall|i: int| 0 <= i < ts.len() ==> (#[trigger] parse_unsigned(ts[i], 16, 255)) is Some,
    ensures
        spec_parse_line(raw) == Some(
            Ok::<TaskActionView, TaskErrorView>(
                TaskActionView::AssertContains(
                    Seq::new(ts.len(), |i: int| parse_unsigned(ts[i], 16, 255)->Some_0 as u8),
                ),
            ),
        ),
{
    reveal_strlit("ASSERT");
    reveal_strlit("CONTAINS");
    reveal_strlit("SEND");
    let tokens = words(trim(raw));
    assert(tokens[0] == w0);
    assert(tokens[1] == w1);
    lemma_upper_keyword(w0, "ASSERT"@);
    lemma_upper_keyword(w1, "CONTAINS"@);
    lemma_command_line(raw, w0);
    assert(!upper_is(tokens[0], "SEND"@));
    assert(tokens.skip(2) =~= ts);
    lemma_hex_bytes_values(ts);
}

/// A line `SEND t1 .. tk`, its command word in any case, whose tokens all read
/// as hex bytes sends those bytes: one byte per token, in order, each the value
/// of its token.
pub proof fn law_send_line(raw: Seq<char>, w0: Seq<char>, ts: Seq<Seq<char>>)
    requires
        words(trim(raw)) == seq![w0] + ts,
        any_case(w0, "SEND"@),
        ts.len() >= 1,
        forall|i: int| 0 <= i < ts.len() ==> (#[trigger] parse_unsigned(ts[i], 16, 255)) is Some,
    ensures
        spec_parse_line(raw) == Some(
            Ok::<TaskActionView, TaskErrorView>(
                TaskActionView::SendHex(
                    Seq::new(ts.len(), |i: int| parse_unsigned(ts[i], 16, 255)->Some_0 as u8),
                ),
            ),
        ),
{
    reveal_strlit("SEND");
    let tokens = words(trim(raw));
    assert(tokens[0] == w0);
    lemma_upper_keyword(w0, "SEND"@);
    lemma_command_line(raw, w0);
    assert(tokens.skip(1) =~= ts);
    lemma_hex_bytes_values(ts);
}

/// A line `SLEEP t`, its command word in any case, whose token reads as a
/// decimal `u64` sleeps that many milliseconds.
pub proof fn law_sleep_line(raw: Seq<char>, w0: Seq<char>, t: Seq<char>)
    requires
        words(trim(raw)) == seq![w0, t],
        any_case(w0, "SLEEP"@),
        parse_unsigned(t, 10, u64::MAX as nat) is Some,
    ensures
        spec_parse_line(raw) == Some(
            Ok::<TaskActionView, TaskErrorView>(
                TaskActionView::SleepMs(parse_unsigned(t, 10, u64::MAX as nat)->Some_0 as u64),
            ),
        ),
{
    reveal_strlit("SLEEP");
    reveal_strlit("ASSERT");
    reveal_strlit("SEND");
    let tokens = words(trim(raw));
    assert(tokens[0] == w0);
    assert(tokens[1] == t);
    lemma_upper_keyword(w0, "SLEEP"@);
    lemma_command_line(raw, w0);
    assert(!upper_is(tokens[0], "SEND"@));
    assert(!upper_is(tokens[0], "ASSERT"@));
}

fn invalid_line(prefix: &str, tail: &[char]) -> (e: TaskError)
    ensures
        e@ == TaskErrorView::InvalidScriptLine(prefix@ + tail@),
{
    let mut out: Vec<char> = Vec::new();
    push_str(&mut out, prefix);
    append_chars(&mut out, tail);
    assert(out@ =~= prefix@ + tail@);
    TaskError::InvalidScriptLine(string_of(out.as_slice()))
}

/// Reads hex byte tokens such as `0A` or `ff`.
fn parse_hex_tokens(all: &[Vec<char>], from: usize) -> (r: Result<Vec<u8>, TaskError>)
    requires
        from <= all.len(),
    ensures
        match r {
            Ok(bytes) => spec_parse_hex_tokens(char_chunks_view(all@).skip(from as int)) == Ok::<
                _,
                TaskErrorView,
            >(bytes@),
            Err(e) => spec_parse_hex_tokens(char_chunks_view(all@).skip(from as int)) == Err::<
                Seq<u8>,
                _,
            >(e@),
        },
{
    let ghost tv = char_chunks_view(all@).skip(from as int);
    let n = all.len() - from;
    if n == 0 {
        let e = TaskError::InvalidScriptLine(String::from_str("missing hex bytes"));
        return Err(e);
    }
    let mut out: Vec<u8> = Vec::new();
    let mut i: usize = 0;
    assert(tv.take(0) =~= Seq::<Seq<char>>::empty());
    while i < n
        invariant
            i <= n,
            n == all.len() - from,
            from <= all.len(),
            tv == char_chunks_view(all@).skip(from as int),
            hex_bytes(tv.take(i as int)) == Ok::<_, TaskErrorView>(out@),
        decreases n - i,
    {
        assert(tv.take(i + 1).drop_last() =~= tv.take(i as int));
        assert(tv.take(i + 1).last() == all@[from + i]@);
        match parse_unsigned_chars(all[from + i].as_slice(), 16, 255) {
            Some(v) => {
                out.push(v as u8);
            },
            None => {
                let e = invalid_line("invalid hex token: ", all[from + i].as_slice());
                proof {
                    lemma_hex_bytes_keeps_error(tv, i + 1, e@);
                }
                return Err(e);
            },
        }
        i += 1;
    }
    assert(tv.take(n as int) =~= tv);
    Ok(out)
}

proof fn lemma_hex_bytes_keeps_error(tokens: Seq<Seq<char>>, k: int, e: TaskErrorView)
    requires
        0 <= k <= tokens.len(),
        hex_bytes(tokens.take(k)) == Err::<Seq<u8>, _>(e),
    ensures
        hex_bytes(tokens) == Err::<Seq<u8>, _>(e),
    decreases tokens.len() - k,
{
    if k == tokens.len() {
        assert(tokens.take(k) =~= tokens);
    } else {
        assert(tokens.take(k + 1).drop_last() =~= tokens.take(k));
        lemma_hex_bytes_keeps_error(tokens, k + 1, e);
    }
}

/// Reads one script line.
fn parse_line(raw: &[char]) -> (r: Option<Result<TaskAction, TaskError>>)
    ensures
        match r {
            None => spec_parse_line(raw@) is None,
            Some(Ok(a)) => spec_parse_line(raw@) == Some(Ok::<_, TaskErrorView>(a@)),
            Some(Err(e)) => spec_parse_line(raw@) == Some(Err::<TaskActionView, _>(e@)),
        },
{
    let line = trimmed(raw);
    if line.len() == 0 || line[0] == '#' {
        return None;
    }
    let tokens = split_words(line.as_slice());
    let ghost tv = char_chunks_view(tokens@);
    if tokens.len() == 0 {
        return None;
    }
    assert(tv[0] == tokens@[0]@);
    if upper_equals(tokens[0].as_slice(), "SEND") {
        match parse_hex_tokens(tokens.as_slice(), 1) {
            Ok(bytes) => Some(Ok(TaskAction::SendHex(bytes))),
            Err(e) => Some(Err(e)),
        }
    } else if upper_equals(tokens[0].as_slice(), "ASSERT") {
        if tokens.len() < 3 || !upper_equals(tokens[1].as_slice(), "CONTAINS") {
            return Some(Err(TaskError::InvalidScriptLine(string_of(line.as_slice()))));
        }
        match parse_hex_tokens(tokens.as_slice(), 2) {
            Ok(bytes) => Some(Ok(TaskAction::AssertContains(bytes))),
            Err(e) => Some(Err(e)),
        }
    } else if upper_equals(tokens[0].as_slice(), "SLEEP") {
        if tokens.len() != 2 {
            return Some(Err(TaskError::InvalidScriptLine(string_of(line.as_slice()))));
        }
        match parse_unsigned_chars(tokens[1].as_slice(), 10, u64::MAX as u128) {
            Some(ms) => Some(Ok(TaskAction::SleepMs(ms as u64))),
            None => Some(Err(TaskError::InvalidScriptLine(string_of(line.as_slice())))),
        }
    } else {
        Some(Err(TaskError::InvalidScriptLine(string_of(line.as_slice()))))
    }
}

/// Reads a task script, one action per line:
/// `SEND 01 0A FF`, `ASSERT CONTAINS 0A 0B`, `SLEEP 100`.
/// Blank lines and lines starting with `#` are skipped.
pub fn parse_script(script: &str) -> (r: Result<Vec<TaskAction>, TaskError>)
    ensures
        match r {
            Ok(actions) => spec_parse_script(script@) == Ok::<_, TaskErrorView>(
                actions_view(actions@),
            ),
            Err(e) => spec_parse_script(script@) == Err::<Seq<TaskActionView>, _>(e@),
        },
{
    let cs = chars_of(script);
    let ls = split_lines(cs.as_slice());
    let ghost lv = char_chunks_view(ls@);
    let mut actions: Vec<TaskAction> = Vec::new();
    let mut i: usize = 0;
    assert(lv.take(0) =~= Seq::<Seq<char>>::empty());
    assert(actions_view(actions@) =~= Seq::<TaskActionView>::empty());
    while i < ls.len()
        invariant
            i <= ls.len(),
            lv == char_chunks_view(ls@),
            lv == lines(script@),
            parse_lines(lv.take(i as int)) == Ok::<_, TaskErrorView>(actions_view(actions@)),
        decreases ls.len() - i,
    {
        assert(lv.take(i + 1).drop_last() =~= lv.take(i as int));
        assert(lv.take(i + 1).last() == ls@[i as int]@);
        match parse_line(ls[i].as_slice()) {
            None => {},
            Some(Ok(a)) => {
                let ghost before = actions@;
                actions.push(a);
                assert(actions_view(actions@) =~= actions_view(before).push(a@));
            },
            Some(Err(e)) => {
                proof {
                    lemma_parse_lines_keeps_error(lv, i + 1, e@);
                }
                return Err(e);
            },
        }
        i += 1;
    }
    assert(lv.take(ls.len() as int) =~= lv);
    Ok(actions)
}

proof fn lemma_parse_lines_keeps_error(ls: Seq<Seq<char>>, k: int, e: TaskErrorView)
    requires
        0 <= k <= ls.len(),
        parse_lines(ls.take(k)) == Err::<Seq<TaskActionView>, _>(e),
    ensures
        parse_lines(ls) == Err::<Seq<TaskActionView>, _>(e),
    decreases ls.len() - k,
{
    if k == ls.len() {
        assert(ls.take(k) =~= ls);
    } else {
        assert(ls.take(k + 1).drop_last() =~= ls.take(k));
        lemma_parse_lines_keeps_error(ls, k + 1, e);
    }
}

// ---------------------------------------------------------------------------
// Running tasks
// ---------------------------------------------------------------------------

/// A task: what to do, how often, and what to do on failure.
#[derive(Debug, Clone, PartialEq, Eq)]
pub struct TaskSpec {
    /// Unique task id.
    pub task_id: String,
    /// Task name.
    pub name: String,
    /// When loops run.
    pub trigger: Trigger,
    /// What a failure does.
    pub failure_policy: FailurePolicy,
    /// How many loops to run (at least one runs).
    pub repeat: u32,
    /// The actions of each loop.
    pub actions: Vec<TaskAction>,
}

/// Mathematical model of a [`TaskSpec`].
pub struct TaskSpecView {
    pub task_id: Seq<char>,
    pub name: Seq<char>,
    pub trigger: Trigger,
    pub failure_policy: FailurePolicy,
    pub repeat: u32,
    pub actions: Seq<TaskActionView>,
}

impl View for TaskSpec {
    type V = TaskSpecView;

    open spec fn view(&self) -> TaskSpecView {
        TaskSpecView {
            task_id: self.task_id@,
            name: self.name@,
            trigger: self.trigger,
            failure_policy: self.failure_policy,
            repeat: self.repeat,
            actions: actions_view(self.actions@),
        }
    }
}

impl Default for TaskSpec {
    fn default() -> (s: Self)
        ensures
            s.task_id@ == "task-default"@,
            s.name@ == "default task"@,
            s.trigger == Trigger::Manual,
            s.failure_policy == FailurePolicy::StopOnFail,
            s.repeat == 1,
            s.actions@.len() == 0,
    {
        TaskSpec {
            task_id: String::from_str("task-default"),
            name: String::from_str("default task"),
            trigger: Trigger::Manual,
            failure_policy: FailurePolicy::StopOnFail,
            repeat: 1,
            actions: Vec::new(),
        }
    }
}

/// The outcome of running a task.
#[derive(Debug, Clone, PartialEq, Eq)]
pub struct TaskReport {
    /// Task id.
    pub task_id: String,
    /// Whether every action succeeded.
    pub success: bool,
    /// How many actions ran.
    pub executed_actions: usize,
    /// Index (within the loop) of the last action that failed.
    pub failed_at: Option<usize>,
    /// Text log.
    pub logs: Vec<String>,
}

/// The character views of a sequence of strings.
pub open spec fn strings_view(v: Seq<String>) -> Seq<Seq<char>> {
    v.map_values(|s: String| s@)
}

/// Mathematical model of a [`TaskReport`].
pub struct TaskReportView {
    pub task_id: Seq<char>,
    pub success: bool,
    pub executed_actions: usize,
    pub failed_at: Option<usize>,
    pub logs: Seq<Seq<char>>,
}

impl View for TaskReport {
    type V = TaskReportView;

    open spec fn view(&self) -> TaskReportView {
        TaskReportView {
            task_id: self.task_id@,
            success: self.success,
            executed_actions: self.executed_actions,
            failed_at: self.failed_at,
            logs: strings_view(self.logs@),
        }
    }
}

/// What a `Result<(), String>` says, by view.
pub open spec fn send_outcome(r: Result<(), String>) -> Result<(), Seq<char>> {
    match r {
        Ok(()) => Ok(()),
        Err(msg) => Err(msg@),
    }
}

/// Sends bytes and shows what was last received; supplied by the caller.
///
/// Two relations describe an implementation; one that states nothing keeps
/// the defaults, which allow every answer.
pub trait TaskIo {
    /// `send` of `data` may turn `self` into `after` and answer `r`.
    open spec fn send_post(&self, after: &Self, data: Seq<u8>, r: Result<(), Seq<char>>) -> bool {
        true
    }

    /// `latest_receive`, in the state `self`, may show `bytes`.
    open spec fn shows(&self, bytes: Seq<u8>) -> bool {
        true
    }

    /// Sends `data`; whether that succeeds is up to the implementation.
    fn send(&mut self, data: &[u8]) -> (r: Result<(), String>)
        ensures
            old(self).send_post(&*final(self), data@, send_outcome(r)),
    ;

    /// The bytes received most recently.
    fn latest_receive(&self) -> (r: &[u8])
        ensures
            self.shows(r@),
    ;
}

/// Does `needle` occur in `haystack`? An empty needle always does.
pub open spec fn spec_contains(haystack: Seq<u8>, needle: Seq<u8>) -> bool {
    needle.len() == 0 || exists|i: int| occurs_at(haystack, needle, i)
}

/// Does `needle` occur in `haystack`?
pub fn contains_subslice(haystack: &[u8], needle: &[u8]) -> (b: bool)
    ensures
        b == spec_contains(haystack@, needle@),
{
    if needle.len() == 0 {
        return true;
    }
    if needle.len() > haystack.len() {
        assert forall|i: int| !occurs_at(haystack@, needle@, i) by {}
        return false;
    }
    let mut i: usize = 0;
    while i <= haystack.len() - needle.len()
        invariant
            0 < needle.len() <= haystack.len(),
            i <= haystack.len() - needle.len() + 1,
            forall|j: int| 0 <= j < i ==> !occurs_at(haystack@, needle@, j),
        decreases haystack.len() - needle.len() + 1 - i,
    {
        if window_equals(haystack, i, needle) {
            return true;
        }
        i += 1;
    }
    assert forall|j: int| !occurs_at(haystack@, needle@, j) by {
        if 0 <= j && j < i {
        }
    }
    false
}

/// A needle is found in a haystack exactly when it is empty or equals the
/// haystack's bytes at some offset, the very first offset included.
pub proof fn law_contains_window(haystack: Seq<u8>, needle: Seq<u8>)
    ensures
        spec_contains(haystack, needle) <==> (needle.len() == 0 || exists|i: int|
            0 <= i && i + needle.len() <= haystack.len() && #[trigger] haystack.subrange(
                i,
                i + needle.len(),
            ) == needle),
{
    if exists|i: int|
        0 <= i && i + needle.len() <= haystack.len() && #[trigger] haystack.subrange(
            i,
            i + needle.len(),
        ) == needle {
        let i = choose|i: int|
            0 <= i && i + needle.len() <= haystack.len() && #[trigger] haystack.subrange(
                i,
                i + needle.len(),
            ) == needle;
        assert(occurs_at(haystack, needle, i));
    }
    if needle.len() > 0 && spec_contains(haystack, needle) {
        let i = choose|i: int| occurs_at(haystack, needle, i);
        assert(haystack.subrange(i, i + needle.len()) == needle);
    }
}

/// `"loop {k} start"`.
pub open spec fn loop_start_log(k: u32) -> Seq<char> {
    "loop "@ + decimal(k as nat) + " start"@
}

/// `"send {n} bytes"`.
pub open spec fn send_log(n: nat) -> Seq<char> {
    "send "@ + decimal(n) + " bytes"@
}

/// `"assert pass: contains {n} bytes"`.
pub open spec fn assert_pass_log(n: nat) -> Seq<char> {
    "assert pass: contains "@ + decimal(n) + " bytes"@
}

/// `"sleep {ms}ms"`.
pub open spec fn sleep_log(ms: u64) -> Seq<char> {
    "sleep "@ + decimal(ms as nat) + "ms"@
}

/// `"elapsed={ms}ms"`.
pub open spec fn elapsed_log(ms: u128) -> Seq<char> {
    "elapsed="@ + decimal(ms as nat) + "ms"@
}

/// The message of a failed assertion: `needle=[0A, FF] not found`.
pub open spec fn needle_not_found(needle: Seq<u8>) -> Seq<char> {
    "needle=["@ + hex_join(needle, ", "@) + "] not found"@
}

/// What a run asks of its driver after a step.
#[derive(Debug, Clone, Copy, PartialEq, Eq, Structural)]
pub enum RunStep {
    /// Call `step` again.
    Continue,
    /// Sleep this many milliseconds, then call `step` again.
    Sleep(u64),
    /// The run is over; call `finish`.
    Done,
}

/// A task run in progress.
pub struct TaskRun {
    /// The report so far.
    pub report: TaskReport,
    /// Number of loops to run.
    pub repeat: u32,
    /// Current loop.
    pub loop_idx: u32,
    /// Next action within the current loop.
    pub action_idx: usize,
    /// Whether the current loop has logged its start.
    pub loop_started: bool,
    /// Whether the run is over.
    pub done: bool,
}

/// Mathematical model of a [`TaskRun`].
pub struct TaskRunView {
    pub report: TaskReportView,
    pub repeat: u32,
    pub loop_idx: u32,
    pub action_idx: usize,
    pub loop_started: bool,
    pub done: bool,
}

impl View for TaskRun {
    type V = TaskRunView;

    open spec fn view(&self) -> TaskRunView {
        TaskRunView {
            report: self.report@,
            repeat: self.repeat,
            loop_idx: self.loop_idx,
            action_idx: self.action_idx,
            loop_started: self.loop_started,
            done: self.done,
        }
    }
}

/// What the caller's I/O answered during a step.
pub enum ActionOutcome {
    /// The result of `TaskIo::send`.
    Sent(Result<(), Seq<char>>),
    /// Whether the needle was found in the latest received bytes.
    Checked(bool),
    /// No I/O took place.
    Quiet,
}

/// A run whose report gained one log line.
pub open spec fn with_log(r: TaskRunView, line: Seq<char>) -> TaskRunView {
    TaskRunView { report: TaskReportView { logs: r.report.logs.push(line), ..r.report }, ..r }
}

/// Records the failure of action `i` with `err` under `policy`.
pub open spec fn record_failure(
    r: TaskRunView,
    policy: FailurePolicy,
    i: usize,
    err: TaskErrorView,
) -> (TaskRunView, RunStep) {
    let failed = TaskRunView {
        report: TaskReportView {
            success: false,
            failed_at: Some(i),
            logs: r.report.logs.push(task_error_message(err)),
            ..r.report
        },
        ..r
    };
    if policy == FailurePolicy::StopOnFail {
        (TaskRunView { done: true, ..with_log(failed, "task stopped by policy"@) }, RunStep::Done)
    } else {
        (failed, RunStep::Continue)
    }
}

/// One step of a run, given what the I/O answered.
pub open spec fn spec_step(r: TaskRunView, spec: TaskSpecView, o: ActionOutcome) -> (
    TaskRunView,
    RunStep,
) {
    if r.done {
        (r, RunStep::Done)
    } else if !r.loop_started {
        (TaskRunView { loop_started: true, ..with_log(r, loop_start_log(r.loop_idx)) }, RunStep::Continue)
    } else if r.action_idx < spec.actions.len() {
        let i = r.action_idx;
        let ran = TaskRunView {
            report: TaskReportView {
                executed_actions: (r.report.executed_actions + 1) as usize,
                ..r.report
            },
            action_idx: (i + 1) as usize,
            ..r
        };
        match spec.actions[i as int] {
            TaskActionView::SendHex(data) => match o {
                ActionOutcome::Sent(Ok(())) => (with_log(ran, send_log(data.len())), RunStep::Continue),
                ActionOutcome::Sent(Err(msg)) => record_failure(
                    ran,
                    spec.failure_policy,
                    i,
                    TaskErrorView::SendFailed(msg),
                ),
                _ => (r, RunStep::Continue),
            },
            TaskActionView::AssertContains(needle) => match o {
                ActionOutcome::Checked(true) => (
                    with_log(ran, assert_pass_log(needle.len())),
                    RunStep::Continue,
                ),
                ActionOutcome::Checked(false) => record_failure(
                    ran,
                    spec.failure_policy,
                    i,
                    TaskErrorView::AssertionFailed(needle_not_found(needle)),
                ),
                _ => (r, RunStep::Continue),
            },
            TaskActionView::SleepMs(ms) => (with_log(ran, sleep_log(ms)), RunStep::Sleep(ms)),
        }
    } else {
        let next = TaskRunView {
            loop_idx: (r.loop_idx + 1) as u32,
            action_idx: 0,
            loop_started: false,
            done: r.loop_idx + 1 >= r.repeat,
            ..r
        };
        match spec.trigger {
            Trigger::IntervalMs(ms) => (next, RunStep::Sleep(ms)),
            Trigger::Manual => (next, if next.done { RunStep::Done } else { RunStep::Continue }),
        }
    }
}

/// The kind of outcome that comes back for the next action of `r`.
pub open spec fn outcome_fits(r: TaskRunView, spec: TaskSpecView, o: ActionOutcome) -> bool {
    if !r.done && r.loop_started && r.action_idx < spec.actions.len() {
        match spec.actions[r.action_idx as int] {
            TaskActionView::SendHex(_) => o is Sent,
            TaskActionView::AssertContains(_) => o is Checked,
            TaskActionView::SleepMs(_) => o is Quiet,
        }
    } else {
        o is Quiet
    }
}

/// The outcomes that the I/O can give for the next action of `r`, as it goes
/// from `io` to `after`: a send hands the action's bytes to one call of
/// `TaskIo::send` and keeps its answer; an assertion looks for its needle in
/// bytes that `latest_receive` shows, and leaves the I/O as it was, as does every
/// other step.
pub open spec fn io_fits<T: TaskIo>(
    r: TaskRunView,
    spec: TaskSpecView,
    io: T,
    after: T,
    o: ActionOutcome,
) -> bool {
    if !r.done && r.loop_started && r.action_idx < spec.actions.len() {
        match spec.actions[r.action_idx as int] {
            TaskActionView::SendHex(data) => o matches ActionOutcome::Sent(res) && io.send_post(
                &after,
                data,
                res,
            ),
            TaskActionView::AssertContains(needle) => after == io && exists|latest: Seq<u8>|
                #[trigger] io.shows(latest) && o == ActionOutcome::Checked(
                    spec_contains(latest, needle),
                ),
            TaskActionView::SleepMs(_) => after == io && o is Quiet,
        }
    } else {
        after == io && o is Quiet
    }
}

/// The payloads that the next step of `r` hands to `TaskIo::send`, in order.
pub open spec fn step_sends(r: TaskRunView, spec: TaskSpecView) -> Seq<Seq<u8>> {
    if !r.done && r.loop_started && r.action_idx < spec.actions.len() {
        match spec.actions[r.action_idx as int] {
            TaskActionView::SendHex(data) => seq![data],
            _ => Seq::empty(),
        }
    } else {
        Seq::empty()
    }
}

/// The `SendHex` payloads of `actions`, in order.
pub open spec fn payloads(actions: Seq<TaskActionView>) -> Seq<Seq<u8>>
    decreases actions.len(),
{
    if actions.len() == 0 {
        Seq::empty()
    } else {
        let earlier = payloads(actions.drop_last());
        match actions.last() {
            TaskActionView::SendHex(data) => earlier.push(data),
            _ => earlier,
        }
    }
}

/// `s` written `k` times one after the other.
pub open spec fn repeated(s: Seq<Seq<u8>>, k: nat) -> Seq<Seq<u8>>
    decreases k,
{
    if k == 0 {
        Seq::empty()
    } else {
        repeated(s, (k - 1) as nat) + s
    }
}

/// The payloads a run of `spec` has sent once it stands at action `action_idx`
/// of loop `loop_idx`, every action before that having run.
pub open spec fn sends_before(spec: TaskSpecView, loop_idx: nat, action_idx: int) -> Seq<Seq<u8>> {
    repeated(payloads(spec.actions), loop_idx) + payloads(spec.actions.take(action_idx))
}

/// What a run has sent so far, by where it stands.
pub open spec fn run_sends(r: TaskRunView, spec: TaskSpecView) -> Seq<Seq<u8>> {
    sends_before(spec, r.loop_idx as nat, r.action_idx as int)
}

/// A consistent run of `spec`.
pub open spec fn run_wf(r: TaskRunView, spec: TaskSpecView) -> bool {
    &&& r.repeat >= 1
    &&& r.loop_idx <= r.repeat
    &&& !r.done ==> r.loop_idx < r.repeat
    &&& r.action_idx <= spec.actions.len()
    &&& r.report.success <==> r.report.failed_at is None
    &&& r.report.failed_at matches Some(i) ==> i < spec.actions.len()
    &&& r.report.executed_actions == r.loop_idx * spec.actions.len() + r.action_idx
    &&& r.done && spec.failure_policy == FailurePolicy::ContinueOnFail ==> r.loop_idx == r.repeat
        && r.action_idx == 0
}

/// A failure under `StopOnFail` ends the run: the step answers `Done`, and every
/// later step changes nothing.
pub proof fn law_stop_on_fail_halts(r: TaskRunView, spec: TaskSpecView, o: ActionOutcome)
    requires
        spec.failure_policy == FailurePolicy::StopOnFail,
        outcome_fits(r, spec, o),
        o == ActionOutcome::Checked(false) || o is Sent && o->Sent_0 is Err,
    ensures
        spec_step(r, spec, o).1 == RunStep::Done,
        spec_step(r, spec, o).0.done,
        forall|o2: ActionOutcome|
            #[trigger] spec_step(spec_step(r, spec, o).0, spec, o2) == (
                spec_step(r, spec, o).0,
                RunStep::Done,
            ),
{
}

/// A run under `ContinueOnFail` that is over ran every action of every loop.
pub proof fn law_continue_runs_everything(r: TaskRunView, spec: TaskSpecView)
    requires
        spec.failure_policy == FailurePolicy::ContinueOnFail,
        run_wf(r, spec),
        r.done,
    ensures
        r.report.executed_actions == r.repeat * spec.actions.len(),
{
}

/// Every step keeps account of what was sent: the payloads a run has sent after a
/// step are those it had sent before, followed by what that step sent.
pub proof fn law_step_sends(r: TaskRunView, spec: TaskSpecView, o: ActionOutcome)
    requires
        run_wf(r, spec),
        spec.actions.len() <= usize::MAX,
        outcome_fits(r, spec, o),
    ensures
        run_sends(spec_step(r, spec, o).0, spec) == run_sends(r, spec) + step_sends(r, spec),
{
    let p = payloads(spec.actions);
    let n = spec.actions.len();
    if r.done || !r.loop_started {
        assert(run_sends(r, spec) + step_sends(r, spec) =~= run_sends(r, spec));
    } else if r.action_idx < n {
        let i = r.action_idx as int;
        assert(spec.actions.take(i + 1).drop_last() =~= spec.actions.take(i));
        assert(spec.actions.take(i + 1).last() == spec.actions[i]);
        let before = payloads(spec.actions.take(i));
        let next = spec_step(r, spec, o).0;
        assert(next.loop_idx == r.loop_idx && next.action_idx == i + 1);
        match spec.actions[i] {
            TaskActionView::SendHex(data) => {
                assert(repeated(p, r.loop_idx as nat) + before.push(data) =~= repeated(
                    p,
                    r.loop_idx as nat,
                ) + before + seq![data]);
            },
            _ => {
                assert(run_sends(r, spec) + step_sends(r, spec) =~= run_sends(r, spec));
            },
        }
    } else {
        let next = spec_step(r, spec, o).0;
        assert(next.loop_idx == r.loop_idx + 1 && next.action_idx == 0);
        assert(spec.actions.take(r.action_idx as int) =~= spec.actions);
        assert(spec.actions.take(0) =~= Seq::<TaskActionView>::empty());
        assert(repeated(p, (r.loop_idx + 1) as nat) + payloads(spec.actions.take(0)) =~= repeated(
            p,
            r.loop_idx as nat,
        ) + p + Seq::<Seq<u8>>::empty());
    }
}

/// A run that has not started has sent nothing.
pub proof fn law_fresh_run_sends(r: TaskRunView, spec: TaskSpecView)
    requires
        r.loop_idx == 0,
        r.action_idx == 0,
    ensures
        run_sends(r, spec) == Seq::<Seq<u8>>::empty(),
{
    assert(spec.actions.take(0) =~= Seq::<TaskActionView>::empty());
    assert(run_sends(r, spec) =~= Seq::<Seq<u8>>::empty());
}

/// A run under `ContinueOnFail` that is over has sent the `SendHex` payloads of
/// its actions, in order, once for every loop.
pub proof fn law_finished_run_sends(r: TaskRunView, spec: TaskSpecView)
    requires
        spec.failure_policy == FailurePolicy::ContinueOnFail,
        run_wf(r, spec),
        r.done,
    ensures
        run_sends(r, spec) == repeated(payloads(spec.actions), r.repeat as nat),
{
    assert(spec.actions.take(0) =~= Seq::<TaskActionView>::empty());
    assert(run_sends(r, spec) =~= repeated(payloads(spec.actions), r.repeat as nat));
}

/// Runs a [`TaskSpec`] against caller-supplied I/O, one step at a time.
pub struct TaskEngine;

impl TaskEngine {
    /// A fresh run of `spec`: `max(repeat, 1)` loops, nothing logged yet.
    pub fn start(spec: &TaskSpec) -> (r: TaskRun)
        ensures
            r@.report == (TaskReportView {
                task_id: spec.task_id@,
                success: true,
                executed_actions: 0,
                failed_at: None,
                logs: Seq::empty(),
            }),
            r.repeat == if spec.repeat == 0 { 1 } else { spec.repeat },
            r.loop_idx == 0,
            r.action_idx == 0,
            !r.loop_started,
            !r.done,
            run_wf(r@, spec@),
    {
        let report = TaskReport {
            task_id: spec.task_id.clone(),
            success: true,
            executed_actions: 0,
            failed_at: None,
            logs: Vec::new(),
        };
        assert(strings_view(report.logs@) =~= Seq::<Seq<char>>::empty());
        assert(0 * spec@.actions.len() == 0);
        TaskRun {
            report,
            repeat: if spec.repeat == 0 {
                1
            } else {
                spec.repeat
            },
            loop_idx: 0,
            action_idx: 0,
            loop_started: false,
            done: false,
        }
    }
}

fn log_with_number(prefix: &str, n: u128, suffix: &str) -> (s: String)
    ensures
        s@ == prefix@ + decimal(n as nat) + suffix@,
{
    let mut out: Vec<char> = Vec::new();
    push_str(&mut out, prefix);
    push_decimal(&mut out, n);
    push_str(&mut out, suffix);
    string_of(out.as_slice())
}

impl TaskRun {
    fn push_log(&mut self, line: String)
        ensures
            final(self)@ == with_log(old(self)@, line@),
    {
        let ghost before = self.report.logs@;
        self.report.logs.push(line);
        assert(strings_view(self.report.logs@) =~= strings_view(before).push(line@));
    }

    fn fail(&mut self, policy: FailurePolicy, i: usize, err: TaskError) -> (step: RunStep)
        ensures
            (final(self)@, step) == record_failure(old(self)@, policy, i, err@),
    {
        self.report.success = false;
        self.report.failed_at = Some(i);
        self.push_log(err.message());
        if policy == FailurePolicy::StopOnFail {
            self.push_log(String::from_str("task stopped by policy"));
            self.done = true;
            RunStep::Done
        } else {
            RunStep::Continue
        }
    }

    /// Performs the next unit of work: logs the start of a loop, runs one action,
    /// or closes a loop. The caller sleeps when asked to and stops at `Done`.
    pub fn step<T: TaskIo>(&mut self, io: &mut T, spec: &TaskSpec) -> (step: RunStep)
        requires
            old(self).report.executed_actions < usize::MAX,
            run_wf(old(self)@, spec@),
        ensures
            exists|o: ActionOutcome|
                {
                    &&& outcome_fits(old(self)@, spec@, o)
                    &&& io_fits(old(self)@, spec@, *old(io), *final(io), o)
                    &&& #[trigger] spec_step(old(self)@, spec@, o) == (final(self)@, step)
                },
            run_wf(final(self)@, spec@),
    {
        let ghost r0 = self@;
        let ghost n = spec.actions@.len();
        if self.done {
            assert(spec_step(r0, spec@, ActionOutcome::Quiet) == (self@, RunStep::Done));
            return RunStep::Done;
        }
        if !self.loop_started {
            self.push_log(log_with_number("loop ", self.loop_idx as u128, " start"));
            self.loop_started = true;
            assert(spec_step(r0, spec@, ActionOutcome::Quiet) == (self@, RunStep::Continue));
            return RunStep::Continue;
        }
        if self.action_idx < spec.actions.len() {
            let i = self.action_idx;
            self.report.executed_actions = self.report.executed_actions + 1;
            self.action_idx = i + 1;
            let ghost ran = self@;
            assert(ran.report.executed_actions == r0.loop_idx * n + (i + 1));
            match &spec.actions[i] {
                TaskAction::SendHex(data) => {
                    match io.send(data.as_slice()) {
                        Ok(()) => {
                            self.push_log(log_with_number("send ", data.len() as u128, " bytes"));
                            assert(spec_step(r0, spec@, ActionOutcome::Sent(Ok(()))) == (
                                self@,
                                RunStep::Continue,
                            ));
                            RunStep::Continue
                        },
                        Err(msg) => {
                            let ghost m = msg@;
                            let step = self.fail(
                                spec.failure_policy,
                                i,
                                TaskError::SendFailed(msg),
                            );
                            assert(spec_step(r0, spec@, ActionOutcome::Sent(Err(m))) == (
                                self@,
                                step,
                            ));
                            step
                        },
                    }
                },
                TaskAction::AssertContains(needle) => {
                    let haystack = io.latest_receive();
                    let found = contains_subslice(haystack, needle.as_slice());
                    let ghost o = ActionOutcome::Checked(found);
                    assert(o == ActionOutcome::Checked(spec_contains(haystack@, needle@)));
                    if found {
                        self.push_log(
                            log_with_number("assert pass: contains ", needle.len() as u128, " bytes"),
                        );
                        assert(spec_step(r0, spec@, o) == (self@, RunStep::Continue));
                        RunStep::Continue
                    } else {
                        let mut text: Vec<char> = Vec::new();
                        push_str(&mut text, "needle=[");
                        push_hex_join(&mut text, needle.as_slice(), ", ");
                        push_str(&mut text, "] not found");
                        assert(text@ =~= needle_not_found(needle@));
                        let step = self.fail(
                            spec.failure_policy,
                            i,
                            TaskError::AssertionFailed(string_of(text.as_slice())),
                        );
                        assert(spec_step(r0, spec@, o) == (self@, step));
                        step
                    }
                },
                TaskAction::SleepMs(ms) => {
                    self.push_log(log_with_number("sleep ", *ms as u128, "ms"));
                    assert(spec_step(r0, spec@, ActionOutcome::Quiet) == (
                        self@,
                        RunStep::Sleep(*ms),
                    ));
                    RunStep::Sleep(*ms)
                },
            }
        } else {
            self.loop_idx = self.loop_idx + 1;
            self.action_idx = 0;
            self.loop_started = false;
            self.done = self.loop_idx >= self.repeat;
            proof {
                assert(r0.loop_idx * n + n == (r0.loop_idx + 1) * n) by (nonlinear_arith);
            }
            let step = match spec.trigger {
                Trigger::IntervalMs(ms) => RunStep::Sleep(ms),
                Trigger::Manual => if self.done {
                    RunStep::Done
                } else {
                    RunStep::Continue
                },
            };
            assert(spec_step(r0, spec@, ActionOutcome::Quiet) == (self@, step));
            step
        }
    }

    /// Closes the run: logs `elapsed={ms}ms` and hands out the report.
    pub fn finish(self, elapsed_ms: u128) -> (report: TaskReport)
        ensures
            report@ == (TaskReportView {
                logs: self@.report.logs.push(elapsed_log(elapsed_ms)),
                ..self@.report
            }),
    {
        let mut run = self;
        run.push_log(log_with_number("elapsed=", elapsed_ms, "ms"));
        run.report
    }
}

} // verus!
