use vstd::prelude::*;

use crate::serial::{FlowControl, Parity};
use crate::text::{
    append_chars, char_chunks_view, chars_of, copy_chars, digit_value, digits_value,
    equals_str, hex2, hex_digit, hex_join, is_radix_digit, is_white_space, is_whitespace, lower,
    parse_unsigned, parse_unsigned_chars, push_hex_join, push_str, string_of, to_lower, trim,
    trim_end, trim_start, trimmed, unsigned_digits,
};

verus! {

// ---------------------------------------------------------------------------
// Hex payloads
// ---------------------------------------------------------------------------

/// Separators between the bytes of a hex payload: whitespace, `,` and `;`.
pub open spec fn is_payload_sep(c: char) -> bool {
    is_white_space(c) || c == ',' || c == ';'
}

/// Length of the leading run of characters that are not separators.
pub open spec fn token_len(s: Seq<char>) -> nat
    decreases s.len(),
{
    if s.len() == 0 || is_payload_sep(s[0]) {
        0
    } else {
        1 + token_len(s.drop_first())
    }
}

pub proof fn lemma_token_len_bounds(s: Seq<char>)
    ensures
        token_len(s) <= s.len(),
        s.len() > 0 && !is_payload_sep(s[0]) ==> token_len(s) > 0,
    decreases s.len(),
{
    if s.len() > 0 && !is_payload_sep(s[0]) {
        lemma_token_len_bounds(s.drop_first());
    }
}

/// The non-empty tokens between separators.
pub open spec fn payload_tokens(s: Seq<char>) -> Seq<Seq<char>>
    decreases s.len(),
{
    if s.len() == 0 {
        Seq::empty()
    } else if is_payload_sep(s[0]) {
        payload_tokens(s.drop_first())
    } else {
        proof {
            lemma_token_len_bounds(s);
        }
        seq![s.take(token_len(s) as int)] + payload_tokens(s.skip(token_len(s) as int))
    }
}

/// `s` with every leading copy of `p` removed (`str::trim_start_matches`).
pub open spec fn strip_all(s: Seq<char>, p: Seq<char>) -> Seq<char>
    decreases s.len(),
{
    if p.len() > 0 && p.len() <= s.len() && s.take(p.len() as int) == p {
        strip_all(s.skip(p.len() as int), p)
    } else {
        s
    }
}

/// A token without its `0x` / `0X` prefixes.
pub open spec fn normalize_token(t: Seq<char>) -> Seq<char> {
    strip_all(strip_all(trim(t), "0x"@), "0X"@)
}

/// The bytes of the tokens; an empty token after normalising is skipped.
pub open spec fn payload_bytes(tokens: Seq<Seq<char>>) -> Result<Seq<u8>, Seq<char>>
    decreases tokens.len(),
{
    if tokens.len() == 0 {
        Ok(Seq::empty())
    } else {
        match payload_bytes(tokens.drop_last()) {
            Err(e) => Err(e),
            Ok(bytes) => {
                let t = tokens.last();
                let n = normalize_token(t);
                if n.len() == 0 {
                    Ok(bytes)
                } else {
                    match parse_unsigned(n, 16, 255) {
                        Some(v) => Ok(bytes.push(v as u8)),
                        None => Err("invalid hex token: "@ + t),
                    }
                }
            },
        }
    }
}

/// The bytes of a hex payload such as `"01 0x0A,ff"`; none at all is an error.
pub open spec fn spec_parse_hex_payload(input: Seq<char>) -> Result<Seq<u8>, Seq<char>> {
    match payload_bytes(payload_tokens(input)) {
        Err(e) => Err(e),
        Ok(bytes) => if bytes.len() == 0 {
            Err("payload is empty"@)
        } else {
            Ok(bytes)
        },
    }
}

fn is_sep(c: char) -> (b: bool)
    ensures
        b == is_payload_sep(c),
{
    is_whitespace(c) || c == ',' || c == ';'
}

proof fn lemma_token_len(s: Seq<char>, i: int, j: int)
    requires
        0 <= i <= j <= s.len(),
        forall|k: int| i <= k < j ==> !is_payload_sep(s[k]),
        j == s.len() || is_payload_sep(s[j]),
    ensures
        token_len(s.skip(i)) == j - i,
    decreases j - i,
{
    if i < j {
        assert(s.skip(i).drop_first() =~= s.skip(i + 1));
        lemma_token_len(s, i + 1, j);
    } else if j < s.len() {
        assert(s.skip(i)[0] == s[j]);
    }
}

fn split_payload(s: &[char]) -> (out: Vec<Vec<char>>)
    ensures
        char_chunks_view(out@) == payload_tokens(s@),
{
    let mut out: Vec<Vec<char>> = Vec::new();
    let mut i: usize = 0;
    assert(s@.skip(0) =~= s@);
    assert(char_chunks_view(out@) + payload_tokens(s@) =~= payload_tokens(s@));
    while i < s.len()
        invariant
            i <= s.len(),
            char_chunks_view(out@) + payload_tokens(s@.skip(i as int)) == payload_tokens(s@),
        decreases s.len() - i,
    {
        let ghost rest = s@.skip(i as int);
        if is_sep(s[i]) {
            assert(rest.drop_first() =~= s@.skip(i + 1));
            i += 1;
        } else {
            let mut j: usize = i + 1;
            while j < s.len() && !is_sep(s[j])
                invariant
                    i < j <= s.len(),
                    forall|k: int| i <= k < j ==> !is_payload_sep(s@[k]),
                decreases s.len() - j,
            {
                j += 1;
            }
            proof {
                lemma_token_len(s@, i as int, j as int);
            }
            let token = copy_chars(s, i, j);
            assert(token@ =~= rest.take(j - i));
            assert(rest.skip(j - i) =~= s@.skip(j as int));
            let ghost before = char_chunks_view(out@);
            out.push(token);
            assert(char_chunks_view(out@) =~= before.push(token@));
            let ghost tail = payload_tokens(s@.skip(j as int));
            assert(before + (seq![token@] + tail) =~= before.push(token@) + tail);
            i = j;
        }
    }
    assert(char_chunks_view(out@) + Seq::<Seq<char>>::empty() =~= char_chunks_view(out@));
    out
}

fn strip_all_prefix(s: Vec<char>, p: &str) -> (out: Vec<char>)
    ensures
        out@ == strip_all(s@, p@),
{
    let pc = chars_of(p);
    let mut i: usize = 0;
    assert(s@.skip(0) =~= s@);
    if pc.len() == 0 {
        return s;
    }
    loop
        invariant
            i <= s.len(),
            pc@ == p@,
            pc.len() > 0,
            strip_all(s@.skip(i as int), p@) == strip_all(s@, p@),
        decreases s.len() - i,
    {
        let ghost rest = s@.skip(i as int);
        if pc.len() > s.len() - i {
            return copy_chars(s.as_slice(), i, s.len());
        }
        let mut k: usize = 0;
        let mut same = true;
        while k < pc.len()
            invariant
                k <= pc.len() <= s.len() - i,
                same <==> forall|m: int| 0 <= m < k ==> s@[i + m] == pc@[m],
            decreases pc.len() - k,
        {
            if s[i + k] != pc[k] {
                same = false;
            }
            k += 1;
        }
        if !same {
            assert(rest.take(pc.len() as int) != p@) by {
                let m = choose|m: int| 0 <= m < pc.len() && s@[i + m] != pc@[m];
                assert(rest.take(pc.len() as int)[m] == s@[i + m]);
            }
            let out = copy_chars(s.as_slice(), i, s.len());
            assert(out@ =~= rest);
            return out;
        }
        assert(rest.take(pc.len() as int) =~= p@);
        assert(rest.skip(pc.len() as int) =~= s@.skip(i + pc.len()));
        i = i + pc.len();
    }
}

fn parse_error_text(prefix: &str, tail: &[char]) -> (s: String)
    ensures
        s@ == prefix@ + tail@,
{
    let mut out: Vec<char> = Vec::new();
    push_str(&mut out, prefix);
    append_chars(&mut out, tail);
    string_of(out.as_slice())
}

proof fn lemma_payload_bytes_keeps_error(tokens: Seq<Seq<char>>, k: int, e: Seq<char>)
    requires
        0 <= k <= tokens.len(),
        payload_bytes(tokens.take(k)) == Err::<Seq<u8>, _>(e),
    ensures
        payload_bytes(tokens) == Err::<Seq<u8>, _>(e),
    decreases tokens.len() - k,
{
    if k == tokens.len() {
        assert(tokens.take(k) =~= tokens);
    } else {
        assert(tokens.take(k + 1).drop_last() =~= tokens.take(k));
        lemma_payload_bytes_keeps_error(tokens, k + 1, e);
    }
}

/// Reads a hex payload: tokens separated by whitespace, `,` or `;`, each an
/// optionally `0x`-prefixed hex byte.
pub fn parse_hex_payload(input: &str) -> (r: Result<Vec<u8>, String>)
    ensures
        match r {
            Ok(bytes) => spec_parse_hex_payload(input@) == Ok::<_, Seq<char>>(bytes@),
            Err(msg) => spec_parse_hex_payload(input@) == Err::<Seq<u8>, _>(msg@),
        },
{
    let cs = chars_of(input);
    let tokens = split_payload(cs.as_slice());
    let ghost tv = char_chunks_view(tokens@);
    let mut out: Vec<u8> = Vec::new();
    let mut i: usize = 0;
    assert(tv.take(0) =~= Seq::<Seq<char>>::empty());
    while i < tokens.len()
        invariant
            i <= tokens.len(),
            tv == char_chunks_view(tokens@),
            tv == payload_tokens(input@),
            payload_bytes(tv.take(i as int)) == Ok::<_, Seq<char>>(out@),
        decreases tokens.len() - i,
    {
        assert(tv.take(i + 1).drop_last() =~= tv.take(i as int));
        assert(tv.take(i + 1).last() == tokens@[i as int]@);
        let t = trimmed(tokens[i].as_slice());
        let n = strip_all_prefix(strip_all_prefix(t, "0x"), "0X");
        if n.len() > 0 {
            match parse_unsigned_chars(n.as_slice(), 16, 255) {
                Some(v) => {
                    out.push(v as u8);
                },
                None => {
                    let msg = parse_error_text("invalid hex token: ", tokens[i].as_slice());
                    proof {
                        lemma_payload_bytes_keeps_error(tv, i + 1, msg@);
                    }
                    return Err(msg);
                },
            }
        }
        i += 1;
    }
    assert(tv.take(tokens.len() as int) =~= tv);
    if out.len() == 0 {
        return Err(String::from_str("payload is empty"));
    }
    Ok(out)
}

/// The bytes as upper-case hex pairs separated by single spaces.
pub fn to_hex_string(data: &[u8]) -> (s: String)
    ensures
        s@ == hex_join(data@, " "@),
{
    let mut out: Vec<char> = Vec::new();
    push_hex_join(&mut out, data, " ");
    string_of(out.as_slice())
}

// ---------------------------------------------------------------------------
// Parity and flow control names
// ---------------------------------------------------------------------------

/// The name of a parity setting.
pub open spec fn parity_text(p: Parity) -> Seq<char> {
    match p {
        Parity::NoParity => "none"@,
        Parity::Odd => "odd"@,
        Parity::Even => "even"@,
    }
}

/// The parity a name stands for, ignoring ASCII case; no name means `none`.
pub open spec fn spec_parse_parity(input: Option<Seq<char>>) -> Result<Parity, Seq<char>> {
    let t = lower(
        match input {
            Some(s) => s,
            None => "none"@,
        },
    );
    if t == "none"@ {
        Ok(Parity::NoParity)
    } else if t == "odd"@ {
        Ok(Parity::Odd)
    } else if t == "even"@ {
        Ok(Parity::Even)
    } else {
        Err("invalid parity: "@ + t)
    }
}

/// Reads a parity name: `none`, `odd` or `even`, in any ASCII case.
pub fn parse_parity(input: Option<&str>) -> (r: Result<Parity, String>)
    ensures
        match r {
            Ok(p) => spec_parse_parity(opt_view(input)) == Ok::<_, Seq<char>>(p),
            Err(msg) => spec_parse_parity(opt_view(input)) == Err::<Parity, _>(msg@),
        },
{
    let raw = match input {
        Some(s) => chars_of(s),
        None => chars_of("none"),
    };
    let t = to_lower(raw.as_slice());
    if equals_str(t.as_slice(), "none") {
        Ok(Parity::NoParity)
    } else if equals_str(t.as_slice(), "odd") {
        Ok(Parity::Odd)
    } else if equals_str(t.as_slice(), "even") {
        Ok(Parity::Even)
    } else {
        Err(parse_error_text("invalid parity: ", t.as_slice()))
    }
}

/// The characters of an optional string slice.
pub open spec fn opt_view(input: Option<&str>) -> Option<Seq<char>> {
    match input {
        Some(s) => Some(s@),
        None => None,
    }
}

/// The name of a parity setting.
pub fn parity_to_string(parity: Parity) -> (s: String)
    ensures
        s@ == parity_text(parity),
{
    match parity {
        Parity::NoParity => String::from_str("none"),
        Parity::Odd => String::from_str("odd"),
        Parity::Even => String::from_str("even"),
    }
}

/// The name of a flow control setting.
pub open spec fn flow_control_text(f: FlowControl) -> Seq<char> {
    match f {
        FlowControl::NoFlowControl => "none"@,
        FlowControl::Software => "software"@,
        FlowControl::Hardware => "hardware"@,
    }
}

/// The flow control a name stands for, ignoring ASCII case; no name means `none`.
pub open spec fn spec_parse_flow_control(input: Option<Seq<char>>) -> Result<FlowControl, Seq<char>> {
    let t = lower(
        match input {
            Some(s) => s,
            None => "none"@,
        },
    );
    if t == "none"@ {
        Ok(FlowControl::NoFlowControl)
    } else if t == "software"@ {
        Ok(FlowControl::Software)
    } else if t == "hardware"@ {
        Ok(FlowControl::Hardware)
    } else {
        Err("invalid flow control: "@ + t)
    }
}

/// Reads a flow control name: `none`, `software` or `hardware`, in any ASCII case.
pub fn parse_flow_control(input: Option<&str>) -> (r: Result<FlowControl, String>)
    ensures
        match r {
            Ok(f) => spec_parse_flow_control(opt_view(input)) == Ok::<_, Seq<char>>(f),
            Err(msg) => spec_parse_flow_control(opt_view(input)) == Err::<FlowControl, _>(msg@),
        },
{
    let raw = match input {
        Some(s) => chars_of(s),
        None => chars_of("none"),
    };
    let t = to_lower(raw.as_slice());
    if equals_str(t.as_slice(), "none") {
        Ok(FlowControl::NoFlowControl)
    } else if equals_str(t.as_slice(), "software") {
        Ok(FlowControl::Software)
    } else if equals_str(t.as_slice(), "hardware") {
        Ok(FlowControl::Hardware)
    } else {
        Err(parse_error_text("invalid flow control: ", t.as_slice()))
    }
}

/// The name of a flow control setting.
pub fn flow_control_to_string(mode: FlowControl) -> (s: String)
    ensures
        s@ == flow_control_text(mode),
{
    match mode {
        FlowControl::NoFlowControl => String::from_str("none"),
        FlowControl::Software => String::from_str("software"),
        FlowControl::Hardware => String::from_str("hardware"),
    }
}

/// Reading the name of a parity setting gives the setting back.
pub proof fn law_parity_roundtrip(p: Parity)
    ensures
        spec_parse_parity(Some(parity_text(p))) == Ok::<_, Seq<char>>(p),
{
    reveal_strlit("none");
    reveal_strlit("odd");
    reveal_strlit("even");
    assert(lower("none"@) =~= "none"@);
    assert(lower("odd"@) =~= "odd"@);
    assert(lower("even"@) =~= "even"@);
    assert("odd"@ != "none"@) by {
        assert("odd"@.len() != "none"@.len());
    }
    assert("even"@ != "none"@) by {
        assert("even"@[0] != "none"@[0]);
    }
    assert("even"@ != "odd"@) by {
        assert("even"@.len() != "odd"@.len());
    }
}

/// Reading the name of a flow control setting gives the setting back.
pub proof fn law_flow_control_roundtrip(f: FlowControl)
    ensures
        spec_parse_flow_control(Some(flow_control_text(f))) == Ok::<_, Seq<char>>(f),
{
    reveal_strlit("none");
    reveal_strlit("software");
    reveal_strlit("hardware");
    assert(lower("none"@) =~= "none"@);
    assert(lower("software"@) =~= "software"@);
    assert(lower("hardware"@) =~= "hardware"@);
    assert("software"@ != "none"@) by {
        assert("software"@.len() != "none"@.len());
    }
    assert("hardware"@ != "none"@) by {
        assert("hardware"@.len() != "none"@.len());
    }
    assert("hardware"@ != "software"@) by {
        assert("hardware"@[0] != "software"@[0]);
    }
}

// ---------------------------------------------------------------------------
// Reading back hex text
// ---------------------------------------------------------------------------

proof fn lemma_hex_digit(d: nat)
    requires
        d < 16,
    ensures
        digit_value(hex_digit(d)) == d,
        !is_payload_sep(hex_digit(d)),
        hex_digit(d) != 'x' && hex_digit(d) != 'X' && hex_digit(d) != '+',
{
}

proof fn lemma_token_len_props(s: Seq<char>)
    ensures
        token_len(s) <= s.len(),
        forall|j: int| 0 <= j < token_len(s) ==> !is_payload_sep(#[trigger] s[j]),
        token_len(s) < s.len() ==> is_payload_sep(s[token_len(s) as int]),
    decreases s.len(),
{
    if s.len() > 0 && !is_payload_sep(s[0]) {
        lemma_token_len_props(s.drop_first());
        assert forall|j: int| 0 <= j < token_len(s) implies !is_payload_sep(#[trigger] s[j]) by {
            if j > 0 {
                assert(s[j] == s.drop_first()[j - 1]);
            }
        }
    }
}

/// A separator splits the tokens of what stands on each side of it.
proof fn lemma_tokens_split(a: Seq<char>, sep: char, b: Seq<char>)
    requires
        is_payload_sep(sep),
    ensures
        payload_tokens(a + seq![sep] + b) == payload_tokens(a) + payload_tokens(b),
    decreases a.len(),
{
    let s = a + seq![sep] + b;
    if a.len() == 0 {
        assert(s.drop_first() =~= b);
        assert(payload_tokens(a) =~= Seq::<Seq<char>>::empty());
        assert(payload_tokens(a) + payload_tokens(b) =~= payload_tokens(b));
    } else if is_payload_sep(a[0]) {
        assert(s.drop_first() =~= a.drop_first() + seq![sep] + b);
        lemma_tokens_split(a.drop_first(), sep, b);
    } else {
        lemma_token_len_props(a);
        let k = token_len(a) as int;
        lemma_token_len_bounds(a);
        if k < a.len() {
            lemma_token_len(s, 0, k);
            assert(s.skip(0) =~= s);
            assert(s.take(k) =~= a.take(k));
            assert(s.skip(k) =~= a.skip(k) + seq![sep] + b);
            lemma_tokens_split(a.skip(k), sep, b);
            assert(payload_tokens(s) =~= payload_tokens(a) + payload_tokens(b));
        } else {
            assert forall|j: int| 0 <= j < k implies !is_payload_sep(s[j]) by {
                assert(s[j] == a[j]);
            }
            lemma_token_len(s, 0, k);
            assert(s.skip(0) =~= s);
            assert(s.take(k) =~= a);
            assert(s.skip(k) =~= seq![sep] + b);
            assert((seq![sep] + b)[0] == sep);
            assert((seq![sep] + b).drop_first() =~= b);
            assert(payload_tokens(s.skip(k)) == payload_tokens(b));
            assert(payload_tokens(s) == seq![a] + payload_tokens(b));
            assert(a.skip(k) =~= Seq::<char>::empty());
            assert(payload_tokens(Seq::<char>::empty()) == Seq::<Seq<char>>::empty());
            assert(a.take(k) =~= a);
            assert(payload_tokens(a) == seq![a] + Seq::<Seq<char>>::empty());
            assert(payload_tokens(a) =~= seq![a]);
        }
    }
}

proof fn lemma_hex2(b: u8)
    ensures
        payload_tokens(hex2(b)) == seq![hex2(b)],
        normalize_token(hex2(b)) == hex2(b),
        parse_unsigned(hex2(b), 16, 255) == Some(b as nat),
{
    reveal_strlit("0x");
    reveal_strlit("0X");
    let t = hex2(b);
    let hi = (b / 16) as nat;
    let lo = (b % 16) as nat;
    lemma_hex_digit(hi);
    lemma_hex_digit(lo);
    // tokens
    lemma_token_len(t, 0, 2);
    assert(t.skip(0) =~= t);
    assert(t.take(2) =~= t);
    assert(t.skip(2) =~= Seq::<char>::empty());
    assert(payload_tokens(Seq::<char>::empty()) == Seq::<Seq<char>>::empty());
    assert(payload_tokens(t) == seq![t] + Seq::<Seq<char>>::empty());
    assert(seq![t] + Seq::<Seq<char>>::empty() =~= seq![t]);
    // trimming does nothing
    assert(trim_start(t) == t);
    assert(trim_end(t) == t);
    // no 0x prefix
    assert(t.take(2) != "0x"@) by {
        assert(t[1] != "0x"@[1]);
    }
    assert(t.take(2) != "0X"@) by {
        assert(t[1] != "0X"@[1]);
    }
    // value
    assert(unsigned_digits(t) == t);
    assert(t.drop_last() =~= seq![hex_digit(hi)]);
    assert(t.drop_last().drop_last() =~= Seq::<char>::empty());
    assert(digits_value(Seq::<char>::empty(), 16) == 0);
    assert(digits_value(t.drop_last(), 16) == 0 * 16 + digit_value(hex_digit(hi)));
    assert(digits_value(t, 16) == digits_value(t.drop_last(), 16) * 16 + digit_value(
        hex_digit(lo),
    ));
    assert(digits_value(t, 16) == hi * 16 + lo);
    assert(hi * 16 + lo == b) by (nonlinear_arith)
        requires
            hi == (b / 16) as nat,
            lo == (b % 16) as nat,
    ;
    assert forall|i: int| 0 <= i < t.len() implies is_radix_digit(#[trigger] t[i], 16) by {}
}

proof fn lemma_tokens_of_hex(bs: Seq<u8>)
    requires
        bs.len() >= 1,
    ensures
        payload_tokens(hex_join(bs, " "@)) == bs.map_values(|b: u8| hex2(b)),
    decreases bs.len(),
{
    reveal_strlit(" ");
    if bs.len() == 1 {
        lemma_hex2(bs[0]);
        assert(bs.map_values(|b: u8| hex2(b)) =~= seq![hex2(bs[0])]);
    } else {
        lemma_tokens_of_hex(bs.drop_last());
        let a = hex_join(bs.drop_last(), " "@);
        assert(" "@ =~= seq![' ']);
        assert(hex_join(bs, " "@) == a + seq![' '] + hex2(bs.last()));
        lemma_tokens_split(a, ' ', hex2(bs.last()));
        lemma_hex2(bs.last());
        assert(bs.map_values(|b: u8| hex2(b)) =~= bs.drop_last().map_values(|b: u8| hex2(b))
            + seq![hex2(bs.last())]);
    }
}

proof fn lemma_bytes_of_hex(bs: Seq<u8>)
    ensures
        payload_bytes(bs.map_values(|b: u8| hex2(b))) == Ok::<_, Seq<char>>(bs),
    decreases bs.len(),
{
    let ts = bs.map_values(|b: u8| hex2(b));
    if bs.len() == 0 {
        assert(ts.len() == 0);
        assert(bs =~= Seq::<u8>::empty());
    } else {
        assert(ts.drop_last() =~= bs.drop_last().map_values(|b: u8| hex2(b)));
        lemma_bytes_of_hex(bs.drop_last());
        lemma_hex2(bs.last());
        lemma_hex_digit(0);
        assert(hex2(bs.last()).len() == 2);
        assert(bs.drop_last().push(bs.last()) =~= bs);
    }
}

/// The value of a token of one or two hex digits, most significant first.
pub open spec fn short_hex_value(t: Seq<char>) -> nat {
    if t.len() == 1 {
        digit_value(t[0])
    } else {
        digit_value(t[0]) * 16 + digit_value(t[1])
    }
}

/// A token of one or two hex digits.
pub open spec fn is_short_hex(t: Seq<char>) -> bool {
    &&& 1 <= t.len() <= 2
    &&& forall|i: int| 0 <= i < t.len() ==> is_radix_digit(#[trigger] t[i], 16)
}

/// A token of one or two hex digits needs no normalising and reads as its value.
proof fn lemma_short_hex_token(t: Seq<char>)
    requires
        is_short_hex(t),
    ensures
        normalize_token(t) == t,
        parse_unsigned(normalize_token(t), 16, 255) == Some(short_hex_value(t)),
{
    reveal_strlit("0x");
    reveal_strlit("0X");
    assert(is_radix_digit(t[0], 16));
    assert(is_radix_digit(t[t.len() - 1], 16));
    assert(trim_start(t) == t);
    assert(trim_end(t) == t);
    assert(trim(t) == t);
    if t.len() == 2 {
        assert(is_radix_digit(t[1], 16));
        if t.take(2) == "0x"@ {
            assert(t[1] == t.take(2)[1]);
        }
        if t.take(2) == "0X"@ {
            assert(t[1] == t.take(2)[1]);
        }
    }
    assert(strip_all(t, "0x"@) == t);
    assert(strip_all(t, "0X"@) == t);
    assert(unsigned_digits(t) == t);
    let d0 = digit_value(t[0]);
    if t.len() == 1 {
        assert(t.drop_last() =~= Seq::<char>::empty());
        assert(digits_value(t.drop_last(), 16) == 0);
        assert(t.last() == t[0]);
        assert(digits_value(t, 16) == 0 * 16 + d0);
    } else {
        let d1 = digit_value(t[1]);
        let u = t.drop_last();
        assert(u.drop_last() =~= Seq::<char>::empty());
        assert(digits_value(u.drop_last(), 16) == 0);
        assert(u.last() == t[0]);
        assert(digits_value(u, 16) == d0);
        assert(digits_value(t, 16) == d0 * 16 + d1);
        assert(d0 * 16 + d1 <= 255) by (nonlinear_arith)
            requires
                d0 < 16,
                d1 < 16,
        ;
    }
}

/// Tokens of one or two hex digits give one byte each, in order.
proof fn lemma_short_hex_bytes(ts: Seq<Seq<char>>)
    requires
        forall|i: int| 0 <= i < ts.len() ==> is_short_hex(#[trigger] ts[i]),
    ensures
        payload_bytes(ts) == Ok::<Seq<u8>, Seq<char>>(
            Seq::new(ts.len(), |i: int| short_hex_value(ts[i]) as u8),
        ),
    decreases ts.len(),
{
    if ts.len() == 0 {
        assert(Seq::new(ts.len(), |i: int| short_hex_value(ts[i]) as u8) =~= Seq::<u8>::empty());
    } else {
        let front = ts.drop_last();
        assert forall|i: int| 0 <= i < front.len() implies is_short_hex(#[trigger] front[i]) by {
            assert(front[i] == ts[i]);
        }
        lemma_short_hex_bytes(front);
        assert(is_short_hex(ts[ts.len() - 1]));
        lemma_short_hex_token(ts.last());
        assert(Seq::new(front.len(), |i: int| short_hex_value(front[i]) as u8).push(
            short_hex_value(ts.last()) as u8,
        ) =~= Seq::new(ts.len(), |i: int| short_hex_value(ts[i]) as u8));
    }
}

/// A payload whose tokens each hold one or two hex digits (no prefix) reads as
/// one byte per token, in order: a single digit `d` gives the byte `d`, two
/// digits `d e` the byte `16 * d + e`.
pub proof fn law_hex_payload_short_tokens(input: Seq<char>)
    requires
        payload_tokens(input).len() >= 1,
        forall|i: int|
            0 <= i < payload_tokens(input).len() ==> is_short_hex(#[trigger] payload_tokens(input)[i]),
    ensures
        spec_parse_hex_payload(input) == Ok::<Seq<u8>, Seq<char>>(
            Seq::new(
                payload_tokens(input).len(),
                |i: int| short_hex_value(payload_tokens(input)[i]) as u8,
            ),
        ),
{
    lemma_short_hex_bytes(payload_tokens(input));
}

/// Reading back the hex text of a non-empty byte string gives the bytes.
pub proof fn law_hex_payload_roundtrip(bs: Seq<u8>)
    requires
        bs.len() >= 1,
    ensures
        spec_parse_hex_payload(hex_join(bs, " "@)) == Ok::<_, Seq<char>>(bs),
{
    lemma_tokens_of_hex(bs);
    lemma_bytes_of_hex(bs);
}

// ---------------------------------------------------------------------------
// Ports
// ---------------------------------------------------------------------------

/// The serial ports offered for selection.
pub fn list_ports() -> (ports: Vec<String>)
    ensures
        ports@.len() == 4,
        ports@[0]@ == "COM1"@,
        ports@[1]@ == "COM2"@,
        ports@[2]@ == "/dev/ttyUSB0"@,
        ports@[3]@ == "/dev/ttyS0"@,
{
    let mut ports: Vec<String> = Vec::new();
    ports.push(String::from_str("COM1"));
    ports.push(String::from_str("COM2"));
    ports.push(String::from_str("/dev/ttyUSB0"));
    ports.push(String::from_str("/dev/ttyS0"));
    ports
}

} // verus!
