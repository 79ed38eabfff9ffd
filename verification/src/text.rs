use vstd::prelude::*;

verus! {

/// The characters of `s`, in order.
pub fn chars_of(s: &str) -> (v: Vec<char>)
    ensures
        v@ == s@,
{
    let mut v: Vec<char> = Vec::new();
    for c in it: s.chars()
        invariant
            v@ == it.seq().take(it.index() as int),
            it.seq() == s@,
    {
        v.push(c);
        assert(v@ =~= it.seq().take(it.index() + 1));
    }
    assert(v@ =~= s@);
    v
}

/// Appends `c` to `s` by calling `String::push`, which std documents as appending
/// the character to the end of the string. Trusted: the contract claims that the
/// string's characters are the old ones followed by `c`, and nothing else changes.
#[verifier::external_body]
fn push_char(s: &mut String, c: char)
    ensures
        final(s)@ == old(s)@.push(c),
{
    s.push(c);
}

/// A string holding the characters `cs`.
pub fn string_of(cs: &[char]) -> (s: String)
    ensures
        s@ == cs@,
{
    let mut s = String::new();
    let mut i: usize = 0;
    while i < cs.len()
        invariant
            i <= cs.len(),
            s@ == cs@.take(i as int),
        decreases cs.len() - i,
    {
        push_char(&mut s, cs[i]);
        i += 1;
        assert(s@ =~= cs@.take(i as int));
    }
    assert(cs@.take(cs.len() as int) =~= cs@);
    s
}

// ---------------------------------------------------------------------------
// Whitespace, trimming, words and lines
// ---------------------------------------------------------------------------

/// Unicode `White_Space`, as `char::is_whitespace` tests it.
pub open spec fn is_white_space(c: char) -> bool {
    ||| '\t' <= c <= '\r'
    ||| c == ' '
    ||| c == '\u{85}'
    ||| c == '\u{a0}'
    ||| c == '\u{1680}'
    ||| '\u{2000}' <= c <= '\u{200a}'
    ||| c == '\u{2028}'
    ||| c == '\u{2029}'
    ||| c == '\u{202f}'
    ||| c == '\u{205f}'
    ||| c == '\u{3000}'
}

/// Is `c` whitespace?
pub fn is_whitespace(c: char) -> (b: bool)
    ensures
        b == is_white_space(c),
{
    ('\t' <= c && c <= '\r') || c == ' ' || c == '\u{85}' || c == '\u{a0}' || c == '\u{1680}' || (
    '\u{2000}' <= c && c <= '\u{200a}') || c == '\u{2028}' || c == '\u{2029}' || c == '\u{202f}'
        || c == '\u{205f}' || c == '\u{3000}'
}

/// `s` without leading whitespace.
pub open spec fn trim_start(s: Seq<char>) -> Seq<char>
    decreases s.len(),
{
    if s.len() > 0 && is_white_space(s[0]) {
        trim_start(s.drop_first())
    } else {
        s
    }
}

/// `s` without trailing whitespace.
pub open spec fn trim_end(s: Seq<char>) -> Seq<char>
    decreases s.len(),
{
    if s.len() > 0 && is_white_space(s.last()) {
        trim_end(s.drop_last())
    } else {
        s
    }
}

/// `s` without leading and trailing whitespace (`str::trim`).
pub open spec fn trim(s: Seq<char>) -> Seq<char> {
    trim_end(trim_start(s))
}

/// Trailing whitespace makes no difference to `trim`.
pub proof fn lemma_trim_trailing_space(s: Seq<char>)
    requires
        s.len() > 0,
        is_white_space(s.last()),
    ensures
        trim(s) == trim(s.drop_last()),
    decreases s.len(),
{
    if is_white_space(s[0]) {
        assert(trim_start(s) == trim_start(s.drop_first()));
        if s.len() == 1 {
            assert(s.drop_first() =~= Seq::<char>::empty());
            assert(s.drop_last() =~= Seq::<char>::empty());
            assert(trim_start(Seq::<char>::empty()) =~= Seq::<char>::empty());
            assert(trim_end(Seq::<char>::empty()) =~= Seq::<char>::empty());
        } else {
            lemma_trim_trailing_space(s.drop_first());
            assert(s.drop_last()[0] == s[0]);
            assert(trim_start(s.drop_last()) == trim_start(s.drop_last().drop_first()));
            assert(s.drop_last().drop_first() =~= s.drop_first().drop_last());
        }
    } else {
        assert(s.len() >= 2);
        assert(trim_start(s) == s);
        assert(s.drop_last()[0] == s[0]);
        assert(trim_start(s.drop_last()) == s.drop_last());
        assert(trim_end(s) == trim_end(s.drop_last()));
    }
}

/// `trim_end` keeps a prefix of its argument.
proof fn lemma_trim_end_prefix(s: Seq<char>)
    ensures
        trim_end(s).len() <= s.len(),
        forall|i: int| 0 <= i < trim_end(s).len() ==> #[trigger] trim_end(s)[i] == s[i],
    decreases s.len(),
{
    if s.len() > 0 && is_white_space(s.last()) {
        lemma_trim_end_prefix(s.drop_last());
        assert forall|i: int| 0 <= i < trim_end(s).len() implies #[trigger] trim_end(s)[i]
            == s[i] by {
            assert(trim_end(s.drop_last())[i] == s.drop_last()[i]);
        }
    }
}

/// `trim_start` leaves no whitespace in front.
proof fn lemma_trim_start_front(s: Seq<char>)
    ensures
        trim_start(s).len() > 0 ==> !is_white_space(trim_start(s)[0]),
    decreases s.len(),
{
    if s.len() > 0 && is_white_space(s[0]) {
        lemma_trim_start_front(s.drop_first());
    }
}

/// A trimmed text that is not empty starts with a character that is not whitespace.
pub proof fn lemma_trim_front(s: Seq<char>)
    ensures
        trim(s).len() > 0 ==> !is_white_space(trim(s)[0]),
{
    lemma_trim_start_front(s);
    lemma_trim_end_prefix(trim_start(s));
    if trim(s).len() > 0 {
        assert(trim(s)[0] == trim_start(s)[0]);
    }
}

/// The first word of a text that starts with a non-space character starts the text.
pub proof fn lemma_first_word(s: Seq<char>)
    requires
        s.len() > 0,
        !is_white_space(s[0]),
    ensures
        words(s).len() > 0,
        words(s)[0].len() > 0,
        words(s)[0][0] == s[0],
{
    lemma_word_len_bounds(s);
    let w = s.take(word_len(s) as int);
    assert(words(s)[0] == w);
}

/// `s[from..to]` as a fresh vector.
pub fn copy_chars(s: &[char], from: usize, to: usize) -> (out: Vec<char>)
    requires
        from <= to <= s.len(),
    ensures
        out@ == s@.subrange(from as int, to as int),
{
    let mut out: Vec<char> = Vec::new();
    let mut i: usize = from;
    while i < to
        invariant
            from <= i <= to <= s.len(),
            out@ == s@.subrange(from as int, i as int),
        decreases to - i,
    {
        out.push(s[i]);
        i += 1;
        assert(out@ =~= s@.subrange(from as int, i as int));
    }
    out
}

/// `s` with leading and trailing whitespace removed.
pub fn trimmed(s: &[char]) -> (out: Vec<char>)
    ensures
        out@ == trim(s@),
{
    let mut i: usize = 0;
    assert(s@.skip(0) =~= s@);
    while i < s.len() && is_whitespace(s[i])
        invariant
            i <= s.len(),
            trim_start(s@.skip(i as int)) == trim_start(s@),
        decreases s.len() - i,
    {
        assert(s@.skip(i as int).drop_first() =~= s@.skip(i + 1));
        i += 1;
    }
    let ghost front = s@.skip(i as int);
    let mut j: usize = s.len();
    assert(front.take(j - i) =~= front);
    while j > i && is_whitespace(s[j - 1])
        invariant
            i <= j <= s.len(),
            front == s@.skip(i as int),
            trim_end(front.take(j - i)) == trim_end(front),
        decreases j,
    {
        assert(front.take(j - i).drop_last() =~= front.take(j - 1 - i));
        j -= 1;
    }
    let out = copy_chars(s, i, j);
    assert(out@ =~= front.take(j - i));
    out
}

/// Length of the leading run of characters that are not whitespace.
pub open spec fn word_len(s: Seq<char>) -> nat
    decreases s.len(),
{
    if s.len() == 0 || is_white_space(s[0]) {
        0
    } else {
        1 + word_len(s.drop_first())
    }
}

/// The whitespace-separated words of `s` (`str::split_whitespace`).
pub open spec fn words(s: Seq<char>) -> Seq<Seq<char>>
    decreases s.len(),
{
    if s.len() == 0 {
        Seq::empty()
    } else if is_white_space(s[0]) {
        words(s.drop_first())
    } else {
        proof {
            lemma_word_len_bounds(s);
        }
        seq![s.take(word_len(s) as int)] + words(s.skip(word_len(s) as int))
    }
}

pub proof fn lemma_word_len_bounds(s: Seq<char>)
    ensures
        word_len(s) <= s.len(),
        s.len() > 0 && !is_white_space(s[0]) ==> word_len(s) > 0,
    decreases s.len(),
{
    if s.len() > 0 && !is_white_space(s[0]) {
        lemma_word_len_bounds(s.drop_first());
    }
}

/// The character views of a sequence of character vectors.
pub open spec fn char_chunks_view(v: Seq<Vec<char>>) -> Seq<Seq<char>> {
    v.map_values(|c: Vec<char>| c@)
}

pub proof fn lemma_word_len(s: Seq<char>, i: int, j: int)
    requires
        0 <= i <= j <= s.len(),
        forall|k: int| i <= k < j ==> !is_white_space(s[k]),
        j == s.len() || is_white_space(s[j]),
    ensures
        word_len(s.skip(i)) == j - i,
    decreases j - i,
{
    if i < j {
        assert(s.skip(i).drop_first() =~= s.skip(i + 1));
        lemma_word_len(s, i + 1, j);
    } else if j < s.len() {
        assert(s.skip(i)[0] == s[j]);
    }
}

/// The whitespace-separated words of `s`.
pub fn split_words(s: &[char]) -> (out: Vec<Vec<char>>)
    ensures
        char_chunks_view(out@) == words(s@),
{
    let mut out: Vec<Vec<char>> = Vec::new();
    let mut i: usize = 0;
    assert(s@.skip(0) =~= s@);
    assert(char_chunks_view(out@) + words(s@) =~= words(s@));
    while i < s.len()
        invariant
            i <= s.len(),
            char_chunks_view(out@) + words(s@.skip(i as int)) == words(s@),
        decreases s.len() - i,
    {
        let ghost rest = s@.skip(i as int);
        if is_whitespace(s[i]) {
            assert(rest.drop_first() =~= s@.skip(i + 1));
            i += 1;
        } else {
            let mut j: usize = i + 1;
            while j < s.len() && !is_whitespace(s[j])
                invariant
                    i < j <= s.len(),
                    forall|k: int| i <= k < j ==> !is_white_space(s@[k]),
                decreases s.len() - j,
            {
                j += 1;
            }
            proof {
                lemma_word_len(s@, i as int, j as int);
            }
            let word = copy_chars(s, i, j);
            assert(word@ =~= rest.take(j - i));
            assert(rest.skip(j - i) =~= s@.skip(j as int));
            let ghost before = char_chunks_view(out@);
            out.push(word);
            assert(char_chunks_view(out@) =~= before.push(word@));
            let ghost tail = words(s@.skip(j as int));
            assert(before + (seq![word@] + tail) =~= before.push(word@) + tail);
            i = j;
        }
    }
    assert(char_chunks_view(out@) + Seq::<Seq<char>>::empty() =~= char_chunks_view(out@));
    out
}

/// Offset of the first `'\n'` in `s`, or its length.
pub open spec fn line_len(s: Seq<char>) -> nat
    decreases s.len(),
{
    if s.len() == 0 || s[0] == '\n' {
        0
    } else {
        1 + line_len(s.drop_first())
    }
}

/// A line without the `'\r'` of a `"\r\n"` ending.
pub open spec fn strip_cr(line: Seq<char>) -> Seq<char> {
    if line.len() > 0 && line.last() == '\r' {
        line.drop_last()
    } else {
        line
    }
}

/// The lines of `s` (`str::lines`): split at `"\n"` or `"\r\n"`; a final line
/// ending adds no empty line.
pub open spec fn lines(s: Seq<char>) -> Seq<Seq<char>>
    decreases s.len(),
{
    if s.len() == 0 {
        Seq::empty()
    } else if line_len(s) == s.len() {
        seq![s]
    } else {
        proof {
            lemma_line_len_bound(s);
        }
        seq![strip_cr(s.take(line_len(s) as int))] + lines(s.skip(line_len(s) as int + 1))
    }
}

pub proof fn lemma_line_len_bound(s: Seq<char>)
    ensures
        line_len(s) <= s.len(),
    decreases s.len(),
{
    if s.len() > 0 && s[0] != '\n' {
        lemma_line_len_bound(s.drop_first());
    }
}

/// No newline comes before `line_len(s)`, and one stands there unless the text ends.
pub proof fn lemma_line_len_shape(s: Seq<char>)
    ensures
        line_len(s) <= s.len(),
        forall|j: int| 0 <= j < line_len(s) ==> s[j] != '\n',
        line_len(s) < s.len() ==> s[line_len(s) as int] == '\n',
    decreases s.len(),
{
    lemma_line_len_bound(s);
    if s.len() > 0 && s[0] != '\n' {
        lemma_line_len_shape(s.drop_first());
        assert forall|j: int| 0 <= j < line_len(s) implies s[j] != '\n' by {
            if j > 0 {
                assert(s[j] == s.drop_first()[j - 1]);
            }
        }
    }
}

pub proof fn lemma_line_len(s: Seq<char>, i: int, j: int)
    requires
        0 <= i <= j <= s.len(),
        forall|k: int| i <= k < j ==> s[k] != '\n',
        j == s.len() || s[j] == '\n',
    ensures
        line_len(s.skip(i)) == j - i,
    decreases j - i,
{
    if i < j {
        assert(s.skip(i).drop_first() =~= s.skip(i + 1));
        lemma_line_len(s, i + 1, j);
    } else if j < s.len() {
        assert(s.skip(i)[0] == s[j]);
    }
}

/// The lines of `s`.
pub fn split_lines(s: &[char]) -> (out: Vec<Vec<char>>)
    ensures
        char_chunks_view(out@) == lines(s@),
{
    let mut out: Vec<Vec<char>> = Vec::new();
    let mut i: usize = 0;
    assert(s@.skip(0) =~= s@);
    assert(char_chunks_view(out@) + lines(s@) =~= lines(s@));
    while i < s.len()
        invariant
            i <= s.len(),
            char_chunks_view(out@) + lines(s@.skip(i as int)) == lines(s@),
        decreases s.len() - i,
    {
        let ghost rest = s@.skip(i as int);
        let mut j: usize = i;
        while j < s.len() && s[j] != '\n'
            invariant
                i <= j <= s.len(),
                forall|k: int| i <= k < j ==> s@[k] != '\n',
            decreases s.len() - j,
        {
            j += 1;
        }
        proof {
            lemma_line_len(s@, i as int, j as int);
        }
        let ghost before = char_chunks_view(out@);
        if j == s.len() {
            let line = copy_chars(s, i, j);
            assert(line@ =~= rest);
            out.push(line);
            assert(char_chunks_view(out@) =~= before.push(line@));
            assert(before + seq![line@] =~= before.push(line@));
            assert(s@.skip(j as int) =~= Seq::<char>::empty());
            assert(char_chunks_view(out@) + Seq::<Seq<char>>::empty() =~= char_chunks_view(out@));
            i = j;
        } else {
            let end = if j > i && s[j - 1] == '\r' {
                j - 1
            } else {
                j
            };
            let line = copy_chars(s, i, end);
            assert(line@ =~= strip_cr(rest.take(j - i)));
            assert(rest.skip(j - i + 1) =~= s@.skip(j + 1));
            out.push(line);
            assert(char_chunks_view(out@) =~= before.push(line@));
            let ghost tail = lines(s@.skip(j + 1));
            assert(before + (seq![line@] + tail) =~= before.push(line@) + tail);
            i = j + 1;
        }
    }
    assert(char_chunks_view(out@) + Seq::<Seq<char>>::empty() =~= char_chunks_view(out@));
    out
}

/// Does `s` begin with `prefix`?
pub open spec fn has_prefix(s: Seq<char>, prefix: Seq<char>) -> bool {
    prefix.len() <= s.len() && s.take(prefix.len() as int) == prefix
}

/// Does `s` begin with `prefix`?
pub fn starts_with(s: &[char], prefix: &str) -> (b: bool)
    ensures
        b == has_prefix(s@, prefix@),
{
    let p = chars_of(prefix);
    if p.len() > s.len() {
        return false;
    }
    let mut k: usize = 0;
    while k < p.len()
        invariant
            k <= p.len() <= s.len(),
            p@ == prefix@,
            forall|j: int| 0 <= j < k ==> s@[j] == p@[j],
        decreases p.len() - k,
    {
        if s[k] != p[k] {
            assert(s@.take(p.len() as int)[k as int] != p@[k as int]);
            return false;
        }
        k += 1;
    }
    assert(s@.take(p.len() as int) =~= p@);
    true
}

// ---------------------------------------------------------------------------
// Numbers
// ---------------------------------------------------------------------------

/// The decimal digit for `d < 10`.
pub open spec fn digit_char(d: nat) -> char {
    if d == 0 {
        '0'
    } else if d == 1 {
        '1'
    } else if d == 2 {
        '2'
    } else if d == 3 {
        '3'
    } else if d == 4 {
        '4'
    } else if d == 5 {
        '5'
    } else if d == 6 {
        '6'
    } else if d == 7 {
        '7'
    } else if d == 8 {
        '8'
    } else {
        '9'
    }
}

/// The decimal representation of `n`, without leading zeros.
pub open spec fn decimal(n: nat) -> Seq<char>
    decreases n,
{
    if n < 10 {
        seq![digit_char(n)]
    } else {
        decimal(n / 10).push(digit_char(n % 10))
    }
}

fn digit_to_char(d: u128) -> (c: char)
    requires
        d < 10,
    ensures
        c == digit_char(d as nat),
{
    if d == 0 {
        '0'
    } else if d == 1 {
        '1'
    } else if d == 2 {
        '2'
    } else if d == 3 {
        '3'
    } else if d == 4 {
        '4'
    } else if d == 5 {
        '5'
    } else if d == 6 {
        '6'
    } else if d == 7 {
        '7'
    } else if d == 8 {
        '8'
    } else {
        '9'
    }
}

/// Appends the decimal representation of `n` to `out`.
pub fn push_decimal(out: &mut Vec<char>, n: u128)
    ensures
        final(out)@ == old(out)@ + decimal(n as nat),
    decreases n,
{
    if n >= 10 {
        push_decimal(out, n / 10);
    }
    out.push(digit_to_char(n % 10));
    assert(out@ =~= old(out)@ + decimal(n as nat));
}

/// Is `c` a digit in `radix` (at most 36)?
pub open spec fn is_radix_digit(c: char, radix: nat) -> bool {
    digit_value(c) < radix
}

/// The value of a digit character; 99 for a character that is no digit.
pub open spec fn digit_value(c: char) -> nat {
    if '0' <= c <= '9' {
        (c as nat - '0' as nat) as nat
    } else if 'a' <= c <= 'z' {
        (c as nat - 'a' as nat + 10) as nat
    } else if 'A' <= c <= 'Z' {
        (c as nat - 'A' as nat + 10) as nat
    } else {
        99
    }
}

/// The value of the digit string `s` in `radix`.
pub open spec fn digits_value(s: Seq<char>, radix: nat) -> nat
    decreases s.len(),
{
    if s.len() == 0 {
        0
    } else {
        digits_value(s.drop_last(), radix) * radix + digit_value(s.last())
    }
}

/// `s` with one leading `'+'` removed.
pub open spec fn unsigned_digits(s: Seq<char>) -> Seq<char> {
    if s.len() > 0 && s[0] == '+' {
        s.drop_first()
    } else {
        s
    }
}

/// How `u*::from_str_radix` reads `s`: an optional `'+'`, then at least one digit
/// of `radix`; the value must not exceed `max`.
pub open spec fn parse_unsigned(s: Seq<char>, radix: nat, max: nat) -> Option<nat> {
    let d = unsigned_digits(s);
    if d.len() > 0 && (forall|i: int| 0 <= i < d.len() ==> is_radix_digit(#[trigger] d[i], radix))
        && digits_value(d, radix) <= max {
        Some(digits_value(d, radix))
    } else {
        None
    }
}

fn char_digit_value(c: char) -> (v: u32)
    ensures
        v == digit_value(c),
{
    if '0' <= c && c <= '9' {
        (c as u32) - ('0' as u32)
    } else if 'a' <= c && c <= 'z' {
        (c as u32) - ('a' as u32) + 10
    } else if 'A' <= c && c <= 'Z' {
        (c as u32) - ('A' as u32) + 10
    } else {
        99
    }
}

proof fn lemma_digits_value_grows(s: Seq<char>, radix: nat, k: int)
    requires
        1 <= radix,
        0 <= k <= s.len(),
    ensures
        digits_value(s.take(k), radix) <= digits_value(s, radix),
    decreases s.len() - k,
{
    if k < s.len() {
        lemma_digits_value_grows(s, radix, k + 1);
        let t = s.take(k + 1);
        assert(t.drop_last() =~= s.take(k));
        let a = digits_value(s.take(k), radix);
        assert(a * radix >= a) by (nonlinear_arith)
            requires
                radix >= 1,
        ;
    } else {
        assert(s.take(k) =~= s);
    }
}

/// Reads an unsigned number in `radix` (2 to 36) that must not exceed `max`.
pub fn parse_unsigned_chars(s: &[char], radix: u32, max: u128) -> (r: Option<u128>)
    requires
        2 <= radix <= 36,
    ensures
        match r {
            Some(v) => parse_unsigned(s@, radix as nat, max as nat) == Some(v as nat),
            None => parse_unsigned(s@, radix as nat, max as nat) is None,
        },
{
    let ghost d = unsigned_digits(s@);
    let start: usize = if s.len() > 0 && s[0] == '+' {
        1
    } else {
        0
    };
    assert(d =~= s@.skip(start as int));
    if start >= s.len() {
        return None;
    }
    let mut acc: u128 = 0;
    let mut i: usize = start;
    assert(d.take(0) =~= Seq::<char>::empty());
    while i < s.len()
        invariant
            start <= i <= s.len(),
            d == s@.skip(start as int),
            d == unsigned_digits(s@),
            2 <= radix <= 36,
            acc == digits_value(d.take(i - start), radix as nat),
            forall|k: int| 0 <= k < i - start ==> is_radix_digit(#[trigger] d[k], radix as nat),
        decreases s.len() - i,
    {
        let v = char_digit_value(s[i]);
        if v >= radix {
            assert(!is_radix_digit(d[i - start], radix as nat));
            return None;
        }
        let ghost k = i - start;
        assert(d.take(k + 1).drop_last() =~= d.take(k));
        assert(d.take(k + 1).last() == s@[i as int]);
        let next = match acc.checked_mul(radix as u128) {
            Some(m) => m.checked_add(v as u128),
            None => None,
        };
        match next {
            Some(n) => {
                acc = n;
            },
            None => {
                proof {
                    if forall|j: int| 0 <= j < d.len() ==> is_radix_digit(#[trigger] d[j], radix as nat) {
                        lemma_digits_value_grows(d, radix as nat, k + 1);
                    }
                }
                return None;
            },
        }
        i += 1;
    }
    assert(d.take(i - start) =~= d);
    if acc <= max {
        Some(acc)
    } else {
        None
    }
}

/// Appends every character of `src` to `dst`.
pub fn append_chars(dst: &mut Vec<char>, src: &[char])
    ensures
        final(dst)@ == old(dst)@ + src@,
{
    let ghost start = dst@;
    let mut i: usize = 0;
    while i < src.len()
        invariant
            i <= src.len(),
            dst@ == start + src@.take(i as int),
        decreases src.len() - i,
    {
        dst.push(src[i]);
        i += 1;
        assert(dst@ =~= start + src@.take(i as int));
    }
    assert(src@.take(src.len() as int) =~= src@);
}

/// Appends the characters of `s` to `dst`.
pub fn push_str(dst: &mut Vec<char>, s: &str)
    ensures
        final(dst)@ == old(dst)@ + s@,
{
    let cs = chars_of(s);
    append_chars(dst, cs.as_slice());
}

/// The code point of `c` after ASCII upper-casing.
pub open spec fn upper_code(c: char) -> u32 {
    if 'a' <= c <= 'z' {
        (c as u32 - 32) as u32
    } else {
        c as u32
    }
}

/// `t` equals `kw` when both are ASCII upper-cased; `kw` is upper case already.
pub open spec fn upper_is(t: Seq<char>, kw: Seq<char>) -> bool {
    &&& t.len() == kw.len()
    &&& forall|i: int| 0 <= i < t.len() ==> upper_code(#[trigger] t[i]) == kw[i] as u32
}

/// Does `t`, upper-cased, equal `kw`?
pub fn upper_equals(t: &[char], kw: &str) -> (b: bool)
    ensures
        b == upper_is(t@, kw@),
{
    let k = chars_of(kw);
    if t.len() != k.len() {
        return false;
    }
    let mut i: usize = 0;
    while i < t.len()
        invariant
            i <= t.len() == k.len(),
            k@ == kw@,
            forall|j: int| 0 <= j < i ==> upper_code(#[trigger] t@[j]) == k@[j] as u32,
        decreases t.len() - i,
    {
        let c = t[i];
        let code: u32 = if 'a' <= c && c <= 'z' {
            (c as u32) - 32
        } else {
            c as u32
        };
        if code != (k[i] as u32) {
            return false;
        }
        i += 1;
    }
    true
}

/// The upper-case hexadecimal digit for `d < 16`.
pub open spec fn hex_digit(d: nat) -> char {
    if d < 10 {
        digit_char(d)
    } else if d == 10 {
        'A'
    } else if d == 11 {
        'B'
    } else if d == 12 {
        'C'
    } else if d == 13 {
        'D'
    } else if d == 14 {
        'E'
    } else {
        'F'
    }
}

/// A byte as two upper-case hexadecimal digits (`{:02X}`).
pub open spec fn hex2(b: u8) -> Seq<char> {
    seq![hex_digit((b / 16) as nat), hex_digit((b % 16) as nat)]
}

/// The bytes as `{:02X}` pairs joined by `sep`.
pub open spec fn hex_join(bs: Seq<u8>, sep: Seq<char>) -> Seq<char>
    decreases bs.len(),
{
    if bs.len() == 0 {
        Seq::empty()
    } else if bs.len() == 1 {
        hex2(bs[0])
    } else {
        hex_join(bs.drop_last(), sep) + sep + hex2(bs.last())
    }
}

fn hex_digit_char(d: u8) -> (c: char)
    requires
        d < 16,
    ensures
        c == hex_digit(d as nat),
{
    if d < 10 {
        digit_to_char(d as u128)
    } else if d == 10 {
        'A'
    } else if d == 11 {
        'B'
    } else if d == 12 {
        'C'
    } else if d == 13 {
        'D'
    } else if d == 14 {
        'E'
    } else {
        'F'
    }
}

/// Appends the bytes as `{:02X}` pairs joined by `sep`.
pub fn push_hex_join(out: &mut Vec<char>, bs: &[u8], sep: &str)
    ensures
        final(out)@ == old(out)@ + hex_join(bs@, sep@),
{
    let ghost start = out@;
    let mut i: usize = 0;
    assert(bs@.take(0) =~= Seq::<u8>::empty());
    assert(out@ =~= start + hex_join(bs@.take(0), sep@));
    while i < bs.len()
        invariant
            i <= bs.len(),
            out@ == start + hex_join(bs@.take(i as int), sep@),
        decreases bs.len() - i,
    {
        let ghost prev = out@;
        let b = bs[i];
        assert(bs@.take(i + 1).drop_last() =~= bs@.take(i as int));
        assert(bs@.take(i + 1).last() == b);
        if i > 0 {
            push_str(out, sep);
        }
        out.push(hex_digit_char(b / 16));
        out.push(hex_digit_char(b % 16));
        if i == 0 {
            assert(out@ =~= start + hex_join(bs@.take(i + 1), sep@));
        } else {
            assert(out@ =~= prev + sep@ + hex2(b));
            assert(out@ =~= start + hex_join(bs@.take(i + 1), sep@));
        }
        i += 1;
    }
    assert(bs@.take(bs.len() as int) =~= bs@);
}

/// Are the characters `a` those of `b`?
pub fn equals_str(a: &[char], b: &str) -> (r: bool)
    ensures
        r == (a@ == b@),
{
    let bc = chars_of(b);
    if a.len() != bc.len() {
        return false;
    }
    let mut i: usize = 0;
    while i < a.len()
        invariant
            i <= a.len() == bc.len(),
            bc@ == b@,
            forall|j: int| 0 <= j < i ==> a@[j] == bc@[j],
        decreases a.len() - i,
    {
        if a[i] != bc[i] {
            return false;
        }
        i += 1;
    }
    assert(a@ =~= bc@);
    true
}

/// ASCII lower-casing of one character.
pub open spec fn ascii_lower(c: char) -> char {
    if 'A' <= c <= 'Z' {
        ((c as u32) + 32) as char
    } else {
        c
    }
}

/// ASCII lower-casing (`str::to_ascii_lowercase`).
pub open spec fn lower(s: Seq<char>) -> Seq<char> {
    s.map_values(|c: char| ascii_lower(c))
}

/// `s`, ASCII lower-cased.
pub fn to_lower(s: &[char]) -> (out: Vec<char>)
    ensures
        out@ == lower(s@),
{
    let mut out: Vec<char> = Vec::new();
    let mut i: usize = 0;
    while i < s.len()
        invariant
            i <= s.len(),
            out@ == lower(s@.take(i as int)),
        decreases s.len() - i,
    {
        let c = s[i];
        let l = if 'A' <= c && c <= 'Z' {
            ((c as u8) + 32) as char
        } else {
            c
        };
        out.push(l);
        i += 1;
        assert(out@ =~= lower(s@.take(i as int)));
    }
    assert(s@.take(s.len() as int) =~= s@);
    out
}

} // verus!
