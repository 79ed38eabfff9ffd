use vstd::prelude::*;

use crate::bytes::{append_bytes, chunks_view, copy_range, occurs_at, window_equals};

verus! {

/// Checksum appended after the payload of a frame.
#[derive(Debug, Clone, Copy, PartialEq, Eq, Structural)]
pub enum ChecksumAlgorithm {
    Xor8,
    Crc16Modbus,
}

/// How frames look on the wire: header, payload, optional checksum, footer.
#[derive(Debug, Clone, PartialEq, Eq)]
pub struct FrameRule {
    /// Bytes that open every frame.
    pub header: Vec<u8>,
    /// Bytes that close every frame.
    pub footer: Vec<u8>,
    /// Fixed frame length (header, footer and checksum included); `None` splits on the footer.
    pub fixed_length: Option<usize>,
    /// Checksum algorithm.
    pub checksum: Option<ChecksumAlgorithm>,
}

/// Mathematical model of a [`FrameRule`].
pub struct FrameRuleView {
    pub header: Seq<u8>,
    pub footer: Seq<u8>,
    pub fixed_length: Option<usize>,
    pub checksum: Option<ChecksumAlgorithm>,
}

impl View for FrameRule {
    type V = FrameRuleView;

    open spec fn view(&self) -> FrameRuleView {
        FrameRuleView {
            header: self.header@,
            footer: self.footer@,
            fixed_length: self.fixed_length,
            checksum: self.checksum,
        }
    }
}

impl Default for FrameRule {
    fn default() -> (r: Self)
        ensures
            r.header@ == Seq::<u8>::empty(),
            r.footer@ == Seq::<u8>::empty(),
            r.fixed_length is None,
            r.checksum is None,
    {
        FrameRule { header: Vec::new(), footer: Vec::new(), fixed_length: None, checksum: None }
    }
}

/// A frame cut out of a byte stream.
#[derive(Debug, Clone, PartialEq, Eq)]
pub struct ParsedFrame {
    /// The raw frame bytes.
    pub raw: Vec<u8>,
    /// The payload, without header, footer and checksum.
    pub payload: Vec<u8>,
}

/// Mathematical model of a [`ParsedFrame`].
pub struct ParsedFrameView {
    pub raw: Seq<u8>,
    pub payload: Seq<u8>,
}

impl View for ParsedFrame {
    type V = ParsedFrameView;

    open spec fn view(&self) -> ParsedFrameView {
        ParsedFrameView { raw: self.raw@, payload: self.payload@ }
    }
}

/// The views of a sequence of parsed frames.
pub open spec fn frames_view(v: Seq<ParsedFrame>) -> Seq<ParsedFrameView> {
    v.map_values(|p: ParsedFrame| p@)
}

/// Why a frame or a Modbus packet was rejected.
#[derive(Debug, Clone, PartialEq, Eq, Structural)]
pub enum ProtocolError {
    FrameTooShort,
    ChecksumMismatch,
    InvalidFrame,
    InvalidModbus,
}

/// The message of each protocol error.
pub open spec fn protocol_error_message(e: ProtocolError) -> Seq<char> {
    match e {
        ProtocolError::FrameTooShort => "frame too short"@,
        ProtocolError::ChecksumMismatch => "checksum mismatch"@,
        ProtocolError::InvalidFrame => "invalid frame"@,
        ProtocolError::InvalidModbus => "invalid modbus rtu frame"@,
    }
}

impl ProtocolError {
    /// Human-readable description of the error.
    pub fn message(&self) -> (s: String)
        ensures
            s@ == protocol_error_message(*self),
    {
        match self {
            ProtocolError::FrameTooShort => String::from_str("frame too short"),
            ProtocolError::ChecksumMismatch => String::from_str("checksum mismatch"),
            ProtocolError::InvalidFrame => String::from_str("invalid frame"),
            ProtocolError::InvalidModbus => String::from_str("invalid modbus rtu frame"),
        }
    }
}

// ---------------------------------------------------------------------------
// Checksums
// ---------------------------------------------------------------------------

/// XOR of all bytes of `s`, starting from zero.
pub open spec fn spec_xor8(s: Seq<u8>) -> u8
    decreases s.len(),
{
    if s.len() == 0 {
        0
    } else {
        spec_xor8(s.drop_last()) ^ s.last()
    }
}

/// XOR checksum over all bytes.
pub fn xor8(data: &[u8]) -> (r: u8)
    ensures
        r == spec_xor8(data@),
{
    let mut acc: u8 = 0;
    let mut i: usize = 0;
    while i < data.len()
        invariant
            i <= data.len(),
            acc == spec_xor8(data@.take(i as int)),
        decreases data.len() - i,
    {
        assert(data@.take(i as int + 1).drop_last() == data@.take(i as int));
        acc = acc ^ data[i];
        i += 1;
    }
    assert(data@.take(data.len() as int) == data@);
    acc
}

/// One bit step of the reflected CRC-16 with polynomial 0xA001.
pub open spec fn crc_shift(crc: u16) -> u16 {
    if crc & 1 != 0 {
        (crc >> 1) ^ 0xA001
    } else {
        crc >> 1
    }
}

/// `n` bit steps.
pub open spec fn crc_shift_n(crc: u16, n: nat) -> u16
    decreases n,
{
    if n == 0 {
        crc
    } else {
        crc_shift(crc_shift_n(crc, (n - 1) as nat))
    }
}

/// Folds one byte into the register.
pub open spec fn crc_update(crc: u16, b: u8) -> u16 {
    crc_shift_n(crc ^ (b as u16), 8)
}

/// CRC-16/MODBUS of `s`: initial value 0xFFFF, reflected polynomial 0xA001.
pub open spec fn spec_crc16(s: Seq<u8>) -> u16
    decreases s.len(),
{
    if s.len() == 0 {
        0xFFFF
    } else {
        crc_update(spec_crc16(s.drop_last()), s.last())
    }
}

/// CRC-16/MODBUS checksum.
pub fn crc16_modbus(data: &[u8]) -> (r: u16)
    ensures
        r == spec_crc16(data@),
{
    let mut crc: u16 = 0xFFFF;
    let mut i: usize = 0;
    while i < data.len()
        invariant
            i <= data.len(),
            crc == spec_crc16(data@.take(i as int)),
        decreases data.len() - i,
    {
        assert(data@.take(i as int + 1).drop_last() == data@.take(i as int));
        crc = crc ^ (data[i] as u16);
        let ghost start = crc;
        let mut k: u32 = 0;
        while k < 8
            invariant
                k <= 8,
                crc == crc_shift_n(start, k as nat),
            decreases 8 - k,
        {
            if (crc & 1) != 0 {
                crc = (crc >> 1) ^ 0xA001;
            } else {
                crc = crc >> 1;
            }
            k += 1;
        }
        i += 1;
    }
    assert(data@.take(data.len() as int) == data@);
    crc
}

/// Low byte of a 16-bit value.
pub open spec fn lo_byte(v: u16) -> u8 {
    (v & 0xFF) as u8
}

/// High byte of a 16-bit value.
pub open spec fn hi_byte(v: u16) -> u8 {
    (v >> 8) as u8
}

/// The 16-bit value whose low byte is `lo` and high byte is `hi`.
pub open spec fn le_u16(lo: u8, hi: u8) -> u16 {
    ((hi as u16) << 8) | (lo as u16)
}

/// Splitting a value into bytes and joining them back gives the value.
pub proof fn lemma_u16_bytes(v: u16)
    ensures
        le_u16(lo_byte(v), hi_byte(v)) == v,
{
    assert((((((v >> 8) as u8) as u16) << 8) | (((v & 0xFF) as u8) as u16)) == v) by (bit_vector);
}

/// XOR over a concatenation is the XOR of the two parts' checksums; the checksum
/// of nothing is zero.
pub proof fn law_xor8_concat(a: Seq<u8>, b: Seq<u8>)
    ensures
        spec_xor8(Seq::<u8>::empty()) == 0,
        spec_xor8(a + b) == spec_xor8(a) ^ spec_xor8(b),
    decreases b.len(),
{
    let x = spec_xor8(a);
    if b.len() == 0 {
        assert(a + b =~= a);
        assert(x ^ 0u8 == x) by (bit_vector);
    } else {
        law_xor8_concat(a, b.drop_last());
        assert((a + b).drop_last() =~= a + b.drop_last());
        assert((a + b).last() == b.last());
        let y = spec_xor8(b.drop_last());
        let l = b.last();
        assert((x ^ y) ^ l == x ^ (y ^ l)) by (bit_vector);
    }
}

/// Appending the XOR checksum to the data gives bytes whose XOR is zero.
pub proof fn law_xor8_self_check(data: Seq<u8>)
    ensures
        spec_xor8(data.push(spec_xor8(data))) == 0,
{
    let x = spec_xor8(data);
    assert(data.push(x).drop_last() =~= data);
    assert(x ^ x == 0u8) by (bit_vector);
}

/// Eight CRC bit steps on a value whose low byte is zero shift it right by eight.
proof fn lemma_crc_shift8_low_zero(v: u16)
    requires
        v & 0xFF == 0,
    ensures
        crc_shift_n(v, 8) == v >> 8,
{
    reveal_with_fuel(crc_shift_n, 9);
    assert(crc_shift(
        crc_shift(crc_shift(crc_shift(crc_shift(crc_shift(crc_shift(crc_shift(v))))))),
    ) == v >> 8) by (bit_vector)
        requires
            v & 0xFF == 0,
    ;
}

/// The CRC of nothing is `0xFFFF`, and appending the CRC of the data, low byte
/// first, gives bytes whose CRC is zero.
pub proof fn law_crc16_residue(data: Seq<u8>)
    ensures
        spec_crc16(Seq::<u8>::empty()) == 0xFFFF,
        spec_crc16(data + seq![lo_byte(spec_crc16(data)), hi_byte(spec_crc16(data))]) == 0,
{
    let c = spec_crc16(data);
    let lo = lo_byte(c);
    let hi = hi_byte(c);
    let s1 = data.push(lo);
    let s2 = s1.push(hi);
    assert(data + seq![lo, hi] =~= s2);
    assert(s2.drop_last() =~= s1);
    assert(s1.drop_last() =~= data);
    let v = c ^ (lo as u16);
    assert(v & 0xFF == 0 && v >> 8 == hi as u16) by (bit_vector)
        requires
            v == c ^ (lo as u16),
            lo == (c & 0xFF) as u8,
            hi == (c >> 8) as u8,
    ;
    lemma_crc_shift8_low_zero(v);
    assert(spec_crc16(s1) == hi as u16);
    let h = hi as u16;
    assert(h ^ (hi as u16) == 0u16 && 0u16 & 0xFF == 0 && 0u16 >> 8 == 0u16) by (bit_vector)
        requires
            h == hi as u16,
    ;
    lemma_crc_shift8_low_zero(0u16);
}

/// The checksum bytes that follow `payload` in a frame.
pub open spec fn checksum_bytes(alg: Option<ChecksumAlgorithm>, payload: Seq<u8>) -> Seq<u8> {
    match alg {
        None => Seq::empty(),
        Some(ChecksumAlgorithm::Xor8) => seq![spec_xor8(payload)],
        Some(ChecksumAlgorithm::Crc16Modbus) => seq![
            lo_byte(spec_crc16(payload)),
            hi_byte(spec_crc16(payload)),
        ],
    }
}

/// The frame that carries `payload` under `rule`.
pub open spec fn spec_build_frame(payload: Seq<u8>, rule: FrameRuleView) -> Seq<u8> {
    rule.header + payload + checksum_bytes(rule.checksum, payload) + rule.footer
}

/// Wraps `payload` into a frame: header, payload, checksum, footer.
pub fn build_frame(payload: &[u8], rule: &FrameRule) -> (frame: Vec<u8>)
    requires
        rule.header@.len() + payload@.len() + 2 + rule.footer@.len() <= usize::MAX,
    ensures
        frame@ == spec_build_frame(payload@, rule@),
{
    let mut frame: Vec<u8> = Vec::new();
    append_bytes(&mut frame, rule.header.as_slice());
    append_bytes(&mut frame, payload);
    let ghost before_checksum = frame@;
    match rule.checksum {
        Some(ChecksumAlgorithm::Xor8) => {
            frame.push(xor8(payload));
        },
        Some(ChecksumAlgorithm::Crc16Modbus) => {
            let crc = crc16_modbus(payload);
            frame.push((crc & 0xFF) as u8);
            frame.push((crc >> 8) as u8);
        },
        None => {},
    }
    assert(frame@ =~= before_checksum + checksum_bytes(rule.checksum, payload@));
    append_bytes(&mut frame, rule.footer.as_slice());
    frame
}

// ---------------------------------------------------------------------------
// Splitting a stream into frames
// ---------------------------------------------------------------------------

/// Consecutive chunks of exactly `n` bytes; a shorter tail is dropped.
pub open spec fn fixed_chunks(s: Seq<u8>, n: nat) -> Seq<Seq<u8>>
    decreases s.len(),
{
    if n == 0 || s.len() < n {
        Seq::empty()
    } else {
        seq![s.take(n as int)] + fixed_chunks(s.skip(n as int), n)
    }
}

/// `at` is the first offset where `f` occurs in `s`.
pub open spec fn is_first_occurrence(s: Seq<u8>, f: Seq<u8>, at: int) -> bool {
    &&& occurs_at(s, f, at)
    &&& forall|j: int| 0 <= j < at ==> !occurs_at(s, f, j)
}

/// Chunks that each end with the first following occurrence of the footer `f`;
/// bytes after the last footer are dropped. An empty footer yields the whole stream.
pub open spec fn footer_chunks(s: Seq<u8>, f: Seq<u8>) -> Seq<Seq<u8>>
    decreases s.len(),
{
    if f.len() == 0 {
        seq![s]
    } else if exists|at: int| is_first_occurrence(s, f, at) {
        let at = choose|at: int| is_first_occurrence(s, f, at);
        seq![s.take(at + f.len())] + footer_chunks(s.skip(at + f.len()), f)
    } else {
        Seq::empty()
    }
}

/// The raw chunks a stream is cut into under `rule`.
pub open spec fn stream_chunks(stream: Seq<u8>, rule: FrameRuleView) -> Seq<Seq<u8>> {
    match rule.fixed_length {
        Some(n) => fixed_chunks(stream, n as nat),
        None => footer_chunks(stream, rule.footer),
    }
}

/// The result of parsing one raw chunk under `rule`.
pub open spec fn spec_parse_frame(raw: Seq<u8>, rule: FrameRuleView) -> Result<
    ParsedFrameView,
    ProtocolError,
> {
    let h = rule.header.len();
    let f = rule.footer.len();
    if raw.len() < h + f {
        Err(ProtocolError::FrameTooShort)
    } else if raw.take(h as int) != rule.header {
        Err(ProtocolError::InvalidFrame)
    } else if raw.skip(raw.len() - f) != rule.footer {
        Err(ProtocolError::InvalidFrame)
    } else {
        let body = raw.subrange(h as int, raw.len() - f);
        match rule.checksum {
            None => Ok(ParsedFrameView { raw, payload: body }),
            Some(ChecksumAlgorithm::Xor8) => {
                if body.len() < 1 {
                    Err(ProtocolError::FrameTooShort)
                } else if spec_xor8(body.drop_last()) != body.last() {
                    Err(ProtocolError::ChecksumMismatch)
                } else {
                    Ok(ParsedFrameView { raw, payload: body.drop_last() })
                }
            },
            Some(ChecksumAlgorithm::Crc16Modbus) => {
                if body.len() < 2 {
                    Err(ProtocolError::FrameTooShort)
                } else {
                    let payload = body.take(body.len() - 2);
                    if spec_crc16(payload) != le_u16(body[body.len() - 2], body[body.len() - 1]) {
                        Err(ProtocolError::ChecksumMismatch)
                    } else {
                        Ok(ParsedFrameView { raw, payload })
                    }
                }
            },
        }
    }
}

/// Parses every chunk in order; the first chunk that fails decides the error.
pub open spec fn parse_all(chunks: Seq<Seq<u8>>, rule: FrameRuleView) -> Result<
    Seq<ParsedFrameView>,
    ProtocolError,
>
    decreases chunks.len(),
{
    if chunks.len() == 0 {
        Ok(Seq::empty())
    } else {
        match parse_all(chunks.drop_last(), rule) {
            Err(e) => Err(e),
            Ok(frames) => match spec_parse_frame(chunks.last(), rule) {
                Err(e) => Err(e),
                Ok(p) => Ok(frames.push(p)),
            },
        }
    }
}

/// An error in a prefix of the chunks is the error of all of them.
proof fn lemma_parse_all_keeps_error(
    chunks: Seq<Seq<u8>>,
    k: int,
    e: ProtocolError,
    rule: FrameRuleView,
)
    requires
        0 <= k <= chunks.len(),
        parse_all(chunks.take(k), rule) == Err::<Seq<ParsedFrameView>, _>(e),
    ensures
        parse_all(chunks, rule) == Err::<Seq<ParsedFrameView>, _>(e),
    decreases chunks.len() - k,
{
    if k == chunks.len() {
        assert(chunks.take(k) == chunks);
    } else {
        assert(chunks.take(k + 1).drop_last() == chunks.take(k));
        lemma_parse_all_keeps_error(chunks, k + 1, e, rule);
    }
}

/// The frames found in `stream` under `rule`.
pub open spec fn spec_split_frames(stream: Seq<u8>, rule: FrameRuleView) -> Result<
    Seq<ParsedFrameView>,
    ProtocolError,
> {
    parse_all(stream_chunks(stream, rule), rule)
}

/// Cuts `stream` into frames and checks each one against `rule`.
pub fn split_frames(stream: &[u8], rule: &FrameRule) -> (r: Result<Vec<ParsedFrame>, ProtocolError>)
    ensures
        match r {
            Ok(frames) => spec_split_frames(stream@, rule@) == Ok::<_, ProtocolError>(
                frames_view(frames@),
            ),
            Err(e) => spec_split_frames(stream@, rule@) == Err::<Seq<ParsedFrameView>, _>(e),
        },
{
    let chunks = match rule.fixed_length {
        Some(size) => split_by_fixed_length(stream, size),
        None => split_by_footer(stream, rule.footer.as_slice()),
    };
    let ghost cv = chunks_view(chunks@);
    assert(cv == stream_chunks(stream@, rule@));
    let mut out: Vec<ParsedFrame> = Vec::new();
    let mut i: usize = 0;
    assert(cv.take(0) =~= Seq::<Seq<u8>>::empty());
    assert(frames_view(out@) =~= Seq::<ParsedFrameView>::empty());
    while i < chunks.len()
        invariant
            i <= chunks.len(),
            cv == chunks_view(chunks@),
            cv == stream_chunks(stream@, rule@),
            parse_all(cv.take(i as int), rule@) == Ok::<_, ProtocolError>(frames_view(out@)),
        decreases chunks.len() - i,
    {
        assert(cv.take(i as int + 1).drop_last() == cv.take(i as int));
        assert(cv.take(i as int + 1).last() == chunks@[i as int]@);
        match parse_single_frame(chunks[i].as_slice(), rule) {
            Ok(p) => {
                let ghost before = out@;
                out.push(p);
                assert(frames_view(out@) =~= frames_view(before).push(p@));
            },
            Err(e) => {
                proof {
                    assert(parse_all(cv.take(i as int + 1), rule@) == Err::<
                        Seq<ParsedFrameView>,
                        _,
                    >(e));
                    lemma_parse_all_keeps_error(cv, i as int + 1, e, rule@);
                }
                return Err(e);
            },
        }
        i += 1;
    }
    assert(cv.take(chunks.len() as int) == cv);
    Ok(out)
}

/// Cuts `stream` into consecutive chunks of `size` bytes.
fn split_by_fixed_length(stream: &[u8], size: usize) -> (out: Vec<Vec<u8>>)
    ensures
        chunks_view(out@) == fixed_chunks(stream@, size as nat),
{
    let mut out: Vec<Vec<u8>> = Vec::new();
    if size == 0 {
        assert(chunks_view(out@) =~= Seq::<Seq<u8>>::empty());
        return out;
    }
    let ghost n = size as nat;
    let mut start: usize = 0;
    assert(stream@.skip(0) =~= stream@);
    assert(chunks_view(out@) + fixed_chunks(stream@, n) =~= fixed_chunks(stream@, n));
    while size <= stream.len() - start
        invariant
            start <= stream.len(),
            size > 0,
            n == size as nat,
            chunks_view(out@) + fixed_chunks(stream@.skip(start as int), n) == fixed_chunks(
                stream@,
                n,
            ),
        decreases stream.len() - start,
    {
        let ghost rest = stream@.skip(start as int);
        let ghost before = chunks_view(out@);
        let chunk = copy_range(stream, start, start + size);
        assert(chunk@ =~= rest.take(size as int));
        assert(rest.skip(size as int) =~= stream@.skip(start + size));
        out.push(chunk);
        assert(chunks_view(out@) =~= before.push(chunk@));
        start = start + size;
        let ghost tail = fixed_chunks(stream@.skip(start as int), n);
        assert(fixed_chunks(rest, n) == seq![chunk@] + tail);
        assert(before + (seq![chunk@] + tail) =~= before.push(chunk@) + tail);
    }
    assert(fixed_chunks(stream@.skip(start as int), n) == Seq::<Seq<u8>>::empty());
    assert(chunks_view(out@) + Seq::<Seq<u8>>::empty() =~= chunks_view(out@));
    out
}

/// Offsets in a suffix correspond to shifted offsets in the whole sequence.
proof fn lemma_occurs_in_suffix(s: Seq<u8>, f: Seq<u8>, start: int, j: int)
    requires
        0 <= start <= s.len(),
        0 <= j,
    ensures
        occurs_at(s.skip(start), f, j) <==> occurs_at(s, f, j + start),
{
    if 0 <= j && j + f.len() <= s.len() - start {
        assert(s.skip(start).subrange(j, j + f.len()) =~= s.subrange(j + start, j + start + f.len()));
    }
}

/// The first occurrence of the footer closes the first chunk.
proof fn lemma_footer_chunks_step(s: Seq<u8>, f: Seq<u8>, at: int)
    requires
        f.len() > 0,
        is_first_occurrence(s, f, at),
    ensures
        footer_chunks(s, f) == seq![s.take(at + f.len())] + footer_chunks(s.skip(at + f.len()), f),
{
    let c = choose|x: int| is_first_occurrence(s, f, x);
    assert(is_first_occurrence(s, f, c));
    if c < at {
        assert(!occurs_at(s, f, c));
    }
    if c > at {
        assert(!occurs_at(s, f, at));
    }
    assert(c == at);
}

/// Without any occurrence of the footer there is no chunk.
proof fn lemma_footer_chunks_none(s: Seq<u8>, f: Seq<u8>)
    requires
        f.len() > 0,
        forall|j: int| !occurs_at(s, f, j),
    ensures
        footer_chunks(s, f) == Seq::<Seq<u8>>::empty(),
{
    assert(!exists|at: int| is_first_occurrence(s, f, at));
}

/// Cuts `stream` after each occurrence of `footer`.
fn split_by_footer(stream: &[u8], footer: &[u8]) -> (out: Vec<Vec<u8>>)
    ensures
        chunks_view(out@) == footer_chunks(stream@, footer@),
{
    let mut out: Vec<Vec<u8>> = Vec::new();
    if footer.len() == 0 {
        let whole = copy_range(stream, 0, stream.len());
        assert(whole@ =~= stream@);
        out.push(whole);
        assert(chunks_view(out@) =~= seq![stream@]);
        return out;
    }
    let ghost f = footer@;
    let mut start: usize = 0;
    let mut i: usize = 0;
    assert(stream@.skip(0) =~= stream@);
    assert(chunks_view(out@) + footer_chunks(stream@, f) =~= footer_chunks(stream@, f));
    while footer.len() <= stream.len() - i
        invariant
            start <= i <= stream.len(),
            f.len() > 0,
            f == footer@,
            chunks_view(out@) + footer_chunks(stream@.skip(start as int), f) == footer_chunks(
                stream@,
                f,
            ),
            forall|j: int| start <= j < i ==> !occurs_at(stream@, f, j),
        decreases stream.len() - i,
    {
        if window_equals(stream, i, footer) {
            let end = i + footer.len();
            let ghost rest = stream@.skip(start as int);
            let ghost at = i - start;
            proof {
                lemma_occurs_in_suffix(stream@, f, start as int, at);
                assert forall|j: int| 0 <= j < at implies !occurs_at(rest, f, j) by {
                    lemma_occurs_in_suffix(stream@, f, start as int, j);
                }
                lemma_footer_chunks_step(rest, f, at);
            }
            let ghost before = chunks_view(out@);
            let chunk = copy_range(stream, start, end);
            assert(chunk@ =~= rest.take(at + f.len()));
            assert(rest.skip(at + f.len()) =~= stream@.skip(end as int));
            out.push(chunk);
            assert(chunks_view(out@) =~= before.push(chunk@));
            let ghost tail = footer_chunks(stream@.skip(end as int), f);
            assert(before + (seq![chunk@] + tail) =~= before.push(chunk@) + tail);
            start = end;
            i = end;
        } else {
            i += 1;
        }
    }
    proof {
        let rest = stream@.skip(start as int);
        assert forall|j: int| !occurs_at(rest, f, j) by {
            if 0 <= j {
                lemma_occurs_in_suffix(stream@, f, start as int, j);
            }
        }
        lemma_footer_chunks_none(rest, f);
        assert(chunks_view(out@) + Seq::<Seq<u8>>::empty() =~= chunks_view(out@));
    }
    out
}

/// Checks one raw chunk against `rule` and strips header, footer and checksum.
fn parse_single_frame(raw: &[u8], rule: &FrameRule) -> (r: Result<ParsedFrame, ProtocolError>)
    ensures
        match r {
            Ok(p) => spec_parse_frame(raw@, rule@) == Ok::<_, ProtocolError>(p@),
            Err(e) => spec_parse_frame(raw@, rule@) == Err::<ParsedFrameView, _>(e),
        },
{
    let h = rule.header.len();
    let f = rule.footer.len();
    if raw.len() < h || raw.len() - h < f {
        return Err(ProtocolError::FrameTooShort);
    }
    if h > 0 && !window_equals(raw, 0, rule.header.as_slice()) {
        return Err(ProtocolError::InvalidFrame);
    }
    assert(raw@.take(h as int) =~= rule.header@);
    if f > 0 && !window_equals(raw, raw.len() - f, rule.footer.as_slice()) {
        assert(raw@.skip(raw.len() - f) =~= raw@.subrange(raw.len() - f, raw.len() - f + f));
        return Err(ProtocolError::InvalidFrame);
    }
    assert(raw@.skip(raw.len() - f) =~= rule.footer@);
    let start = h;
    let end = raw.len() - f;
    let mut body = copy_range(raw, start, end);
    let ghost body0 = body@;
    let payload = match rule.checksum {
        None => body,
        Some(ChecksumAlgorithm::Xor8) => {
            if body.len() < 1 {
                return Err(ProtocolError::FrameTooShort);
            }
            let checksum = match body.pop() {
                Some(b) => b,
                None => {
                    return Err(ProtocolError::FrameTooShort);
                },
            };
            assert(body@ =~= body0.drop_last());
            if xor8(body.as_slice()) != checksum {
                return Err(ProtocolError::ChecksumMismatch);
            }
            body
        },
        Some(ChecksumAlgorithm::Crc16Modbus) => {
            if body.len() < 2 {
                return Err(ProtocolError::FrameTooShort);
            }
            let hi = match body.pop() {
                Some(b) => b,
                None => {
                    return Err(ProtocolError::FrameTooShort);
                },
            };
            let lo = match body.pop() {
                Some(b) => b,
                None => {
                    return Err(ProtocolError::FrameTooShort);
                },
            };
            assert(body@ =~= body0.take(body0.len() - 2));
            let expected: u16 = ((hi as u16) << 8) | (lo as u16);
            if crc16_modbus(body.as_slice()) != expected {
                return Err(ProtocolError::ChecksumMismatch);
            }
            body
        },
    };
    let whole = copy_range(raw, 0, raw.len());
    assert(whole@ =~= raw@);
    Ok(ParsedFrame { raw: whole, payload })
}

/// A frame that `split_frames` can cut out whole: with a fixed length, that
/// length is the frame's; otherwise the footer is empty or first occurs at the end.
pub open spec fn cut_whole(frame: Seq<u8>, rule: FrameRuleView) -> bool {
    match rule.fixed_length {
        Some(n) => n > 0 && n == frame.len(),
        None => rule.footer.len() == 0 || is_first_occurrence(
            frame,
            rule.footer,
            frame.len() - rule.footer.len(),
        ),
    }
}

/// A built frame parses back to its payload.
pub proof fn lemma_parse_built_frame(payload: Seq<u8>, rule: FrameRuleView)
    ensures
        spec_parse_frame(spec_build_frame(payload, rule), rule) == Ok::<_, ProtocolError>(
            ParsedFrameView { raw: spec_build_frame(payload, rule), payload },
        ),
{
    let frame = spec_build_frame(payload, rule);
    let h = rule.header.len();
    let f = rule.footer.len();
    let cs = checksum_bytes(rule.checksum, payload);
    assert(frame.take(h as int) =~= rule.header);
    assert(frame.skip(frame.len() - f) =~= rule.footer);
    let body = frame.subrange(h as int, frame.len() - f);
    assert(body =~= payload + cs);
    match rule.checksum {
        None => {},
        Some(ChecksumAlgorithm::Xor8) => {
            assert(body.drop_last() =~= payload);
        },
        Some(ChecksumAlgorithm::Crc16Modbus) => {
            assert(body.take(body.len() - 2) =~= payload);
            lemma_u16_bytes(spec_crc16(payload));
        },
    }
}

/// Splitting a stream that holds exactly one built frame, cut whole, yields that
/// frame with its payload.
pub proof fn law_split_built_frame(payload: Seq<u8>, rule: FrameRuleView)
    requires
        cut_whole(spec_build_frame(payload, rule), rule),
    ensures
        spec_split_frames(spec_build_frame(payload, rule), rule) == Ok::<_, ProtocolError>(
            seq![ParsedFrameView { raw: spec_build_frame(payload, rule), payload }],
        ),
{
    let frame = spec_build_frame(payload, rule);
    let f = rule.footer;
    match rule.fixed_length {
        Some(n) => {
            assert(frame.take(n as int) =~= frame);
            assert(frame.skip(n as int).len() == 0);
            assert(fixed_chunks(frame.skip(n as int), n as nat) == Seq::<Seq<u8>>::empty());
            assert(stream_chunks(frame, rule) =~= seq![frame]);
        },
        None => {
            if f.len() > 0 {
                lemma_footer_chunks_step(frame, f, frame.len() - f.len());
                assert(frame.take(frame.len() as int) =~= frame);
                lemma_footer_chunks_none(frame.skip(frame.len() as int), f);
                assert(stream_chunks(frame, rule) =~= seq![frame]);
            }
        },
    }
    lemma_parse_built_frame(payload, rule);
    let chunks = stream_chunks(frame, rule);
    assert(chunks =~= seq![frame]);
    assert(chunks.drop_last() =~= Seq::<Seq<u8>>::empty());
    assert(parse_all(chunks.drop_last(), rule) == Ok::<_, ProtocolError>(
        Seq::<ParsedFrameView>::empty(),
    ));
    assert(chunks.last() == frame);
    assert(Seq::<ParsedFrameView>::empty().push(ParsedFrameView { raw: frame, payload }) =~= seq![
        ParsedFrameView { raw: frame, payload },
    ]);
}

/// A frame that parses is the frame built from its payload.
pub proof fn law_parsed_frame_rebuilds(raw: Seq<u8>, rule: FrameRuleView)
    requires
        spec_parse_frame(raw, rule) is Ok,
    ensures
        spec_build_frame(spec_parse_frame(raw, rule)->Ok_0.payload, rule) == raw,
{
    let h = rule.header.len();
    let f = rule.footer.len();
    let body = raw.subrange(h as int, raw.len() - f);
    let payload = spec_parse_frame(raw, rule)->Ok_0.payload;
    match rule.checksum {
        None => {},
        Some(ChecksumAlgorithm::Xor8) => {
            assert(body =~= body.drop_last().push(body.last()));
        },
        Some(ChecksumAlgorithm::Crc16Modbus) => {
            let lo = body[body.len() - 2];
            let hi = body[body.len() - 1];
            assert(lo_byte(le_u16(lo, hi)) == lo && hi_byte(le_u16(lo, hi)) == hi) by (bit_vector);
            assert(body =~= payload + seq![lo, hi]);
        },
    }
    assert(raw =~= rule.header + body + rule.footer);
}

/// Every frame that parsing a list of chunks yields rebuilds its raw bytes.
proof fn lemma_parse_all_rebuilds(chunks: Seq<Seq<u8>>, rule: FrameRuleView)
    ensures
        parse_all(chunks, rule) matches Ok(frames) ==> forall|i: int|
            0 <= i < frames.len() ==> spec_build_frame(#[trigger] frames[i].payload, rule)
                == frames[i].raw,
    decreases chunks.len(),
{
    if chunks.len() > 0 {
        lemma_parse_all_rebuilds(chunks.drop_last(), rule);
        if let Ok(frames) = parse_all(chunks, rule) {
            let prev = parse_all(chunks.drop_last(), rule)->Ok_0;
            law_parsed_frame_rebuilds(chunks.last(), rule);
            assert forall|i: int| 0 <= i < frames.len() implies spec_build_frame(
                #[trigger] frames[i].payload,
                rule,
            ) == frames[i].raw by {
                if i < prev.len() {
                    assert(frames[i] == prev[i]);
                }
            }
        }
    }
}

/// Every frame that `split_frames` finds is the frame built from its payload.
pub proof fn law_split_frames_rebuild(stream: Seq<u8>, rule: FrameRuleView)
    ensures
        spec_split_frames(stream, rule) matches Ok(frames) ==> forall|i: int|
            0 <= i < frames.len() ==> spec_build_frame(#[trigger] frames[i].payload, rule)
                == frames[i].raw,
{
    lemma_parse_all_rebuilds(stream_chunks(stream, rule), rule);
}

/// The raw bytes of each frame, in order.
pub open spec fn frame_raws(frames: Seq<ParsedFrameView>) -> Seq<Seq<u8>> {
    frames.map_values(|f: ParsedFrameView| f.raw)
}

/// The frames that parsing a list of chunks yields carry those chunks as raw bytes.
proof fn lemma_parse_all_raws(chunks: Seq<Seq<u8>>, rule: FrameRuleView)
    ensures
        parse_all(chunks, rule) matches Ok(frames) ==> frame_raws(frames) == chunks,
    decreases chunks.len(),
{
    if chunks.len() == 0 {
        if let Ok(frames) = parse_all(chunks, rule) {
            assert(frame_raws(frames) =~= chunks);
        }
    } else {
        lemma_parse_all_raws(chunks.drop_last(), rule);
        if let Ok(frames) = parse_all(chunks, rule) {
            let prev = parse_all(chunks.drop_last(), rule)->Ok_0;
            let p = spec_parse_frame(chunks.last(), rule)->Ok_0;
            assert(frames == prev.push(p));
            assert(p.raw == chunks.last());
            assert forall|i: int| 0 <= i < chunks.len() implies #[trigger] frame_raws(frames)[i]
                == chunks[i] by {
                if i < chunks.len() - 1 {
                    assert(frames[i] == prev[i]);
                    assert(frame_raws(prev)[i] == chunks.drop_last()[i]);
                }
            }
            assert(frame_raws(frames) =~= chunks);
        }
    }
}

/// Fixed-length chunks laid end to end are a prefix of the stream, and there are
/// as many as whole lengths fit in it.
proof fn lemma_fixed_chunks_prefix(s: Seq<u8>, n: nat)
    ensures
        fixed_chunks(s, n).flatten().is_prefix_of(s),
        n > 0 ==> fixed_chunks(s, n).len() == s.len() / n,
    decreases s.len(),
{
    let c = fixed_chunks(s, n);
    if n == 0 || s.len() < n {
        if n > 0 {
            vstd::arithmetic::div_mod::lemma_basic_div(s.len() as int, n as int);
        }
        assert(c.flatten() =~= s.subrange(0, 0));
    } else {
        let rest = s.skip(n as int);
        lemma_fixed_chunks_prefix(rest, n);
        let fr = fixed_chunks(rest, n).flatten();
        assert(c.first() == s.take(n as int));
        assert(c.drop_first() =~= fixed_chunks(rest, n));
        assert(fr =~= rest.subrange(0, fr.len() as int));
        assert(c.flatten() =~= s.subrange(0, (n + fr.len()) as int));
        vstd::arithmetic::div_mod::lemma_div_plus_one(s.len() - n, n as int);
    }
}

/// Footer-ended chunks laid end to end are a prefix of the stream.
proof fn lemma_footer_chunks_prefix(s: Seq<u8>, f: Seq<u8>)
    ensures
        footer_chunks(s, f).flatten().is_prefix_of(s),
    decreases s.len(),
{
    let c = footer_chunks(s, f);
    if f.len() == 0 {
        assert(c.first() == s);
        assert(c.drop_first().len() == 0);
        assert(c.drop_first().flatten() =~= Seq::<u8>::empty());
        assert(c.flatten() =~= s);
        assert(s.subrange(0, s.len() as int) =~= s);
    } else if exists|at: int| is_first_occurrence(s, f, at) {
        let at = choose|at: int| is_first_occurrence(s, f, at);
        let cut = at + f.len();
        let rest = s.skip(cut);
        lemma_footer_chunks_prefix(rest, f);
        let fr = footer_chunks(rest, f).flatten();
        assert(c.first() == s.take(cut));
        assert(c.drop_first() =~= footer_chunks(rest, f));
        assert(fr =~= rest.subrange(0, fr.len() as int));
        assert(c.flatten() =~= s.subrange(0, cut + fr.len()));
    } else {
        assert(c.flatten() =~= s.subrange(0, 0));
    }
}

/// The frames that `split_frames` finds, laid end to end, are a prefix of the
/// stream; with a fixed frame length, there is one frame for every whole length
/// in the stream.
pub proof fn law_split_frames_prefix(stream: Seq<u8>, rule: FrameRuleView)
    ensures
        spec_split_frames(stream, rule) matches Ok(frames) ==> frame_raws(
            frames,
        ).flatten().is_prefix_of(stream),
        spec_split_frames(stream, rule) matches Ok(frames) ==> (rule.fixed_length matches Some(n)
            ==> (n > 0 ==> frames.len() == stream.len() / (n as nat))),
{
    let chunks = stream_chunks(stream, rule);
    lemma_parse_all_raws(chunks, rule);
    match rule.fixed_length {
        Some(n) => lemma_fixed_chunks_prefix(stream, n as nat),
        None => lemma_footer_chunks_prefix(stream, rule.footer),
    }
    if let Ok(frames) = spec_split_frames(stream, rule) {
        assert(frame_raws(frames).len() == frames.len());
    }
}

// ---------------------------------------------------------------------------
// Modbus RTU
// ---------------------------------------------------------------------------

/// Modbus function codes in use.
#[derive(Debug, Clone, Copy, PartialEq, Eq, Structural)]
pub enum ModbusFunction {
    ReadHoldingRegisters,
    WriteSingleRegister,
}

/// The code of each Modbus function.
pub open spec fn spec_function_code(f: ModbusFunction) -> u8 {
    match f {
        ModbusFunction::ReadHoldingRegisters => 0x03,
        ModbusFunction::WriteSingleRegister => 0x06,
    }
}

impl ModbusFunction {
    /// The function code on the wire.
    pub fn code(self) -> (c: u8)
        ensures
            c == spec_function_code(self),
    {
        match self {
            ModbusFunction::ReadHoldingRegisters => 0x03,
            ModbusFunction::WriteSingleRegister => 0x06,
        }
    }
}

/// A decoded Modbus RTU packet.
#[derive(Debug, Clone, PartialEq, Eq)]
pub struct ModbusRtuPacket {
    /// Slave address.
    pub slave: u8,
    /// Function code.
    pub function: u8,
    /// Function data, CRC excluded.
    pub data: Vec<u8>,
}

/// Mathematical model of a [`ModbusRtuPacket`].
pub struct ModbusRtuPacketView {
    pub slave: u8,
    pub function: u8,
    pub data: Seq<u8>,
}

impl View for ModbusRtuPacket {
    type V = ModbusRtuPacketView;

    open spec fn view(&self) -> ModbusRtuPacketView {
        ModbusRtuPacketView { slave: self.slave, function: self.function, data: self.data@ }
    }
}

/// The packet that a Modbus RTU frame carries.
pub open spec fn spec_parse_modbus_rtu(frame: Seq<u8>) -> Result<ModbusRtuPacketView, ProtocolError> {
    if frame.len() < 4 {
        Err(ProtocolError::InvalidModbus)
    } else {
        let body = frame.take(frame.len() - 2);
        if spec_crc16(body) != le_u16(frame[frame.len() - 2], frame[frame.len() - 1]) {
            Err(ProtocolError::ChecksumMismatch)
        } else {
            Ok(ModbusRtuPacketView { slave: body[0], function: body[1], data: body.skip(2) })
        }
    }
}

/// Decodes a Modbus RTU frame: slave, function, data, CRC (low byte first).
pub fn parse_modbus_rtu(frame: &[u8]) -> (r: Result<ModbusRtuPacket, ProtocolError>)
    ensures
        match r {
            Ok(p) => spec_parse_modbus_rtu(frame@) == Ok::<_, ProtocolError>(p@),
            Err(e) => spec_parse_modbus_rtu(frame@) == Err::<ModbusRtuPacketView, _>(e),
        },
{
    if frame.len() < 4 {
        return Err(ProtocolError::InvalidModbus);
    }
    let body_len = frame.len() - 2;
    let crc: u16 = ((frame[frame.len() - 1] as u16) << 8) | (frame[frame.len() - 2] as u16);
    let body = copy_range(frame, 0, body_len);
    assert(body@ =~= frame@.take(body_len as int));
    if crc16_modbus(body.as_slice()) != crc {
        return Err(ProtocolError::ChecksumMismatch);
    }
    let data = copy_range(frame, 2, body_len);
    assert(data@ =~= body@.skip(2));
    Ok(ModbusRtuPacket { slave: frame[0], function: frame[1], data })
}

/// The six body bytes of a "read holding registers" request.
pub open spec fn read_request_body(slave: u8, start_addr: u16, quantity: u16) -> Seq<u8> {
    seq![
        slave,
        spec_function_code(ModbusFunction::ReadHoldingRegisters),
        hi_byte(start_addr),
        lo_byte(start_addr),
        hi_byte(quantity),
        lo_byte(quantity),
    ]
}

/// The full request frame: body followed by its CRC, low byte first.
pub open spec fn spec_read_request(slave: u8, start_addr: u16, quantity: u16) -> Seq<u8> {
    let body = read_request_body(slave, start_addr, quantity);
    body + seq![lo_byte(spec_crc16(body)), hi_byte(spec_crc16(body))]
}

/// Builds a "read holding registers" (0x03) request frame.
pub fn build_modbus_read_holding_registers(slave: u8, start_addr: u16, quantity: u16) -> (frame: Vec<
    u8,
>)
    ensures
        frame@ == spec_read_request(slave, start_addr, quantity),
{
    let mut body: Vec<u8> = Vec::with_capacity(6);
    body.push(slave);
    body.push(ModbusFunction::ReadHoldingRegisters.code());
    body.push((start_addr >> 8) as u8);
    body.push((start_addr & 0xFF) as u8);
    body.push((quantity >> 8) as u8);
    body.push((quantity & 0xFF) as u8);
    assert(body@ =~= read_request_body(slave, start_addr, quantity));
    let crc = crc16_modbus(body.as_slice());
    body.push((crc & 0xFF) as u8);
    body.push((crc >> 8) as u8);
    assert(body@ =~= spec_read_request(slave, start_addr, quantity));
    body
}

/// A built read request decodes to its slave, function 0x03 and the four
/// address and quantity bytes, high byte first.
pub proof fn law_read_request_roundtrip(slave: u8, start_addr: u16, quantity: u16)
    ensures
        spec_parse_modbus_rtu(spec_read_request(slave, start_addr, quantity)) == Ok::<
            _,
            ProtocolError,
        >(
            ModbusRtuPacketView {
                slave,
                function: 0x03,
                data: seq![
                    hi_byte(start_addr),
                    lo_byte(start_addr),
                    hi_byte(quantity),
                    lo_byte(quantity),
                ],
            },
        ),
{
    let body = read_request_body(slave, start_addr, quantity);
    let frame = spec_read_request(slave, start_addr, quantity);
    assert(frame.take(6) =~= body);
    lemma_u16_bytes(spec_crc16(body));
    assert(body.skip(2) =~= seq![
        hi_byte(start_addr),
        lo_byte(start_addr),
        hi_byte(quantity),
        lo_byte(quantity),
    ]);
}

} // verus!
