use vstd::prelude::*;

use std::collections::VecDeque;

use crate::bytes::append_bytes;
use crate::text::{push_str, string_of};

verus! {

/// How received text is shown.
#[derive(Debug, Clone, Copy, PartialEq, Eq, Structural)]
pub enum EncodingMode {
    Ascii,
    Utf8,
    Hex,
}

/// Serial parity bit.
#[derive(Debug, Clone, Copy, PartialEq, Eq, Structural)]
pub enum Parity {
    NoParity,
    Odd,
    Even,
}

/// Serial flow control.
#[derive(Debug, Clone, Copy, PartialEq, Eq, Structural)]
pub enum FlowControl {
    NoFlowControl,
    Software,
    Hardware,
}

/// Parameters for opening a serial session.
#[derive(Debug, Clone, PartialEq, Eq)]
pub struct SerialOpenConfig {
    /// Target, e.g. `COM3`, `/dev/ttyUSB0` or `tcp://127.0.0.1:9000`.
    pub endpoint: String,
    /// Baud rate.
    pub baud_rate: u32,
    /// Data bits.
    pub data_bits: u8,
    /// Stop bits.
    pub stop_bits: u8,
    /// Parity.
    pub parity: Parity,
    /// Flow control.
    pub flow_control: FlowControl,
    /// Display encoding.
    pub encoding: EncodingMode,
    /// Whether a closed transport is reopened on receive.
    pub auto_reconnect: bool,
}

/// Mathematical model of a [`SerialOpenConfig`].
pub struct SerialOpenConfigView {
    pub endpoint: Seq<char>,
    pub baud_rate: u32,
    pub data_bits: u8,
    pub stop_bits: u8,
    pub parity: Parity,
    pub flow_control: FlowControl,
    pub encoding: EncodingMode,
    pub auto_reconnect: bool,
}

impl View for SerialOpenConfig {
    type V = SerialOpenConfigView;

    open spec fn view(&self) -> SerialOpenConfigView {
        SerialOpenConfigView {
            endpoint: self.endpoint@,
            baud_rate: self.baud_rate,
            data_bits: self.data_bits,
            stop_bits: self.stop_bits,
            parity: self.parity,
            flow_control: self.flow_control,
            encoding: self.encoding,
            auto_reconnect: self.auto_reconnect,
        }
    }
}

impl SerialOpenConfig {
    /// A copy of the configuration.
    pub fn duplicate(&self) -> (c: Self)
        ensures
            c@ == self@,
    {
        SerialOpenConfig {
            endpoint: self.endpoint.clone(),
            baud_rate: self.baud_rate,
            data_bits: self.data_bits,
            stop_bits: self.stop_bits,
            parity: self.parity,
            flow_control: self.flow_control,
            encoding: self.encoding,
            auto_reconnect: self.auto_reconnect,
        }
    }
}

impl Default for SerialOpenConfig {
    fn default() -> (c: Self)
        ensures
            c.endpoint@ == "loopback"@,
            c.baud_rate == 115_200,
            c.data_bits == 8,
            c.stop_bits == 1,
            c.parity == Parity::NoParity,
            c.flow_control == FlowControl::NoFlowControl,
            c.encoding == EncodingMode::Utf8,
            c.auto_reconnect,
    {
        SerialOpenConfig {
            endpoint: String::from_str("loopback"),
            baud_rate: 115_200,
            data_bits: 8,
            stop_bits: 1,
            parity: Parity::NoParity,
            flow_control: FlowControl::NoFlowControl,
            encoding: EncodingMode::Utf8,
            auto_reconnect: true,
        }
    }
}

/// Summary of one session.
#[derive(Debug, Clone, PartialEq, Eq)]
pub struct SessionInfo {
    /// Session id.
    pub session_id: String,
    /// Session configuration.
    pub config: SerialOpenConfig,
    /// Whether the transport is open.
    pub connected: bool,
    /// How often the session reconnected.
    pub reconnect_count: u32,
}

/// Why a session operation failed.
#[derive(Debug, Clone)]
pub enum SerialError {
    AlreadyOpen(String),
    NotFound(String),
    NotOpen(String),
    Io(String),
}

/// Mathematical model of a [`SerialError`].
pub enum SerialErrorView {
    AlreadyOpen(Seq<char>),
    NotFound(Seq<char>),
    NotOpen(Seq<char>),
    Io(Seq<char>),
}

impl View for SerialError {
    type V = SerialErrorView;

    open spec fn view(&self) -> SerialErrorView {
        match self {
            SerialError::AlreadyOpen(s) => SerialErrorView::AlreadyOpen(s@),
            SerialError::NotFound(s) => SerialErrorView::NotFound(s@),
            SerialError::NotOpen(s) => SerialErrorView::NotOpen(s@),
            SerialError::Io(s) => SerialErrorView::Io(s@),
        }
    }
}

/// The message of each serial error.
pub open spec fn serial_error_message(e: SerialErrorView) -> Seq<char> {
    match e {
        SerialErrorView::AlreadyOpen(id) => "session already open: "@ + id,
        SerialErrorView::NotFound(id) => "session not found: "@ + id,
        SerialErrorView::NotOpen(id) => "session not open: "@ + id,
        SerialErrorView::Io(msg) => "io error: "@ + msg,
    }
}

impl SerialError {
    /// Human-readable description of the error.
    pub fn message(&self) -> (s: String)
        ensures
            s@ == serial_error_message(self@),
    {
        let mut out: Vec<char> = Vec::new();
        match self {
            SerialError::AlreadyOpen(id) => {
                push_str(&mut out, "session already open: ");
                push_str(&mut out, id.as_str());
            },
            SerialError::NotFound(id) => {
                push_str(&mut out, "session not found: ");
                push_str(&mut out, id.as_str());
            },
            SerialError::NotOpen(id) => {
                push_str(&mut out, "session not open: ");
                push_str(&mut out, id.as_str());
            },
            SerialError::Io(msg) => {
                push_str(&mut out, "io error: ");
                push_str(&mut out, msg.as_str());
            },
        }
        string_of(out.as_slice())
    }
}

/// What a `Result<(), SerialError>` says, by view.
pub open spec fn unit_outcome(r: Result<(), SerialError>) -> Result<(), SerialErrorView> {
    match r {
        Ok(()) => Ok(()),
        Err(e) => Err(e@),
    }
}

/// What a `Result<Vec<u8>, SerialError>` says, by view.
pub open spec fn bytes_outcome(r: Result<Vec<u8>, SerialError>) -> Result<Seq<u8>, SerialErrorView> {
    match r {
        Ok(data) => Ok(data@),
        Err(e) => Err(e@),
    }
}

/// A byte transport behind a session; real serial ports implement it too.
///
/// Each operation is described by a relation between the transport before the
/// call, the transport after it, what was handed in and what came back. An
/// implementation states its own relations; one that states nothing keeps the
/// defaults, which allow every outcome.
pub trait Transport {
    /// Whether the transport is open.
    spec fn spec_is_open(&self) -> bool;

    /// `open` with `config` may turn `self` into `after` and answer `r`.
    open spec fn open_post(
        &self,
        after: &Self,
        config: SerialOpenConfigView,
        r: Result<(), SerialErrorView>,
    ) -> bool {
        true
    }

    /// `close` may turn `self` into `after` and answer `r`.
    open spec fn close_post(&self, after: &Self, r: Result<(), SerialErrorView>) -> bool {
        true
    }

    /// `send` of `payload` may turn `self` into `after` and answer `r`.
    open spec fn send_post(
        &self,
        after: &Self,
        payload: Seq<u8>,
        r: Result<(), SerialErrorView>,
    ) -> bool {
        true
    }

    /// `receive` may turn `self` into `after` and answer `r`.
    open spec fn receive_post(&self, after: &Self, r: Result<Seq<u8>, SerialErrorView>) -> bool {
        true
    }

    fn open(&mut self, config: &SerialOpenConfig) -> (r: Result<(), SerialError>)
        ensures
            old(self).open_post(&*final(self), config@, unit_outcome(r)),
            r is Ok ==> final(self).spec_is_open(),
    ;

    fn close(&mut self) -> (r: Result<(), SerialError>)
        ensures
            old(self).close_post(&*final(self), unit_outcome(r)),
            r is Ok ==> !final(self).spec_is_open(),
    ;

    fn send(&mut self, payload: &[u8]) -> (r: Result<(), SerialError>)
        ensures
            old(self).send_post(&*final(self), payload@, unit_outcome(r)),
    ;

    fn receive(&mut self) -> (r: Result<Vec<u8>, SerialError>)
        ensures
            old(self).receive_post(&*final(self), bytes_outcome(r)),
    ;

    fn is_open(&self) -> (b: bool)
        ensures
            b == self.spec_is_open(),
    ;
}

/// An in-memory transport for tests and offline work.
#[derive(Debug)]
pub struct MemoryTransport {
    /// Whether the transport is open.
    opened: bool,
    /// Bytes waiting to be received.
    inbound: VecDeque<u8>,
    /// Bytes sent so far.
    outbound: Vec<u8>,
}

impl MemoryTransport {
    /// Whether the transport is open.
    pub closed spec fn opened(&self) -> bool {
        self.opened
    }

    /// Bytes waiting to be received.
    pub closed spec fn inbound(&self) -> Seq<u8> {
        self.inbound@
    }

    /// Bytes sent and not yet taken.
    pub closed spec fn outbound(&self) -> Seq<u8> {
        self.outbound@
    }

    /// A closed transport with nothing buffered.
    pub fn new() -> (t: Self)
        ensures
            !t.opened(),
            t.inbound() == Seq::<u8>::empty(),
            t.outbound() == Seq::<u8>::empty(),
    {
        MemoryTransport { opened: false, inbound: VecDeque::new(), outbound: Vec::new() }
    }

    /// Queues bytes as if the device had sent them.
    pub fn push_inbound(&mut self, data: &[u8])
        ensures
            final(self).opened() == old(self).opened(),
            final(self).inbound() == old(self).inbound() + data@,
            final(self).outbound() == old(self).outbound(),
    {
        let ghost before = self.inbound@;
        let mut i: usize = 0;
        while i < data.len()
            invariant
                i <= data.len(),
                self.inbound@ == before + data@.take(i as int),
                self.opened == old(self).opened,
                self.outbound@ == old(self).outbound@,
            decreases data.len() - i,
        {
            self.inbound.push_back(data[i]);
            assert(data@.take(i + 1int) =~= data@.take(i as int).push(data[i as int]));
            i += 1;
        }
        assert(data@.take(data.len() as int) =~= data@);
    }

    /// Hands out everything sent so far and forgets it.
    pub fn take_outbound(&mut self) -> (out: Vec<u8>)
        ensures
            out@ == old(self).outbound(),
            final(self).opened() == old(self).opened(),
            final(self).inbound() == old(self).inbound(),
            final(self).outbound() == Seq::<u8>::empty(),
    {
        let mut out: Vec<u8> = Vec::new();
        std::mem::swap(&mut out, &mut self.outbound);
        out
    }
}

impl Default for MemoryTransport {
    fn default() -> (t: Self)
        ensures
            !t.opened(),
            t.inbound() == Seq::<u8>::empty(),
            t.outbound() == Seq::<u8>::empty(),
    {
        MemoryTransport::new()
    }
}

/// The error a closed memory transport answers with.
pub open spec fn transport_closed() -> SerialErrorView {
    SerialErrorView::Io("transport closed"@)
}

impl Transport for MemoryTransport {
    open spec fn spec_is_open(&self) -> bool {
        self.opened()
    }

    /// Opening always succeeds and keeps both buffers.
    open spec fn open_post(
        &self,
        after: &Self,
        config: SerialOpenConfigView,
        r: Result<(), SerialErrorView>,
    ) -> bool {
        &&& r == Ok::<(), SerialErrorView>(())
        &&& after.opened()
        &&& after.inbound() == self.inbound()
        &&& after.outbound() == self.outbound()
    }

    /// Closing always succeeds and keeps both buffers.
    open spec fn close_post(&self, after: &Self, r: Result<(), SerialErrorView>) -> bool {
        &&& r == Ok::<(), SerialErrorView>(())
        &&& !after.opened()
        &&& after.inbound() == self.inbound()
        &&& after.outbound() == self.outbound()
    }

    /// An open transport appends the payload to what was sent; a closed one
    /// answers [`transport_closed`].
    open spec fn send_post(
        &self,
        after: &Self,
        payload: Seq<u8>,
        r: Result<(), SerialErrorView>,
    ) -> bool {
        &&& after.opened() == self.opened()
        &&& after.inbound() == self.inbound()
        &&& if self.opened() {
            r == Ok::<(), SerialErrorView>(()) && after.outbound() == self.outbound() + payload
        } else {
            r == Err::<(), SerialErrorView>(transport_closed()) && after.outbound()
                == self.outbound()
        }
    }

    /// An open transport hands out everything waiting and empties its inbound
    /// buffer; a closed one answers [`transport_closed`].
    open spec fn receive_post(&self, after: &Self, r: Result<Seq<u8>, SerialErrorView>) -> bool {
        &&& after.opened() == self.opened()
        &&& after.outbound() == self.outbound()
        &&& if self.opened() {
            r == Ok::<Seq<u8>, SerialErrorView>(self.inbound()) && after.inbound()
                == Seq::<u8>::empty()
        } else {
            r == Err::<Seq<u8>, SerialErrorView>(transport_closed()) && after.inbound()
                == self.inbound()
        }
    }

    fn open(&mut self, config: &SerialOpenConfig) -> (r: Result<(), SerialError>) {
        self.opened = true;
        Ok(())
    }

    fn close(&mut self) -> (r: Result<(), SerialError>) {
        self.opened = false;
        Ok(())
    }

    fn send(&mut self, payload: &[u8]) -> (r: Result<(), SerialError>) {
        if !self.opened {
            return Err(SerialError::Io(String::from_str("transport closed")));
        }
        append_bytes(&mut self.outbound, payload);
        Ok(())
    }

    fn receive(&mut self) -> (r: Result<Vec<u8>, SerialError>) {
        if !self.opened {
            return Err(SerialError::Io(String::from_str("transport closed")));
        }
        broadcast use vstd::std_specs::vecdeque::group_vec_dequeue_axioms;

        let ghost before = self.inbound@;
        let mut out: Vec<u8> = Vec::new();
        while self.inbound.len() > 0
            invariant
                out@ + self.inbound@ == before,
                self.opened == old(self).opened,
                self.outbound@ == old(self).outbound@,
            decreases self.inbound@.len(),
        {
            let ghost rest = self.inbound@;
            if let Some(b) = self.inbound.pop_front() {
                out.push(b);
                assert(out@ + self.inbound@ =~= before) by {
                    assert(rest =~= seq![b] + self.inbound@);
                }
            }
        }
        assert(self.inbound@ =~= Seq::<u8>::empty());
        assert(out@ =~= before);
        Ok(out)
    }

    fn is_open(&self) -> (b: bool) {
        self.opened
    }
}

/// One open session; its id is kept beside it.
struct Session<T> {
    /// Session configuration.
    config: SerialOpenConfig,
    /// The transport.
    transport: T,
    /// How often the session reconnected.
    reconnect_count: u32,
}

/// Mathematical model of one session.
pub struct SessionState<T> {
    pub id: Seq<char>,
    pub config: SerialOpenConfigView,
    pub transport: T,
    pub reconnect_count: u32,
}

impl<T> Session<T> {
    closed spec fn state(&self, id: Seq<char>) -> SessionState<T> {
        SessionState {
            id,
            config: self.config@,
            transport: self.transport,
            reconnect_count: self.reconnect_count,
        }
    }
}

/// The sessions whose ids are `ids` and whose other parts are `parts`.
closed spec fn joined<T>(ids: Seq<String>, parts: Seq<Session<T>>) -> Seq<SessionState<T>> {
    Seq::new(parts.len(), |k: int| parts[k].state(ids[k]@))
}

/// No two ids are the same text.
closed spec fn texts_distinct(ids: Seq<String>) -> bool {
    forall|a: int, b: int| 0 <= a < ids.len() && 0 <= b < ids.len() && a != b ==> ids[a]@ != ids[b]@
}

/// Distinct ids make distinct sessions.
proof fn lemma_joined_distinct<T>(ids: Seq<String>, parts: Seq<Session<T>>)
    requires
        ids.len() == parts.len(),
        texts_distinct(ids),
    ensures
        distinct_ids(joined(ids, parts)),
{
    let s = joined(ids, parts);
    assert forall|a: int, b: int| 0 <= a < s.len() && 0 <= b < s.len() && a != b implies s[a].id
        != s[b].id by {
        assert(s[a].id == ids[a]@ && s[b].id == ids[b]@);
    }
}

/// The session with id `id`, if any.
pub open spec fn find_session<T>(s: Seq<SessionState<T>>, id: Seq<char>) -> Option<int> {
    if exists|i: int| 0 <= i < s.len() && s[i].id == id {
        Some(choose|i: int| 0 <= i < s.len() && s[i].id == id)
    } else {
        None
    }
}

/// No two sessions share an id.
pub open spec fn distinct_ids<T>(s: Seq<SessionState<T>>) -> bool {
    forall|i: int, j: int| 0 <= i < s.len() && 0 <= j < s.len() && i != j ==> s[i].id != s[j].id
}

/// With distinct ids, a session with id `id` at `i` is the one `find_session` finds.
pub proof fn lemma_find_session<T>(s: Seq<SessionState<T>>, id: Seq<char>, i: int)
    requires
        distinct_ids(s),
        0 <= i < s.len(),
        s[i].id == id,
    ensures
        find_session(s, id) == Some(i),
{
    let k = choose|k: int| 0 <= k < s.len() && s[k].id == id;
    assert(0 <= k < s.len() && s[k].id == id);
}

/// The summary a session is listed with.
pub open spec fn session_summary<T: Transport>(s: SessionState<T>) -> (
    Seq<char>,
    SerialOpenConfigView,
    bool,
    u32,
) {
    (s.id, s.config, s.transport.spec_is_open(), s.reconnect_count)
}

/// The summary of a [`SessionInfo`].
pub open spec fn info_summary(info: SessionInfo) -> (Seq<char>, SerialOpenConfigView, bool, u32) {
    (info.session_id@, info.config@, info.connected, info.reconnect_count)
}

/// `b` is `a` with only the transport (and, where allowed, the reconnect count)
/// of session `i` changed.
pub open spec fn changed_only_at<T>(a: Seq<SessionState<T>>, b: Seq<SessionState<T>>, i: int) -> bool {
    &&& a.len() == b.len()
    &&& 0 <= i < a.len()
    &&& forall|k: int| 0 <= k < a.len() && k != i ==> #[trigger] b[k] == a[k]
    &&& b[i].id == a[i].id
    &&& b[i].config == a[i].config
}

/// `after` is `before` with a new, open session `id` appended.
pub open spec fn session_opened<T: Transport>(
    before: Seq<SessionState<T>>,
    after: Seq<SessionState<T>>,
    id: Seq<char>,
    config: SerialOpenConfigView,
) -> bool {
    let n = before.len();
    &&& after.len() == n + 1
    &&& after.take(n as int) == before
    &&& after[n as int].id == id
    &&& after[n as int].config == config
    &&& after[n as int].reconnect_count == 0
    &&& after[n as int].transport.spec_is_open()
}

/// `after` is `before` without the session `id` (unchanged if there is none).
pub open spec fn session_closed<T>(
    before: Seq<SessionState<T>>,
    after: Seq<SessionState<T>>,
    id: Seq<char>,
) -> bool {
    match find_session(before, id) {
        None => after == before,
        Some(i) => after == before.remove(i),
    }
}

/// Closing a session undoes opening it: the sessions are as they were before.
pub proof fn law_close_undoes_open<T: Transport>(
    s0: Seq<SessionState<T>>,
    s1: Seq<SessionState<T>>,
    s2: Seq<SessionState<T>>,
    id: Seq<char>,
    config: SerialOpenConfigView,
)
    requires
        distinct_ids(s0),
        find_session(s0, id) is None,
        session_opened(s0, s1, id, config),
        session_closed(s1, s2, id),
    ensures
        s2 == s0,
{
    let n = s0.len() as int;
    assert forall|i: int| 0 <= i < n implies s1[i] == s0[i] && s1[i].id != id by {
        assert(s1.take(n)[i] == s1[i]);
    }
    assert(distinct_ids(s1)) by {
        assert forall|i: int, j: int| 0 <= i < s1.len() && 0 <= j < s1.len() && i != j implies s1[i].id
            != s1[j].id by {
            if i < n && j < n {
                assert(s1[i] == s0[i] && s1[j] == s0[j]);
            }
        }
    }
    lemma_find_session(s1, id, n);
    assert(s1.remove(n) =~= s0);
}

/// Keeps the serial sessions, each under a unique id.
pub struct SerialSessionManager<T> {
    /// The session ids, in the order the sessions were opened.
    ids: Vec<String>,
    /// The sessions, in the same order.
    sessions: Vec<Session<T>>,
}

impl<T> SerialSessionManager<T> {
    /// The sessions, in the order they were opened.
    pub closed spec fn sessions(&self) -> Seq<SessionState<T>> {
        joined(self.ids@, self.sessions@)
    }

    /// Every session has an id, and no two share one.
    #[verifier::type_invariant]
    spec fn wf(&self) -> bool {
        &&& self.ids@.len() == self.sessions@.len()
        &&& texts_distinct(self.ids@)
    }

    /// The ids of the sessions are distinct.
    proof fn lemma_distinct(&self)
        requires
            self.wf(),
        ensures
            distinct_ids(self.sessions()),
    {
        lemma_joined_distinct(self.ids@, self.sessions@);
    }
}

impl<T: Transport> SerialSessionManager<T> {
    /// No sessions.
    pub fn new() -> (m: Self)
        ensures
            m.sessions() == Seq::<SessionState<T>>::empty(),
    {
        let m = SerialSessionManager { ids: Vec::new(), sessions: Vec::new() };
        assert(m.sessions() =~= Seq::<SessionState<T>>::empty());
        m
    }

    /// Takes every session out, leaving the manager empty.
    fn take_all(&mut self) -> (parts: (Vec<String>, Vec<Session<T>>))
        ensures
            parts.0@.len() == parts.1@.len(),
            texts_distinct(parts.0@),
            joined(parts.0@, parts.1@) == old(self).sessions(),
    {
        let mut m = SerialSessionManager { ids: Vec::new(), sessions: Vec::new() };
        std::mem::swap(&mut m, self);
        proof {
            use_type_invariant(&m);
        }
        let SerialSessionManager { ids, sessions } = m;
        (ids, sessions)
    }

    fn position(&self, id: &String) -> (r: Option<usize>)
        requires
            self.ids@.len() == self.sessions@.len(),
            distinct_ids(self.sessions()),
        ensures
            match r {
                Some(i) => i < self.sessions().len() && find_session(self.sessions(), id@) == Some(
                    i as int,
                ),
                None => find_session(self.sessions(), id@) is None,
            },
    {
        let ghost s = self.sessions();
        let mut i: usize = 0;
        while i < self.ids.len()
            invariant
                i <= self.ids@.len(),
                s == self.sessions(),
                s.len() == self.ids@.len(),
                distinct_ids(s),
                forall|k: int| 0 <= k < i ==> s[k].id != id@,
            decreases self.ids@.len() - i,
        {
            assert(s[i as int].id == self.ids@[i as int]@);
            if self.ids[i] == *id {
                proof {
                    lemma_find_session(s, id@, i as int);
                }
                return Some(i);
            }
            i += 1;
        }
        None
    }

    pub fn open_session(&mut self, session_id: &str, config: SerialOpenConfig, transport: T) -> (r:
        Result<(), SerialError>)
        ensures
            distinct_ids(final(self).sessions()),
            find_session(old(self).sessions(), session_id@) is Some ==> (r matches Err(e) && e@
                == SerialErrorView::AlreadyOpen(session_id@)) && final(self).sessions() == old(
                self,
            ).sessions(),
            find_session(old(self).sessions(), session_id@) is None ==> match r {
                Ok(()) => {
                    let n = old(self).sessions().len() as int;
                    &&& session_opened(
                        old(self).sessions(),
                        final(self).sessions(),
                        session_id@,
                        config@,
                    )
                    &&& transport.open_post(
                        &final(self).sessions()[n].transport,
                        config@,
                        Ok(()),
                    )
                },
                Err(e) => final(self).sessions() == old(self).sessions() && exists|t: T|
                    #[trigger] transport.open_post(&t, config@, Err(e@)),
            },
    {
        proof {
            use_type_invariant(&*self);
            self.lemma_distinct();
        }
        let id = String::from_str(session_id);
        if self.position(&id).is_some() {
            return Err(SerialError::AlreadyOpen(id));
        }
        let mut transport = transport;
        match transport.open(&config) {
            Ok(()) => {},
            Err(e) => {
                return Err(e);
            },
        }
        let (mut ids, mut sessions) = self.take_all();
        let ghost before = old(self).sessions();
        let ghost key = id@;
        let session = Session { config, transport, reconnect_count: 0 };
        ids.push(id);
        sessions.push(session);
        proof {
            assert(joined(ids@, sessions@) =~= before.push(session.state(key)));
            assert forall|a: int, b: int|
                0 <= a < ids@.len() && 0 <= b < ids@.len() && a != b implies ids@[a]@
                != ids@[b]@ by {
                if a < before.len() && b < before.len() {
                    assert(ids@[a]@ == before[a].id && ids@[b]@ == before[b].id);
                } else if a < before.len() {
                    assert(ids@[a]@ == before[a].id);
                } else {
                    assert(ids@[b]@ == before[b].id);
                }
            }
        }
        *self = SerialSessionManager { ids, sessions };
        assert(self.sessions().take(before.len() as int) =~= before);
        Ok(())
    }

    pub fn close_session(&mut self, session_id: &str) -> (r: Result<(), SerialError>)
        ensures
            distinct_ids(final(self).sessions()),
            session_closed(old(self).sessions(), final(self).sessions(), session_id@),
            match find_session(old(self).sessions(), session_id@) {
                None => r matches Err(e) && e@ == SerialErrorView::NotFound(session_id@),
                Some(i) => exists|t: T|
                    #[trigger] old(self).sessions()[i].transport.close_post(&t, unit_outcome(r)),
            },
    {
        proof {
            use_type_invariant(&*self);
            self.lemma_distinct();
        }
        let id = String::from_str(session_id);
        let i = match self.position(&id) {
            Some(i) => i,
            None => {
                return Err(SerialError::NotFound(id));
            },
        };
        let (mut ids, mut sessions) = self.take_all();
        let ghost before = old(self).sessions();
        let ghost old_ids = ids@;
        let _ = ids.remove(i);
        let mut session = sessions.remove(i);
        proof {
            assert(joined(ids@, sessions@) =~= before.remove(i as int));
            assert forall|a: int, b: int|
                0 <= a < ids@.len() && 0 <= b < ids@.len() && a != b implies ids@[a]@
                != ids@[b]@ by {
                let a0 = if a < i { a } else { a + 1 };
                let b0 = if b < i { b } else { b + 1 };
                assert(ids@[a] == old_ids[a0] && ids@[b] == old_ids[b0]);
            }
        }
        *self = SerialSessionManager { ids, sessions };
        let ghost t0 = session.transport;
        assert(t0 == before[i as int].transport);
        let r = session.transport.close();
        assert(t0.close_post(&session.transport, unit_outcome(r)));
        r
    }

    pub fn send(&mut self, session_id: &str, payload: &[u8]) -> (r: Result<(), SerialError>)
        ensures
            distinct_ids(final(self).sessions()),
            match find_session(old(self).sessions(), session_id@) {
                None => (r matches Err(e) && e@ == SerialErrorView::NotFound(session_id@))
                    && final(self).sessions() == old(self).sessions(),
                Some(i) => if !old(self).sessions()[i].transport.spec_is_open() {
                    (r matches Err(e) && e@ == SerialErrorView::NotOpen(session_id@))
                        && final(self).sessions() == old(self).sessions()
                } else {
                    &&& changed_only_at(old(self).sessions(), final(self).sessions(), i)
                    &&& final(self).sessions()[i].reconnect_count == old(
                        self,
                    ).sessions()[i].reconnect_count
                    &&& old(self).sessions()[i].transport.send_post(
                        &final(self).sessions()[i].transport,
                        payload@,
                        unit_outcome(r),
                    )
                },
            },
    {
        proof {
            use_type_invariant(&*self);
            self.lemma_distinct();
        }
        let id = String::from_str(session_id);
        let i = match self.position(&id) {
            Some(i) => i,
            None => {
                return Err(SerialError::NotFound(id));
            },
        };
        if !self.sessions[i].transport.is_open() {
            return Err(SerialError::NotOpen(id));
        }
        let (ids, mut sessions) = self.take_all();
        let ghost old_s = old(self).sessions();
        let mut session = sessions.remove(i);
        let r = session.transport.send(payload);
        sessions.insert(i, session);
        proof {
            let changed = SessionState { transport: session.transport, ..old_s[i as int] };
            assert(joined(ids@, sessions@) =~= old_s.update(i as int, changed));
        }
        *self = SerialSessionManager { ids, sessions };
        r
    }

    pub fn receive(&mut self, session_id: &str) -> (r: Result<Vec<u8>, SerialError>)
        requires
            forall|i: int|
                0 <= i < old(self).sessions().len() && old(self).sessions()[i].id == session_id@
                    && !old(self).sessions()[i].transport.spec_is_open() && old(
                    self,
                ).sessions()[i].config.auto_reconnect ==> old(self).sessions()[i].reconnect_count
                    < u32::MAX,
        ensures
            distinct_ids(final(self).sessions()),
            match find_session(old(self).sessions(), session_id@) {
                None => (r matches Err(e) && e@ == SerialErrorView::NotFound(session_id@))
                    && final(self).sessions() == old(self).sessions(),
                Some(i) => {
                    let s = old(self).sessions()[i];
                    if !s.transport.spec_is_open() && !s.config.auto_reconnect {
                        (r matches Err(e) && e@ == SerialErrorView::NotOpen(session_id@))
                            && final(self).sessions() == old(self).sessions()
                    } else {
                        let n = final(self).sessions()[i].reconnect_count;
                        let after = final(self).sessions()[i].transport;
                        &&& changed_only_at(old(self).sessions(), final(self).sessions(), i)
                        &&& s.transport.spec_is_open() ==> n == s.reconnect_count
                            && s.transport.receive_post(&after, bytes_outcome(r))
                        &&& !s.transport.spec_is_open() ==> {
                            ||| n == s.reconnect_count && r is Err && s.transport.open_post(
                                &after,
                                s.config,
                                Err(bytes_outcome(r)->Err_0),
                            )
                            ||| n == s.reconnect_count + 1 && exists|t: T|
                                #[trigger] s.transport.open_post(&t, s.config, Ok(()))
                                    && t.receive_post(&after, bytes_outcome(r))
                        }
                    }
                },
            },
    {
        proof {
            use_type_invariant(&*self);
            self.lemma_distinct();
        }
        let id = String::from_str(session_id);
        let i = match self.position(&id) {
            Some(i) => i,
            None => {
                return Err(SerialError::NotFound(id));
            },
        };
        let ghost old_s = self.sessions();
        if !self.sessions[i].transport.is_open() && !self.sessions[i].config.auto_reconnect {
            return Err(SerialError::NotOpen(id));
        }
        let (ids, mut sessions) = self.take_all();
        let mut session = sessions.remove(i);
        let mut result: Result<Vec<u8>, SerialError> = Err(SerialError::NotOpen(id));
        let mut reopened = true;
        if !session.transport.is_open() {
            match session.transport.open(&session.config) {
                Ok(()) => {
                    session.reconnect_count = session.reconnect_count + 1;
                },
                Err(e) => {
                    result = Err(e);
                    reopened = false;
                },
            }
        }
        if reopened {
            result = session.transport.receive();
        }
        sessions.insert(i, session);
        proof {
            let changed = SessionState {
                transport: session.transport,
                reconnect_count: session.reconnect_count,
                ..old_s[i as int]
            };
            assert(joined(ids@, sessions@) =~= old_s.update(i as int, changed));
        }
        *self = SerialSessionManager { ids, sessions };
        result
    }

    pub fn list_sessions(&self) -> (infos: Vec<SessionInfo>)
        ensures
            infos@.len() == self.sessions().len(),
            forall|i: int|
                0 <= i < infos@.len() ==> info_summary(#[trigger] infos@[i]) == session_summary(
                    self.sessions()[i],
                ),
    {
        proof {
            use_type_invariant(self);
        }
        let mut infos: Vec<SessionInfo> = Vec::new();
        let mut i: usize = 0;
        while i < self.sessions.len()
            invariant
                i <= self.sessions@.len(),
                self.ids@.len() == self.sessions@.len(),
                infos@.len() == i,
                forall|k: int|
                    0 <= k < i ==> info_summary(#[trigger] infos@[k]) == session_summary(
                        self.sessions()[k],
                    ),
            decreases self.sessions@.len() - i,
        {
            let s = &self.sessions[i];
            assert(self.sessions()[i as int] == s.state(self.ids@[i as int]@));
            let info = SessionInfo {
                session_id: self.ids[i].clone(),
                config: s.config.duplicate(),
                connected: s.transport.is_open(),
                reconnect_count: s.reconnect_count,
            };
            infos.push(info);
            i += 1;
        }
        infos
    }

    pub fn transport_mut(&mut self, session_id: &str) -> (r: Option<&mut T>)
        ensures
            distinct_ids(final(self).sessions()),
            match find_session(old(self).sessions(), session_id@) {
                None => r is None && final(self).sessions() == old(self).sessions(),
                Some(i) => r is Some && *r->0 == old(self).sessions()[i].transport
                    && final(self).sessions() == old(self).sessions().update(
                    i,
                    SessionState { transport: *final(r->0), ..old(self).sessions()[i] },
                ),
            },
    {
        proof {
            use_type_invariant(&*self);
            self.lemma_distinct();
        }
        let id = String::from_str(session_id);
        match self.position(&id) {
            Some(i) => Some(&mut self.sessions[i].transport),
            None => None,
        }
    }
}

impl<T: Transport> Default for SerialSessionManager<T> {
    fn default() -> (m: Self)
        ensures
            m.sessions() == Seq::<SessionState<T>>::empty(),
    {
        SerialSessionManager::new()
    }
}

} // verus!
