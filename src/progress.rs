//! Progress reporting for one fetch: turns the transport's raw notifications
//! (object and byte counters, sideband bytes, pack stages, ref updates) into
//! structured events, with a debounced transfer-rate estimate.
//!
//! Rendering is not done here; every notification goes through
//! `ProgressIndicator::handle`, the one owner of the reporter's state.
use vstd::prelude::*;
use vstd::utf8::{decode_utf8, valid_utf8};

use crate::sideband::{parse_sideband, parse_sideband_chars, trim, trim_chars, SidebandModel, SidebandProgress};
use crate::text::{concat, decimal, string_from_chars, usize_to_string};

verus! {

/// Smallest time between two rate samples, in milliseconds.
pub const RATE_DEBOUNCE_MS: u64 = 500;

/// The characters that `String::from_utf8_lossy` makes of `bytes`.
pub uninterp spec fn lossy_utf8(bytes: Seq<u8>) -> Seq<char>;

/// Relies on `String::from_utf8_lossy`: the result depends on the bytes alone,
/// and valid UTF-8 is decoded as it is.
#[verifier::external_body]
fn decode_lossy(bytes: &[u8]) -> (r: Vec<char>)
    ensures
        r@ == lossy_utf8(bytes@),
        valid_utf8(bytes@) ==> r@ == decode_utf8(bytes@),
{
    String::from_utf8_lossy(bytes).chars().collect()
}

/// What one line of the sideband channel reports.
pub enum SidebandEvent {
    /// A progress line of the remote.
    Progress(SidebandProgress),
    /// Any other non-empty line, trimmed, to be shown as it is.
    Message(String),
}

/// A `SidebandEvent` as the contracts see it.
pub enum SidebandEventModel {
    Progress(SidebandModel),
    Message(Seq<char>),
}

impl View for SidebandEvent {
    type V = SidebandEventModel;

    open spec fn view(&self) -> SidebandEventModel {
        match self {
            SidebandEvent::Progress(p) => SidebandEventModel::Progress(p@),
            SidebandEvent::Message(m) => SidebandEventModel::Message(m@),
        }
    }
}

/// Index of the first newline byte of `b`.
pub open spec fn newline_index(b: Seq<u8>) -> Option<nat>
    decreases b.len(),
{
    if b.len() == 0 {
        None
    } else if b[0] == 10u8 {
        Some(0)
    } else {
        match newline_index(b.drop_first()) {
            Some(i) => Some(i + 1),
            None => None,
        }
    }
}

/// The complete lines of `b`, each with its newline, in order.
pub open spec fn complete_lines(b: Seq<u8>) -> Seq<Seq<u8>>
    decreases b.len(),
{
    match newline_index(b) {
        Some(i) => if i < b.len() {
            seq![b.take(i + 1 as int)] + complete_lines(b.skip(i + 1 as int))
        } else {
            seq![]
        },
        None => seq![],
    }
}

/// What follows the last newline of `b`: a line not yet complete.
pub open spec fn pending_bytes(b: Seq<u8>) -> Seq<u8>
    decreases b.len(),
{
    match newline_index(b) {
        Some(i) => if i < b.len() {
            pending_bytes(b.skip(i + 1 as int))
        } else {
            b
        },
        None => b,
    }
}

/// The text of a line: its UTF-8 decoding, or, for bytes that are not valid
/// UTF-8, what the lossy decoding makes of them.
pub open spec fn line_text(line: Seq<u8>) -> Seq<char> {
    if valid_utf8(line) {
        decode_utf8(line)
    } else {
        lossy_utf8(line)
    }
}

/// What a complete line reports: nothing when it is blank, a progress record
/// when its trimmed text follows the grammar, else the trimmed text itself.
pub open spec fn line_event(line: Seq<u8>) -> Option<SidebandEventModel> {
    let t = trim(line_text(line));
    if t.len() == 0 {
        None
    } else {
        match parse_sideband(t) {
            Some(p) => Some(SidebandEventModel::Progress(p)),
            None => Some(SidebandEventModel::Message(t)),
        }
    }
}

/// What the lines report, in order.
pub open spec fn line_events(lines: Seq<Seq<u8>>) -> Seq<SidebandEventModel> {
    lines.filter_map(|l: Seq<u8>| line_event(l))
}

/// Whether any of `events` is a progress record.
pub open spec fn has_progress(events: Seq<SidebandEventModel>) -> bool {
    exists|i: int| 0 <= i < events.len() && #[trigger] events[i] is Progress
}

/// A rate sample republished after the debounce threshold.
#[derive(Clone, Copy, Debug, PartialEq, Eq, Structural)]
pub struct TransferRate {
    /// Bytes received since the previous sample (zero if the count went down).
    pub delta_bytes: usize,
    /// Milliseconds since the previous sample.
    pub elapsed_ms: u64,
    /// `delta_bytes` per second, rounded down.
    pub bytes_per_sec: u128,
}

/// The counters of one transfer notification, and the rate when one is due.
#[derive(Clone, Copy, Debug, PartialEq, Eq, Structural)]
pub struct TransferUpdate {
    pub total_objects: usize,
    pub received_objects: usize,
    pub received_bytes: usize,
    pub rate: Option<TransferRate>,
}

/// Stage of pack building reported by the transport.
#[derive(Clone, Copy, Debug, PartialEq, Eq, Structural)]
pub enum PackStage {
    AddingObjects,
    Deltafication,
}

/// A ref moved by the fetch.
pub struct RefUpdate {
    pub name: String,
    pub old_id: Vec<u8>,
    pub new_id: Vec<u8>,
    /// The ref did not exist before: its old id is all zeros.
    pub created: bool,
}

/// A raw notification of the transport.
pub enum TransportEvent {
    Transfer { total_objects: usize, received_objects: usize, received_bytes: usize, now_ms: u64 },
    Sideband(Vec<u8>),
    PackStage { stage: PackStage, current: usize, total: usize },
    RefUpdate { name: String, old_id: Vec<u8>, new_id: Vec<u8> },
}

/// A structured progress event.
pub enum ProgressEvent {
    Transfer(TransferUpdate),
    /// What the complete lines of one sideband notification report, in order.
    Sideband(Vec<SidebandEvent>),
    Pack { stage: PackStage, current: usize, total: usize },
    RefUpdate(RefUpdate),
}

/// The reporter's state, as the contracts see it.
pub struct ProgressModel {
    pub buffer: Seq<u8>,
    pub last_sample: Option<(u64, usize)>,
}

/// Milliseconds from `last_ms` to `now_ms`, zero if the clock went back.
pub open spec fn elapsed_ms(last_ms: u64, now_ms: u64) -> nat {
    if now_ms >= last_ms {
        (now_ms - last_ms) as nat
    } else {
        0
    }
}

/// How the reporter answers a transfer notification at `now_ms`: the first
/// sample is stored as a baseline; later ones replace it, with a rate, only
/// once the debounce threshold has passed.
pub open spec fn transfer_step(
    s: ProgressModel,
    total_objects: usize,
    received_objects: usize,
    received_bytes: usize,
    now_ms: u64,
) -> (ProgressModel, TransferUpdate) {
    let counters = TransferUpdate { total_objects, received_objects, received_bytes, rate: None };
    match s.last_sample {
        None => (ProgressModel { last_sample: Some((now_ms, received_bytes)), ..s }, counters),
        Some((last_ms, last_bytes)) => {
            let dt = elapsed_ms(last_ms, now_ms);
            if dt < RATE_DEBOUNCE_MS {
                (s, counters)
            } else {
                let delta: nat = if received_bytes >= last_bytes {
                    (received_bytes - last_bytes) as nat
                } else {
                    0
                };
                let rate = TransferRate {
                    delta_bytes: delta as usize,
                    elapsed_ms: dt as u64,
                    bytes_per_sec: (delta * 1000 / dt) as u128,
                };
                (
                    ProgressModel { last_sample: Some((now_ms, received_bytes)), ..s },
                    TransferUpdate { rate: Some(rate), ..counters },
                )
            }
        },
    }
}

/// How the reporter answers sideband bytes: complete lines are taken out of
/// the buffer and reported, what follows the last newline stays, and a
/// progress line drops the rate baseline.
pub open spec fn sideband_step(s: ProgressModel, bytes: Seq<u8>) -> (ProgressModel, Seq<SidebandEventModel>) {
    let all = s.buffer + bytes;
    let events = line_events(complete_lines(all));
    (
        ProgressModel {
            buffer: pending_bytes(all),
            last_sample: if has_progress(events) {
                None
            } else {
                s.last_sample
            },
        },
        events,
    )
}

proof fn lemma_newline_index_facts(x: Seq<u8>, y: Seq<u8>)
    ensures
        newline_index(x) matches Some(i) ==> i < x.len() && newline_index(x + y) == Some(i),
    decreases x.len(),
{
    if x.len() > 0 && x[0] != 10u8 {
        lemma_newline_index_facts(x.drop_first(), y);
        assert((x + y).drop_first() =~= x.drop_first() + y);
    }
}

proof fn lemma_lines_split(x: Seq<u8>, y: Seq<u8>)
    ensures
        complete_lines(x + y) == complete_lines(x) + complete_lines(pending_bytes(x) + y),
        pending_bytes(x + y) == pending_bytes(pending_bytes(x) + y),
    decreases x.len(),
{
    lemma_newline_index_facts(x, y);
    match newline_index(x) {
        None => {
            assert(complete_lines(x) + complete_lines(x + y) =~= complete_lines(x + y));
        },
        Some(i) => {
            let rest = x.skip(i + 1 as int);
            assert((x + y).take(i + 1 as int) =~= x.take(i + 1 as int));
            assert((x + y).skip(i + 1 as int) =~= rest + y);
            lemma_lines_split(rest, y);
            assert(complete_lines(x + y) =~= complete_lines(x) + complete_lines(
                pending_bytes(x) + y,
            ));
        },
    }
}

proof fn lemma_line_events_concat(a: Seq<Seq<u8>>, b: Seq<Seq<u8>>)
    ensures
        line_events(a + b) == line_events(a) + line_events(b),
    decreases b.len(),
{
    if b.len() == 0 {
        assert(a + b =~= a);
        assert(line_events(a) + line_events(b) =~= line_events(a));
    } else {
        lemma_line_events_concat(a, b.drop_last());
        assert((a + b).drop_last() =~= a + b.drop_last());
        assert((a + b).last() == b.last());
        match line_event(b.last()) {
            Some(e) => {
                assert(line_events(a) + line_events(b) =~= (line_events(a) + line_events(
                    b.drop_last(),
                )).push(e));
            },
            None => {},
        }
    }
}

proof fn lemma_has_progress_concat(e1: Seq<SidebandEventModel>, e2: Seq<SidebandEventModel>)
    ensures
        has_progress(e1 + e2) == (has_progress(e1) || has_progress(e2)),
{
    let all = e1 + e2;
    if has_progress(e1) {
        let j = choose|j: int| 0 <= j < e1.len() && #[trigger] e1[j] is Progress;
        assert(all[j] == e1[j]);
    }
    if has_progress(e2) {
        let j = choose|j: int| 0 <= j < e2.len() && #[trigger] e2[j] is Progress;
        assert(all[e1.len() + j] == e2[j]);
    }
    if has_progress(all) {
        let j = choose|j: int| 0 <= j < all.len() && #[trigger] all[j] is Progress;
        if j < e1.len() {
            assert(e1[j] == all[j]);
        } else {
            assert(e2[j - e1.len()] == all[j]);
        }
    }
}

/// Sideband bytes may be cut anywhere: handing over `a` and then `b` reports
/// the same events, in the same order, and leaves the same state as handing
/// over `a` followed by `b` at once.
pub proof fn lemma_sideband_split_anywhere(s: ProgressModel, a: Seq<u8>, b: Seq<u8>)
    ensures
        ({
            let (s1, e1) = sideband_step(s, a);
            let (s2, e2) = sideband_step(s1, b);
            let (t, e) = sideband_step(s, a + b);
            s2 == t && e1 + e2 == e
        }),
{
    let x = s.buffer + a;
    lemma_lines_split(x, b);
    assert(s.buffer + (a + b) =~= x + b);
    let (s1, e1) = sideband_step(s, a);
    assert(s1.buffer == pending_bytes(x));
    lemma_line_events_concat(complete_lines(x), complete_lines(pending_bytes(x) + b));
    let (s2, e2) = sideband_step(s1, b);
    lemma_has_progress_concat(e1, e2);
}

/// What a progress bar shows once a progress line has been read.
pub struct PhaseDisplay {
    pub length: u64,
    pub position: u64,
    pub message: String,
    /// A line to print above the bar, when the phase is complete.
    pub printed: Option<String>,
}

/// A `PhaseDisplay` as the contracts see it.
pub struct PhaseDisplayModel {
    pub length: nat,
    pub position: nat,
    pub message: Seq<char>,
    pub printed: Option<Seq<char>>,
}

impl View for PhaseDisplay {
    type V = PhaseDisplayModel;

    open spec fn view(&self) -> PhaseDisplayModel {
        PhaseDisplayModel {
            length: self.length as nat,
            position: self.position as nat,
            message: self.message@,
            printed: match self.printed {
                Some(t) => Some(t@),
                None => None,
            },
        }
    }
}

/// The display for a progress line: a bar of length 100 at the percentage
/// with the message `<label> <current>/<total>`; once the line says `done.`,
/// `<label> done` is printed and the bar is reset to empty.
pub open spec fn phase_display(p: SidebandModel) -> PhaseDisplayModel {
    if p.done {
        PhaseDisplayModel {
            length: 0,
            position: 0,
            message: seq![],
            printed: Some(p.prefix + " done"@),
        }
    } else {
        PhaseDisplayModel {
            length: 100,
            position: p.percent,
            message: p.prefix + " "@ + decimal(p.m) + "/"@ + decimal(p.n),
            printed: None,
        }
    }
}

/// The display for a progress line (see `phase_display`).
pub fn phase_display_of(p: &SidebandProgress) -> (r: PhaseDisplay)
    ensures
        r@ == phase_display(p@),
{
    if p.done {
        PhaseDisplay {
            length: 0,
            position: 0,
            message: String::new(),
            printed: Some(concat(p.prefix.as_str(), " done")),
        }
    } else {
        let label = concat(p.prefix.as_str(), " ");
        let m = usize_to_string(p.m);
        let with_m = concat(label.as_str(), m.as_str());
        let with_slash = concat(with_m.as_str(), "/");
        let n = usize_to_string(p.n);
        let message = concat(with_slash.as_str(), n.as_str());
        PhaseDisplay { length: 100, position: p.percent as u64, message, printed: None }
    }
}

/// Whether every byte of `id` is zero.
pub open spec fn is_zero_id(id: Seq<u8>) -> bool {
    forall|i: int| 0 <= i < id.len() ==> id[i] == 0u8
}

/// The progress state of one fetch.
pub struct ProgressIndicator {
    sideband_buffer: Vec<u8>,
    last_transfer_update: Option<(u64, usize)>,
}

impl View for ProgressIndicator {
    type V = ProgressModel;

    closed spec fn view(&self) -> ProgressModel {
        ProgressModel { buffer: self.sideband_buffer@, last_sample: self.last_transfer_update }
    }
}

proof fn lemma_newline_index(b: Seq<u8>, i: int)
    requires
        0 <= i <= b.len(),
        forall|k: int| 0 <= k < i ==> b[k] != 10u8,
    ensures
        i < b.len() && b[i] == 10u8 ==> newline_index(b) == Some(i as nat),
        i == b.len() ==> newline_index(b) is None,
    decreases i,
{
    if i > 0 {
        lemma_newline_index(b.drop_first(), i - 1);
    }
}

/// Index of the first newline byte of `b`.
fn find_newline(b: &Vec<u8>) -> (r: Option<usize>)
    ensures
        match r {
            Some(i) => newline_index(b@) == Some(i as nat) && i < b.len(),
            None => newline_index(b@) is None,
        },
{
    let mut i: usize = 0;
    while i < b.len()
        invariant
            i <= b.len(),
            forall|k: int| 0 <= k < i ==> b@[k] != 10u8,
        decreases b.len() - i,
    {
        if b[i] == 10u8 {
            proof {
                lemma_newline_index(b@, i as int);
            }
            return Some(i);
        }
        i = i + 1;
    }
    proof {
        lemma_newline_index(b@, i as int);
    }
    None
}

/// What one complete line reports.
fn read_line(line: &Vec<u8>) -> (r: Option<SidebandEvent>)
    ensures
        match r {
            Some(e) => line_event(line@) == Some(e@),
            None => line_event(line@) is None,
        },
{
    let chars = decode_lossy(line.as_slice());
    let trimmed = trim_chars(chars.as_slice());
    if trimmed.len() == 0 {
        return None;
    }
    match parse_sideband_chars(trimmed.as_slice()) {
        Some(p) => Some(SidebandEvent::Progress(p)),
        None => Some(SidebandEvent::Message(string_from_chars(trimmed.as_slice()))),
    }
}

impl ProgressIndicator {
    /// A reporter with an empty buffer and no rate baseline.
    pub fn new() -> (r: ProgressIndicator)
        ensures
            r@ == (ProgressModel { buffer: seq![], last_sample: None }),
    {
        ProgressIndicator { sideband_buffer: Vec::new(), last_transfer_update: None }
    }

    /// Bytes of an incomplete sideband line kept for the next call.
    pub fn pending(&self) -> (r: &Vec<u8>)
        ensures
            r@ == self@.buffer,
    {
        &self.sideband_buffer
    }

    /// The rate baseline: time in milliseconds and received bytes.
    pub fn last_sample(&self) -> (r: Option<(u64, usize)>)
        ensures
            r == self@.last_sample,
    {
        self.last_transfer_update
    }

    /// A transfer notification at `now_ms` (a monotonic clock in milliseconds).
    /// A rate is republished only when the time since the last sample is at
    /// least the debounce threshold.
    pub fn on_transfer(
        &mut self,
        total_objects: usize,
        received_objects: usize,
        received_bytes: usize,
        now_ms: u64,
    ) -> (r: TransferUpdate)
        ensures
            (final(self)@, r) == transfer_step(
                old(self)@,
                total_objects,
                received_objects,
                received_bytes,
                now_ms,
            ),
            r.rate matches Some(rate) ==> rate.elapsed_ms >= RATE_DEBOUNCE_MS,
    {
        let counters = TransferUpdate { total_objects, received_objects, received_bytes, rate: None };
        match self.last_transfer_update {
            None => {
                self.last_transfer_update = Some((now_ms, received_bytes));
                counters
            },
            Some((last_ms, last_bytes)) => {
                let dt = now_ms.saturating_sub(last_ms);
                if dt < RATE_DEBOUNCE_MS {
                    return counters;
                }
                let delta = received_bytes.saturating_sub(last_bytes);
                let per_sec = (delta as u128) * 1000 / (dt as u128);
                self.last_transfer_update = Some((now_ms, received_bytes));
                TransferUpdate {
                    rate: Some(TransferRate { delta_bytes: delta, elapsed_ms: dt, bytes_per_sec: per_sec }),
                    ..counters
                }
            },
        }
    }

    /// Sideband bytes, which may end in the middle of a line.
    pub fn on_sideband(&mut self, bytes: &[u8]) -> (r: Vec<SidebandEvent>)
        ensures
            (final(self)@, r@.map_values(|e: SidebandEvent| e@)) == sideband_step(old(self)@, bytes@),
    {
        let mut buf: Vec<u8> = Vec::new();
        std::mem::swap(&mut buf, &mut self.sideband_buffer);
        let mut k: usize = 0;
        let ghost start = buf@;
        while k < bytes.len()
            invariant
                k <= bytes.len(),
                buf@ == start + bytes@.take(k as int),
            decreases bytes.len() - k,
        {
            buf.push(bytes[k]);
            k = k + 1;
            proof {
                assert(buf@ =~= start + bytes@.take(k as int));
            }
        }
        let ghost all = buf@;
        assert(all =~= start + bytes@);
        let mut events: Vec<SidebandEvent> = Vec::new();
        let mut progress_seen = false;
        let ghost mut done: Seq<Seq<u8>> = seq![];
        loop
            invariant
                complete_lines(all) == done + complete_lines(buf@),
                pending_bytes(all) == pending_bytes(buf@),
                events@.map_values(|e: SidebandEvent| e@) == line_events(done),
                progress_seen == has_progress(line_events(done)),
                self.last_transfer_update == old(self).last_transfer_update,
            ensures
                newline_index(buf@) is None,
            decreases buf.len(),
        {
            let i = match find_newline(&buf) {
                None => break,
                Some(i) => i,
            };
            let ghost before = buf@;
            let rest = buf.split_off(i + 1);
            let line = buf;
            buf = rest;
            let ghost prev_events = line_events(done);
            proof {
                assert(complete_lines(before) == seq![line@] + complete_lines(buf@));
                assert(done + complete_lines(before) =~= done.push(line@) + complete_lines(buf@));
                assert(done.push(line@).drop_last() =~= done);
                done = done.push(line@);
            }
            let ghost old_seen = events@;
            match read_line(&line) {
                None => {
                    proof {
                        assert(line_events(done) == prev_events);
                    }
                },
                Some(e) => {
                    let is_progress = match &e {
                        SidebandEvent::Progress(_) => true,
                        SidebandEvent::Message(_) => false,
                    };
                    events.push(e);
                    proof {
                        assert(line_events(done) == prev_events.push(e@));
                        assert(events@.map_values(|e: SidebandEvent| e@) =~= old_seen.map_values(
                            |e: SidebandEvent| e@,
                        ).push(e@));
                        let now = line_events(done);
                        if has_progress(prev_events) {
                            let j = choose|j: int|
                                0 <= j < prev_events.len() && #[trigger] prev_events[j] is Progress;
                            assert(now[j] == prev_events[j]);
                        }
                        if is_progress {
                            assert(now[now.len() - 1] is Progress);
                        } else if has_progress(now) {
                            let j = choose|j: int| 0 <= j < now.len() && #[trigger] now[j] is Progress;
                            assert(j < prev_events.len());
                            assert(prev_events[j] is Progress);
                        }
                    }
                    progress_seen = progress_seen || is_progress;
                },
            }
        }
        proof {
            assert(complete_lines(buf@) =~= seq![]);
            assert(done + seq![] =~= done);
        }
        self.sideband_buffer = buf;
        if progress_seen {
            self.last_transfer_update = None;
        }
        events
    }

    /// A pack-building stage notification.
    pub fn on_pack(&mut self, stage: PackStage, current: usize, total: usize) -> (r: ProgressEvent)
        ensures
            final(self)@ == old(self)@,
            r == (ProgressEvent::Pack { stage, current, total }),
    {
        ProgressEvent::Pack { stage, current, total }
    }

    /// A ref update: `old_id` all zeros means the ref was created.
    pub fn on_update_tips(&mut self, name: String, old_id: Vec<u8>, new_id: Vec<u8>) -> (r: RefUpdate)
        ensures
            final(self)@ == old(self)@,
            r.name == name,
            r.old_id@ == old_id@,
            r.new_id@ == new_id@,
            r.created == is_zero_id(old_id@),
    {
        let mut k: usize = 0;
        let mut zero = true;
        while k < old_id.len()
            invariant
                k <= old_id.len(),
                zero == (forall|i: int| 0 <= i < k ==> old_id@[i] == 0u8),
            decreases old_id.len() - k,
        {
            if old_id[k] != 0u8 {
                zero = false;
            }
            k = k + 1;
        }
        RefUpdate { name, old_id, new_id, created: zero }
    }
}

impl ProgressIndicator {
    /// The one dispatch point for the transport's four notification kinds.
    pub fn handle(&mut self, event: TransportEvent) -> (r: ProgressEvent)
        ensures
            match event {
                TransportEvent::Transfer {
                    total_objects,
                    received_objects,
                    received_bytes,
                    now_ms,
                } => {
                    let (next, update) = transfer_step(
                        old(self)@,
                        total_objects,
                        received_objects,
                        received_bytes,
                        now_ms,
                    );
                    final(self)@ == next && r == ProgressEvent::Transfer(update)
                },
                TransportEvent::Sideband(bytes) => {
                    let (next, events) = sideband_step(old(self)@, bytes@);
                    &&& final(self)@ == next
                    &&& r matches ProgressEvent::Sideband(lines) && lines@.map_values(
                        |e: SidebandEvent| e@,
                    ) == events
                },
                TransportEvent::PackStage { stage, current, total } => {
                    final(self)@ == old(self)@ && r == ProgressEvent::Pack { stage, current, total }
                },
                TransportEvent::RefUpdate { name, old_id, new_id } => {
                    &&& final(self)@ == old(self)@
                    &&& r matches ProgressEvent::RefUpdate(u) && u.name == name && u.old_id@
                        == old_id@ && u.new_id@ == new_id@ && u.created == is_zero_id(old_id@)
                },
            },
    {
        match event {
            TransportEvent::Transfer { total_objects, received_objects, received_bytes, now_ms } => {
                ProgressEvent::Transfer(
                    self.on_transfer(total_objects, received_objects, received_bytes, now_ms),
                )
            },
            TransportEvent::Sideband(bytes) => ProgressEvent::Sideband(
                self.on_sideband(bytes.as_slice()),
            ),
            TransportEvent::PackStage { stage, current, total } => self.on_pack(
                stage,
                current,
                total,
            ),
            TransportEvent::RefUpdate { name, old_id, new_id } => ProgressEvent::RefUpdate(
                self.on_update_tips(name, old_id, new_id),
            ),
        }
    }
}

} // verus!
