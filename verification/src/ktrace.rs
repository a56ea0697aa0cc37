//! Trace lines and where they go.

use crate::uspace::utf8_ok;
use vstd::prelude::*;
#[allow(unused_imports)]
use vstd::utf8::valid_utf8;

verus! {

/// Longest trace line, in bytes. What is longer is cut.
pub const LINE_BUF_LEN: usize = 512;

/// How important a line is.
#[derive(Clone, Copy, Debug, PartialEq, Eq, Structural)]
pub enum TraceLevel {
    Error,
    Warn,
    Info,
    Debug,
    Trace,
}

impl TraceLevel {
    /// Verbosity, from one for errors to five.
    pub open spec fn spec_rank(self) -> u8 {
        match self {
            TraceLevel::Error => 1,
            TraceLevel::Warn => 2,
            TraceLevel::Info => 3,
            TraceLevel::Debug => 4,
            TraceLevel::Trace => 5,
        }
    }

    pub fn rank(self) -> (r: u8)
        ensures
            r == self.spec_rank(),
    {
        match self {
            TraceLevel::Error => 1,
            TraceLevel::Warn => 2,
            TraceLevel::Info => 3,
            TraceLevel::Debug => 4,
            TraceLevel::Trace => 5,
        }
    }
}

/// Takes lines up to a level.
pub struct OrbitSubscriber {
    max_level: TraceLevel,
}

impl View for OrbitSubscriber {
    type V = TraceLevel;

    closed spec fn view(&self) -> TraceLevel {
        self.max_level
    }
}

impl OrbitSubscriber {
    pub fn new(max_level: TraceLevel) -> (r: Self)
        ensures
            r@ == max_level,
    {
        OrbitSubscriber { max_level }
    }

    /// Whether a line is taken.
    pub fn enabled(&self, level: TraceLevel) -> (r: bool)
        ensures
            r == (level.spec_rank() <= self@.spec_rank()),
    {
        level.rank() <= self.max_level.rank()
    }
}

/// Takes every line that libraries log.
pub struct OrbitLogger;

impl OrbitLogger {
    /// Whether a line is taken.
    pub fn enabled(&self, level: TraceLevel) -> (r: bool)
        ensures
            r,
    {
        level.rank() <= TraceLevel::Trace.rank()
    }
}

/// A line under construction.
pub struct LineBuf {
    bytes: Vec<u8>,
}

impl View for LineBuf {
    type V = Seq<u8>;

    closed spec fn view(&self) -> Seq<u8> {
        self.bytes@
    }
}

/// The first `n` bytes of `s`, or all of it.
pub open spec fn cut(s: Seq<u8>, n: int) -> Seq<u8> {
    if s.len() <= n {
        s
    } else {
        s.take(n)
    }
}

impl LineBuf {
    /// An empty line.
    pub fn new() -> (r: Self)
        ensures
            r@ == Seq::<u8>::empty(),
    {
        LineBuf { bytes: Vec::new() }
    }

    /// Appends text as far as there is room.
    pub fn write_bytes(&mut self, s: &[u8])
        requires
            old(self)@.len() <= LINE_BUF_LEN,
        ensures
            final(self)@ == old(self)@ + cut(s@, 512 - old(self)@.len()),
            final(self)@.len() <= LINE_BUF_LEN,
    {
        let room: usize = LINE_BUF_LEN - self.bytes.len();
        let n: usize = if room < s.len() {
            room
        } else {
            s.len()
        };
        let mut i: usize = 0;
        proof {
            assert(self@ =~= old(self)@ + s@.take(0));
        }
        while i < n
            invariant
                i <= n <= s@.len(),
                self@ == old(self)@ + s@.take(i as int),
            decreases n - i,
        {
            self.bytes.push(s[i]);
            proof {
                assert(self@ =~= old(self)@ + s@.take(i + 1));
            }
            i = i + 1;
        }
        proof {
            if n == s@.len() {
                assert(s@.take(n as int) =~= s@);
            }
        }
    }

    /// The line so far.
    pub fn as_slice(&self) -> (r: &[u8])
        ensures
            r@ == self@,
    {
        self.bytes.as_slice()
    }
}

/// Where a finished line goes.
#[derive(Clone, Copy, Debug, PartialEq, Eq, Structural)]
pub struct Sinks {
    /// To the ring of the UART thread, which drops it if it is full.
    pub serial_ring: bool,
    /// Straight to the UART.
    pub uart: bool,
    /// To the ring of the compositor, which drops it if it is full.
    pub console_ring: bool,
}

/// Where a line goes. Once the UART thread runs it owns the UART, so nothing is
/// written there directly; before that only well-formed text is.
pub open spec fn sinks_of(line: Seq<u8>, serial_ready: bool, gpu_ready: bool) -> Sinks {
    Sinks {
        serial_ring: serial_ready,
        uart: !serial_ready && valid_utf8(line),
        console_ring: gpu_ready,
    }
}

/// Decides where a line goes.
pub fn emit(line: &LineBuf, serial_ready: bool, gpu_ready: bool) -> (r: Sinks)
    ensures
        r == sinks_of(line@, serial_ready, gpu_ready),
{
    let uart: bool = if serial_ready {
        false
    } else {
        utf8_ok(line.as_slice())
    };
    Sinks { serial_ring: serial_ready, uart, console_ring: gpu_ready }
}

/// A line is what was written, in order, up to its limit, in however many
/// pieces it was written.
pub proof fn law_line_keeps_the_beginning(a: Seq<u8>, b: Seq<u8>)
    ensures
        ({
            let first = cut(a, 512);
            first + cut(b, 512 - first.len()) == cut(a + b, 512)
        }),
{
    let first = cut(a, 512);
    assert(first + cut(b, 512 - first.len()) =~= cut(a + b, 512));
}

/// The UART is written directly only while its thread does not own it.
pub proof fn law_uart_has_one_writer(line: Seq<u8>, serial_ready: bool, gpu_ready: bool)
    ensures
        ({
            let s = sinks_of(line, serial_ready, gpu_ready);
            !(s.serial_ring && s.uart)
        }),
        serial_ready ==> !sinks_of(line, serial_ready, gpu_ready).uart,
{
}

/// Collects text into chunks for the UART thread's ring.
pub struct SerialWriter {
    buf: Vec<u8>,
    chunk: usize,
}

/// What a writer holds, and how large its chunks are.
pub struct WriterView {
    pub buf: Seq<u8>,
    pub chunk: nat,
}

impl View for SerialWriter {
    type V = WriterView;

    closed spec fn view(&self) -> WriterView {
        WriterView { buf: self.buf@, chunk: self.chunk as nat }
    }
}

/// Pieces of text, one after the other.
pub open spec fn joined(pieces: Seq<Seq<u8>>) -> Seq<u8>
    decreases pieces.len(),
{
    if pieces.len() == 0 {
        Seq::empty()
    } else {
        joined(pieces.drop_last()) + pieces.last()
    }
}

/// The chunks that were handed over, and the text that waits for the next.
#[verifier::ext_equal]
pub struct SerialText {
    pub chunks: Seq<Seq<u8>>,
    pub buf: Seq<u8>,
}

/// What was handed over.
pub open spec fn chunks_of(out: Seq<Vec<u8>>) -> Seq<Seq<u8>> {
    out.map_values(|c: Vec<u8>| c@)
}

impl SerialText {
    /// Waiting text becomes a chunk.
    pub open spec fn flushed(self) -> SerialText {
        if self.buf.len() == 0 {
            self
        } else {
            SerialText { chunks: self.chunks.push(self.buf), buf: Seq::empty() }
        }
    }

    /// One more byte. A chunk of `n` bytes is full and goes first.
    pub open spec fn with_byte(self, n: nat, b: u8) -> SerialText {
        if self.buf.len() >= n {
            let f = self.flushed();
            SerialText { buf: f.buf.push(b), ..f }
        } else {
            SerialText { buf: self.buf.push(b), ..self }
        }
    }

    /// More text.
    pub open spec fn written(self, n: nat, s: Seq<u8>) -> SerialText
        decreases s.len(),
    {
        if s.len() == 0 {
            self
        } else {
            self.written(n, s.drop_last()).with_byte(n, s.last())
        }
    }

    /// A run of texts, written one after the other.
    pub open spec fn all_written(self, n: nat, texts: Seq<Seq<u8>>) -> SerialText
        decreases texts.len(),
    {
        if texts.len() == 0 {
            self
        } else {
            self.all_written(n, texts.drop_last()).written(n, texts.last())
        }
    }

    /// Whatever was handed over is full, and something waits behind it.
    spec fn even(self, n: nat) -> bool {
        &&& forall|i: int| 0 <= i < self.chunks.len() ==> (#[trigger] self.chunks[i]).len() == n
        &&& self.buf.len() <= n
        &&& self.buf.len() == 0 ==> self.chunks.len() == 0
    }
}

impl WriterView {
    pub open spec fn wf(self) -> bool {
        self.buf.len() <= self.chunk && self.chunk > 0
    }

    /// The text so far, where `out` is what was handed over.
    pub open spec fn text(self, out: Seq<Vec<u8>>) -> SerialText {
        SerialText { chunks: chunks_of(out), buf: self.buf }
    }
}

impl SerialWriter {
    /// A writer with chunks of at most `chunk` bytes.
    pub fn new(chunk: usize) -> (r: Self)
        requires
            chunk > 0,
        ensures
            r@.wf(),
            r@ == (WriterView { buf: Seq::empty(), chunk: chunk as nat }),
    {
        SerialWriter { buf: Vec::new(), chunk }
    }

    /// Hands the collected text over, if there is any.
    pub fn flush(&mut self, out: &mut Vec<Vec<u8>>)
        requires
            old(self)@.wf(),
        ensures
            final(self)@.wf(),
            final(self)@.chunk == old(self)@.chunk,
            final(self)@.text(final(out)@) == old(self)@.text(old(out)@).flushed(),
    {
        if self.buf.len() == 0 {
            return ;
        }
        let mut chunk: Vec<u8> = Vec::new();
        std::mem::swap(&mut chunk, &mut self.buf);
        out.push(chunk);
        proof {
            assert(self.buf@ =~= Seq::<u8>::empty());
            assert(chunks_of(out@) =~= chunks_of(old(out)@).push(old(self)@.buf));
        }
    }

    /// Collects text, handing over a chunk whenever one is full.
    pub fn write_bytes(&mut self, s: &[u8], out: &mut Vec<Vec<u8>>)
        requires
            old(self)@.wf(),
        ensures
            final(self)@.wf(),
            final(self)@.chunk == old(self)@.chunk,
            final(self)@.text(final(out)@) == old(self)@.text(old(out)@).written(
                old(self)@.chunk,
                s@,
            ),
    {
        let mut i: usize = 0;
        let ghost start = self@.text(out@);
        let ghost n = self@.chunk;
        while i < s.len()
            invariant
                i <= s@.len(),
                self@.wf(),
                self@.chunk == n,
                self@.text(out@) == start.written(n, s@.take(i as int)),
            decreases s@.len() - i,
        {
            let ghost before = self@.text(out@);
            if self.buf.len() >= self.chunk {
                self.flush(out);
            }
            let ghost b = self@.buf;
            self.buf.push(s[i]);
            proof {
                let t = s@.take(i + 1);
                assert(t.drop_last() =~= s@.take(i as int));
                assert(t.last() == s@[i as int]);
                assert(self@.text(out@) =~= before.with_byte(n, s@[i as int]));
            }
            i = i + 1;
        }
        proof {
            assert(s@.take(i as int) =~= s@);
        }
    }
}

proof fn lemma_written(t: SerialText, n: nat, s: Seq<u8>)
    requires
        n > 0,
        t.even(n),
    ensures
        t.written(n, s).even(n),
        joined(t.written(n, s).chunks) + t.written(n, s).buf == joined(t.chunks) + t.buf + s,
    decreases s.len(),
{
    if s.len() > 0 {
        let before = t.written(n, s.drop_last());
        lemma_written(t, n, s.drop_last());
        let b = s.last();
        let after = before.with_byte(n, b);
        assert(s =~= s.drop_last().push(b));
        if before.buf.len() >= n {
            assert(after.chunks.drop_last() =~= before.chunks);
            assert(after.buf =~= seq![b]);
            assert(joined(after.chunks) + after.buf =~= (joined(before.chunks) + before.buf).push(b));
        } else {
            assert(joined(after.chunks) + after.buf =~= (joined(before.chunks) + before.buf).push(b));
        }
        assert((joined(t.chunks) + t.buf + s.drop_last()).push(b) =~= joined(t.chunks) + t.buf + s);
    } else {
        assert(joined(t.chunks) + t.buf + s =~= joined(t.chunks) + t.buf);
    }
}

proof fn lemma_all_written(n: nat, texts: Seq<Seq<u8>>)
    requires
        n > 0,
    ensures
        ({
            let start = SerialText { chunks: Seq::empty(), buf: Seq::empty() };
            let t = start.all_written(n, texts);
            t.even(n) && joined(t.chunks) + t.buf == joined(texts)
        }),
    decreases texts.len(),
{
    let start = SerialText { chunks: Seq::empty(), buf: Seq::empty() };
    if texts.len() > 0 {
        let before = start.all_written(n, texts.drop_last());
        lemma_all_written(n, texts.drop_last());
        lemma_written(before, n, texts.last());
    } else {
        assert(joined(start.chunks) + start.buf =~= joined(texts));
    }
}

/// Whatever is written and then flushed is handed over as it is: the chunks,
/// joined, are the texts, joined. No chunk is empty, all but the last are full,
/// no text gives no chunk, and a second flush hands over nothing.
pub proof fn law_serial_chunks_are_the_text(n: nat, texts: Seq<Seq<u8>>)
    requires
        n > 0,
    ensures
        ({
            let start = SerialText { chunks: Seq::empty(), buf: Seq::empty() };
            let t = start.all_written(n, texts).flushed();
            &&& joined(t.chunks) == joined(texts)
            &&& t.buf.len() == 0
            &&& forall|i: int| 0 <= i < t.chunks.len() ==> 0 < (#[trigger] t.chunks[i]).len() <= n
            &&& forall|i: int|
                0 <= i < t.chunks.len() - 1 ==> (#[trigger] t.chunks[i]).len() == n
            &&& joined(texts).len() == 0 ==> t.chunks.len() == 0
            &&& t.flushed() == t
        }),
{
    lemma_all_written(n, texts);
    let start = SerialText { chunks: Seq::empty(), buf: Seq::empty() };
    let w = start.all_written(n, texts);
    let t = w.flushed();
    if w.buf.len() > 0 {
        assert(t.chunks.drop_last() =~= w.chunks);
        assert(t.chunks.last() == w.buf);
        assert(joined(t.chunks) == joined(texts));
        assert forall|i: int| 0 <= i < t.chunks.len() implies 0 < (#[trigger] t.chunks[i]).len()
            <= n by {
            if i < w.chunks.len() {
                assert(t.chunks[i] == w.chunks[i]);
            }
        }
        assert forall|i: int| 0 <= i < t.chunks.len() - 1 implies (#[trigger] t.chunks[i]).len()
            == n by {
            assert(t.chunks[i] == w.chunks[i]);
        }
        assert(joined(texts).len() > 0);
    } else {
        assert(joined(w.chunks) + w.buf =~= joined(w.chunks));
    }
}

/// Levels are ranked by urgency, the most urgent lowest, and no two alike.
pub proof fn law_levels_are_ranked_by_urgency(a: TraceLevel, b: TraceLevel)
    ensures
        TraceLevel::Error.spec_rank() < TraceLevel::Warn.spec_rank() < TraceLevel::Info.spec_rank()
            < TraceLevel::Debug.spec_rank() < TraceLevel::Trace.spec_rank(),
        a.spec_rank() == b.spec_rank() ==> a == b,
{
}

/// A line goes to the console whenever there is one, to the serial thread
/// whenever it runs, and else straight to the port if it is text.
pub proof fn law_a_line_goes_where_it_can_be_read(
    line: Seq<u8>,
    serial_ready: bool,
    gpu_ready: bool,
)
    ensures
        ({
            let s = sinks_of(line, serial_ready, gpu_ready);
            &&& s.console_ring <==> gpu_ready
            &&& s.serial_ring <==> serial_ready
            &&& valid_utf8(line) ==> s.serial_ring || s.uart
            &&& !valid_utf8(line) ==> !s.uart
        }),
{
}

/// A line is cut where its room ends and nowhere before.
pub proof fn law_a_line_is_cut_at_its_room(s: Seq<u8>, n: int)
    requires
        n >= 0,
    ensures
        s.len() <= n ==> cut(s, n) == s,
        s.len() > n ==> cut(s, n).len() == n && forall|i: int|
            0 <= i < n ==> #[trigger] cut(s, n)[i] == s[i],
{
}

} // verus!
