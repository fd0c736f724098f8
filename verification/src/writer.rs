//! Incremental, buffer-bounded CSV byte writer.
//!
//! The writer turns single fields, delimiters and record terminators into
//! correctly quoted CSV bytes. Every operation writes into a caller-supplied
//! output buffer and reports backpressure through [`WriteResult`]: the caller
//! retries with the unconsumed remainder of the input and fresh output space
//! until `InputEmpty` is returned. The writer never allocates and never
//! retains a buffer across calls.

use vstd::prelude::*;

verus! {

use vstd::pervasive::VecAdditionalExecFns;
use vstd::slice::slice_subrange;
use crate::numeric::is_float_lit;
use crate::numeric::recognize_float;

broadcast use vstd::slice::group_slice_axioms;

/// A record terminator: either the two-byte `\r\n` sequence or any single byte.
#[derive(Clone, Copy, Debug, PartialEq, Eq, Structural)]
pub enum Terminator {
    /// The terminator is the two bytes `\r\n`.
    CRLF,
    /// The terminator is the given single byte.
    Any(u8),
}

/// The policy that decides when a field is wrapped in quotes.
#[derive(Clone, Copy, Debug, PartialEq, Eq, Structural)]
pub enum QuoteStyle {
    /// Every field is quoted.
    Always,
    /// A field is quoted only when it contains a special byte.
    Necessary,
    /// A field is quoted unless it parses as a number.
    NonNumeric,
    /// No field is ever quoted.
    Never,
}

/// The result of a write operation: either all input was consumed, or the
/// output buffer was too small and the caller must retry with more room.
#[derive(Clone, Copy, Debug, PartialEq, Eq, Structural)]
pub enum WriteResult {
    /// All bytes from the given input have been processed.
    InputEmpty,
    /// The output buffer was too small to process all input bytes.
    OutputFull,
}

/// The bytes a terminator writes.
pub open spec fn term_bytes(t: Terminator) -> Seq<u8> {
    match t {
        Terminator::CRLF => seq![13u8, 10u8],
        Terminator::Any(b) => seq![b],
    }
}

/// True when the terminator is newline-based, so that a reader may treat a
/// bare `\r` or `\n` as a record boundary.
pub open spec fn term_is_newline(t: Terminator) -> bool {
    t == Terminator::CRLF || t == Terminator::Any(10u8) || t == Terminator::Any(13u8)
}

/// The replacement for one quote byte inside a quoted field: the quote doubled,
/// or the escape byte followed by the quote.
pub open spec fn esc_quote(q: u8, e: u8, dq: bool) -> Seq<u8> {
    if dq {
        seq![q, q]
    } else {
        seq![e, q]
    }
}

/// The body of a quoted field: `s` with every occurrence of the quote byte
/// replaced by [`esc_quote`]. All other bytes are copied verbatim.
pub open spec fn quoted_body(s: Seq<u8>, q: u8, e: u8, dq: bool) -> Seq<u8>
    decreases s.len(),
{
    if s.len() == 0 {
        Seq::empty()
    } else if s[0] == q {
        esc_quote(q, e, dq) + quoted_body(s.drop_first(), q, e, dq)
    } else {
        seq![s[0]] + quoted_body(s.drop_first(), q, e, dq)
    }
}

/// Quote-escaping distributes over concatenation.
pub proof fn lemma_quoted_body_concat(a: Seq<u8>, b: Seq<u8>, q: u8, e: u8, dq: bool)
    ensures
        quoted_body(a + b, q, e, dq) == quoted_body(a, q, e, dq) + quoted_body(b, q, e, dq),
    decreases a.len(),
{
    if a.len() == 0 {
        assert(a + b =~= b);
        assert(quoted_body(a, q, e, dq) + quoted_body(b, q, e, dq) =~= quoted_body(b, q, e, dq));
    } else {
        assert((a + b).drop_first() =~= a.drop_first() + b);
        lemma_quoted_body_concat(a.drop_first(), b, q, e, dq);
        assert(quoted_body(a + b, q, e, dq) =~= quoted_body(a, q, e, dq) + quoted_body(
            b,
            q,
            e,
            dq,
        ));
    }
}

/// A quote-free sequence escapes to itself.
pub proof fn lemma_quoted_body_plain(s: Seq<u8>, q: u8, e: u8, dq: bool)
    requires
        forall|i: int| 0 <= i < s.len() ==> s[i] != q,
    ensures
        quoted_body(s, q, e, dq) == s,
    decreases s.len(),
{
    if s.len() == 0 {
        assert(quoted_body(s, q, e, dq) =~= s);
    } else {
        lemma_quoted_body_plain(s.drop_first(), q, e, dq);
        assert(quoted_body(s, q, e, dq) =~= s);
    }
}

/// The escaped body is at most twice as long as the input.
pub proof fn lemma_quoted_body_len(s: Seq<u8>, q: u8, e: u8, dq: bool)
    ensures
        s.len() <= quoted_body(s, q, e, dq).len() <= 2 * s.len(),
    decreases s.len(),
{
    if s.len() > 0 {
        lemma_quoted_body_len(s.drop_first(), q, e, dq);
    }
}

/// True when `b` must force quoting under this configuration: the delimiter,
/// the quote, the escape byte when double-quote escaping is off, CR and LF
/// when the terminator is newline-based (else the terminator byte itself),
/// and the comment byte.
pub open spec fn is_special(
    b: u8,
    delim: u8,
    q: u8,
    e: u8,
    dq: bool,
    term: Terminator,
    comment: Option<u8>,
) -> bool {
    ||| b == delim
    ||| b == q
    ||| (!dq && b == e)
    ||| (term_is_newline(term) && (b == 10 || b == 13))
    ||| (!term_is_newline(term) && term == Terminator::Any(b))
    ||| comment == Some(b)
}

/// Saturating addition on the per-record byte counter.
pub open spec fn sat_add64(a: u64, b: nat) -> u64 {
    if a + b > u64::MAX {
        u64::MAX
    } else {
        (a + b) as u64
    }
}

/// A builder for configuring a CSV writer: delimiter, terminator, quoting
/// style, quote, escape and comment bytes. `build` produces a [`Writer`]
/// with the derived per-byte quoting table. No combination fails; at worst a
/// degenerate configuration causes excess quoting.
#[derive(Debug)]
pub struct WriterBuilder {
    /// The field delimiter byte.
    pub delimiter: u8,
    /// The record terminator.
    pub term: Terminator,
    /// The quoting style.
    pub style: QuoteStyle,
    /// The quote byte.
    pub quote: u8,
    /// The escape byte, used only when `double_quote` is off.
    pub escape: u8,
    /// Whether quotes are escaped by doubling them.
    pub double_quote: bool,
    /// An optional comment byte that forces quoting.
    pub comment: Option<u8>,
}

/// The default writer configuration: `,` delimiter, `\n` terminator,
/// `Necessary` quoting, `"` quote, `\` escape, double-quote escaping on,
/// no comment byte.
pub open spec fn default_config() -> WriterBuilder {
    WriterBuilder {
        delimiter: 44u8,
        term: Terminator::Any(10u8),
        style: QuoteStyle::Necessary,
        quote: 34u8,
        escape: 92u8,
        double_quote: true,
        comment: None,
    }
}

impl WriterBuilder {
    /// Create a new builder holding the default configuration.
    pub fn new() -> (r: WriterBuilder)
        ensures
            r == default_config(),
    {
        WriterBuilder {
            delimiter: 44,
            term: Terminator::Any(10),
            style: QuoteStyle::Necessary,
            quote: 34,
            escape: 92,
            double_quote: true,
            comment: None,
        }
    }

    /// The field delimiter to use when writing CSV. The default is `b','`.
    pub fn delimiter(&mut self, delimiter: u8) -> (r: &mut WriterBuilder)
        ensures
            *r == (WriterBuilder { delimiter, ..*old(self) }),
            *final(self) == *final(r),
    {
        self.delimiter = delimiter;
        self
    }

    /// The record terminator to use when writing CSV. The default is `\n`;
    /// RFC 4180 asks for `Terminator::CRLF`.
    pub fn terminator(&mut self, term: Terminator) -> (r: &mut WriterBuilder)
        ensures
            *r == (WriterBuilder { term, ..*old(self) }),
            *final(self) == *final(r),
    {
        self.term = term;
        self
    }

    /// The quoting style. The default, `Necessary`, quotes only fields whose
    /// bytes would otherwise corrupt the output.
    pub fn quote_style(&mut self, style: QuoteStyle) -> (r: &mut WriterBuilder)
        ensures
            *r == (WriterBuilder { style, ..*old(self) }),
            *final(self) == *final(r),
    {
        self.style = style;
        self
    }

    /// The quote byte. The default is `b'"'`.
    pub fn quote(&mut self, quote: u8) -> (r: &mut WriterBuilder)
        ensures
            *r == (WriterBuilder { quote, ..*old(self) }),
            *final(self) == *final(r),
    {
        self.quote = quote;
        self
    }

    /// The escape byte, used only when `double_quote` is disabled. The
    /// default is `b'\\'`.
    pub fn escape(&mut self, escape: u8) -> (r: &mut WriterBuilder)
        ensures
            *r == (WriterBuilder { escape, ..*old(self) }),
            *final(self) == *final(r),
    {
        self.escape = escape;
        self
    }

    /// Whether quotes are escaped by doubling them (the default), or with the
    /// escape byte.
    pub fn double_quote(&mut self, yes: bool) -> (r: &mut WriterBuilder)
        ensures
            *r == (WriterBuilder { double_quote: yes, ..*old(self) }),
            *final(self) == *final(r),
    {
        self.double_quote = yes;
        self
    }

    /// The comment byte a later reader will use. A field containing it
    /// anywhere is quoted under the `Necessary` style, so that a field
    /// starting with it stays readable.
    pub fn comment(&mut self, comment: Option<u8>) -> (r: &mut WriterBuilder)
        ensures
            *r == (WriterBuilder { comment, ..*old(self) }),
            *final(self) == *final(r),
    {
        self.comment = comment;
        self
    }

    /// Build a CSV writer from this configuration, with the 256-entry
    /// quoting table precomputed to mark exactly the special bytes.
    pub fn build(&self) -> (w: Writer)
        ensures
            w.wf(),
            w.delim() == self.delimiter,
            w.term_spec() == self.term,
            w.style_spec() == self.style,
            w.quote_ch() == self.quote,
            w.escape_ch() == self.escape,
            w.dq() == self.double_quote,
            w.comment_spec() == self.comment,
            !w.in_field(),
            !w.quoting(),
            w.record_bytes() == 0,
    {
        let mut rq: Vec<bool> = vec![false; 256];
        rq.set(self.delimiter as usize, true);
        rq.set(self.quote as usize, true);
        if !self.double_quote {
            // The escape byte needs quoting only when it is in use.
            rq.set(self.escape as usize, true);
        }
        match self.term {
            Terminator::CRLF => {
                rq.set(13, true);
                rq.set(10, true);
            },
            Terminator::Any(b) => {
                if b == 10 || b == 13 {
                    // Even when only one of `\r`/`\n` terminates records,
                    // readers treat a bare `\r` as a terminator, so both must
                    // force quoting.
                    rq.set(13, true);
                    rq.set(10, true);
                } else {
                    rq.set(b as usize, true);
                }
            },
        }
        if let Some(c) = self.comment {
            rq.set(c as usize, true);
        }
        let w = Writer {
            state: WriterState { in_field: false, quoting: false, record_bytes: 0 },
            requires_quotes: rq,
            delimiter: self.delimiter,
            term: self.term,
            style: self.style,
            quote: self.quote,
            escape: self.escape,
            double_quote: self.double_quote,
            comment: self.comment,
        };
        proof {
            assert forall|b: u8|
                #[trigger] w.requires_quotes@[b as int] == is_special(
                    b,
                    self.delimiter,
                    self.quote,
                    self.escape,
                    self.double_quote,
                    self.term,
                    self.comment,
                ) by {};
        }
        w
    }
}

struct WriterState {
    /// Set while the contents of a field are being written, even if empty.
    in_field: bool,
    /// Set while the current field is enclosed in quotes; the closing quote
    /// is still owed.
    quoting: bool,
    /// Bytes written for the current record so far; a record at zero is
    /// closed as a single empty quoted field.
    record_bytes: u64,
}

/// An incremental writer for CSV data. Each operation writes into a
/// caller-supplied output buffer and reports via [`WriteResult`] whether the
/// caller must retry with more room.
pub struct Writer {
    state: WriterState,
    requires_quotes: Vec<bool>,
    delimiter: u8,
    term: Terminator,
    style: QuoteStyle,
    quote: u8,
    escape: u8,
    double_quote: bool,
    comment: Option<u8>,
}

impl Writer {
    /// The configured field delimiter.
    pub closed spec fn delim(&self) -> u8 {
        self.delimiter
    }

    /// The configured record terminator.
    pub closed spec fn term_spec(&self) -> Terminator {
        self.term
    }

    /// The configured quoting style.
    pub closed spec fn style_spec(&self) -> QuoteStyle {
        self.style
    }

    /// The configured quote byte.
    pub closed spec fn quote_ch(&self) -> u8 {
        self.quote
    }

    /// The configured escape byte.
    pub closed spec fn escape_ch(&self) -> u8 {
        self.escape
    }

    /// Whether quotes are escaped by doubling.
    pub closed spec fn dq(&self) -> bool {
        self.double_quote
    }

    /// The configured comment byte, if any.
    pub closed spec fn comment_spec(&self) -> Option<u8> {
        self.comment
    }

    /// Whether a field write is in progress.
    pub closed spec fn in_field(&self) -> bool {
        self.state.in_field
    }

    /// Whether the current field was opened with a quote not yet closed.
    pub closed spec fn quoting(&self) -> bool {
        self.state.quoting
    }

    /// Bytes written for the current record so far (saturating).
    pub closed spec fn record_bytes(&self) -> u64 {
        self.state.record_bytes
    }

    /// Whether byte `b` is marked in the quoting table.
    pub closed spec fn marked(&self, b: u8) -> bool {
        self.requires_quotes@[b as int]
    }

    /// Well-formedness: the quoting table has 256 entries matching the
    /// configuration, and an open quote implies a field in progress with at
    /// least the opening quote already counted.
    pub closed spec fn wf(&self) -> bool {
        &&& self.requires_quotes@.len() == 256
        &&& (forall|b: u8|
            #[trigger] self.requires_quotes@[b as int] == is_special(
                b,
                self.delimiter,
                self.quote,
                self.escape,
                self.double_quote,
                self.term,
                self.comment,
            ))
        &&& (self.state.quoting ==> self.state.in_field && self.state.record_bytes > 0)
    }

    /// Two writers share the same configuration.
    pub open spec fn same_config(&self, other: &Writer) -> bool {
        &&& self.delim() == other.delim()
        &&& self.term_spec() == other.term_spec()
        &&& self.style_spec() == other.style_spec()
        &&& self.quote_ch() == other.quote_ch()
        &&& self.escape_ch() == other.escape_ch()
        &&& self.dq() == other.dq()
        &&& self.comment_spec() == other.comment_spec()
    }

    /// In a well-formed writer the quoting table marks exactly the special
    /// bytes of the configuration.
    pub proof fn lemma_marked_is_special(&self, b: u8)
        requires
            self.wf(),
        ensures
            self.marked(b) == is_special(
                b,
                self.delim(),
                self.quote_ch(),
                self.escape_ch(),
                self.dq(),
                self.term_spec(),
                self.comment_spec(),
            ),
    {
    }
}

/// A writer state from which `finish` writes no further bytes: no pending
/// empty record and no open quote.
pub open spec fn finish_writes_nothing(w: Writer) -> bool {
    !(w.record_bytes() == 0 && w.in_field()) && !w.quoting()
}

impl Writer {
    /// A writer with the default configuration.
    pub fn new() -> (w: Writer)
        ensures
            w.wf(),
            w.delim() == default_config().delimiter,
            w.term_spec() == default_config().term,
            w.style_spec() == default_config().style,
            w.quote_ch() == default_config().quote,
            w.escape_ch() == default_config().escape,
            w.dq() == default_config().double_quote,
            w.comment_spec() == default_config().comment,
            !w.in_field(),
            !w.quoting(),
            w.record_bytes() == 0,
    {
        WriterBuilder::new().build()
    }

    /// Write the configured field delimiter. Closes an open quote first. On
    /// `OutputFull` nothing but a possible closing quote was written and the
    /// call can be retried.
    pub fn delimiter(&mut self, output: &mut [u8]) -> (r: (WriteResult, usize))
        requires
            old(self).wf(),
        ensures
            final(self).wf(),
            final(self).same_config(old(self)),
            final(output)@.len() == old(output)@.len(),
            ({
                let (res, nout) = r;
                let closer: Seq<u8> = if old(self).quoting() {
                    seq![old(self).quote_ch()]
                } else {
                    Seq::<u8>::empty()
                };
                &&& nout <= old(output)@.len()
                &&& final(output)@.subrange(nout as int, old(output)@.len() as int) == old(
                    output,
                )@.subrange(nout as int, old(output)@.len() as int)
                &&& if old(self).quoting() && old(output)@.len() == 0 {
                    &&& res == WriteResult::OutputFull
                    &&& nout == 0
                    &&& *final(self) == *old(self)
                    &&& final(output)@ == old(output)@
                } else if old(output)@.len() < closer.len() + 1 {
                    &&& res == WriteResult::OutputFull
                    &&& nout == closer.len()
                    &&& final(output)@.subrange(0, nout as int) == closer
                    &&& !final(self).quoting()
                    &&& final(self).in_field() == old(self).in_field()
                    &&& final(self).record_bytes() == sat_add64(
                        old(self).record_bytes(),
                        nout as nat,
                    )
                } else {
                    &&& res == WriteResult::InputEmpty
                    &&& nout == closer.len() + 1
                    &&& final(output)@.subrange(0, nout as int) == closer + seq![
                        old(self).delim(),
                    ]
                    &&& !final(self).quoting()
                    &&& !final(self).in_field()
                    &&& final(self).record_bytes() == sat_add64(
                        old(self).record_bytes(),
                        nout as nat,
                    )
                }
            }),
    {
        let mut nout: usize = 0;
        if self.state.quoting {
            if !put_byte(output, 0, self.quote) {
                return (WriteResult::OutputFull, 0);
            }
            nout = 1;
            self.state.record_bytes = self.state.record_bytes.saturating_add(1);
            self.state.quoting = false;
        }
        if !put_byte(output, nout, self.delimiter) {
            proof {
                assert(output@.subrange(nout as int, old(output)@.len() as int)
                    =~= old(output)@.subrange(nout as int, old(output)@.len() as int));
                if nout == 1 {
                    assert(output@.subrange(0, 1) =~= seq![old(self).quote_ch()]);
                }
            }
            return (WriteResult::OutputFull, nout);
        }
        nout = nout + 1;
        self.state.record_bytes = self.state.record_bytes.saturating_add(1);
        self.state.in_field = false;
        proof {
            let closer: Seq<u8> = if old(self).quoting() {
                seq![old(self).quote_ch()]
            } else {
                Seq::<u8>::empty()
            };
            assert(output@.subrange(0, nout as int) =~= closer + seq![old(self).delim()]);
            assert(output@.subrange(nout as int, old(output)@.len() as int)
                =~= old(output)@.subrange(nout as int, old(output)@.len() as int));
        }
        (WriteResult::InputEmpty, nout)
    }

    /// Write the configured record terminator. A record with no bytes yet is
    /// first closed as a single empty quoted field, then any open quote is
    /// closed, then the one- or two-byte terminator is written all-or-nothing.
    pub fn terminator(&mut self, output: &mut [u8]) -> (r: (WriteResult, usize))
        requires
            old(self).wf(),
        ensures
            final(self).wf(),
            final(self).same_config(old(self)),
            final(output)@.len() == old(output)@.len(),
            ({
                let (res, nout) = r;
                let q = old(self).quote_ch();
                let lead: Seq<u8> = if old(self).record_bytes() == 0 {
                    seq![q, q]
                } else if old(self).quoting() {
                    seq![q]
                } else {
                    Seq::<u8>::empty()
                };
                let t = term_bytes(old(self).term_spec());
                &&& nout <= old(output)@.len()
                &&& final(output)@.subrange(nout as int, old(output)@.len() as int) == old(
                    output,
                )@.subrange(nout as int, old(output)@.len() as int)
                &&& if old(output)@.len() < lead.len() {
                    &&& res == WriteResult::OutputFull
                    &&& nout == 0
                    &&& *final(self) == *old(self)
                    &&& final(output)@ == old(output)@
                } else if old(output)@.len() < lead.len() + t.len() {
                    &&& res == WriteResult::OutputFull
                    &&& nout == lead.len()
                    &&& final(output)@.subrange(0, nout as int) == lead
                    &&& !final(self).quoting()
                    &&& final(self).in_field() == old(self).in_field()
                    &&& final(self).record_bytes() == sat_add64(
                        old(self).record_bytes(),
                        nout as nat,
                    )
                } else {
                    &&& res == WriteResult::InputEmpty
                    &&& nout == lead.len() + t.len()
                    &&& final(output)@.subrange(0, nout as int) == lead + t
                    &&& !final(self).quoting()
                    &&& !final(self).in_field()
                    &&& final(self).record_bytes() == 0
                }
            }),
    {
        let mut nout: usize = 0;
        if self.state.record_bytes == 0 {
            // By well-formedness no quote is open here.
            if !put_byte2(output, 0, self.quote, self.quote) {
                return (WriteResult::OutputFull, 0);
            }
            nout = 2;
            self.state.record_bytes = self.state.record_bytes.saturating_add(2);
        }
        if self.state.quoting {
            if !put_byte(output, nout, self.quote) {
                proof {
                    assert(output@.subrange(nout as int, old(output)@.len() as int)
                        =~= old(output)@.subrange(nout as int, old(output)@.len() as int));
                }
                return (WriteResult::OutputFull, nout);
            }
            nout = nout + 1;
            self.state.record_bytes = self.state.record_bytes.saturating_add(1);
            self.state.quoting = false;
        }
        let ghost lead: Seq<u8> = if old(self).record_bytes() == 0 {
            seq![old(self).quote_ch(), old(self).quote_ch()]
        } else if old(self).quoting() {
            seq![old(self).quote_ch()]
        } else {
            Seq::<u8>::empty()
        };
        let ok: bool = match self.term {
            Terminator::CRLF => {
                if put_byte2(output, nout, 13, 10) {
                    nout = nout + 2;
                    true
                } else {
                    false
                }
            },
            Terminator::Any(b) => {
                if put_byte(output, nout, b) {
                    nout = nout + 1;
                    true
                } else {
                    false
                }
            },
        };
        if !ok {
            proof {
                assert(output@.subrange(0, nout as int) =~= lead);
                assert(output@.subrange(nout as int, old(output)@.len() as int)
                    =~= old(output)@.subrange(nout as int, old(output)@.len() as int));
            }
            return (WriteResult::OutputFull, nout);
        }
        self.state.record_bytes = 0;
        self.state.in_field = false;
        proof {
            assert(output@.subrange(0, nout as int) =~= lead + term_bytes(old(self).term_spec()));
            assert(output@.subrange(nout as int, old(output)@.len() as int)
                =~= old(output)@.subrange(nout as int, old(output)@.len() as int));
        }
        (WriteResult::InputEmpty, nout)
    }

    /// Finish writing CSV data: close a pending empty record as `""` and
    /// close any open quote. No terminator is written. Once `finish` has
    /// returned `InputEmpty`, a second call writes nothing — the last two
    /// clauses state that idempotence.
    pub fn finish(&mut self, output: &mut [u8]) -> (r: (WriteResult, usize))
        requires
            old(self).wf(),
        ensures
            final(self).wf(),
            final(self).same_config(old(self)),
            final(output)@.len() == old(output)@.len(),
            ({
                let (res, nout) = r;
                let q = old(self).quote_ch();
                &&& nout <= old(output)@.len()
                &&& final(output)@.subrange(nout as int, old(output)@.len() as int) == old(
                    output,
                )@.subrange(nout as int, old(output)@.len() as int)
                &&& if old(self).record_bytes() == 0 && old(self).in_field() {
                    if old(output)@.len() < 2 {
                        &&& res == WriteResult::OutputFull
                        &&& nout == 0
                        &&& *final(self) == *old(self)
                        &&& final(output)@ == old(output)@
                    } else {
                        &&& res == WriteResult::InputEmpty
                        &&& nout == 2
                        &&& final(output)@.subrange(0, 2) == seq![q, q]
                        &&& !final(self).quoting()
                        &&& final(self).in_field()
                        &&& final(self).record_bytes() == 2
                    }
                } else if !old(self).quoting() {
                    &&& res == WriteResult::InputEmpty
                    &&& nout == 0
                    &&& *final(self) == *old(self)
                    &&& final(output)@ == old(output)@
                } else {
                    if old(output)@.len() < 1 {
                        &&& res == WriteResult::OutputFull
                        &&& nout == 0
                        &&& *final(self) == *old(self)
                        &&& final(output)@ == old(output)@
                    } else {
                        &&& res == WriteResult::InputEmpty
                        &&& nout == 1
                        &&& final(output)@.subrange(0, 1) == seq![q]
                        &&& !final(self).quoting()
                        &&& !final(self).in_field()
                        &&& final(self).record_bytes() == 0
                    }
                }
            }),
            r.0 == WriteResult::InputEmpty ==> finish_writes_nothing(*final(self)),
            finish_writes_nothing(*old(self)) ==> r.0 == WriteResult::InputEmpty && r.1 == 0
                && *final(self) == *old(self) && final(output)@ == old(output)@,
    {
        if self.state.record_bytes == 0 && self.state.in_field {
            // By well-formedness no quote is open here.
            if !put_byte2(output, 0, self.quote, self.quote) {
                return (WriteResult::OutputFull, 0);
            }
            self.state.record_bytes = self.state.record_bytes.saturating_add(2);
            proof {
                assert(output@.subrange(0, 2) =~= seq![
                    old(self).quote_ch(),
                    old(self).quote_ch(),
                ]);
                assert(output@.subrange(2, old(output)@.len() as int) =~= old(output)@.subrange(
                    2,
                    old(output)@.len() as int,
                ));
            }
            return (WriteResult::InputEmpty, 2);
        }
        if !self.state.quoting {
            return (WriteResult::InputEmpty, 0);
        }
        if !put_byte(output, 0, self.quote) {
            return (WriteResult::OutputFull, 0);
        }
        self.state.record_bytes = 0;
        self.state.in_field = false;
        self.state.quoting = false;
        proof {
            assert(output@.subrange(0, 1) =~= seq![old(self).quote_ch()]);
            assert(output@.subrange(1, old(output)@.len() as int) =~= old(output)@.subrange(
                1,
                old(output)@.len() as int,
            ));
        }
        (WriteResult::InputEmpty, 1)
    }
}

/// Returns true iff the input does not parse fully as a number. Acceptance
/// is exactly the float grammar of [`is_float_lit`], which subsumes integer
/// literals of any width; a byte string that is not valid UTF-8 cannot match
/// the all-ASCII grammar and is therefore non-numeric.
pub fn is_non_numeric(input: &[u8]) -> (r: bool)
    ensures
        r == !is_float_lit(input@),
{
    !recognize_float(input)
}

impl Writer {
    /// The quoting decision for field data `s` under this configuration.
    pub open spec fn should_quote_spec(&self, s: Seq<u8>) -> bool {
        match self.style_spec() {
            QuoteStyle::Always => true,
            QuoteStyle::Never => false,
            QuoteStyle::NonNumeric => !is_float_lit(s),
            QuoteStyle::Necessary => exists|i: int| 0 <= i < s.len() && self.marked(s[i]),
        }
    }

    /// True iff `b` is marked as special in this writer's quoting table.
    /// The quoting style is not consulted.
    pub fn is_special_byte(&self, b: u8) -> (r: bool)
        requires
            self.wf(),
        ensures
            r == self.marked(b),
    {
        self.requires_quotes[b as usize]
    }

    /// True iff `input` holds a byte that requires quotes under this
    /// configuration, ignoring the quoting style. Eight bytes are checked at
    /// a time for throughput; the remainder is scanned byte-wise.
    fn needs_quotes(&self, input: &[u8]) -> (r: bool)
        requires
            self.wf(),
        ensures
            r == exists|i: int| 0 <= i < input@.len() && self.marked(input@[i]),
    {
        let mut needs = false;
        let mut i: usize = 0;
        while !needs && input.len() - i >= 8
            invariant
                self.wf(),
                i <= input@.len(),
                needs ==> exists|k: int| 0 <= k < i && self.marked(input@[k]),
                !needs ==> forall|k: int| 0 <= k < i ==> !self.marked(input@[k]),
            decreases input@.len() - i,
        {
            needs = self.is_special_byte(input[i]) || self.is_special_byte(input[i + 1])
                || self.is_special_byte(input[i + 2]) || self.is_special_byte(input[i + 3])
                || self.is_special_byte(input[i + 4]) || self.is_special_byte(input[i + 5])
                || self.is_special_byte(input[i + 6]) || self.is_special_byte(input[i + 7]);
            i = i + 8;
        }
        if needs {
            return true;
        }
        let mut j = i;
        while j < input.len()
            invariant
                self.wf(),
                i <= j <= input@.len(),
                forall|k: int| 0 <= k < j ==> !self.marked(input@[k]),
            decreases input@.len() - j,
        {
            if self.is_special_byte(input[j]) {
                return true;
            }
            j = j + 1;
        }
        false
    }

    /// True iff the given field data should be put in quotes, taking the
    /// quoting style into account.
    pub fn should_quote(&self, input: &[u8]) -> (r: bool)
        requires
            self.wf(),
        ensures
            r == self.should_quote_spec(input@),
    {
        match self.style {
            QuoteStyle::Always => true,
            QuoteStyle::Never => false,
            QuoteStyle::NonNumeric => is_non_numeric(input),
            QuoteStyle::Necessary => self.needs_quotes(input),
        }
    }

    /// Whether a field write is currently in progress.
    pub(crate) fn is_in_field(&self) -> (r: bool)
        ensures
            r == self.in_field(),
    {
        self.state.in_field
    }

    /// The delimiter used by this writer.
    pub fn get_delimiter(&self) -> (r: u8)
        ensures
            r == self.delim(),
    {
        self.delimiter
    }

    /// The terminator used by this writer.
    pub fn get_terminator(&self) -> (r: Terminator)
        ensures
            r == self.term_spec(),
    {
        self.term
    }

    /// The quoting style used by this writer.
    pub fn get_quote_style(&self) -> (r: QuoteStyle)
        ensures
            r == self.style_spec(),
    {
        self.style
    }

    /// The quote byte used by this writer.
    pub fn get_quote(&self) -> (r: u8)
        ensures
            r == self.quote_ch(),
    {
        self.quote
    }

    /// The escape byte used by this writer.
    pub fn get_escape(&self) -> (r: u8)
        ensures
            r == self.escape_ch(),
    {
        self.escape
    }

    /// Whether this writer escapes quotes by doubling them; when false, it
    /// uses the escape byte instead.
    pub fn get_double_quote(&self) -> (r: bool)
        ensures
            r == self.dq(),
    {
        self.double_quote
    }
}

/// Under the `Necessary` style a field must be quoted iff it contains a
/// special byte: the delimiter, the quote, the escape byte when double-quote
/// escaping is off, `\r` or `\n` when the terminator is newline-based (else
/// the terminator byte itself), or the comment byte.
pub proof fn lemma_necessary_quoting(w: Writer, s: Seq<u8>)
    requires
        w.wf(),
        w.style_spec() == QuoteStyle::Necessary,
    ensures
        w.should_quote_spec(s) <==> exists|i: int|
            0 <= i < s.len() && is_special(
                s[i],
                w.delim(),
                w.quote_ch(),
                w.escape_ch(),
                w.dq(),
                w.term_spec(),
                w.comment_spec(),
            ),
{
    if w.should_quote_spec(s) {
        let i = choose|i: int| 0 <= i < s.len() && w.marked(s[i]);
        w.lemma_marked_is_special(s[i]);
        assert(is_special(
            s[i],
            w.delim(),
            w.quote_ch(),
            w.escape_ch(),
            w.dq(),
            w.term_spec(),
            w.comment_spec(),
        ));
    }
    if exists|i: int|
        0 <= i < s.len() && is_special(
            s[i],
            w.delim(),
            w.quote_ch(),
            w.escape_ch(),
            w.dq(),
            w.term_spec(),
            w.comment_spec(),
        ) {
        let i = choose|i: int|
            0 <= i < s.len() && is_special(
                s[i],
                w.delim(),
                w.quote_ch(),
                w.escape_ch(),
                w.dq(),
                w.term_spec(),
                w.comment_spec(),
            );
        w.lemma_marked_is_special(s[i]);
        assert(w.marked(s[i]));
    }
}

/// Two well-formed writers with the same configuration make the same
/// quoting decisions.
pub proof fn lemma_should_quote_same(a: Writer, b: Writer, s: Seq<u8>)
    requires
        a.wf(),
        b.wf(),
        a.same_config(&b),
    ensures
        a.should_quote_spec(s) == b.should_quote_spec(s),
{
    assert forall|x: u8| a.marked(x) == b.marked(x) by {
        a.lemma_marked_is_special(x);
        b.lemma_marked_is_special(x);
    }
    if a.style_spec() == QuoteStyle::Necessary {
        if a.should_quote_spec(s) {
            let i = choose|i: int| 0 <= i < s.len() && a.marked(s[i]);
            assert(b.marked(s[i]));
        }
        if b.should_quote_spec(s) {
            let i = choose|i: int| 0 <= i < s.len() && b.marked(s[i]);
            assert(a.marked(s[i]));
        }
    }
}

/// A reader's interpretation of a quoted-field body: every occurrence of the
/// two-byte escape pair stands for one quote byte, all other bytes stand for
/// themselves.
pub open spec fn unescape_body(s: Seq<u8>, q: u8, e: u8, dq: bool) -> Seq<u8>
    decreases s.len(),
{
    if s.len() == 0 {
        Seq::empty()
    } else if s.len() >= 2 && s.subrange(0, 2) == esc_quote(q, e, dq) {
        seq![q] + unescape_body(s.skip(2), q, e, dq)
    } else {
        seq![s[0]] + unescape_body(s.drop_first(), q, e, dq)
    }
}

/// Round trip: un-escaping the escaped body of any field gives back the
/// field, byte for byte, for every quote and escape byte and in both
/// escaping modes.
pub proof fn lemma_quoted_body_roundtrip(x: Seq<u8>, q: u8, e: u8, dq: bool)
    ensures
        unescape_body(quoted_body(x, q, e, dq), q, e, dq) == x,
    decreases x.len(),
{
    let m = esc_quote(q, e, dq);
    if x.len() == 0 {
        assert(unescape_body(quoted_body(x, q, e, dq), q, e, dq) =~= x);
    } else if x[0] == q {
        let s = quoted_body(x, q, e, dq);
        let rest = quoted_body(x.drop_first(), q, e, dq);
        assert(s == m + rest);
        assert(s.len() >= 2);
        assert(s.subrange(0, 2) =~= m);
        assert(s.skip(2) =~= rest);
        lemma_quoted_body_roundtrip(x.drop_first(), q, e, dq);
        assert(unescape_body(s, q, e, dq) =~= x);
    } else {
        let s = quoted_body(x, q, e, dq);
        let rest = quoted_body(x.drop_first(), q, e, dq);
        assert(s == seq![x[0]] + rest);
        // The plain branch applies: the first two bytes cannot form the
        // escape pair, whose second byte is the quote.
        if s.len() >= 2 && s.subrange(0, 2) == m {
            assert(s[1] == m[1] && m[1] == q);
            assert(rest[0] == q);
            if x.drop_first().len() > 0 && x.drop_first()[0] == q {
                assert(rest[0] == m[0]);
                assert(s[0] == x[0] && s[0] == m[0]);
                assert(x[0] == if dq {
                    q
                } else {
                    e
                });
                assert(m[0] == if dq {
                    q
                } else {
                    e
                });
                assert(rest[0] == if dq {
                    q
                } else {
                    e
                });
                // rest[0] == q forces e == q, making x[0] == q: contradiction
                assert(false);
            } else {
                if x.drop_first().len() == 0 {
                    assert(rest.len() == 0);
                    assert(false);
                } else {
                    assert(rest[0] == x.drop_first()[0]);
                    assert(x.drop_first()[0] != q);
                    assert(false);
                }
            }
        }
        assert(s.drop_first() =~= rest);
        lemma_quoted_body_roundtrip(x.drop_first(), q, e, dq);
        assert(unescape_body(s, q, e, dq) =~= x);
    }
}

/// Round trip at the field level: encoding loses no information. A field
/// the policy quotes is recovered by un-escaping the bytes between its
/// quotes; a field left bare under the `Necessary` style contains neither
/// the delimiter, the quote, the escape in use, a newline byte of a
/// newline-based terminator (else the terminator byte), nor the comment
/// byte, so a reader splitting on those recovers it verbatim.
pub proof fn lemma_field_roundtrip(w: Writer, f: Seq<u8>)
    requires
        w.wf(),
    ensures
        w.should_quote_spec(f) ==> unescape_body(
            quoted_body(f, w.quote_ch(), w.escape_ch(), w.dq()),
            w.quote_ch(),
            w.escape_ch(),
            w.dq(),
        ) == f,
        w.style_spec() == QuoteStyle::Necessary && !w.should_quote_spec(f) ==> forall|i: int|
            0 <= i < f.len() ==> !is_special(
                f[i],
                w.delim(),
                w.quote_ch(),
                w.escape_ch(),
                w.dq(),
                w.term_spec(),
                w.comment_spec(),
            ),
{
    lemma_quoted_body_roundtrip(f, w.quote_ch(), w.escape_ch(), w.dq());
    if w.style_spec() == QuoteStyle::Necessary && !w.should_quote_spec(f) {
        assert forall|i: int| 0 <= i < f.len() implies !is_special(
            f[i],
            w.delim(),
            w.quote_ch(),
            w.escape_ch(),
            w.dq(),
            w.term_spec(),
            w.comment_spec(),
        ) by {
            w.lemma_marked_is_special(f[i]);
        }
    }
}

/// Write `b` at `output[at]` if there is room; report whether it fit.
fn put_byte(output: &mut [u8], at: usize, b: u8) -> (ok: bool)
    ensures
        ok <==> at < old(output)@.len(),
        final(output)@.len() == old(output)@.len(),
        ok ==> final(output)@ == old(output)@.update(at as int, b),
        !ok ==> final(output)@ == old(output)@,
{
    if at < output.len() {
        output[at] = b;
        true
    } else {
        false
    }
}

/// Write `b0` and `b1` at `output[at..at + 2]`, all or nothing.
fn put_byte2(output: &mut [u8], at: usize, b0: u8, b1: u8) -> (ok: bool)
    requires
        at <= old(output)@.len(),
    ensures
        ok <==> at + 2 <= old(output)@.len(),
        final(output)@.len() == old(output)@.len(),
        ok ==> final(output)@ == old(output)@.update(at as int, b0).update(at + 1, b1),
        !ok ==> final(output)@ == old(output)@,
{
    if output.len() - at >= 2 {
        output[at] = b0;
        output[at + 1] = b1;
        true
    } else {
        false
    }
}

/// Copy as much of `input` as fits into `output[from..]`: everything when it
/// fits (`InputEmpty`), else exactly the bytes that fill the buffer
/// (`OutputFull`). Returns the count copied.
fn write_optimistic(input: &[u8], output: &mut [u8], from: usize) -> (r: (WriteResult, usize))
    requires
        from <= old(output)@.len(),
    ensures
        ({
            let (res, n) = r;
            &&& n <= input@.len()
            &&& from + n <= old(output)@.len()
            &&& (input@.len() <= old(output)@.len() - from ==> n == input@.len())
            &&& (input@.len() > old(output)@.len() - from ==> from + n == old(output)@.len())
            &&& (res == WriteResult::InputEmpty <==> n == input@.len())
            &&& final(output)@.len() == old(output)@.len()
            &&& final(output)@ == old(output)@.subrange(0, from as int) + input@.subrange(
                0,
                n as int,
            ) + old(output)@.subrange(from + n, old(output)@.len() as int)
        }),
{
    let space = output.len() - from;
    let n: usize = if input.len() <= space {
        input.len()
    } else {
        space
    };
    let mut j: usize = 0;
    while j < n
        invariant
            j <= n,
            n <= input@.len(),
            from + n <= output@.len() <= usize::MAX,
            output@.len() == old(output)@.len(),
            forall|k: int| 0 <= k < j ==> output@[from + k] == input@[k],
            forall|k: int|
                0 <= k < output@.len() && !(from <= k < from + j) ==> output@[k] == old(
                    output,
                )@[k],
        decreases n - j,
    {
        output[from + j] = input[j];
        j += 1;
    }
    proof {
        assert(output@ =~= old(output)@.subrange(0, from as int) + input@.subrange(0, n as int)
            + old(output)@.subrange(from + n, old(output)@.len() as int));
    }
    if n == input.len() {
        (WriteResult::InputEmpty, n)
    } else {
        (WriteResult::OutputFull, n)
    }
}

/// Relies on `memchr::memchr`: returns the index of the first occurrence of
/// `needle` in `haystack`, or `None` when it does not occur.
#[verifier::external_body]
fn find_byte(needle: u8, haystack: &[u8]) -> (r: Option<usize>)
    ensures
        match r {
            Some(i) => i < haystack@.len() && haystack@[i as int] == needle && forall|j: int|
                0 <= j < i ==> haystack@[j] != needle,
            None => forall|j: int| 0 <= j < haystack@.len() ==> haystack@[j] != needle,
        },
{
    memchr::memchr(needle, haystack)
}

/// Escape the quotes of `input` and write the result to `output[from..]`:
/// quote-free runs are copied verbatim, each quote byte `q` becomes the
/// escape pair. Returns the result tag, the bytes consumed from `input` and
/// the bytes written after `from`. On `OutputFull` the output is either full
/// or has fewer than the two bytes an escape pair needs; retry with the
/// unconsumed remainder of `input` and fresh output space.
#[verifier::rlimit(80)]
pub fn quote(
    input: &[u8],
    output: &mut [u8],
    from: usize,
    q: u8,
    esc: u8,
    double_quote: bool,
) -> (r: (WriteResult, usize, usize))
    requires
        from <= old(output)@.len(),
    ensures
        ({
            let (res, nin, nout) = r;
            &&& nin <= input@.len()
            &&& from + nout <= old(output)@.len()
            &&& final(output)@.len() == old(output)@.len()
            &&& final(output)@.subrange(from as int, from + nout) == quoted_body(
                input@.subrange(0, nin as int),
                q,
                esc,
                double_quote,
            )
            &&& (forall|k: int| 0 <= k < from ==> final(output)@[k] == old(output)@[k])
            &&& (forall|k: int|
                from + nout <= k < old(output)@.len() ==> final(output)@[k] == old(output)@[k])
            &&& (res == WriteResult::InputEmpty <==> nin == input@.len())
            &&& (res == WriteResult::OutputFull ==> from + nout == old(output)@.len() || old(
                output,
            )@.len() - (from + nout) < 2)
        }),
{
    let in_len: usize = input.len();
    let out_len: usize = output.len();
    let mut nin: usize = 0;
    let mut nout: usize = 0;
    loop
        invariant
            in_len == input@.len(),
            out_len == output@.len(),
            nin <= input@.len(),
            from <= old(output)@.len(),
            from + nout <= output@.len(),
            output@.len() == old(output)@.len(),
            output@.subrange(from as int, from + nout) == quoted_body(
                input@.subrange(0, nin as int),
                q,
                esc,
                double_quote,
            ),
            forall|k: int| 0 <= k < from ==> output@[k] == old(output)@[k],
            forall|k: int| from + nout <= k < output@.len() ==> output@[k] == old(output)@[k],
        decreases input@.len() - nin,
    {
        let ghost done = input@.subrange(0, nin as int);
        let ghost written = output@.subrange(from as int, from + nout);
        let rest = slice_subrange(input, nin, input.len());
        match find_byte(q, rest) {
            None => {
                let (res, n) = write_optimistic(rest, output, from + nout);
                proof {
                    assert(input@.subrange(0, nin + n) =~= done + rest@.subrange(0, n as int));
                    lemma_quoted_body_concat(
                        done,
                        rest@.subrange(0, n as int),
                        q,
                        esc,
                        double_quote,
                    );
                    lemma_quoted_body_plain(rest@.subrange(0, n as int), q, esc, double_quote);
                    assert(output@.subrange(from as int, from + nout + n) =~= written
                        + rest@.subrange(0, n as int));
                }
                return (res, nin + n, nout + n);
            },
            Some(k) => {
                let run = slice_subrange(input, nin, nin + k);
                let (res, n) = write_optimistic(run, output, from + nout);
                proof {
                    assert(run@ == rest@.subrange(0, k as int));
                    assert(input@.subrange(0, nin + n) =~= done + run@.subrange(0, n as int));
                    lemma_quoted_body_concat(
                        done,
                        run@.subrange(0, n as int),
                        q,
                        esc,
                        double_quote,
                    );
                    lemma_quoted_body_plain(run@.subrange(0, n as int), q, esc, double_quote);
                    assert(output@.subrange(from as int, from + nout + n) =~= written
                        + run@.subrange(0, n as int));
                }
                nin = nin + n;
                nout = nout + n;
                if res == WriteResult::OutputFull {
                    return (WriteResult::OutputFull, nin, nout);
                }
                if output.len() - (from + nout) < 2 {
                    return (WriteResult::OutputFull, nin, nout);
                }
                let ghost done2 = input@.subrange(0, nin as int);
                let ghost written2 = output@.subrange(from as int, from + nout);
                let b0 = if double_quote {
                    q
                } else {
                    esc
                };
                output[from + nout] = b0;
                output[from + nout + 1] = q;
                proof {
                    assert(input@[nin as int] == q);
                    assert(input@.subrange(0, nin + 1) =~= done2 + seq![q]);
                    lemma_quoted_body_concat(done2, seq![q], q, esc, double_quote);
                    assert(seq![q].drop_first() =~= Seq::<u8>::empty());
                    assert(quoted_body(Seq::<u8>::empty(), q, esc, double_quote)
                        == Seq::<u8>::empty());
                    assert(quoted_body(seq![q], q, esc, double_quote) == esc_quote(
                        q,
                        esc,
                        double_quote,
                    ) + quoted_body(seq![q].drop_first(), q, esc, double_quote));
                    assert(quoted_body(seq![q], q, esc, double_quote) =~= esc_quote(
                        q,
                        esc,
                        double_quote,
                    ));
                    assert(output@.subrange(from as int, from + nout + 2) =~= written2 + esc_quote(
                        q,
                        esc,
                        double_quote,
                    ));
                }
                nin = nin + 1;
                nout = nout + 2;
            },
        }
    }
}

impl Writer {
    /// Write a single CSV field from `input` to `output` under this writer's
    /// quoting style, returning the result tag, the bytes consumed from
    /// `input` and the bytes written to `output`.
    ///
    /// On the first call for a new field the quoting decision is made from
    /// `input` (so under `Necessary` quoting, `input` should hold the entire
    /// field) and an opening quote is written if needed; further calls
    /// extend the same field without a new decision. On `OutputFull` the
    /// caller retries with the unconsumed remainder of `input`. The output
    /// never exceeds `2 + 2 * input.len()` bytes.
    pub fn field(&mut self, input: &[u8], output: &mut [u8]) -> (r: (WriteResult, usize, usize))
        requires
            old(self).wf(),
        ensures
            final(self).wf(),
            final(self).same_config(old(self)),
            final(output)@.len() == old(output)@.len(),
            ({
                let (res, nin, nout) = r;
                let sq = if old(self).in_field() {
                    old(self).quoting()
                } else {
                    old(self).should_quote_spec(input@)
                };
                let opener: Seq<u8> = if !old(self).in_field() && sq {
                    seq![old(self).quote_ch()]
                } else {
                    Seq::empty()
                };
                let body: Seq<u8> = if sq {
                    quoted_body(
                        input@.subrange(0, nin as int),
                        old(self).quote_ch(),
                        old(self).escape_ch(),
                        old(self).dq(),
                    )
                } else {
                    input@.subrange(0, nin as int)
                };
                &&& nin <= input@.len()
                &&& nout <= old(output)@.len()
                &&& if !old(self).in_field() && sq && old(output)@.len() == 0 {
                    &&& res == WriteResult::OutputFull
                    &&& nin == 0
                    &&& nout == 0
                    &&& *final(self) == *old(self)
                    &&& final(output)@ == old(output)@
                } else {
                    &&& final(output)@.subrange(0, nout as int) == opener + body
                    &&& final(output)@.subrange(nout as int, old(output)@.len() as int) == old(
                        output,
                    )@.subrange(nout as int, old(output)@.len() as int)
                    &&& final(self).in_field()
                    &&& final(self).quoting() == sq
                    &&& final(self).record_bytes() == sat_add64(
                        old(self).record_bytes(),
                        nout as nat,
                    )
                    &&& (res == WriteResult::InputEmpty <==> nin == input@.len())
                    &&& (res == WriteResult::OutputFull ==> nout == old(output)@.len() || (sq
                        && old(output)@.len() - nout < 2))
                }
            }),
    {
        let out_len: usize = output.len();
        let mut start: usize = 0;
        if !self.state.in_field {
            let sq = self.should_quote(input);
            if sq {
                if !put_byte(output, 0, self.quote) {
                    return (WriteResult::OutputFull, 0, 0);
                }
                start = 1;
                self.state.record_bytes = self.state.record_bytes.saturating_add(1);
                self.state.quoting = true;
            }
            self.state.in_field = true;
        }
        if self.state.quoting {
            let (res, i, o) = quote(
                input,
                output,
                start,
                self.quote,
                self.escape,
                self.double_quote,
            );
            self.state.record_bytes = self.state.record_bytes.saturating_add(o as u64);
            proof {
                let nout = start + o;
                let opener: Seq<u8> = if start == 1 {
                    seq![old(self).quote_ch()]
                } else {
                    Seq::empty()
                };
                assert(output@.subrange(0, nout as int) =~= opener + output@.subrange(
                    start as int,
                    start + o,
                ));
                assert(output@.subrange(nout as int, old(output)@.len() as int)
                    =~= old(output)@.subrange(nout as int, old(output)@.len() as int));
            }
            (res, i, start + o)
        } else {
            let (res, n) = write_optimistic(input, output, start);
            self.state.record_bytes = self.state.record_bytes.saturating_add(n as u64);
            proof {
                assert(start == 0);
                assert(output@.subrange(0, n as int) =~= Seq::<u8>::empty() + input@.subrange(
                    0,
                    n as int,
                ));
                assert(output@.subrange(n as int, old(output)@.len() as int)
                    =~= old(output)@.subrange(n as int, old(output)@.len() as int));
            }
            (res, n, n)
        }
    }
}

} // verus!
