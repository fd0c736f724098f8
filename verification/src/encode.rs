//! Record and header encoding: flattening typed values into ordered field
//! writes through the byte writer core.
//!
//! [`RecordEncoder`] owns a [`Writer`] and a growing output buffer; each
//! typed entry point appends one field, preceded by a delimiter when the
//! record already holds one. [`SeHeader`] is the header-writing mode: a
//! four-state machine that accepts exactly one level of struct fields and
//! rejects bare scalars outside a struct and containers inside one.

use vstd::prelude::*;

verus! {

use vstd::slice::slice_subrange;
use vstd::string::StringExecFns;
use vstd::string::StringSliceAdditionalSpecFns;
use vstd::utf8::encode_utf8;
use crate::numeric::dec_digits;
use crate::numeric::dec_digits_signed;
use crate::numeric::lemma_dec_digits_len_u128;
use crate::numeric::true_bytes;
use crate::numeric::false_bytes;
use crate::writer::Writer;
use crate::writer::WriteResult;
use crate::writer::lemma_quoted_body_len;
use crate::writer::lemma_should_quote_same;
use crate::writer::quoted_body;
use crate::writer::term_bytes;
use crate::writer::finish_writes_nothing;

broadcast use vstd::slice::group_slice_axioms;

/// The bytes one field write appends: a separator when a field is already
/// open (its closing quote, then the delimiter), then the field itself,
/// quoted and escaped when the quoting policy asks for it.
pub open spec fn field_encoding(w: Writer, data: Seq<u8>) -> Seq<u8> {
    let sep: Seq<u8> = if w.in_field() {
        (if w.quoting() {
            seq![w.quote_ch()]
        } else {
            Seq::empty()
        }) + seq![w.delim()]
    } else {
        Seq::empty()
    };
    let body: Seq<u8> = if w.should_quote_spec(data) {
        seq![w.quote_ch()] + quoted_body(data, w.quote_ch(), w.escape_ch(), w.dq())
    } else {
        data
    };
    sep + body
}

/// The bytes a terminator write appends: the empty-record placeholder `""`
/// when nothing was written for this record, else a closing quote if one is
/// open, then the terminator bytes.
pub open spec fn terminator_encoding(w: Writer) -> Seq<u8> {
    let lead: Seq<u8> = if w.record_bytes() == 0 {
        seq![w.quote_ch(), w.quote_ch()]
    } else if w.quoting() {
        seq![w.quote_ch()]
    } else {
        Seq::empty()
    };
    lead + term_bytes(w.term_spec())
}

/// The bytes `finish` appends: the `""` placeholder for a pending empty
/// record, or a closing quote, or nothing.
pub open spec fn finish_encoding(w: Writer) -> Seq<u8> {
    if w.record_bytes() == 0 && w.in_field() {
        seq![w.quote_ch(), w.quote_ch()]
    } else if w.quoting() {
        seq![w.quote_ch()]
    } else {
        Seq::empty()
    }
}

/// Append every byte of `piece` to `out`.
fn append_bytes(out: &mut Vec<u8>, piece: &[u8])
    ensures
        final(out)@ == old(out)@ + piece@,
{
    let mut i: usize = 0;
    while i < piece.len()
        invariant
            i <= piece@.len(),
            out@ == old(out)@ + piece@.subrange(0, i as int),
        decreases piece@.len() - i,
    {
        proof {
            assert(piece@.subrange(0, i + 1) =~= piece@.subrange(0, i as int) + seq![
                piece@[i as int],
            ]);
        }
        out.push(piece[i]);
        i += 1;
    }
    proof {
        assert(piece@.subrange(0, piece@.len() as int) =~= piece@);
    }
}

/// Relies on itoa: formats `v` as its decimal digits, most significant
/// first.
#[verifier::external_body]
fn format_u128(v: u128) -> (r: Vec<u8>)
    ensures
        r@ == dec_digits(v as nat),
{
    let mut buffer = itoa::Buffer::new();
    buffer.format(v).as_bytes().to_vec()
}

/// Relies on itoa: formats `v` as an optional minus sign followed by the
/// decimal digits of its magnitude.
#[verifier::external_body]
fn format_i128(v: i128) -> (r: Vec<u8>)
    ensures
        r@ == dec_digits_signed(v as int),
{
    let mut buffer = itoa::Buffer::new();
    buffer.format(v).as_bytes().to_vec()
}

/// Relies on char::encode_utf8: the UTF-8 bytes of one character, at most
/// four of them.
#[verifier::external_body]
fn char_bytes(c: char) -> (r: Vec<u8>)
    ensures
        r@ == encode_utf8(seq![c]),
        1 <= r@.len() <= 4,
{
    let mut buf = [0u8; 4];
    c.encode_utf8(&mut buf).as_bytes().to_vec()
}

/// An encoder failure: a value shape that has no CSV encoding, or a header
/// rule violation.
#[derive(Clone, Debug, PartialEq, Eq)]
pub enum SerializeError {
    /// A bare scalar at the top level while writing headers from structs.
    ScalarOutsideStruct {
        /// A description of the scalar.
        name: String,
    },
    /// A container nested inside a struct field while writing headers.
    ContainerInsideStruct {
        /// A description of the container.
        name: String,
    },
    /// A shape with no CSV convention: a map, or an enum variant with a
    /// payload.
    Unsupported {
        /// A description of the shape.
        what: String,
    },
}

/// The error for a scalar serialized outside a struct while writing headers.
pub fn error_scalar_outside_struct(name: &str) -> (r: SerializeError)
    ensures
        r matches SerializeError::ScalarOutsideStruct { name: n } && n@ == name@,
{
    SerializeError::ScalarOutsideStruct { name: String::from_str(name) }
}

/// The error for a container serialized inside a struct field while writing
/// headers.
pub fn error_container_inside_struct(name: &str) -> (r: SerializeError)
    ensures
        r matches SerializeError::ContainerInsideStruct { name: n } && n@ == name@,
{
    SerializeError::ContainerInsideStruct { name: String::from_str(name) }
}

/// A record encoder: flattens a value field by field into CSV bytes held in
/// an owned, growing output buffer. Worst-case buffer space is provisioned
/// per call, so no operation here reports backpressure.
pub struct RecordEncoder {
    wtr: Writer,
    out: Vec<u8>,
}

impl RecordEncoder {
    /// The CSV bytes written so far.
    pub closed spec fn written(&self) -> Seq<u8> {
        self.out@
    }

    /// The underlying writer, with its configuration and state.
    pub closed spec fn writer(&self) -> Writer {
        self.wtr
    }

    /// Well-formedness of the underlying writer.
    pub open spec fn wf(&self) -> bool {
        self.writer().wf()
    }

    /// Wrap a configured writer. The writer must be fresh: no field in
    /// progress and no bytes counted for the current record.
    pub fn new(wtr: Writer) -> (r: RecordEncoder)
        requires
            wtr.wf(),
        ensures
            r.wf(),
            r.writer() == wtr,
            r.written() == Seq::<u8>::empty(),
    {
        RecordEncoder { wtr, out: Vec::new() }
    }

    /// The bytes written so far.
    pub fn output(&self) -> (r: &Vec<u8>)
        ensures
            r@ == self.written(),
    {
        &self.out
    }

    /// Consume the encoder and hand the written bytes out.
    pub fn into_output(self) -> (r: Vec<u8>)
        ensures
            r@ == self.written(),
    {
        self.out
    }

    /// Append one field: a delimiter first when a field was already written
    /// for this record, then `data`, quoted and escaped as the configured
    /// policy demands.
    pub fn write_field(&mut self, data: &[u8])
        requires
            old(self).wf(),
            data@.len() <= (usize::MAX - 2) / 2,
        ensures
            final(self).wf(),
            final(self).writer().same_config(&old(self).writer()),
            final(self).written() == old(self).written() + field_encoding(
                old(self).writer(),
                data@,
            ),
            final(self).writer().in_field(),
            final(self).writer().quoting() == old(self).writer().should_quote_spec(data@),
            final(self).writer().record_bytes() == 0 <==> (old(self).writer().record_bytes() == 0
                && field_encoding(old(self).writer(), data@).len() == 0),
    {
        let ghost w0 = self.wtr;
        let ghost out0 = self.out@;
        let ghost sep: Seq<u8> = if w0.in_field() {
            (if w0.quoting() {
                seq![w0.quote_ch()]
            } else {
                Seq::<u8>::empty()
            }) + seq![w0.delim()]
        } else {
            Seq::<u8>::empty()
        };
        if self.wtr.is_in_field() {
            let mut buf: Vec<u8> = vec![0u8; 2];
            let (res, n) = self.wtr.delimiter(buf.as_mut_slice());
            let piece = slice_subrange(buf.as_slice(), 0, n);
            append_bytes(&mut self.out, piece);
            proof {
                assert(piece@ =~= sep);
            }
        }
        let ghost w1 = self.wtr;
        let ghost out1 = self.out@;
        proof {
            assert(out1 =~= out0 + sep);
            lemma_should_quote_same(w1, w0, data@);
        }
        let cap: usize = 2 * data.len() + 2;
        let mut buf: Vec<u8> = vec![0u8; cap];
        let (res, nin, nout) = self.wtr.field(data, buf.as_mut_slice());
        proof {
            let sq = w1.should_quote_spec(data@);
            let consumed = data@.subrange(0, nin as int);
            lemma_quoted_body_len(consumed, w1.quote_ch(), w1.escape_ch(), w1.dq());
            if res == WriteResult::OutputFull {
                assert(!w1.in_field());
                let opener: Seq<u8> = if sq {
                    seq![w1.quote_ch()]
                } else {
                    Seq::empty()
                };
                let body: Seq<u8> = if sq {
                    quoted_body(consumed, w1.quote_ch(), w1.escape_ch(), w1.dq())
                } else {
                    consumed
                };
                assert(buf@.subrange(0, nout as int) == opener + body);
                assert(buf@.subrange(0, nout as int).len() == nout);
                assert(nout == opener.len() + body.len());
                assert(nin < data@.len());
                assert(consumed.len() == nin as int);
                assert(body.len() <= 2 * nin);
                assert(nout <= 1 + 2 * nin);
                assert(nout == cap || cap - nout < 2);
                assert(false);
            }
            assert(nin == data@.len());
            assert(data@.subrange(0, nin as int) =~= data@);
        }
        let piece = slice_subrange(buf.as_slice(), 0, nout);
        append_bytes(&mut self.out, piece);
        proof {
            let sq = w0.should_quote_spec(data@);
            let body: Seq<u8> = if sq {
                seq![w0.quote_ch()] + quoted_body(data@, w0.quote_ch(), w0.escape_ch(), w0.dq())
            } else {
                data@
            };
            assert(piece@ =~= body);
            assert(self.out@ =~= out0 + (sep + body));
            assert(field_encoding(w0, data@) == sep + body);
        }
    }

    /// Append the record terminator, closing the record: the `""`
    /// placeholder when the record holds no bytes, a closing quote when one
    /// is open, then the terminator bytes.
    pub fn write_terminator(&mut self)
        requires
            old(self).wf(),
        ensures
            final(self).wf(),
            final(self).writer().same_config(&old(self).writer()),
            final(self).written() == old(self).written() + terminator_encoding(
                old(self).writer(),
            ),
            !final(self).writer().in_field(),
            !final(self).writer().quoting(),
            final(self).writer().record_bytes() == 0,
    {
        let ghost w0 = self.wtr;
        let mut buf: Vec<u8> = vec![0u8; 4];
        let (res, n) = self.wtr.terminator(buf.as_mut_slice());
        let piece = slice_subrange(buf.as_slice(), 0, n);
        append_bytes(&mut self.out, piece);
        proof {
            assert(piece@ =~= terminator_encoding(w0));
        }
    }

    /// Close any open field and quote without writing a terminator. A
    /// pending empty record is closed as `""`. Idempotent: after one call,
    /// another appends nothing.
    pub fn finish(&mut self)
        requires
            old(self).wf(),
        ensures
            final(self).wf(),
            final(self).writer().same_config(&old(self).writer()),
            final(self).written() == old(self).written() + finish_encoding(old(self).writer()),
            finish_writes_nothing(final(self).writer()),
            finish_encoding(final(self).writer()) == Seq::<u8>::empty(),
    {
        let ghost w0 = self.wtr;
        let mut buf: Vec<u8> = vec![0u8; 2];
        let (res, n) = self.wtr.finish(buf.as_mut_slice());
        let piece = slice_subrange(buf.as_slice(), 0, n);
        append_bytes(&mut self.out, piece);
        proof {
            assert(piece@ =~= finish_encoding(w0));
        }
    }

    /// Append a boolean field: the bytes `true` or `false`.
    pub fn write_bool(&mut self, v: bool)
        requires
            old(self).wf(),
        ensures
            final(self).wf(),
            final(self).writer().same_config(&old(self).writer()),
            final(self).written() == old(self).written() + field_encoding(
                old(self).writer(),
                if v {
                    true_bytes()
                } else {
                    false_bytes()
                },
            ),
            final(self).writer().in_field(),
    {
        let data: Vec<u8> = if v {
            vec![116, 114, 117, 101]
        } else {
            vec![102, 97, 108, 115, 101]
        };
        proof {
            if v {
                assert(data@ =~= true_bytes());
            } else {
                assert(data@ =~= false_bytes());
            }
        }
        self.write_field(data.as_slice());
    }

    /// Append an unsigned integer field in decimal.
    pub fn write_u64(&mut self, v: u64)
        requires
            old(self).wf(),
        ensures
            final(self).wf(),
            final(self).writer().same_config(&old(self).writer()),
            final(self).written() == old(self).written() + field_encoding(
                old(self).writer(),
                dec_digits(v as nat),
            ),
            final(self).writer().in_field(),
    {
        self.write_u128(v as u128);
    }

    /// Append an unsigned integer field in decimal.
    pub fn write_u8(&mut self, v: u8)
        requires
            old(self).wf(),
        ensures
            final(self).wf(),
            final(self).writer().same_config(&old(self).writer()),
            final(self).written() == old(self).written() + field_encoding(
                old(self).writer(),
                dec_digits(v as nat),
            ),
            final(self).writer().in_field(),
    {
        self.write_u128(v as u128);
    }

    /// Append an unsigned integer field in decimal.
    pub fn write_u16(&mut self, v: u16)
        requires
            old(self).wf(),
        ensures
            final(self).wf(),
            final(self).writer().same_config(&old(self).writer()),
            final(self).written() == old(self).written() + field_encoding(
                old(self).writer(),
                dec_digits(v as nat),
            ),
            final(self).writer().in_field(),
    {
        self.write_u128(v as u128);
    }

    /// Append an unsigned integer field in decimal.
    pub fn write_u32(&mut self, v: u32)
        requires
            old(self).wf(),
        ensures
            final(self).wf(),
            final(self).writer().same_config(&old(self).writer()),
            final(self).written() == old(self).written() + field_encoding(
                old(self).writer(),
                dec_digits(v as nat),
            ),
            final(self).writer().in_field(),
    {
        self.write_u128(v as u128);
    }

    /// Append a signed integer field in decimal.
    pub fn write_i8(&mut self, v: i8)
        requires
            old(self).wf(),
        ensures
            final(self).wf(),
            final(self).writer().same_config(&old(self).writer()),
            final(self).written() == old(self).written() + field_encoding(
                old(self).writer(),
                dec_digits_signed(v as int),
            ),
            final(self).writer().in_field(),
    {
        self.write_i128(v as i128);
    }

    /// Append a signed integer field in decimal.
    pub fn write_i16(&mut self, v: i16)
        requires
            old(self).wf(),
        ensures
            final(self).wf(),
            final(self).writer().same_config(&old(self).writer()),
            final(self).written() == old(self).written() + field_encoding(
                old(self).writer(),
                dec_digits_signed(v as int),
            ),
            final(self).writer().in_field(),
    {
        self.write_i128(v as i128);
    }

    /// Append a signed integer field in decimal.
    pub fn write_i32(&mut self, v: i32)
        requires
            old(self).wf(),
        ensures
            final(self).wf(),
            final(self).writer().same_config(&old(self).writer()),
            final(self).written() == old(self).written() + field_encoding(
                old(self).writer(),
                dec_digits_signed(v as int),
            ),
            final(self).writer().in_field(),
    {
        self.write_i128(v as i128);
    }

    /// Append an unsigned integer field in decimal.
    pub fn write_u128(&mut self, v: u128)
        requires
            old(self).wf(),
        ensures
            final(self).wf(),
            final(self).writer().same_config(&old(self).writer()),
            final(self).written() == old(self).written() + field_encoding(
                old(self).writer(),
                dec_digits(v as nat),
            ),
            final(self).writer().in_field(),
    {
        let data = format_u128(v);
        proof {
            lemma_dec_digits_len_u128(v as nat);
        }
        self.write_field(data.as_slice());
    }

    /// Append a signed integer field in decimal.
    pub fn write_i64(&mut self, v: i64)
        requires
            old(self).wf(),
        ensures
            final(self).wf(),
            final(self).writer().same_config(&old(self).writer()),
            final(self).written() == old(self).written() + field_encoding(
                old(self).writer(),
                dec_digits_signed(v as int),
            ),
            final(self).writer().in_field(),
    {
        self.write_i128(v as i128);
    }

    /// Append a signed integer field in decimal.
    pub fn write_i128(&mut self, v: i128)
        requires
            old(self).wf(),
        ensures
            final(self).wf(),
            final(self).writer().same_config(&old(self).writer()),
            final(self).written() == old(self).written() + field_encoding(
                old(self).writer(),
                dec_digits_signed(v as int),
            ),
            final(self).writer().in_field(),
    {
        let data = format_i128(v);
        proof {
            if v >= 0 {
                lemma_dec_digits_len_u128(v as nat);
            } else {
                lemma_dec_digits_len_u128((-(v as int)) as nat);
            }
        }
        self.write_field(data.as_slice());
    }

    /// Append a text field.
    pub fn write_str(&mut self, s: &str)
        requires
            old(self).wf(),
            s.spec_bytes().len() <= (usize::MAX - 2) / 2,
        ensures
            final(self).wf(),
            final(self).writer().same_config(&old(self).writer()),
            final(self).written() == old(self).written() + field_encoding(
                old(self).writer(),
                s.spec_bytes(),
            ),
            final(self).writer().in_field(),
    {
        self.write_field(s.as_bytes());
    }

    /// Append a raw byte field.
    pub fn write_bytes(&mut self, data: &[u8])
        requires
            old(self).wf(),
            data@.len() <= (usize::MAX - 2) / 2,
        ensures
            final(self).wf(),
            final(self).writer().same_config(&old(self).writer()),
            final(self).written() == old(self).written() + field_encoding(
                old(self).writer(),
                data@,
            ),
            final(self).writer().in_field(),
    {
        self.write_field(data);
    }

    /// Append an absent optional value as an empty field.
    pub fn write_none(&mut self)
        requires
            old(self).wf(),
        ensures
            final(self).wf(),
            final(self).writer().same_config(&old(self).writer()),
            final(self).written() == old(self).written() + field_encoding(
                old(self).writer(),
                Seq::<u8>::empty(),
            ),
            final(self).writer().in_field(),
    {
        let data: Vec<u8> = Vec::new();
        self.write_field(data.as_slice());
    }

    /// Append a single-character field as its UTF-8 bytes.
    pub fn write_char(&mut self, c: char)
        requires
            old(self).wf(),
        ensures
            final(self).wf(),
            final(self).writer().same_config(&old(self).writer()),
            final(self).written() == old(self).written() + field_encoding(
                old(self).writer(),
                encode_utf8(seq![c]),
            ),
            final(self).writer().in_field(),
    {
        let data = char_bytes(c);
        self.write_field(data.as_slice());
    }

    /// Maps have no canonical CSV encoding; refuse them with a descriptive
    /// error rather than guessing one.
    pub fn begin_map(&mut self) -> (r: Result<(), SerializeError>)
        ensures
            *final(self) == *old(self),
            r matches Err(e) && e matches SerializeError::Unsupported { what } && what@
                == "map"@,
    {
        Err(SerializeError::Unsupported { what: String::from_str("map") })
    }

    /// Enum variants carrying payloads have no CSV encoding; only unit
    /// variants, written as their names, are supported.
    pub fn begin_payload_variant(&mut self) -> (r: Result<(), SerializeError>)
        ensures
            *final(self) == *old(self),
            r matches Err(e) && e matches SerializeError::Unsupported { what } && what@
                == "enum variant with a payload"@,
    {
        Err(SerializeError::Unsupported { what: String::from_str("enum variant with a payload") })
    }
}

/// The state of the header encoder.
#[derive(Clone, Debug, PartialEq, Eq)]
pub enum HeaderState {
    /// Nothing encountered yet; headers are written if struct fields come.
    Write,
    /// A bare scalar was seen first: if a struct field turns up later,
    /// writing headers was wrong and this deferred error is returned.
    ErrorIfWrite(SerializeError),
    /// One or more struct fields were encountered and their names written.
    EncounteredStructField,
    /// Currently inside a struct field's value.
    InStructField,
}

/// The header-writing mode of the encoder: accepts exactly one level of
/// struct fields, writes their names as a header row, and rejects a bare
/// scalar at the top level as well as a container nested inside a field.
pub struct SeHeader {
    enc: RecordEncoder,
    state: HeaderState,
}

impl SeHeader {
    /// The machine's current state.
    pub closed spec fn state_spec(&self) -> HeaderState {
        self.state
    }

    /// The wrapped encoder.
    pub closed spec fn encoder(&self) -> RecordEncoder {
        self.enc
    }

    /// The header bytes written so far.
    pub open spec fn written(&self) -> Seq<u8> {
        self.encoder().written()
    }

    /// Well-formedness of the wrapped encoder.
    pub open spec fn wf(&self) -> bool {
        self.encoder().wf()
    }

    /// Start writing headers through `enc`.
    pub fn new(enc: RecordEncoder) -> (r: SeHeader)
        ensures
            r.state_spec() == HeaderState::Write,
            r.encoder() == enc,
    {
        SeHeader { enc, state: HeaderState::Write }
    }

    /// Whether any header name has been written: true exactly in the two
    /// states reached through a struct field.
    pub fn wrote_header(&self) -> (r: bool)
        ensures
            r == (self.state_spec() is EncounteredStructField || self.state_spec()
                is InStructField),
    {
        match self.state {
            HeaderState::Write => false,
            HeaderState::ErrorIfWrite(_) => false,
            HeaderState::EncounteredStructField => true,
            HeaderState::InStructField => true,
        }
    }

    /// A scalar was encountered. At the start this defers an error (a bare
    /// scalar means no headers should be written unless a struct field
    /// appears); inside a struct field it is the field's value and is fine;
    /// after struct fields it is an error.
    pub fn handle_scalar(&mut self, name: &str) -> (r: Result<(), SerializeError>)
        ensures
            final(self).encoder() == old(self).encoder(),
            match old(self).state_spec() {
                HeaderState::Write => {
                    &&& r is Ok
                    &&& final(self).state_spec() matches HeaderState::ErrorIfWrite(e)
                        && e matches SerializeError::ScalarOutsideStruct { name: n } && n@
                        == name@
                },
                HeaderState::ErrorIfWrite(_) => {
                    &&& r is Ok
                    &&& final(self).state_spec() == old(self).state_spec()
                },
                HeaderState::InStructField => {
                    &&& r is Ok
                    &&& final(self).state_spec() == old(self).state_spec()
                },
                HeaderState::EncounteredStructField => {
                    &&& final(self).state_spec() == old(self).state_spec()
                    &&& r matches Err(e) && e matches SerializeError::ScalarOutsideStruct {
                        name: n,
                    } && n@ == name@
                },
            },
    {
        match self.state {
            HeaderState::Write => {
                self.state = HeaderState::ErrorIfWrite(error_scalar_outside_struct(name));
                Ok(())
            },
            HeaderState::ErrorIfWrite(_) => Ok(()),
            HeaderState::InStructField => Ok(()),
            HeaderState::EncounteredStructField => Err(error_scalar_outside_struct(name)),
        }
    }

    /// A container (sequence, tuple or struct) was encountered. Inside a
    /// struct field's value it is rejected: headers may only name the
    /// struct's direct fields.
    pub fn handle_container(&mut self, name: &str) -> (r: Result<(), SerializeError>)
        ensures
            final(self).encoder() == old(self).encoder(),
            final(self).state_spec() == old(self).state_spec(),
            match old(self).state_spec() {
                HeaderState::InStructField => r matches Err(e) && e matches
                    SerializeError::ContainerInsideStruct { name: n } && n@ == name@,
                _ => r is Ok,
            },
    {
        if let HeaderState::InStructField = self.state {
            Err(error_container_inside_struct(name))
        } else {
            Ok(())
        }
    }

    /// A struct field with name `key` begins. If a bare scalar came first,
    /// its deferred error is returned; otherwise the key is written as a
    /// header field and the machine enters the field's value.
    pub fn begin_struct_field(&mut self, key: &str) -> (r: Result<(), SerializeError>)
        requires
            old(self).wf(),
            key.spec_bytes().len() <= (usize::MAX - 2) / 2,
        ensures
            final(self).wf(),
            match old(self).state_spec() {
                HeaderState::ErrorIfWrite(e) => r == Err::<(), SerializeError>(e) && final(self).state_spec() == HeaderState::EncounteredStructField && final(self).encoder()
                    == old(self).encoder(),
                _ => {
                    &&& r is Ok
                    &&& final(self).state_spec() == HeaderState::InStructField
                    &&& final(self).written() == old(self).written() + field_encoding(
                        old(self).encoder().writer(),
                        key.spec_bytes(),
                    )
                    &&& final(self).encoder().writer().same_config(
                        &old(self).encoder().writer(),
                    )
                    &&& final(self).encoder().writer().in_field()
                },
            },
    {
        let mut prev = HeaderState::EncounteredStructField;
        core::mem::swap(&mut prev, &mut self.state);
        if let HeaderState::ErrorIfWrite(err) = prev {
            return Err(err);
        }
        self.enc.write_field(key.as_bytes());
        self.state = HeaderState::InStructField;
        Ok(())
    }

    /// The current struct field's value has ended.
    pub fn end_struct_field(&mut self)
        ensures
            final(self).encoder() == old(self).encoder(),
            final(self).state_spec() == HeaderState::EncounteredStructField,
    {
        self.state = HeaderState::EncounteredStructField;
    }

    /// Hand the encoder back, for example to write the terminator after the
    /// header row.
    pub fn into_encoder(self) -> (r: RecordEncoder)
        ensures
            r == self.encoder(),
    {
        self.enc
    }
}

} // verus!
