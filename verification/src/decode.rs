//! Typed decoding of already-tokenized CSV records.
//!
//! A [`RecordDecoder`] walks one record's fields (optionally paired with a
//! header record) and converts them through typed entry points —
//! `decode_bool`, `decode_u64`, `decode_string`, … — or through
//! [`RecordDecoder::decode_any`], which infers the type of an unconstrained
//! field by trying boolean, unsigned and signed integers, a float, and
//! finally text or raw bytes. Every error carries the zero-based index of
//! the field being processed when it is known.

use vstd::prelude::*;

verus! {

use vstd::slice::slice_subrange;
use vstd::slice::slice_to_vec;
use vstd::utf8::valid_utf8;
use vstd::utf8::decode_utf8;
use crate::numeric::true_bytes;
use crate::numeric::false_bytes;
use crate::numeric::int_field_unsigned;
use crate::numeric::int_field_signed;
use crate::numeric::is_float_lit;
use crate::numeric::parse_unsigned;
use crate::numeric::parse_signed;
use crate::numeric::parse_unsigned_bytes;
use crate::numeric::parse_signed_bytes;
use crate::numeric::parse_hex_unsigned_bytes;
use crate::numeric::parse_hex_signed_bytes;
use crate::numeric::recognize_float;
use vstd::string::StringSliceAdditionalSpecFns;

broadcast use vstd::slice::group_slice_axioms;

/// The kind of a decoding error.
#[derive(Clone, Debug, PartialEq, Eq)]
pub enum DeserializeErrorKind {
    /// A generic error with a descriptive message.
    Message(String),
    /// A conversion-protocol request with no CSV meaning.
    Unsupported(String),
    /// A value needed another field, but the row had no more.
    UnexpectedEndOfRow,
    /// A field failed UTF-8 validation where text was required.
    InvalidUtf8,
    /// A boolean field failed to parse.
    ParseBool,
    /// An integer field failed to parse.
    ParseInt,
    /// A float field failed to parse.
    ParseFloat,
}

impl DeserializeErrorKind {
    /// A short fixed description of this error kind.
    pub fn description(&self) -> (r: &'static str)
        ensures
            r@ == match *self {
                DeserializeErrorKind::Message(_) => "deserialization error"@,
                DeserializeErrorKind::Unsupported(_) => "unsupported deserializer method"@,
                DeserializeErrorKind::UnexpectedEndOfRow => "expected field, but got end of row"@,
                DeserializeErrorKind::InvalidUtf8 => "invalid utf-8 in field"@,
                DeserializeErrorKind::ParseBool => "error parsing boolean"@,
                DeserializeErrorKind::ParseInt => "error parsing integer"@,
                DeserializeErrorKind::ParseFloat => "error parsing float"@,
            },
    {
        match *self {
            DeserializeErrorKind::Message(_) => "deserialization error",
            DeserializeErrorKind::Unsupported(_) => "unsupported deserializer method",
            DeserializeErrorKind::UnexpectedEndOfRow => "expected field, but got end of row",
            DeserializeErrorKind::InvalidUtf8 => "invalid utf-8 in field",
            DeserializeErrorKind::ParseBool => "error parsing boolean",
            DeserializeErrorKind::ParseInt => "error parsing integer",
            DeserializeErrorKind::ParseFloat => "error parsing float",
        }
    }
}

/// A decoding error: its kind, and the zero-based index of the field being
/// processed when the failure occurred, if one is known.
#[derive(Clone, Debug, PartialEq, Eq)]
pub struct DeserializeError {
    field: Option<u64>,
    kind: DeserializeErrorKind,
}

impl DeserializeError {
    /// The recorded field index.
    pub closed spec fn field_spec(&self) -> Option<u64> {
        self.field
    }

    /// The recorded kind.
    pub closed spec fn kind_spec(&self) -> DeserializeErrorKind {
        self.kind
    }

    /// Return the field index (starting at 0) of this error, if available.
    pub fn field(&self) -> (r: Option<u64>)
        ensures
            r == self.field_spec(),
    {
        self.field
    }

    /// Return the underlying error kind.
    pub fn kind(&self) -> (r: &DeserializeErrorKind)
        ensures
            *r == self.kind_spec(),
    {
        &self.kind
    }

    /// A generic error carrying a message and no field index.
    pub fn custom(msg: String) -> (r: DeserializeError)
        ensures
            r.field_spec() is None,
            r.kind_spec() == DeserializeErrorKind::Message(msg),
    {
        DeserializeError { field: None, kind: DeserializeErrorKind::Message(msg) }
    }
}

/// The error returned when a row runs out of fields: no index, kind
/// `UnexpectedEndOfRow`.
pub open spec fn is_end_of_row_err(e: DeserializeError) -> bool {
    e.field_spec() is None && e.kind_spec() is UnexpectedEndOfRow
}

/// A decoder over one record: an ordered sequence of byte fields, an
/// optional parallel header record, and cursors into both.
pub struct RecordDecoder {
    fields: Vec<Vec<u8>>,
    headers: Option<Vec<Vec<u8>>>,
    pos: usize,
    hpos: usize,
}

/// One field was consumed: the cursor moved forward once and nothing else
/// changed.
pub open spec fn took_field(pre: RecordDecoder, post: RecordDecoder) -> bool {
    &&& pre.pos_spec() < pre.fields_spec().len()
    &&& post.pos_spec() == pre.pos_spec() + 1
    &&& post.fields_spec() == pre.fields_spec()
    &&& post.headers_spec() == pre.headers_spec()
    &&& post.hpos_spec() == pre.hpos_spec()
}

/// The field under the cursor.
pub open spec fn cur_field(d: RecordDecoder) -> Seq<u8>
    recommends
        d.pos_spec() < d.fields_spec().len(),
{
    d.fields_spec()[d.pos_spec() as int]
}

/// The row is exhausted: nothing changed and the end-of-row error came back.
pub open spec fn row_exhausted(
    pre: RecordDecoder,
    post: RecordDecoder,
    e: DeserializeError,
) -> bool {
    &&& pre.pos_spec() == pre.fields_spec().len()
    &&& post == pre
    &&& is_end_of_row_err(e)
}

/// The consumed field was not valid UTF-8 where text was required.
pub open spec fn bad_utf8(pre: RecordDecoder, post: RecordDecoder, e: DeserializeError) -> bool {
    &&& took_field(pre, post)
    &&& !valid_utf8(cur_field(pre))
    &&& e.field_spec() == Some(pre.pos_spec() as u64)
    &&& e.kind_spec() is InvalidUtf8
}

/// The consumed field was text but failed to parse, with the given kind.
pub open spec fn parse_failed(
    pre: RecordDecoder,
    post: RecordDecoder,
    e: DeserializeError,
    kind: DeserializeErrorKind,
) -> bool {
    &&& took_field(pre, post)
    &&& valid_utf8(cur_field(pre))
    &&& e.field_spec() == Some(pre.pos_spec() as u64)
    &&& e.kind_spec() == kind
}

/// What a boolean field must hold: exactly `true` or `false`.
pub open spec fn bool_field(s: Seq<u8>) -> Option<bool> {
    if s == true_bytes() {
        Some(true)
    } else if s == false_bytes() {
        Some(false)
    } else {
        None
    }
}

/// Relies on std's `str::from_utf8` / `to_string`: succeeds exactly on
/// valid UTF-8 and returns the decoded characters.
#[verifier::external_body]
fn bytes_to_string(v: &[u8]) -> (r: Option<String>)
    ensures
        match r {
            Some(s) => valid_utf8(v@) && s@ == decode_utf8(v@),
            None => !valid_utf8(v@),
        },
{
    match core::str::from_utf8(v) {
        Ok(s) => Some(s.to_string()),
        Err(_) => None,
    }
}

/// Byte-for-byte equality of two slices.
fn bytes_eq(a: &[u8], b: &[u8]) -> (r: bool)
    ensures
        r == (a@ == b@),
{
    if a.len() != b.len() {
        proof {
            assert(a@.len() != b@.len());
        }
        return false;
    }
    let mut i: usize = 0;
    while i < a.len()
        invariant
            i <= a@.len(),
            a@.len() == b@.len(),
            forall|k: int| 0 <= k < i ==> a@[k] == b@[k],
        decreases a@.len() - i,
    {
        if a[i] != b[i] {
            return false;
        }
        i = i + 1;
    }
    proof {
        assert(a@ =~= b@);
    }
    true
}

impl RecordDecoder {
    /// The record's fields.
    pub closed spec fn fields_spec(&self) -> Seq<Seq<u8>> {
        self.fields.deep_view()
    }

    /// The header record's fields, when one was supplied.
    pub closed spec fn headers_spec(&self) -> Option<Seq<Seq<u8>>> {
        match self.headers {
            Some(h) => Some(h.deep_view()),
            None => None,
        }
    }

    /// The index of the next field to consume.
    pub closed spec fn pos_spec(&self) -> usize {
        self.pos
    }

    /// The index of the next header to consume.
    pub closed spec fn hpos_spec(&self) -> usize {
        self.hpos
    }

    /// Cursors stay within their records.
    pub open spec fn wf(&self) -> bool {
        &&& self.pos_spec() <= self.fields_spec().len()
        &&& match self.headers_spec() {
            Some(h) => self.hpos_spec() <= h.len(),
            None => self.hpos_spec() == 0,
        }
    }

    /// Start decoding `fields`, optionally keyed by `headers`.
    pub fn new(fields: Vec<Vec<u8>>, headers: Option<Vec<Vec<u8>>>) -> (r: RecordDecoder)
        ensures
            r.wf(),
            r.fields_spec() == fields.deep_view(),
            r.headers_spec() == match headers {
                Some(h) => Some(h.deep_view()),
                None => None::<Seq<Seq<u8>>>,
            },
            r.pos_spec() == 0,
            r.hpos_spec() == 0,
    {
        RecordDecoder { fields, headers, pos: 0, hpos: 0 }
    }

    /// True iff this decoder has access to headers.
    pub fn has_headers(&self) -> (r: bool)
        ensures
            r == (self.headers_spec() is Some),
    {
        self.headers.is_some()
    }

    /// An error tagged with the index of the most recently extracted field.
    pub fn error(&self, kind: DeserializeErrorKind) -> (e: DeserializeError)
        ensures
            e.field_spec() == Some(
                if self.pos_spec() == 0 {
                    0u64
                } else {
                    (self.pos_spec() - 1) as u64
                },
            ),
            e.kind_spec() == kind,
    {
        let idx: usize = if self.pos == 0 {
            0
        } else {
            self.pos - 1
        };
        DeserializeError { field: Some(idx as u64), kind }
    }

    /// Look at the next field without consuming it; `None` at end of row.
    pub fn peek_field(&self) -> (r: Option<Vec<u8>>)
        requires
            self.wf(),
        ensures
            match r {
                Some(v) => self.pos_spec() < self.fields_spec().len() && v@ == cur_field(*self),
                None => self.pos_spec() == self.fields_spec().len(),
            },
    {
        if self.pos < self.fields.len() {
            let v = slice_to_vec(self.fields[self.pos].as_slice());
            Some(v)
        } else {
            None
        }
    }

    /// Extract the next raw byte field.
    pub fn next_field_bytes(&mut self) -> (r: Result<Vec<u8>, DeserializeError>)
        requires
            old(self).wf(),
        ensures
            final(self).wf(),
            match r {
                Ok(v) => took_field(*old(self), *final(self)) && v@ == cur_field(*old(self)),
                Err(e) => row_exhausted(*old(self), *final(self), e),
            },
    {
        if self.pos < self.fields.len() {
            let v = slice_to_vec(self.fields[self.pos].as_slice());
            self.pos = self.pos + 1;
            Ok(v)
        } else {
            Err(DeserializeError { field: None, kind: DeserializeErrorKind::UnexpectedEndOfRow })
        }
    }

    /// Extract the next field as text; the field must be valid UTF-8.
    pub fn next_field(&mut self) -> (r: Result<String, DeserializeError>)
        requires
            old(self).wf(),
        ensures
            final(self).wf(),
            match r {
                Ok(s) => took_field(*old(self), *final(self)) && valid_utf8(cur_field(*old(self)))
                    && s@ == decode_utf8(cur_field(*old(self))),
                Err(e) => row_exhausted(*old(self), *final(self), e) || bad_utf8(
                    *old(self),
                    *final(self),
                    e,
                ),
            },
    {
        let v = match self.next_field_bytes() {
            Ok(v) => v,
            Err(e) => {
                return Err(e);
            },
        };
        match bytes_to_string(v.as_slice()) {
            Some(s) => Ok(s),
            None => Err(self.error(DeserializeErrorKind::InvalidUtf8)),
        }
    }

    /// Extract the next raw header value: `None` when no headers were
    /// supplied or they are exhausted.
    pub fn next_header_bytes(&mut self) -> (r: Option<Vec<u8>>)
        requires
            old(self).wf(),
        ensures
            final(self).wf(),
            final(self).fields_spec() == old(self).fields_spec(),
            final(self).headers_spec() == old(self).headers_spec(),
            final(self).pos_spec() == old(self).pos_spec(),
            match r {
                Some(v) => {
                    &&& old(self).headers_spec() matches Some(h)
                    &&& old(self).hpos_spec() < h.len()
                    &&& v@ == h[old(self).hpos_spec() as int]
                    &&& final(self).hpos_spec() == old(self).hpos_spec() + 1
                },
                None => {
                    &&& final(self).hpos_spec() == old(self).hpos_spec()
                    &&& match old(self).headers_spec() {
                        Some(h) => old(self).hpos_spec() == h.len(),
                        None => true,
                    }
                },
            },
    {
        match &self.headers {
            Some(h) => {
                if self.hpos < h.len() {
                    let v = slice_to_vec(h[self.hpos].as_slice());
                    self.hpos = self.hpos + 1;
                    Some(v)
                } else {
                    None
                }
            },
            None => None,
        }
    }

    /// Extract the next header value as text; it must be valid UTF-8.
    pub fn next_header(&mut self) -> (r: Result<Option<String>, DeserializeError>)
        requires
            old(self).wf(),
        ensures
            final(self).wf(),
            final(self).fields_spec() == old(self).fields_spec(),
            final(self).headers_spec() == old(self).headers_spec(),
            final(self).pos_spec() == old(self).pos_spec(),
            match r {
                Ok(opt) => match opt {
                    Some(s) => {
                        &&& old(self).headers_spec() matches Some(h)
                        &&& old(self).hpos_spec() < h.len()
                        &&& valid_utf8(h[old(self).hpos_spec() as int])
                        &&& s@ == decode_utf8(h[old(self).hpos_spec() as int])
                        &&& final(self).hpos_spec() == old(self).hpos_spec() + 1
                    },
                    None => {
                        &&& final(self).hpos_spec() == old(self).hpos_spec()
                        &&& match old(self).headers_spec() {
                            Some(h) => old(self).hpos_spec() == h.len(),
                            None => true,
                        }
                    },
                },
                Err(e) => {
                    &&& old(self).headers_spec() matches Some(h)
                    &&& old(self).hpos_spec() < h.len()
                    &&& !valid_utf8(h[old(self).hpos_spec() as int])
                    &&& final(self).hpos_spec() == old(self).hpos_spec() + 1
                    &&& e.kind_spec() is InvalidUtf8
                },
            },
    {
        match self.next_header_bytes() {
            Some(v) => {
                match bytes_to_string(v.as_slice()) {
                    Some(s) => Ok(Some(s)),
                    None => Err(self.error(DeserializeErrorKind::InvalidUtf8)),
                }
            },
            None => Ok(None),
        }
    }

    /// Read and drop the next field, for example a column the destination
    /// has no use for.
    pub fn skip_field(&mut self) -> (r: Result<(), DeserializeError>)
        requires
            old(self).wf(),
        ensures
            final(self).wf(),
            match r {
                Ok(_) => took_field(*old(self), *final(self)),
                Err(e) => row_exhausted(*old(self), *final(self), e),
            },
    {
        match self.next_field_bytes() {
            Ok(_) => Ok(()),
            Err(e) => Err(e),
        }
    }

    /// Decode the next field as raw bytes.
    pub fn decode_bytes(&mut self) -> (r: Result<Vec<u8>, DeserializeError>)
        requires
            old(self).wf(),
        ensures
            final(self).wf(),
            match r {
                Ok(v) => took_field(*old(self), *final(self)) && v@ == cur_field(*old(self)),
                Err(e) => row_exhausted(*old(self), *final(self), e),
            },
    {
        self.next_field_bytes()
    }

    /// Decode the next field as text.
    pub fn decode_string(&mut self) -> (r: Result<String, DeserializeError>)
        requires
            old(self).wf(),
        ensures
            final(self).wf(),
            match r {
                Ok(s) => took_field(*old(self), *final(self)) && valid_utf8(cur_field(*old(self)))
                    && s@ == decode_utf8(cur_field(*old(self))),
                Err(e) => row_exhausted(*old(self), *final(self), e) || bad_utf8(
                    *old(self),
                    *final(self),
                    e,
                ),
            },
    {
        self.next_field()
    }

    /// Decode the next field as a boolean: exactly the text `true` or
    /// `false`.
    pub fn decode_bool(&mut self) -> (r: Result<bool, DeserializeError>)
        requires
            old(self).wf(),
        ensures
            final(self).wf(),
            match r {
                Ok(b) => took_field(*old(self), *final(self)) && valid_utf8(cur_field(*old(self)))
                    && bool_field(cur_field(*old(self))) == Some(b),
                Err(e) => row_exhausted(*old(self), *final(self), e) || bad_utf8(
                    *old(self),
                    *final(self),
                    e,
                ) || (parse_failed(*old(self), *final(self), e, DeserializeErrorKind::ParseBool)
                    && bool_field(cur_field(*old(self))) is None),
            },
    {
        let v = match self.next_field_bytes() {
            Ok(v) => v,
            Err(e) => {
                return Err(e);
            },
        };
        match bytes_to_string(v.as_slice()) {
            Some(_) => {},
            None => {
                return Err(self.error(DeserializeErrorKind::InvalidUtf8));
            },
        }
        let t: Vec<u8> = vec![116, 114, 117, 101];
        let f: Vec<u8> = vec![102, 97, 108, 115, 101];
        proof {
            assert(t@ =~= true_bytes());
            assert(f@ =~= false_bytes());
        }
        if bytes_eq(v.as_slice(), t.as_slice()) {
            Ok(true)
        } else if bytes_eq(v.as_slice(), f.as_slice()) {
            Ok(false)
        } else {
            Err(self.error(DeserializeErrorKind::ParseBool))
        }
    }

    /// Decode the next field as an unsigned integer bounded by `max`:
    /// decimal, or hexadecimal with a `0x` prefix.
    fn take_unsigned(&mut self, max: u128) -> (r: Result<u128, DeserializeError>)
        requires
            old(self).wf(),
        ensures
            final(self).wf(),
            match r {
                Ok(v) => took_field(*old(self), *final(self)) && valid_utf8(
                    cur_field(*old(self)),
                ) && int_field_unsigned(cur_field(*old(self)), max as nat) == Some(v as nat) && v
                    <= max,
                Err(e) => row_exhausted(*old(self), *final(self), e) || bad_utf8(
                    *old(self),
                    *final(self),
                    e,
                ) || (parse_failed(*old(self), *final(self), e, DeserializeErrorKind::ParseInt)
                    && int_field_unsigned(cur_field(*old(self)), max as nat) is None),
            },
    {
        let v = match self.next_field_bytes() {
            Ok(v) => v,
            Err(e) => {
                return Err(e);
            },
        };
        match bytes_to_string(v.as_slice()) {
            Some(_) => {},
            None => {
                return Err(self.error(DeserializeErrorKind::InvalidUtf8));
            },
        }
        let s = v.as_slice();
        let parsed: Option<u128> = if s.len() >= 2 && s[0] == 48 && s[1] == 120 {
            let rest = slice_subrange(s, 2, s.len());
            parse_hex_unsigned_bytes(rest, max)
        } else {
            parse_unsigned_bytes(s, max)
        };
        match parsed {
            Some(x) => Ok(x),
            None => Err(self.error(DeserializeErrorKind::ParseInt)),
        }
    }

    /// Decode the next field as a signed integer with range
    /// `[-(neg_mag_max), pos_max]`, returned as a sign and a magnitude:
    /// decimal, or hexadecimal with a `0x` prefix.
    fn take_signed(&mut self, neg_mag_max: u128, pos_max: u128) -> (r: Result<
        (bool, u128),
        DeserializeError,
    >)
        requires
            old(self).wf(),
        ensures
            final(self).wf(),
            match r {
                Ok(p) => took_field(*old(self), *final(self)) && valid_utf8(cur_field(*old(self)))
                    && int_field_signed(
                    cur_field(*old(self)),
                    -(neg_mag_max as int),
                    pos_max as int,
                ) == Some(
                    if p.0 {
                        -(p.1 as int)
                    } else {
                        p.1 as int
                    },
                ) && (p.0 ==> p.1 <= neg_mag_max) && (!p.0 ==> p.1 <= pos_max),
                Err(e) => row_exhausted(*old(self), *final(self), e) || bad_utf8(
                    *old(self),
                    *final(self),
                    e,
                ) || (parse_failed(*old(self), *final(self), e, DeserializeErrorKind::ParseInt)
                    && int_field_signed(
                    cur_field(*old(self)),
                    -(neg_mag_max as int),
                    pos_max as int,
                ) is None),
            },
    {
        let v = match self.next_field_bytes() {
            Ok(v) => v,
            Err(e) => {
                return Err(e);
            },
        };
        match bytes_to_string(v.as_slice()) {
            Some(_) => {},
            None => {
                return Err(self.error(DeserializeErrorKind::InvalidUtf8));
            },
        }
        let s = v.as_slice();
        let parsed: Option<(bool, u128)> = if s.len() >= 2 && s[0] == 48 && s[1] == 120 {
            let rest = slice_subrange(s, 2, s.len());
            parse_hex_signed_bytes(rest, neg_mag_max, pos_max)
        } else {
            parse_signed_bytes(s, neg_mag_max, pos_max)
        };
        match parsed {
            Some(p) => Ok(p),
            None => Err(self.error(DeserializeErrorKind::ParseInt)),
        }
    }

    /// Decode the next field as a `u8`.
    pub fn decode_u8(&mut self) -> (r: Result<u8, DeserializeError>)
        requires
            old(self).wf(),
        ensures
            final(self).wf(),
            match r {
                Ok(v) => took_field(*old(self), *final(self)) && valid_utf8(
                    cur_field(*old(self)),
                ) && int_field_unsigned(cur_field(*old(self)), u8::MAX as nat) == Some(v as nat),
                Err(e) => row_exhausted(*old(self), *final(self), e) || bad_utf8(
                    *old(self),
                    *final(self),
                    e,
                ) || (parse_failed(*old(self), *final(self), e, DeserializeErrorKind::ParseInt)
                    && int_field_unsigned(cur_field(*old(self)), u8::MAX as nat) is None),
            },
    {
        match self.take_unsigned(u8::MAX as u128) {
            Ok(v) => Ok(v as u8),
            Err(e) => Err(e),
        }
    }

    /// Decode the next field as a `u16`.
    pub fn decode_u16(&mut self) -> (r: Result<u16, DeserializeError>)
        requires
            old(self).wf(),
        ensures
            final(self).wf(),
            match r {
                Ok(v) => took_field(*old(self), *final(self)) && valid_utf8(
                    cur_field(*old(self)),
                ) && int_field_unsigned(cur_field(*old(self)), u16::MAX as nat) == Some(v as nat),
                Err(e) => row_exhausted(*old(self), *final(self), e) || bad_utf8(
                    *old(self),
                    *final(self),
                    e,
                ) || (parse_failed(*old(self), *final(self), e, DeserializeErrorKind::ParseInt)
                    && int_field_unsigned(cur_field(*old(self)), u16::MAX as nat) is None),
            },
    {
        match self.take_unsigned(u16::MAX as u128) {
            Ok(v) => Ok(v as u16),
            Err(e) => Err(e),
        }
    }

    /// Decode the next field as a `u32`.
    pub fn decode_u32(&mut self) -> (r: Result<u32, DeserializeError>)
        requires
            old(self).wf(),
        ensures
            final(self).wf(),
            match r {
                Ok(v) => took_field(*old(self), *final(self)) && valid_utf8(
                    cur_field(*old(self)),
                ) && int_field_unsigned(cur_field(*old(self)), u32::MAX as nat) == Some(v as nat),
                Err(e) => row_exhausted(*old(self), *final(self), e) || bad_utf8(
                    *old(self),
                    *final(self),
                    e,
                ) || (parse_failed(*old(self), *final(self), e, DeserializeErrorKind::ParseInt)
                    && int_field_unsigned(cur_field(*old(self)), u32::MAX as nat) is None),
            },
    {
        match self.take_unsigned(u32::MAX as u128) {
            Ok(v) => Ok(v as u32),
            Err(e) => Err(e),
        }
    }

    /// Decode the next field as a `u64`.
    pub fn decode_u64(&mut self) -> (r: Result<u64, DeserializeError>)
        requires
            old(self).wf(),
        ensures
            final(self).wf(),
            match r {
                Ok(v) => took_field(*old(self), *final(self)) && valid_utf8(
                    cur_field(*old(self)),
                ) && int_field_unsigned(cur_field(*old(self)), u64::MAX as nat) == Some(v as nat),
                Err(e) => row_exhausted(*old(self), *final(self), e) || bad_utf8(
                    *old(self),
                    *final(self),
                    e,
                ) || (parse_failed(*old(self), *final(self), e, DeserializeErrorKind::ParseInt)
                    && int_field_unsigned(cur_field(*old(self)), u64::MAX as nat) is None),
            },
    {
        match self.take_unsigned(u64::MAX as u128) {
            Ok(v) => Ok(v as u64),
            Err(e) => Err(e),
        }
    }

    /// Decode the next field as a `u128`.
    pub fn decode_u128(&mut self) -> (r: Result<u128, DeserializeError>)
        requires
            old(self).wf(),
        ensures
            final(self).wf(),
            match r {
                Ok(v) => took_field(*old(self), *final(self)) && valid_utf8(
                    cur_field(*old(self)),
                ) && int_field_unsigned(cur_field(*old(self)), u128::MAX as nat) == Some(
                    v as nat,
                ),
                Err(e) => row_exhausted(*old(self), *final(self), e) || bad_utf8(
                    *old(self),
                    *final(self),
                    e,
                ) || (parse_failed(*old(self), *final(self), e, DeserializeErrorKind::ParseInt)
                    && int_field_unsigned(cur_field(*old(self)), u128::MAX as nat) is None),
            },
    {
        self.take_unsigned(u128::MAX)
    }

    /// Decode the next field as an `i8`.
    pub fn decode_i8(&mut self) -> (r: Result<i8, DeserializeError>)
        requires
            old(self).wf(),
        ensures
            final(self).wf(),
            match r {
                Ok(v) => took_field(*old(self), *final(self)) && valid_utf8(
                    cur_field(*old(self)),
                ) && int_field_signed(cur_field(*old(self)), i8::MIN as int, i8::MAX as int)
                    == Some(v as int),
                Err(e) => row_exhausted(*old(self), *final(self), e) || bad_utf8(
                    *old(self),
                    *final(self),
                    e,
                ) || (parse_failed(*old(self), *final(self), e, DeserializeErrorKind::ParseInt)
                    && int_field_signed(cur_field(*old(self)), i8::MIN as int, i8::MAX as int)
                    is None),
            },
    {
        match self.take_signed(128, 127) {
            Ok((neg, v)) => Ok(signed_from_parts_i8(neg, v)),
            Err(e) => Err(e),
        }
    }

    /// Decode the next field as an `i16`.
    pub fn decode_i16(&mut self) -> (r: Result<i16, DeserializeError>)
        requires
            old(self).wf(),
        ensures
            final(self).wf(),
            match r {
                Ok(v) => took_field(*old(self), *final(self)) && valid_utf8(
                    cur_field(*old(self)),
                ) && int_field_signed(cur_field(*old(self)), i16::MIN as int, i16::MAX as int)
                    == Some(v as int),
                Err(e) => row_exhausted(*old(self), *final(self), e) || bad_utf8(
                    *old(self),
                    *final(self),
                    e,
                ) || (parse_failed(*old(self), *final(self), e, DeserializeErrorKind::ParseInt)
                    && int_field_signed(cur_field(*old(self)), i16::MIN as int, i16::MAX as int)
                    is None),
            },
    {
        match self.take_signed(32768, 32767) {
            Ok((neg, v)) => Ok(signed_from_parts_i16(neg, v)),
            Err(e) => Err(e),
        }
    }

    /// Decode the next field as an `i32`.
    pub fn decode_i32(&mut self) -> (r: Result<i32, DeserializeError>)
        requires
            old(self).wf(),
        ensures
            final(self).wf(),
            match r {
                Ok(v) => took_field(*old(self), *final(self)) && valid_utf8(
                    cur_field(*old(self)),
                ) && int_field_signed(cur_field(*old(self)), i32::MIN as int, i32::MAX as int)
                    == Some(v as int),
                Err(e) => row_exhausted(*old(self), *final(self), e) || bad_utf8(
                    *old(self),
                    *final(self),
                    e,
                ) || (parse_failed(*old(self), *final(self), e, DeserializeErrorKind::ParseInt)
                    && int_field_signed(cur_field(*old(self)), i32::MIN as int, i32::MAX as int)
                    is None),
            },
    {
        match self.take_signed(2147483648, 2147483647) {
            Ok((neg, v)) => Ok(signed_from_parts_i32(neg, v)),
            Err(e) => Err(e),
        }
    }

    /// Decode the next field as an `i64`.
    pub fn decode_i64(&mut self) -> (r: Result<i64, DeserializeError>)
        requires
            old(self).wf(),
        ensures
            final(self).wf(),
            match r {
                Ok(v) => took_field(*old(self), *final(self)) && valid_utf8(
                    cur_field(*old(self)),
                ) && int_field_signed(cur_field(*old(self)), i64::MIN as int, i64::MAX as int)
                    == Some(v as int),
                Err(e) => row_exhausted(*old(self), *final(self), e) || bad_utf8(
                    *old(self),
                    *final(self),
                    e,
                ) || (parse_failed(*old(self), *final(self), e, DeserializeErrorKind::ParseInt)
                    && int_field_signed(cur_field(*old(self)), i64::MIN as int, i64::MAX as int)
                    is None),
            },
    {
        match self.take_signed(9223372036854775808, 9223372036854775807) {
            Ok((neg, v)) => Ok(signed_from_parts_i64(neg, v)),
            Err(e) => Err(e),
        }
    }

    /// Decode the next field as an `i128`.
    pub fn decode_i128(&mut self) -> (r: Result<i128, DeserializeError>)
        requires
            old(self).wf(),
        ensures
            final(self).wf(),
            match r {
                Ok(v) => took_field(*old(self), *final(self)) && valid_utf8(
                    cur_field(*old(self)),
                ) && int_field_signed(cur_field(*old(self)), i128::MIN as int, i128::MAX as int)
                    == Some(v as int),
                Err(e) => row_exhausted(*old(self), *final(self), e) || bad_utf8(
                    *old(self),
                    *final(self),
                    e,
                ) || (parse_failed(*old(self), *final(self), e, DeserializeErrorKind::ParseInt)
                    && int_field_signed(cur_field(*old(self)), i128::MIN as int, i128::MAX as int)
                    is None),
            },
    {
        match self.take_signed(170141183460469231731687303715884105728, 170141183460469231731687303715884105727) {
            Ok((neg, v)) => Ok(signed_from_parts_i128(neg, v)),
            Err(e) => Err(e),
        }
    }

    /// Decode the next field as a single character.
    pub fn decode_char(&mut self) -> (r: Result<char, DeserializeError>)
        requires
            old(self).wf(),
        ensures
            final(self).wf(),
            match r {
                Ok(c) => took_field(*old(self), *final(self)) && valid_utf8(
                    cur_field(*old(self)),
                ) && decode_utf8(cur_field(*old(self))).len() == 1 && c == decode_utf8(
                    cur_field(*old(self)),
                )[0],
                Err(e) => row_exhausted(*old(self), *final(self), e) || bad_utf8(
                    *old(self),
                    *final(self),
                    e,
                ) || (took_field(*old(self), *final(self)) && valid_utf8(cur_field(*old(self)))
                    && decode_utf8(cur_field(*old(self))).len() != 1 && e.field_spec() == Some(
                    old(self).pos_spec() as u64,
                ) && e.kind_spec() is Message),
            },
    {
        let s = match self.next_field() {
            Ok(s) => s,
            Err(e) => {
                return Err(e);
            },
        };
        match single_char(&s) {
            Some(c) => Ok(c),
            None => Err(
                self.error(
                    DeserializeErrorKind::Message(
                        String::from_str("expected a single character"),
                    ),
                ),
            ),
        }
    }

    /// Decode the next field as the text of a float literal: the grammar is
    /// checked, the text is returned undamaged for the caller to convert.
    pub fn decode_float_text(&mut self) -> (r: Result<String, DeserializeError>)
        requires
            old(self).wf(),
        ensures
            final(self).wf(),
            match r {
                Ok(s) => took_field(*old(self), *final(self)) && valid_utf8(cur_field(*old(self)))
                    && is_float_lit(cur_field(*old(self))) && s@ == decode_utf8(
                    cur_field(*old(self)),
                ),
                Err(e) => row_exhausted(*old(self), *final(self), e) || bad_utf8(
                    *old(self),
                    *final(self),
                    e,
                ) || (parse_failed(*old(self), *final(self), e, DeserializeErrorKind::ParseFloat)
                    && !is_float_lit(cur_field(*old(self)))),
            },
    {
        let v = match self.next_field_bytes() {
            Ok(v) => v,
            Err(e) => {
                return Err(e);
            },
        };
        let s = match bytes_to_string(v.as_slice()) {
            Some(s) => s,
            None => {
                return Err(self.error(DeserializeErrorKind::InvalidUtf8));
            },
        };
        if recognize_float(v.as_slice()) {
            Ok(s)
        } else {
            Err(self.error(DeserializeErrorKind::ParseFloat))
        }
    }

    /// Option handling: the value is absent when the row is exhausted or
    /// the next field is empty — the empty field is consumed. Otherwise the
    /// value is present, nothing is consumed, and the caller decodes it.
    pub fn decode_option_is_none(&mut self) -> (r: bool)
        requires
            old(self).wf(),
        ensures
            final(self).wf(),
            if old(self).pos_spec() == old(self).fields_spec().len() {
                r && *final(self) == *old(self)
            } else if cur_field(*old(self)).len() == 0 {
                r && took_field(*old(self), *final(self))
            } else {
                !r && *final(self) == *old(self)
            },
    {
        if self.pos < self.fields.len() {
            if self.fields[self.pos].len() == 0 {
                self.pos = self.pos + 1;
                true
            } else {
                false
            }
        } else {
            true
        }
    }

    /// Field-identifier metadata has no CSV meaning; requesting it is
    /// always an error.
    pub fn decode_identifier(&self) -> (r: Result<(), DeserializeError>)
        ensures
            r matches Err(e) && e.kind_spec() matches DeserializeErrorKind::Unsupported(m) && m@
                == "decode_identifier"@ && e.field_spec() == Some(
                if self.pos_spec() == 0 {
                    0u64
                } else {
                    (self.pos_spec() - 1) as u64
                },
            ),
    {
        Err(
            self.error(
                DeserializeErrorKind::Unsupported(String::from_str("decode_identifier")),
            ),
        )
    }

    /// Decode the next field as the name of a unit enum variant, returning
    /// the index of the matching name. Only unit variants have a CSV form;
    /// an unknown name is an error.
    pub fn decode_unit_variant(&mut self, variants: &[&str]) -> (r: Result<
        usize,
        DeserializeError,
    >)
        requires
            old(self).wf(),
        ensures
            final(self).wf(),
            match r {
                Ok(i) => {
                    &&& took_field(*old(self), *final(self))
                    &&& valid_utf8(cur_field(*old(self)))
                    &&& i < variants@.len()
                    &&& cur_field(*old(self)) == variants@[i as int].spec_bytes()
                    &&& forall|j: int|
                        0 <= j < i ==> cur_field(*old(self)) != variants@[j].spec_bytes()
                },
                Err(e) => row_exhausted(*old(self), *final(self), e) || bad_utf8(
                    *old(self),
                    *final(self),
                    e,
                ) || (took_field(*old(self), *final(self)) && valid_utf8(cur_field(*old(self)))
                    && (forall|j: int|
                    0 <= j < variants@.len() ==> cur_field(*old(self))
                        != variants@[j].spec_bytes()) && e.field_spec() == Some(
                    old(self).pos_spec() as u64,
                ) && e.kind_spec() is Message),
            },
    {
        let v = match self.next_field_bytes() {
            Ok(v) => v,
            Err(e) => {
                return Err(e);
            },
        };
        match bytes_to_string(v.as_slice()) {
            Some(_) => {},
            None => {
                return Err(self.error(DeserializeErrorKind::InvalidUtf8));
            },
        }
        let mut j: usize = 0;
        while j < variants.len()
            invariant
                self.wf(),
                took_field(*old(self), *self),
                valid_utf8(cur_field(*old(self))),
                v@ == cur_field(*old(self)),
                j <= variants@.len(),
                forall|k: int| 0 <= k < j ==> v@ != variants@[k].spec_bytes(),
            decreases variants@.len() - j,
        {
            if bytes_eq(v.as_slice(), variants[j].as_bytes()) {
                return Ok(j);
            }
            j = j + 1;
        }
        Err(self.error(DeserializeErrorKind::Message(String::from_str("unknown enum variant"))))
    }
}

/// Relies on str::chars: the only character of a one-character string, or
/// `None` when the string's length in characters is not one.
#[verifier::external_body]
fn single_char(s: &String) -> (r: Option<char>)
    ensures
        r == (if s@.len() == 1 {
            Some(s@[0])
        } else {
            None::<char>
        }),
{
    let mut it = s.chars();
    match (it.next(), it.next()) {
        (Some(c), None) => Some(c),
        _ => None,
    }
}

/// Build an `i8` from a sign and a magnitude.
fn signed_from_parts_i8(neg: bool, v: u128) -> (r: i8)
    requires
        neg ==> v <= 128,
        !neg ==> v <= 127,
    ensures
        r as int == if neg {
            -(v as int)
        } else {
            v as int
        },
{
    if neg {
        if v == 0 {
            0
        } else {
            -((v - 1) as i8) - 1
        }
    } else {
        v as i8
    }
}

/// Build an `i16` from a sign and a magnitude.
fn signed_from_parts_i16(neg: bool, v: u128) -> (r: i16)
    requires
        neg ==> v <= 32768,
        !neg ==> v <= 32767,
    ensures
        r as int == if neg {
            -(v as int)
        } else {
            v as int
        },
{
    if neg {
        if v == 0 {
            0
        } else {
            -((v - 1) as i16) - 1
        }
    } else {
        v as i16
    }
}

/// Build an `i32` from a sign and a magnitude.
fn signed_from_parts_i32(neg: bool, v: u128) -> (r: i32)
    requires
        neg ==> v <= 2147483648,
        !neg ==> v <= 2147483647,
    ensures
        r as int == if neg {
            -(v as int)
        } else {
            v as int
        },
{
    if neg {
        if v == 0 {
            0
        } else {
            -((v - 1) as i32) - 1
        }
    } else {
        v as i32
    }
}

/// Build an `i64` from a sign and a magnitude.
fn signed_from_parts_i64(neg: bool, v: u128) -> (r: i64)
    requires
        neg ==> v <= 9223372036854775808,
        !neg ==> v <= 9223372036854775807,
    ensures
        r as int == if neg {
            -(v as int)
        } else {
            v as int
        },
{
    if neg {
        if v == 0 {
            0
        } else {
            -((v - 1) as i64) - 1
        }
    } else {
        v as i64
    }
}

/// Build an `i128` from a sign and a magnitude.
fn signed_from_parts_i128(neg: bool, v: u128) -> (r: i128)
    requires
        neg ==> v <= 170141183460469231731687303715884105728,
        !neg ==> v <= 170141183460469231731687303715884105727,
    ensures
        r as int == if neg {
            -(v as int)
        } else {
            v as int
        },
{
    if neg {
        if v == 0 {
            0
        } else {
            -((v - 1) as i128) - 1
        }
    } else {
        v as i128
    }
}

/// What Rust's `u64` parsing accepts of `s`, or `None`.
pub fn try_positive_integer64(s: &str) -> (r: Option<u64>)
    ensures
        match r {
            Some(v) => parse_unsigned(s.spec_bytes(), u64::MAX as nat) == Some(v as nat),
            None => parse_unsigned(s.spec_bytes(), u64::MAX as nat) is None,
        },
{
    try_positive_integer64_bytes(s.as_bytes())
}

/// What Rust's `i64` parsing accepts of `s`, or `None`.
pub fn try_negative_integer64(s: &str) -> (r: Option<i64>)
    ensures
        match r {
            Some(v) => parse_signed(s.spec_bytes(), i64::MIN as int, i64::MAX as int) == Some(
                v as int,
            ),
            None => parse_signed(s.spec_bytes(), i64::MIN as int, i64::MAX as int) is None,
        },
{
    try_negative_integer64_bytes(s.as_bytes())
}

/// What Rust's `u64` parsing accepts of the bytes `s`, or `None`.
pub fn try_positive_integer64_bytes(s: &[u8]) -> (r: Option<u64>)
    ensures
        match r {
            Some(v) => parse_unsigned(s@, u64::MAX as nat) == Some(v as nat),
            None => parse_unsigned(s@, u64::MAX as nat) is None,
        },
{
    match parse_unsigned_bytes(s, u64::MAX as u128) {
        Some(v) => Some(v as u64),
        None => None,
    }
}

/// What Rust's `i64` parsing accepts of the bytes `s`, or `None`.
pub fn try_negative_integer64_bytes(s: &[u8]) -> (r: Option<i64>)
    ensures
        match r {
            Some(v) => parse_signed(s@, i64::MIN as int, i64::MAX as int) == Some(v as int),
            None => parse_signed(s@, i64::MIN as int, i64::MAX as int) is None,
        },
{
    match parse_signed_bytes(s, 9223372036854775808, 9223372036854775807) {
        Some((neg, v)) => Some(signed_from_parts_i64(neg, v)),
        None => None,
    }
}

/// What Rust's `u128` parsing accepts of the bytes `s`, or `None`.
fn try_positive_integer128_bytes(s: &[u8]) -> (r: Option<u128>)
    ensures
        match r {
            Some(v) => parse_unsigned(s@, u128::MAX as nat) == Some(v as nat),
            None => parse_unsigned(s@, u128::MAX as nat) is None,
        },
{
    parse_unsigned_bytes(s, u128::MAX)
}

/// What Rust's `i128` parsing accepts of the bytes `s`, or `None`.
fn try_negative_integer128_bytes(s: &[u8]) -> (r: Option<i128>)
    ensures
        match r {
            Some(v) => parse_signed(s@, i128::MIN as int, i128::MAX as int) == Some(v as int),
            None => parse_signed(s@, i128::MIN as int, i128::MAX as int) is None,
        },
{
    match parse_signed_bytes(
        s,
        170141183460469231731687303715884105728,
        170141183460469231731687303715884105727,
    ) {
        Some((neg, v)) => Some(signed_from_parts_i128(neg, v)),
        None => None,
    }
}

/// The result of decoding an unconstrained field: the first interpretation
/// that fits, in a fixed priority order.
#[derive(Clone, Debug, PartialEq, Eq)]
pub enum Inferred {
    /// The literal `true` or `false`.
    Bool(bool),
    /// An unsigned 64-bit integer.
    U64(u64),
    /// A negative 64-bit integer.
    I64(i64),
    /// An unsigned 128-bit integer beyond `u64`.
    U128(u128),
    /// A negative 128-bit integer beyond `i64`.
    I128(i128),
    /// The text of a float literal, returned unconverted.
    Float(String),
    /// Plain text.
    Text(String),
    /// Raw bytes that are not valid UTF-8.
    Bytes(Vec<u8>),
}

/// The inference chain: boolean literals first, then unsigned and signed
/// 64-bit integers, their 128-bit extensions, then a float, then text, and
/// raw bytes only when the field is not valid UTF-8.
pub open spec fn inferred_ok(s: Seq<u8>, r: Inferred) -> bool {
    if s == true_bytes() {
        r == Inferred::Bool(true)
    } else if s == false_bytes() {
        r == Inferred::Bool(false)
    } else if parse_unsigned(s, u64::MAX as nat) is Some {
        r matches Inferred::U64(v) && parse_unsigned(s, u64::MAX as nat) == Some(v as nat)
    } else if parse_signed(s, i64::MIN as int, i64::MAX as int) is Some {
        r matches Inferred::I64(v) && parse_signed(s, i64::MIN as int, i64::MAX as int) == Some(
            v as int,
        )
    } else if parse_unsigned(s, u128::MAX as nat) is Some {
        r matches Inferred::U128(v) && parse_unsigned(s, u128::MAX as nat) == Some(v as nat)
    } else if parse_signed(s, i128::MIN as int, i128::MAX as int) is Some {
        r matches Inferred::I128(v) && parse_signed(s, i128::MIN as int, i128::MAX as int) == Some(
            v as int,
        )
    } else if valid_utf8(s) {
        if is_float_lit(s) {
            r matches Inferred::Float(t) && t@ == decode_utf8(s)
        } else {
            r matches Inferred::Text(t) && t@ == decode_utf8(s)
        }
    } else {
        r matches Inferred::Bytes(b) && b@ == s
    }
}

impl RecordDecoder {
    /// Decode the next field into whatever it looks like, trying boolean
    /// literals, unsigned then signed integers of 64 and 128 bits, a float,
    /// and finally text — or raw bytes when the field is not valid UTF-8.
    pub fn decode_any(&mut self) -> (r: Result<Inferred, DeserializeError>)
        requires
            old(self).wf(),
        ensures
            final(self).wf(),
            match r {
                Ok(v) => took_field(*old(self), *final(self)) && inferred_ok(
                    cur_field(*old(self)),
                    v,
                ),
                Err(e) => row_exhausted(*old(self), *final(self), e),
            },
    {
        let v = match self.next_field_bytes() {
            Ok(v) => v,
            Err(e) => {
                return Err(e);
            },
        };
        let t: Vec<u8> = vec![116, 114, 117, 101];
        let f: Vec<u8> = vec![102, 97, 108, 115, 101];
        proof {
            assert(t@ =~= true_bytes());
            assert(f@ =~= false_bytes());
        }
        if bytes_eq(v.as_slice(), t.as_slice()) {
            return Ok(Inferred::Bool(true));
        }
        if bytes_eq(v.as_slice(), f.as_slice()) {
            return Ok(Inferred::Bool(false));
        }
        if let Some(n) = try_positive_integer64_bytes(v.as_slice()) {
            return Ok(Inferred::U64(n));
        }
        if let Some(n) = try_negative_integer64_bytes(v.as_slice()) {
            return Ok(Inferred::I64(n));
        }
        if let Some(n) = try_positive_integer128_bytes(v.as_slice()) {
            return Ok(Inferred::U128(n));
        }
        if let Some(n) = try_negative_integer128_bytes(v.as_slice()) {
            return Ok(Inferred::I128(n));
        }
        match bytes_to_string(v.as_slice()) {
            Some(s) => {
                if recognize_float(v.as_slice()) {
                    Ok(Inferred::Float(s))
                } else {
                    Ok(Inferred::Text(s))
                }
            },
            None => Ok(Inferred::Bytes(v)),
        }
    }
}

} // verus!
