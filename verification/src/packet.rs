use vstd::prelude::*;

use crate::error::CoapError;
use crate::header::{
    lemma_class_from_number, lemma_header_round_trip, spec_header_bytes, spec_header_wf,
    spec_parse_header, Header, MessageClass,
};
use crate::table::OptionTable;
use crate::wire::{
    decode_ext, decode_records, deltas_nonneg, deltas_ok, encode_table, lemma_decode_encode_table,
    lemma_decode_records_prefix, lemma_sorted_deltas_nonneg, lemma_table_of_records,
    lemma_table_of_sorted,
    lemma_values_within_encode_table, push_bytes, read_bytes, records_of, table_add, table_clear, table_get,
    table_of, table_set, table_sorted, RecordList, TableView, MAX_MESSAGE_SIZE,
    PAYLOAD_MARKER,
};

verus! {

/// The options a message may carry, by their protocol-assigned numbers.
#[derive(Clone, Copy, Debug, PartialEq, Eq, Structural)]
pub enum CoapOption {
    IfMatch,
    UriHost,
    ETag,
    IfNoneMatch,
    Observe,
    UriPort,
    LocationPath,
    Oscore,
    UriPath,
    ContentFormat,
    MaxAge,
    UriQuery,
    Accept,
    LocationQuery,
    Block2,
    Block1,
    ProxyUri,
    ProxyScheme,
    Size1,
    Size2,
    NoResponse,
}

/// The number under which an option travels on the wire.
pub open spec fn spec_option_number(tp: CoapOption) -> u64 {
    match tp {
        CoapOption::IfMatch => 1,
        CoapOption::UriHost => 3,
        CoapOption::ETag => 4,
        CoapOption::IfNoneMatch => 5,
        CoapOption::Observe => 6,
        CoapOption::UriPort => 7,
        CoapOption::LocationPath => 8,
        CoapOption::Oscore => 9,
        CoapOption::UriPath => 11,
        CoapOption::ContentFormat => 12,
        CoapOption::MaxAge => 14,
        CoapOption::UriQuery => 15,
        CoapOption::Accept => 17,
        CoapOption::LocationQuery => 20,
        CoapOption::Block2 => 23,
        CoapOption::Block1 => 27,
        CoapOption::ProxyUri => 35,
        CoapOption::ProxyScheme => 39,
        CoapOption::Size1 => 60,
        CoapOption::Size2 => 28,
        CoapOption::NoResponse => 258,
    }
}

/// The registered representations of a payload, carried in the
/// content-format option as a two-byte big-endian number.
#[derive(Clone, Copy, Debug, PartialEq, Eq, Structural)]
pub enum ContentFormat {
    TextPlain,
    ApplicationLinkFormat,
    ApplicationXML,
    ApplicationOctetStream,
    ApplicationEXI,
    ApplicationJSON,
    ApplicationCBOR,
    ApplicationSenmlJSON,
    ApplicationSensmlJSON,
    ApplicationSenmlCBOR,
    ApplicationSensmlCBOR,
    ApplicationSenmlExi,
    ApplicationSensmlExi,
    ApplicationSenmlXML,
    ApplicationSensmlXML,
}

/// The registered number of a content format.
pub open spec fn spec_content_format_number(cf: ContentFormat) -> u16 {
    match cf {
        ContentFormat::TextPlain => 0,
        ContentFormat::ApplicationLinkFormat => 40,
        ContentFormat::ApplicationXML => 41,
        ContentFormat::ApplicationOctetStream => 42,
        ContentFormat::ApplicationEXI => 47,
        ContentFormat::ApplicationJSON => 50,
        ContentFormat::ApplicationCBOR => 60,
        ContentFormat::ApplicationSenmlJSON => 110,
        ContentFormat::ApplicationSensmlJSON => 111,
        ContentFormat::ApplicationSenmlCBOR => 112,
        ContentFormat::ApplicationSensmlCBOR => 113,
        ContentFormat::ApplicationSenmlExi => 114,
        ContentFormat::ApplicationSensmlExi => 115,
        ContentFormat::ApplicationSenmlXML => 310,
        ContentFormat::ApplicationSensmlXML => 311,
    }
}

/// The content format registered under a number, if any.
pub open spec fn spec_content_format_from(n: u16) -> Option<ContentFormat> {
    if n == 0 {
        Some(ContentFormat::TextPlain)
    } else if n == 40 {
        Some(ContentFormat::ApplicationLinkFormat)
    } else if n == 41 {
        Some(ContentFormat::ApplicationXML)
    } else if n == 42 {
        Some(ContentFormat::ApplicationOctetStream)
    } else if n == 47 {
        Some(ContentFormat::ApplicationEXI)
    } else if n == 50 {
        Some(ContentFormat::ApplicationJSON)
    } else if n == 60 {
        Some(ContentFormat::ApplicationCBOR)
    } else if n == 110 {
        Some(ContentFormat::ApplicationSenmlJSON)
    } else if n == 111 {
        Some(ContentFormat::ApplicationSensmlJSON)
    } else if n == 112 {
        Some(ContentFormat::ApplicationSenmlCBOR)
    } else if n == 113 {
        Some(ContentFormat::ApplicationSensmlCBOR)
    } else if n == 114 {
        Some(ContentFormat::ApplicationSenmlExi)
    } else if n == 115 {
        Some(ContentFormat::ApplicationSensmlExi)
    } else if n == 310 {
        Some(ContentFormat::ApplicationSenmlXML)
    } else if n == 311 {
        Some(ContentFormat::ApplicationSensmlXML)
    } else {
        None
    }
}

impl ContentFormat {
    /// The registered number of this content format.
    pub fn to_u16(self) -> (n: u16)
        ensures
            n == spec_content_format_number(self),
    {
        match self {
            ContentFormat::TextPlain => 0,
            ContentFormat::ApplicationLinkFormat => 40,
            ContentFormat::ApplicationXML => 41,
            ContentFormat::ApplicationOctetStream => 42,
            ContentFormat::ApplicationEXI => 47,
            ContentFormat::ApplicationJSON => 50,
            ContentFormat::ApplicationCBOR => 60,
            ContentFormat::ApplicationSenmlJSON => 110,
            ContentFormat::ApplicationSensmlJSON => 111,
            ContentFormat::ApplicationSenmlCBOR => 112,
            ContentFormat::ApplicationSensmlCBOR => 113,
            ContentFormat::ApplicationSenmlExi => 114,
            ContentFormat::ApplicationSensmlExi => 115,
            ContentFormat::ApplicationSenmlXML => 310,
            ContentFormat::ApplicationSensmlXML => 311,
        }
    }

    /// The content format registered under a number, if any.
    pub fn from_u16(n: u16) -> (r: Option<ContentFormat>)
        ensures
            r == spec_content_format_from(n),
    {
        if n == 0 {
            Some(ContentFormat::TextPlain)
        } else if n == 40 {
            Some(ContentFormat::ApplicationLinkFormat)
        } else if n == 41 {
            Some(ContentFormat::ApplicationXML)
        } else if n == 42 {
            Some(ContentFormat::ApplicationOctetStream)
        } else if n == 47 {
            Some(ContentFormat::ApplicationEXI)
        } else if n == 50 {
            Some(ContentFormat::ApplicationJSON)
        } else if n == 60 {
            Some(ContentFormat::ApplicationCBOR)
        } else if n == 110 {
            Some(ContentFormat::ApplicationSenmlJSON)
        } else if n == 111 {
            Some(ContentFormat::ApplicationSensmlJSON)
        } else if n == 112 {
            Some(ContentFormat::ApplicationSenmlCBOR)
        } else if n == 113 {
            Some(ContentFormat::ApplicationSensmlCBOR)
        } else if n == 114 {
            Some(ContentFormat::ApplicationSenmlExi)
        } else if n == 115 {
            Some(ContentFormat::ApplicationSensmlExi)
        } else if n == 310 {
            Some(ContentFormat::ApplicationSenmlXML)
        } else if n == 311 {
            Some(ContentFormat::ApplicationSensmlXML)
        } else {
            None
        }
    }
}

/// The two meanings of the observe option's value.
#[derive(Clone, Copy, Debug, PartialEq, Eq, Structural)]
pub enum ObserveOption {
    Register,
    Deregister,
}

impl ObserveOption {
    /// The observe option value registered under a number, if any.
    pub fn from_u8(n: u8) -> (r: Option<ObserveOption>)
        ensures
            r == Some(ObserveOption::Register) <==> n == 0,
            r == Some(ObserveOption::Deregister) <==> n == 1,
            n >= 2 ==> r is None,
    {
        if n == 0 {
            Some(ObserveOption::Register)
        } else if n == 1 {
            Some(ObserveOption::Deregister)
        } else {
            None
        }
    }
}

/// A message as a mathematical value: its header, token bytes, option
/// table, and payload bytes.
#[verifier::ext_equal]
pub struct PacketView {
    pub header: Header,
    pub token: Seq<u8>,
    pub options: TableView,
    pub payload: Seq<u8>,
}

/// What every packet this module hands out satisfies: a well-formed header
/// whose declared token length matches the token, and an option table in
/// strictly ascending key order.
pub open spec fn spec_packet_wf(m: PacketView) -> bool {
    &&& spec_header_wf(m.header)
    &&& m.header.token_length == m.token.len()
    &&& table_sorted(m.options)
}

/// A message: the fixed header, the token, the option table, and the
/// payload. Built empty and filled through this surface, or produced in one
/// piece by decoding a buffer.
#[derive(Debug)]
pub struct Packet {
    pub header: Header,
    token: Vec<u8>,
    options: OptionTable,
    pub payload: Vec<u8>,
}

impl View for Packet {
    type V = PacketView;

    closed spec fn view(&self) -> PacketView {
        PacketView {
            header: self.header,
            token: self.token@,
            options: self.options@,
            payload: self.payload@,
        }
    }
}

/// The first value stored under a key, when the key holds any value.
pub open spec fn spec_first_value(t: TableView, k: u64) -> Option<Seq<u8>> {
    match table_get(t, k) {
        Some(vs) => if vs.len() > 0 {
            Some(vs[0])
        } else {
            None
        },
        None => None,
    }
}

/// The content format a table carries: the first value under the
/// content-format option, read as a two-byte big-endian number, when that
/// value exists, holds at least two bytes, and names a registered format.
pub open spec fn spec_get_content_format(t: TableView) -> Option<ContentFormat> {
    match spec_first_value(t, spec_option_number(CoapOption::ContentFormat)) {
        Some(v) => if v.len() >= 2 {
            spec_content_format_from(((v[0] as int) * 256 + (v[1] as int)) as u16)
        } else {
            None
        },
        None => None,
    }
}

impl Packet {
    /// An empty message: a fresh header, no token, no options, no payload.
    pub fn new() -> (p: Packet)
        ensures
            p@ == (PacketView {
                header: (Header {
                    version: 1u8,
                    message_type: crate::header::MessageType::Confirmable,
                    token_length: 0u8,
                    code: crate::header::MessageClass::Empty,
                    message_id: 0u16,
                }),
                token: Seq::<u8>::empty(),
                options: Seq::<(u64, Seq<Seq<u8>>)>::empty(),
                payload: Seq::<u8>::empty(),
            }),
            spec_packet_wf(p@),
    {
        let p = Packet {
            header: Header::new(),
            token: Vec::new(),
            options: OptionTable::new(),
            payload: Vec::new(),
        };
        proof {
            assert(p@ =~= (PacketView {
                header: (Header {
                    version: 1u8,
                    message_type: crate::header::MessageType::Confirmable,
                    token_length: 0u8,
                    code: crate::header::MessageClass::Empty,
                    message_id: 0u16,
                }),
                token: Seq::<u8>::empty(),
                options: Seq::<(u64, Seq<Seq<u8>>)>::empty(),
                payload: Seq::<u8>::empty(),
            }));
        }
        p
    }

    /// The fixed header. The header field can also be reached directly,
    /// but a packet's fields are opaque to callers that reason about it,
    /// so this accessor states what it returns.
    pub fn get_header(&self) -> (h: &Header)
        ensures
            *h == self@.header,
    {
        &self.header
    }

    /// Replaces the fixed header.
    pub fn set_header(&mut self, h: Header)
        ensures
            final(self)@ == (PacketView { header: h, ..old(self)@ }),
    {
        self.header = h;
    }

    /// The option table.
    pub fn options(&self) -> (t: &OptionTable)
        ensures
            t@ == self@.options,
    {
        &self.options
    }

    /// Sets the token and records its length in the header, keeping the two
    /// in step; a token holds at most 8 bytes.
    pub fn set_token(&mut self, token: Vec<u8>)
        requires
            token@.len() <= 8,
        ensures
            final(self)@ == (PacketView {
                header: (Header { token_length: token@.len() as u8, ..old(self)@.header }),
                token: token@,
                ..old(self)@
            }),
    {
        self.header.set_token_length(token.len() as u8);
        self.token = token;
    }

    /// The token.
    pub fn get_token(&self) -> (t: &Vec<u8>)
        ensures
            t@ == self@.token,
    {
        &self.token
    }

    /// Replaces the whole value list of an option.
    pub fn set_option(&mut self, tp: CoapOption, value: Vec<Vec<u8>>)
        ensures
            final(self)@ == (PacketView {
                options: table_set(old(self)@.options, spec_option_number(tp), value.deep_view()),
                ..old(self)@
            }),
    {
        let num = Self::get_option_number(tp);
        self.options.set(num, value);
    }

    /// Adds the content-format option, encoding the format's number as two
    /// big-endian bytes.
    pub fn set_content_format(&mut self, cf: ContentFormat)
        ensures
            final(self)@ == (PacketView {
                options: table_add(
                    old(self)@.options,
                    spec_option_number(CoapOption::ContentFormat),
                    seq![
                        ((spec_content_format_number(cf) as int) / 256) as u8,
                        ((spec_content_format_number(cf) as int) % 256) as u8,
                    ],
                ),
                ..old(self)@
            }),
    {
        let content_format = cf.to_u16();
        proof {
            let n = content_format;
            assert(n >> 8 == n / 256 && n & 255 == n % 256 && n / 256 < 256) by (bit_vector);
        }
        let msb = (content_format >> 8) as u8;
        let lsb = (content_format & 255) as u8;
        let mut value: Vec<u8> = Vec::new();
        value.push(msb);
        value.push(lsb);
        proof {
            assert(value@ =~= seq![
                ((spec_content_format_number(cf) as int) / 256) as u8,
                ((spec_content_format_number(cf) as int) % 256) as u8,
            ]);
        }
        self.add_option(CoapOption::ContentFormat, value);
    }

    /// Replaces the payload.
    pub fn set_payload(&mut self, payload: Vec<u8>)
        ensures
            final(self)@ == (PacketView { payload: payload@, ..old(self)@ }),
    {
        self.payload = payload;
    }

    /// Appends one value under an option, keeping every value already
    /// stored there.
    pub fn add_option(&mut self, tp: CoapOption, value: Vec<u8>)
        ensures
            final(self)@ == (PacketView {
                options: table_add(old(self)@.options, spec_option_number(tp), value@),
                ..old(self)@
            }),
    {
        let num = Self::get_option_number(tp);
        self.options.add(num, value);
    }

    /// The value list of an option, or nothing when it was never populated.
    pub fn get_option(&self, tp: CoapOption) -> (r: Option<&Vec<Vec<u8>>>)
        ensures
            match r {
                Some(vs) => table_get(self@.options, spec_option_number(tp)) == Some(
                    vs.deep_view(),
                ),
                None => table_get(self@.options, spec_option_number(tp)) == None::<Seq<Seq<u8>>>,
            },
    {
        let num = Self::get_option_number(tp);
        self.options.get(num)
    }

    /// Empties an option's value list without removing the option's key.
    pub fn clear_option(&mut self, tp: CoapOption)
        ensures
            final(self)@ == (PacketView {
                options: table_clear(old(self)@.options, spec_option_number(tp)),
                ..old(self)@
            }),
    {
        let num = Self::get_option_number(tp);
        self.options.clear(num);
    }

    /// The content format the message declares, when the content-format
    /// option holds a first value of at least two bytes naming a registered
    /// format.
    pub fn get_content_format(&self) -> (r: Option<ContentFormat>)
        ensures
            r == spec_get_content_format(self@.options),
    {
        if let Some(list) = self.get_option(CoapOption::ContentFormat) {
            if list.len() > 0 {
                let vector = &list[0];
                proof {
                    assert(list.deep_view()[0] =~= list@[0]@);
                }
                if vector.len() >= 2 {
                    let msb = vector[0] as u16;
                    let lsb = vector[1] as u16;
                    proof {
                        let m = msb;
                        let l = lsb;
                        assert(m < 256 && l < 256 ==> (m << 8u16) == m * 256 && m * 256 + l
                            < 65536) by (bit_vector);
                    }
                    let number = (msb << 8u16) + lsb;
                    return ContentFormat::from_u16(number);
                }
            }
            return None;
        }
        None
    }

    /// Replaces the observe option with a single value.
    pub fn set_observe(&mut self, value: Vec<u8>)
        ensures
            final(self)@ == (PacketView {
                options: table_add(
                    table_clear(old(self)@.options, spec_option_number(CoapOption::Observe)),
                    spec_option_number(CoapOption::Observe),
                    value@,
                ),
                ..old(self)@
            }),
    {
        self.clear_option(CoapOption::Observe);
        self.add_option(CoapOption::Observe, value);
    }

    /// The first value of the observe option, when it holds any.
    pub fn get_observe(&self) -> (r: Option<&Vec<u8>>)
        ensures
            match r {
                Some(v) => spec_first_value(self@.options, spec_option_number(CoapOption::Observe))
                    == Some(v@),
                None => spec_first_value(self@.options, spec_option_number(CoapOption::Observe))
                    == None::<Seq<u8>>,
            },
    {
        if let Some(list) = self.get_option(CoapOption::Observe) {
            if list.len() > 0 {
                proof {
                    assert(list.deep_view()[0] =~= list@[0]@);
                }
                return Some(&list[0]);
            }
            return None;
        }
        None
    }

    /// The wire number of an option.
    fn get_option_number(tp: CoapOption) -> (n: u64)
        ensures
            n == spec_option_number(tp),
    {
        match tp {
            CoapOption::IfMatch => 1,
            CoapOption::UriHost => 3,
            CoapOption::ETag => 4,
            CoapOption::IfNoneMatch => 5,
            CoapOption::Observe => 6,
            CoapOption::UriPort => 7,
            CoapOption::LocationPath => 8,
            CoapOption::Oscore => 9,
            CoapOption::UriPath => 11,
            CoapOption::ContentFormat => 12,
            CoapOption::MaxAge => 14,
            CoapOption::UriQuery => 15,
            CoapOption::Accept => 17,
            CoapOption::LocationQuery => 20,
            CoapOption::Block2 => 23,
            CoapOption::Block1 => 27,
            CoapOption::ProxyUri => 35,
            CoapOption::ProxyScheme => 39,
            CoapOption::Size1 => 60,
            CoapOption::Size2 => 28,
            CoapOption::NoResponse => 258,
        }
    }
}

/// The packet a buffer decodes to, or the error that aborts the decode:
/// first the fixed header, then the token under the header's declared
/// length, then the option records up to the payload marker or the end of
/// the buffer, then the payload.
pub open spec fn spec_decode(buf: Seq<u8>) -> Result<PacketView, CoapError> {
    if buf.len() < 4 {
        Err(CoapError::InvalidHeader)
    } else {
        let h = spec_parse_header(buf);
        if h.token_length > 8 {
            Err(CoapError::InvalidTokenLength)
        } else if buf.len() < 4 + h.token_length {
            Err(CoapError::InvalidTokenLength)
        } else {
            match decode_records(buf.skip(4 + h.token_length as int), 0) {
                Err(e) => Err(e),
                Ok(rp) => Ok(
                    PacketView {
                        header: h,
                        token: buf.subrange(4, 4 + h.token_length as int),
                        options: table_of(rp.0),
                        payload: rp.1,
                    },
                ),
            }
        }
    }
}

/// Whether the encoder writes a payload marker: only a message of a
/// non-empty class with a non-empty payload carries one.
pub open spec fn spec_has_marker(m: PacketView) -> bool {
    m.header.code != MessageClass::Empty && m.payload.len() > 0
}

/// The bytes a packet encodes to: header, token, option section, and — only
/// when the marker is due — the marker and the payload.
pub open spec fn spec_encode(m: PacketView) -> Seq<u8> {
    spec_header_bytes(m.header) + m.token + encode_table(m.options, 0) + (if spec_has_marker(m) {
        seq![PAYLOAD_MARKER] + m.payload
    } else {
        Seq::<u8>::empty()
    })
}

/// The size the encoder holds against the ceiling: exactly the length of
/// the encoded output, so the marker and the payload count only when the
/// marker is due.
pub open spec fn spec_encoded_size(m: PacketView) -> int {
    4 + m.token.len() + encode_table(m.options, 0).len() + (if spec_has_marker(m) {
        1int + m.payload.len()
    } else {
        0int
    })
}

impl Packet {
    /// Decodes a byte buffer into the equivalent packet. The whole decode
    /// is all-or-nothing: either a fully populated packet or the first
    /// error, never a partial message, and no byte outside the buffer is
    /// ever touched.
    #[verifier::rlimit(90)]
    pub fn from_bytes(buf: &[u8]) -> (r: Result<Packet, CoapError>)
        ensures
            match spec_decode(buf@) {
                Ok(m) => r matches Ok(p) && p@ == m && spec_packet_wf(p@),
                Err(e) => r matches Err(ae) && ae == e,
            },
    {
        let header = match Header::parse(buf) {
            Ok(h) => h,
            Err(e) => {
                return Err(e);
            },
        };
        if header.token_length > 8 {
            return Err(CoapError::InvalidTokenLength);
        }
        let token_length = header.token_length as usize;
        let options_start = 4 + token_length;
        let blen = buf.len();
        if options_start > blen {
            return Err(CoapError::InvalidTokenLength);
        }
        let token = read_bytes(buf, 4, token_length);
        let ghost full = decode_records(buf@.skip(options_start as int), 0);
        proof {
            assert(spec_decode(buf@) == (match full {
                Err(e) => Err::<PacketView, CoapError>(e),
                Ok(rp) => Ok(
                    PacketView {
                        header: spec_parse_header(buf@),
                        token: buf@.subrange(4, 4 + header.token_length as int),
                        options: table_of(rp.0),
                        payload: rp.1,
                    },
                ),
            }));
        }
        let mut idx = options_start;
        let mut number: u64 = 0;
        let mut table = OptionTable::new();
        let ghost mut recs: RecordList = Seq::empty();
        let mut payload: Vec<u8> = Vec::new();
        let mut saw_marker = false;
        proof {
            assert(table@ =~= table_of(recs));
            assert(recs + Seq::<(u64, Seq<u8>)>::empty() =~= recs);
        }
        while idx < blen
            invariant_except_break
                !saw_marker,
            invariant
                options_start <= idx,
                idx <= blen,
                blen == buf@.len(),
                table@ == table_of(recs),
                full == (match decode_records(buf@.skip(idx as int), number) {
                    Err(e) => Err::<(RecordList, Seq<u8>), CoapError>(e),
                    Ok(rp) => Ok((recs + rp.0, rp.1)),
                }),
                spec_decode(buf@) == (match full {
                    Err(e) => Err::<PacketView, CoapError>(e),
                    Ok(rp) => Ok(
                        (PacketView {
                            header: spec_parse_header(buf@),
                            token: buf@.subrange(4, 4 + spec_parse_header(buf@).token_length as int),
                            options: table_of(rp.0),
                            payload: rp.1,
                        }),
                    ),
                }),
            ensures
                idx <= blen,
                blen == buf@.len(),
                table@ == table_of(recs),
                full == (match decode_records(buf@.skip(idx as int), number) {
                    Err(e) => Err::<(RecordList, Seq<u8>), CoapError>(e),
                    Ok(rp) => Ok((recs + rp.0, rp.1)),
                }),
                saw_marker ==> idx < blen && buf@[idx as int] == PAYLOAD_MARKER,
                !saw_marker ==> idx == blen,
            decreases blen - idx,
        {
            let byte = buf[idx];
            let ghost s = buf@.skip(idx as int);
            proof {
                assert(s[0] == byte);
            }
            if byte == PAYLOAD_MARKER {
                saw_marker = true;
                break ;
            }
            proof {
                assert(byte >> 4 == byte / 16 && (byte & 15) == byte % 16 && byte >> 4 <= 15 && (
                byte & 15) <= 15) by (bit_vector);
                assert((byte / 16) as int == (byte as int) / 16);
                assert((byte % 16) as int == (byte as int) % 16);
            }
            let dn = byte >> 4;
            let ln = byte & 15;
            if dn == 15 {
                proof {
                    assert(decode_records(s, number) == Err::<(RecordList, Seq<u8>), CoapError>(
                        CoapError::InvalidOptionDelta,
                    ));
                }
                return Err(CoapError::InvalidOptionDelta);
            }
            proof {
                assert(s.skip(1) =~= buf@.skip(idx as int + 1));
            }
            let (delta, dc) = match decode_ext(buf, idx + 1, dn) {
                Ok(p) => p,
                Err(e) => {
                    proof {
                        assert(decode_records(s, number) == Err::<
                            (RecordList, Seq<u8>),
                            CoapError,
                        >(CoapError::InvalidOptionLength));
                    }
                    return Err(e);
                },
            };
            if ln == 15 {
                proof {
                    assert(decode_records(s, number) == Err::<(RecordList, Seq<u8>), CoapError>(
                        CoapError::InvalidOptionLength,
                    ));
                }
                return Err(CoapError::InvalidOptionLength);
            }
            proof {
                assert(s.skip(1 + dc as int) =~= buf@.skip(idx as int + 1 + dc as int));
            }
            let (len64, lc) = match decode_ext(buf, idx + 1 + dc, ln) {
                Ok(p) => p,
                Err(e) => {
                    proof {
                        assert(decode_records(s, number) == Err::<
                            (RecordList, Seq<u8>),
                            CoapError,
                        >(CoapError::InvalidOptionLength));
                    }
                    return Err(e);
                },
            };
            let after_exts = idx + 1 + dc + lc;
            let value_len = len64 as usize;
            let ghost body = s.skip(1 + dc as int + lc as int);
            proof {
                assert(body =~= buf@.skip(after_exts as int));
            }
            if blen - after_exts < value_len {
                proof {
                    assert(decode_records(s, number) == Err::<(RecordList, Seq<u8>), CoapError>(
                        CoapError::InvalidOptionLength,
                    ));
                }
                return Err(CoapError::InvalidOptionLength);
            }
            if delta > u64::MAX - number {
                proof {
                    assert(decode_records(s, number) == Err::<(RecordList, Seq<u8>), CoapError>(
                        CoapError::InvalidOptionDelta,
                    ));
                }
                return Err(CoapError::InvalidOptionDelta);
            }
            number = number + delta;
            let value = read_bytes(buf, after_exts, value_len);
            proof {
                assert(body.take(len64 as int) =~= value@);
                assert(body.skip(len64 as int) =~= buf@.skip(after_exts as int + value_len as int));
                assert(recs.push((number, value@)).drop_last() =~= recs);
            }
            table.add(number, value);
            proof {
                recs = recs.push((number, value@));
            }
            idx = after_exts + value_len;
            proof {
                let step = decode_records(buf@.skip(idx as int), number);
                assert(decode_records(s, (number - delta) as u64) == (match step {
                    Err(e) => Err::<(RecordList, Seq<u8>), CoapError>(e),
                    Ok(rp) => Ok((seq![(number, value@)] + rp.0, rp.1)),
                }));
                match step {
                    Err(e) => {},
                    Ok(rp) => {
                        assert(recs.drop_last() + (seq![(number, value@)] + rp.0) =~= recs + rp.0);
                    },
                }
            }
        }
        if saw_marker {
            payload = read_bytes(buf, idx + 1, blen - (idx + 1));
            proof {
                assert(buf@.skip(idx as int)[0] == PAYLOAD_MARKER);
                assert(buf@.skip(idx as int).skip(1) =~= buf@.subrange(idx as int + 1, blen as int));
                assert(recs + Seq::<(u64, Seq<u8>)>::empty() =~= recs);
            }
        } else {
            proof {
                assert(buf@.skip(idx as int) =~= Seq::<u8>::empty());
                assert(recs + Seq::<(u64, Seq<u8>)>::empty() =~= recs);
            }
        }
        let p = Packet { header, token, options: table, payload };
        proof {
            lemma_table_of_sorted(recs);
            lemma_class_from_number(buf@[1]);
            assert((buf@[0] as int) / 64 < 4) by (nonlinear_arith)
                requires
                    0 <= buf@[0] < 256,
            ;
            assert((buf@[0] as int) % 16 < 16);
            match spec_decode(buf@) {
                Ok(m) => {
                    assert(p@ =~= m);
                },
                Err(e) => {},
            }
        }
        Ok(p)
    }

    /// Encodes the packet into a fresh buffer: header, token, option
    /// section, and — for a non-empty class with a non-empty payload — the
    /// payload marker and the payload. The total size is held against the
    /// ceiling before any buffer is produced, and a key gap too wide for
    /// the delta encoding is refused rather than emitted wrongly.
    pub fn to_bytes(&self) -> (r: Result<Vec<u8>, CoapError>)
        ensures
            spec_encoded_size(self@) > MAX_MESSAGE_SIZE as int ==> r == Err::<Vec<u8>, CoapError>(
                CoapError::InvalidPacketLength,
            ),
            spec_encoded_size(self@) <= MAX_MESSAGE_SIZE as int && !deltas_ok(self@.options, 0)
                ==> r == Err::<Vec<u8>, CoapError>(CoapError::InvalidOptionDelta),
            spec_encoded_size(self@) <= MAX_MESSAGE_SIZE as int && deltas_ok(self@.options, 0)
                ==> (r matches Ok(v) && v@ == spec_encode(self@)),
    {
        let osize = match self.options.encoded_size_within(MAX_MESSAGE_SIZE) {
            Some(n) => n,
            None => {
                return Err(CoapError::InvalidPacketLength);
            },
        };
        if self.token.len() > MAX_MESSAGE_SIZE {
            return Err(CoapError::InvalidPacketLength);
        }
        let is_empty_class = match self.header.code {
            MessageClass::Empty => true,
            _ => false,
        };
        let has_marker = !is_empty_class && self.payload.len() > 0;
        if has_marker && self.payload.len() > MAX_MESSAGE_SIZE {
            return Err(CoapError::InvalidPacketLength);
        }
        let total = 4 + self.token.len() + osize + (if has_marker {
            1 + self.payload.len()
        } else {
            0
        });
        if total > MAX_MESSAGE_SIZE {
            return Err(CoapError::InvalidPacketLength);
        }
        if !self.options.deltas_in_range() {
            return Err(CoapError::InvalidOptionDelta);
        }
        let mut buf: Vec<u8> = Vec::with_capacity(total);
        self.header.write_to(&mut buf);
        push_bytes(&mut buf, self.token.as_slice());
        self.options.write_options(&mut buf);
        if has_marker {
            buf.push(PAYLOAD_MARKER);
            push_bytes(&mut buf, self.payload.as_slice());
        }
        proof {
            assert(buf@ =~= spec_encode(self@));
        }
        Ok(buf)
    }
}

/// Round trip: a message with a well-formed header in step with its token,
/// a sorted option table whose keys all hold at least one value and whose
/// gaps fit the delta encoding, a total encoded size within the ceiling,
/// and no payload on the empty class, decodes from its own encoding
/// unchanged.
#[verifier::rlimit(90)]
pub proof fn lemma_round_trip(m: PacketView)
    requires
        spec_packet_wf(m),
        forall|i: int| 0 <= i < m.options.len() ==> (#[trigger] m.options[i]).1.len() > 0,
        deltas_ok(m.options, 0),
        spec_encoded_size(m) <= MAX_MESSAGE_SIZE as int,
        m.header.code == MessageClass::Empty ==> m.payload.len() == 0,
    ensures
        spec_decode(spec_encode(m)) == Ok::<PacketView, CoapError>(m),
{
    let enc = spec_encode(m);
    let hb = spec_header_bytes(m.header);
    let opts = encode_table(m.options, 0);
    let tail = if spec_has_marker(m) {
        seq![PAYLOAD_MARKER] + m.payload
    } else {
        Seq::<u8>::empty()
    };
    lemma_header_round_trip(m.header);
    assert(enc[0] == hb[0] && enc[1] == hb[1] && enc[2] == hb[2] && enc[3] == hb[3]);
    assert(spec_parse_header(enc) == spec_parse_header(hb));
    let tkl = m.header.token_length as int;
    assert(enc.len() >= 4 + tkl);
    assert(enc.subrange(4, 4 + tkl) =~= m.token);
    assert(enc.skip(4 + tkl) =~= opts + tail);
    lemma_values_within_encode_table(m.options, 0);
    lemma_decode_encode_table(m.options, 0, tail);
    lemma_table_of_records(m.options);
    let pl = if tail.len() == 0 {
        Seq::<u8>::empty()
    } else {
        tail.skip(1)
    };
    if spec_has_marker(m) {
        assert(tail.skip(1) =~= m.payload);
    } else {
        assert(m.payload =~= Seq::<u8>::empty());
    }
    assert(spec_parse_header(enc) == m.header);
    assert(decode_records(enc.skip(4 + tkl), 0) == Ok::<(RecordList, Seq<u8>), CoapError>(
        (records_of(m.options), pl),
    ));
    assert(table_of(records_of(m.options)) == m.options);
    match spec_decode(enc) {
        Ok(got) => {
            assert(got =~= m);
        },
        Err(e) => {
            assert(false);
        },
    }
}

/// Truncation safety: a byte-truncated prefix of a message that decodes
/// either decodes as well — with the records the cut leaves whole and a
/// possibly shortened or absent payload — or fails for a missing header,
/// token, or option bytes; it never yields the delta error or any other
/// kind. A prefix cut inside the payload still decodes, with the shorter
/// payload.
pub proof fn lemma_truncation_safety(buf: Seq<u8>, k: int)
    requires
        0 <= k <= buf.len(),
        spec_decode(buf) is Ok,
    ensures
        match spec_decode(buf.take(k)) {
            Ok(_) => true,
            Err(e) => e == CoapError::InvalidHeader || e == CoapError::InvalidTokenLength || e
                == CoapError::InvalidOptionLength,
        },
{
    let pre = buf.take(k);
    if pre.len() < 4 {
    } else {
        assert(pre[0] == buf[0] && pre[1] == buf[1] && pre[2] == buf[2] && pre[3] == buf[3]);
        assert(spec_parse_header(pre) == spec_parse_header(buf));
        let h = spec_parse_header(buf);
        assert(h.token_length <= 8);
        let tkl = h.token_length as int;
        if pre.len() >= 4 + tkl {
            assert(pre.skip(4 + tkl) =~= buf.skip(4 + tkl).take(k - 4 - tkl));
            assert(decode_records(buf.skip(4 + tkl), 0) is Ok);
            lemma_decode_records_prefix(buf.skip(4 + tkl), 0, k - 4 - tkl);
        }
    }
}

/// A packet's option table is kept in strictly ascending key order by
/// every mutation, so the encoder, walking it from a running number of
/// zero, never computes a negative delta.
pub proof fn lemma_encode_deltas_nonneg(m: PacketView)
    requires
        spec_packet_wf(m),
    ensures
        deltas_nonneg(m.options, 0),
{
    lemma_sorted_deltas_nonneg(m.options, 0);
}

} // verus!
