use vstd::prelude::*;

use crate::error::CoapError;

verus! {

/// The four message types carried in the fixed header.
#[derive(Clone, Copy, Debug, PartialEq, Eq, Structural)]
pub enum MessageType {
    Confirmable,
    NonConfirmable,
    Acknowledgement,
    Reset,
}

/// The request methods of the request message class.
#[derive(Clone, Copy, Debug, PartialEq, Eq, Structural)]
pub enum RequestType {
    Get,
    Post,
    Put,
    Delete,
}

/// The response codes of the response message class.
#[derive(Clone, Copy, Debug, PartialEq, Eq, Structural)]
pub enum ResponseType {
    Created,
    Deleted,
    Valid,
    Changed,
    Content,
    BadRequest,
    Unauthorized,
    BadOption,
    Forbidden,
    NotFound,
    MethodNotAllowed,
    NotAcceptable,
    PreconditionFailed,
    RequestEntityTooLarge,
    UnsupportedContentFormat,
    InternalServerError,
    NotImplemented,
    BadGateway,
    ServiceUnavailable,
    GatewayTimeout,
    ProxyingNotSupported,
}

/// The coarse class of a message: empty, request, or response.
///
/// A code byte that names no known request or response is kept verbatim in
/// `Reserved`, so parsing a header never loses information.
#[derive(Clone, Copy, Debug, PartialEq, Eq, Structural)]
pub enum MessageClass {
    Empty,
    Request(RequestType),
    Response(ResponseType),
    Reserved(u8),
}

/// The number a message type occupies in the two type bits of the header.
pub open spec fn spec_type_number(t: MessageType) -> u8 {
    match t {
        MessageType::Confirmable => 0,
        MessageType::NonConfirmable => 1,
        MessageType::Acknowledgement => 2,
        MessageType::Reset => 3,
    }
}

/// The message type encoded by a two-bit number.
pub open spec fn spec_type_from(n: u8) -> MessageType {
    if n == 0 {
        MessageType::Confirmable
    } else if n == 1 {
        MessageType::NonConfirmable
    } else if n == 2 {
        MessageType::Acknowledgement
    } else {
        MessageType::Reset
    }
}

/// The code byte of a message class.
pub open spec fn spec_class_number(c: MessageClass) -> u8 {
    match c {
        MessageClass::Empty => 0x00,
        MessageClass::Request(RequestType::Get) => 0x01,
        MessageClass::Request(RequestType::Post) => 0x02,
        MessageClass::Request(RequestType::Put) => 0x03,
        MessageClass::Request(RequestType::Delete) => 0x04,
        MessageClass::Response(ResponseType::Created) => 0x41,
        MessageClass::Response(ResponseType::Deleted) => 0x42,
        MessageClass::Response(ResponseType::Valid) => 0x43,
        MessageClass::Response(ResponseType::Changed) => 0x44,
        MessageClass::Response(ResponseType::Content) => 0x45,
        MessageClass::Response(ResponseType::BadRequest) => 0x80,
        MessageClass::Response(ResponseType::Unauthorized) => 0x81,
        MessageClass::Response(ResponseType::BadOption) => 0x82,
        MessageClass::Response(ResponseType::Forbidden) => 0x83,
        MessageClass::Response(ResponseType::NotFound) => 0x84,
        MessageClass::Response(ResponseType::MethodNotAllowed) => 0x85,
        MessageClass::Response(ResponseType::NotAcceptable) => 0x86,
        MessageClass::Response(ResponseType::PreconditionFailed) => 0x8C,
        MessageClass::Response(ResponseType::RequestEntityTooLarge) => 0x8D,
        MessageClass::Response(ResponseType::UnsupportedContentFormat) => 0x8F,
        MessageClass::Response(ResponseType::InternalServerError) => 0xA0,
        MessageClass::Response(ResponseType::NotImplemented) => 0xA1,
        MessageClass::Response(ResponseType::BadGateway) => 0xA2,
        MessageClass::Response(ResponseType::ServiceUnavailable) => 0xA3,
        MessageClass::Response(ResponseType::GatewayTimeout) => 0xA4,
        MessageClass::Response(ResponseType::ProxyingNotSupported) => 0xA5,
        MessageClass::Reserved(n) => n,
    }
}

/// The message class encoded by a code byte.
pub open spec fn spec_class_from(n: u8) -> MessageClass {
    if n == 0x00 {
        MessageClass::Empty
    } else if n == 0x01 {
        MessageClass::Request(RequestType::Get)
    } else if n == 0x02 {
        MessageClass::Request(RequestType::Post)
    } else if n == 0x03 {
        MessageClass::Request(RequestType::Put)
    } else if n == 0x04 {
        MessageClass::Request(RequestType::Delete)
    } else if n == 0x41 {
        MessageClass::Response(ResponseType::Created)
    } else if n == 0x42 {
        MessageClass::Response(ResponseType::Deleted)
    } else if n == 0x43 {
        MessageClass::Response(ResponseType::Valid)
    } else if n == 0x44 {
        MessageClass::Response(ResponseType::Changed)
    } else if n == 0x45 {
        MessageClass::Response(ResponseType::Content)
    } else if n == 0x80 {
        MessageClass::Response(ResponseType::BadRequest)
    } else if n == 0x81 {
        MessageClass::Response(ResponseType::Unauthorized)
    } else if n == 0x82 {
        MessageClass::Response(ResponseType::BadOption)
    } else if n == 0x83 {
        MessageClass::Response(ResponseType::Forbidden)
    } else if n == 0x84 {
        MessageClass::Response(ResponseType::NotFound)
    } else if n == 0x85 {
        MessageClass::Response(ResponseType::MethodNotAllowed)
    } else if n == 0x86 {
        MessageClass::Response(ResponseType::NotAcceptable)
    } else if n == 0x8C {
        MessageClass::Response(ResponseType::PreconditionFailed)
    } else if n == 0x8D {
        MessageClass::Response(ResponseType::RequestEntityTooLarge)
    } else if n == 0x8F {
        MessageClass::Response(ResponseType::UnsupportedContentFormat)
    } else if n == 0xA0 {
        MessageClass::Response(ResponseType::InternalServerError)
    } else if n == 0xA1 {
        MessageClass::Response(ResponseType::NotImplemented)
    } else if n == 0xA2 {
        MessageClass::Response(ResponseType::BadGateway)
    } else if n == 0xA3 {
        MessageClass::Response(ResponseType::ServiceUnavailable)
    } else if n == 0xA4 {
        MessageClass::Response(ResponseType::GatewayTimeout)
    } else if n == 0xA5 {
        MessageClass::Response(ResponseType::ProxyingNotSupported)
    } else {
        MessageClass::Reserved(n)
    }
}

/// A class is well formed when turning it into its code byte and back
/// reproduces it; only a `Reserved` value that shadows an assigned code
/// byte violates this.
pub open spec fn spec_class_wf(c: MessageClass) -> bool {
    spec_class_from(spec_class_number(c)) == c
}

/// Reading any code byte yields a well-formed class that writes back as the
/// same byte.
pub proof fn lemma_class_from_number(n: u8)
    ensures
        spec_class_number(spec_class_from(n)) == n,
        spec_class_wf(spec_class_from(n)),
{
}

impl MessageClass {
    /// The code byte of this class.
    pub fn to_number(self) -> (n: u8)
        ensures
            n == spec_class_number(self),
    {
        match self {
            MessageClass::Empty => 0x00,
            MessageClass::Request(RequestType::Get) => 0x01,
            MessageClass::Request(RequestType::Post) => 0x02,
            MessageClass::Request(RequestType::Put) => 0x03,
            MessageClass::Request(RequestType::Delete) => 0x04,
            MessageClass::Response(ResponseType::Created) => 0x41,
            MessageClass::Response(ResponseType::Deleted) => 0x42,
            MessageClass::Response(ResponseType::Valid) => 0x43,
            MessageClass::Response(ResponseType::Changed) => 0x44,
            MessageClass::Response(ResponseType::Content) => 0x45,
            MessageClass::Response(ResponseType::BadRequest) => 0x80,
            MessageClass::Response(ResponseType::Unauthorized) => 0x81,
            MessageClass::Response(ResponseType::BadOption) => 0x82,
            MessageClass::Response(ResponseType::Forbidden) => 0x83,
            MessageClass::Response(ResponseType::NotFound) => 0x84,
            MessageClass::Response(ResponseType::MethodNotAllowed) => 0x85,
            MessageClass::Response(ResponseType::NotAcceptable) => 0x86,
            MessageClass::Response(ResponseType::PreconditionFailed) => 0x8C,
            MessageClass::Response(ResponseType::RequestEntityTooLarge) => 0x8D,
            MessageClass::Response(ResponseType::UnsupportedContentFormat) => 0x8F,
            MessageClass::Response(ResponseType::InternalServerError) => 0xA0,
            MessageClass::Response(ResponseType::NotImplemented) => 0xA1,
            MessageClass::Response(ResponseType::BadGateway) => 0xA2,
            MessageClass::Response(ResponseType::ServiceUnavailable) => 0xA3,
            MessageClass::Response(ResponseType::GatewayTimeout) => 0xA4,
            MessageClass::Response(ResponseType::ProxyingNotSupported) => 0xA5,
            MessageClass::Reserved(n) => n,
        }
    }

    /// The class encoded by a code byte.
    pub fn from_number(n: u8) -> (c: MessageClass)
        ensures
            c == spec_class_from(n),
            spec_class_wf(c),
    {
        let c = if n == 0x00 {
            MessageClass::Empty
        } else if n == 0x01 {
            MessageClass::Request(RequestType::Get)
        } else if n == 0x02 {
            MessageClass::Request(RequestType::Post)
        } else if n == 0x03 {
            MessageClass::Request(RequestType::Put)
        } else if n == 0x04 {
            MessageClass::Request(RequestType::Delete)
        } else if n == 0x41 {
            MessageClass::Response(ResponseType::Created)
        } else if n == 0x42 {
            MessageClass::Response(ResponseType::Deleted)
        } else if n == 0x43 {
            MessageClass::Response(ResponseType::Valid)
        } else if n == 0x44 {
            MessageClass::Response(ResponseType::Changed)
        } else if n == 0x45 {
            MessageClass::Response(ResponseType::Content)
        } else if n == 0x80 {
            MessageClass::Response(ResponseType::BadRequest)
        } else if n == 0x81 {
            MessageClass::Response(ResponseType::Unauthorized)
        } else if n == 0x82 {
            MessageClass::Response(ResponseType::BadOption)
        } else if n == 0x83 {
            MessageClass::Response(ResponseType::Forbidden)
        } else if n == 0x84 {
            MessageClass::Response(ResponseType::NotFound)
        } else if n == 0x85 {
            MessageClass::Response(ResponseType::MethodNotAllowed)
        } else if n == 0x86 {
            MessageClass::Response(ResponseType::NotAcceptable)
        } else if n == 0x8C {
            MessageClass::Response(ResponseType::PreconditionFailed)
        } else if n == 0x8D {
            MessageClass::Response(ResponseType::RequestEntityTooLarge)
        } else if n == 0x8F {
            MessageClass::Response(ResponseType::UnsupportedContentFormat)
        } else if n == 0xA0 {
            MessageClass::Response(ResponseType::InternalServerError)
        } else if n == 0xA1 {
            MessageClass::Response(ResponseType::NotImplemented)
        } else if n == 0xA2 {
            MessageClass::Response(ResponseType::BadGateway)
        } else if n == 0xA3 {
            MessageClass::Response(ResponseType::ServiceUnavailable)
        } else if n == 0xA4 {
            MessageClass::Response(ResponseType::GatewayTimeout)
        } else if n == 0xA5 {
            MessageClass::Response(ResponseType::ProxyingNotSupported)
        } else {
            MessageClass::Reserved(n)
        };
        c
    }
}

/// The fixed leading part of every message: protocol version, message type,
/// token length, code, and message identifier. On the wire it is exactly
/// four bytes.
#[derive(Clone, Copy, Debug, PartialEq, Eq, Structural)]
pub struct Header {
    pub version: u8,
    pub message_type: MessageType,
    pub token_length: u8,
    pub code: MessageClass,
    pub message_id: u16,
}

/// A header is well formed when its version fits the two version bits, its
/// token length is at most 8, and its class survives the code byte.
pub open spec fn spec_header_wf(h: Header) -> bool {
    &&& h.version < 4
    &&& h.token_length <= 8
    &&& spec_class_wf(h.code)
}

/// The first wire byte: version, type, and token length packed together.
/// Out-of-range fields are reduced to the bits the byte can carry.
pub open spec fn spec_header_byte0(h: Header) -> u8 {
    (((h.version as int) % 4) * 64 + (spec_type_number(h.message_type) as int) * 16 + (
    (h.token_length as int) % 16)) as u8
}

/// The four wire bytes of a header.
pub open spec fn spec_header_bytes(h: Header) -> Seq<u8> {
    seq![
        spec_header_byte0(h),
        spec_class_number(h.code),
        ((h.message_id as int) / 256) as u8,
        ((h.message_id as int) % 256) as u8,
    ]
}

/// The header read from the first four bytes of a buffer.
pub open spec fn spec_parse_header(bytes: Seq<u8>) -> Header {
    Header {
        version: ((bytes[0] as int) / 64) as u8,
        message_type: spec_type_from((((bytes[0] as int) / 16) % 4) as u8),
        token_length: ((bytes[0] as int) % 16) as u8,
        code: spec_class_from(bytes[1]),
        message_id: ((bytes[2] as int) * 256 + (bytes[3] as int)) as u16,
    }
}

/// Serializing a well-formed header and parsing the result reproduces it.
pub proof fn lemma_header_round_trip(h: Header)
    requires
        spec_header_wf(h),
    ensures
        spec_parse_header(spec_header_bytes(h)) == h,
{
    let v = h.version as int;
    let t = spec_type_number(h.message_type) as int;
    let k = h.token_length as int;
    let b0 = v * 64 + t * 16 + k;
    assert(0 <= b0 < 256);
    assert(b0 / 64 == v && (b0 / 16) % 4 == t && b0 % 16 == k) by (nonlinear_arith)
        requires
            b0 == v * 64 + t * 16 + k,
            0 <= v < 4,
            0 <= t < 4,
            0 <= k < 16,
    ;
    let id = h.message_id as int;
    assert((id / 256) * 256 + id % 256 == id);
    assert(id / 256 < 256);
}

impl Header {
    /// A fresh header: version 1, confirmable, no token, the empty class,
    /// message identifier 0.
    pub fn new() -> (h: Header)
        ensures
            h == (Header {
                version: 1u8,
                message_type: MessageType::Confirmable,
                token_length: 0u8,
                code: MessageClass::Empty,
                message_id: 0u16,
            }),
            spec_header_wf(h),
    {
        Header {
            version: 1,
            message_type: MessageType::Confirmable,
            token_length: 0,
            code: MessageClass::Empty,
            message_id: 0,
        }
    }

    /// The protocol version.
    pub fn get_version(&self) -> (v: u8)
        ensures
            v == self.version,
    {
        self.version
    }

    /// Sets the protocol version, keeping the two bits the wire can carry.
    pub fn set_version(&mut self, v: u8)
        ensures
            *final(self) == (Header { version: (v % 4) as u8, ..*old(self) }),
    {
        proof {
            assert(v & 3 == v % 4) by (bit_vector);
        }
        self.version = v & 3;
    }

    /// The message type.
    pub fn get_type(&self) -> (t: MessageType)
        ensures
            t == self.message_type,
    {
        self.message_type
    }

    /// Sets the message type.
    pub fn set_type(&mut self, t: MessageType)
        ensures
            *final(self) == (Header { message_type: t, ..*old(self) }),
    {
        self.message_type = t;
    }

    /// The declared token length.
    pub fn get_token_length(&self) -> (n: u8)
        ensures
            n == self.token_length,
    {
        self.token_length
    }

    /// Sets the declared token length; a token holds at most 8 bytes.
    pub fn set_token_length(&mut self, n: u8)
        requires
            n <= 8,
        ensures
            *final(self) == (Header { token_length: n, ..*old(self) }),
    {
        self.token_length = n;
    }

    /// The message identifier.
    pub fn get_message_id(&self) -> (id: u16)
        ensures
            id == self.message_id,
    {
        self.message_id
    }

    /// Sets the message identifier.
    pub fn set_message_id(&mut self, id: u16)
        ensures
            *final(self) == (Header { message_id: id, ..*old(self) }),
    {
        self.message_id = id;
    }

    /// Reads a header from the first four bytes of a buffer; fails when the
    /// buffer is shorter than the fixed header.
    pub fn parse(buf: &[u8]) -> (r: Result<Header, CoapError>)
        ensures
            buf@.len() < 4 ==> r == Err::<Header, CoapError>(CoapError::InvalidHeader),
            buf@.len() >= 4 ==> r == Ok::<Header, CoapError>(spec_parse_header(buf@)),
    {
        if buf.len() < 4 {
            return Err(CoapError::InvalidHeader);
        }
        let b0 = buf[0];
        proof {
            assert(b0 >> 6 == b0 / 64 && (b0 >> 4) & 3 == (b0 / 16) % 4 && b0 & 15 == b0 % 16)
                by (bit_vector);
        }
        let version = b0 >> 6;
        let tnum = (b0 >> 4) & 3;
        let message_type = if tnum == 0 {
            MessageType::Confirmable
        } else if tnum == 1 {
            MessageType::NonConfirmable
        } else if tnum == 2 {
            MessageType::Acknowledgement
        } else {
            MessageType::Reset
        };
        let token_length = b0 & 15;
        let code = MessageClass::from_number(buf[1]);
        let message_id = (buf[2] as u16) * 256 + (buf[3] as u16);
        Ok(Header { version, message_type, token_length, code, message_id })
    }

    /// Appends the four wire bytes of this header to a buffer.
    pub fn write_to(&self, out: &mut Vec<u8>)
        ensures
            final(out)@ == old(out)@ + spec_header_bytes(*self),
    {
        let v = self.version;
        let k = self.token_length;
        proof {
            assert(v & 3 == v % 4 && k & 15 == k % 16) by (bit_vector);
        }
        let tnum = match self.message_type {
            MessageType::Confirmable => 0u8,
            MessageType::NonConfirmable => 1u8,
            MessageType::Acknowledgement => 2u8,
            MessageType::Reset => 3u8,
        };
        let byte0 = (v & 3) * 64 + tnum * 16 + (k & 15);
        out.push(byte0);
        out.push(self.code.to_number());
        let id = self.message_id;
        proof {
            assert(id >> 8 == id / 256 && id & 255 == id % 256 && id / 256 < 256 && id % 256 < 256)
                by (bit_vector);
        }
        out.push((id >> 8) as u8);
        out.push((id & 255) as u8);
        proof {
            assert(out@ =~= old(out)@ + spec_header_bytes(*self));
        }
    }
}

} // verus!
