//! The two traits the socket backends implement, and the byte reader
//! that drains a stream through them.
//!
//! The sockets themselves (Unix, TCP, TLS) live outside this crate; they
//! implement `HttpStream` for the exchange and `ByteStream` for raw
//! reads, and everything on this side of the trait boundary is verified.
//! What the traits promise of those implementations is this crate's
//! trust in them, and is kept to what the backends in fact do.

use vstd::prelude::*;

use crate::errors::Error;
use crate::errors::ProtocolErrorKind;
use crate::http::{Request, Response};
use crate::types::Client;

verus! {

/// One request/response exchange over some transport.
pub trait HttpStream: Sized {
    /// Open the transport the client configuration selects.
    ///
    /// A backend that cannot establish its transport — fields it needs
    /// absent, socket or handshake failure — reports a connection
    /// error; configuration refusals are the dispatcher's own, given
    /// before any backend is touched.
    fn connect(client: Client) -> (r: Result<Self, Error>)
        ensures
            r matches Err(e) ==> e matches Error::ConnectionError(_),
    ;

    /// Serialize the request, send it, and read and parse the reply.
    ///
    /// A failing exchange reports the transport's or the codec's own
    /// failure — connection, I/O or protocol; it neither refuses the
    /// configuration nor judges the engine's reply.
    fn request(&mut self, req: Request) -> (r: Result<Response, Error>)
        ensures
            r matches Err(e) ==> !(e matches Error::ConfigurationError(_)) && !(
            e matches Error::EngineError(_)),
    ;
}

/// A source of raw bytes: a readable socket or TLS session.
///
/// The reader relies on the peer ending its message by a short read, so
/// a full block must take the stream measurably forward; the measure is
/// how the end of the message is known to come. The stream's ghost
/// state — bytes delivered so far, and the failure it reported, if any
/// — is what the reader's own contract speaks of.
pub trait ByteStream {
    /// How much the stream can still deliver before it ends or shortens
    /// a read: the ground of the reader's termination measure. An
    /// implementation outside verified code need not name it.
    open spec fn remaining(&self) -> nat {
        0
    }

    /// Every byte the stream has handed out so far, in order. An
    /// implementation outside verified code need not name it.
    open spec fn delivered(&self) -> Seq<u8> {
        Seq::empty()
    }

    /// The error the stream has reported, if any. An implementation
    /// outside verified code need not name it.
    open spec fn failure(&self) -> Option<Error> {
        None
    }

    /// Whether the stream has signalled the end of its message, by a
    /// read that came back short. An implementation outside verified
    /// code need not name it.
    open spec fn ended(&self) -> bool {
        false
    }

    /// Read up to `max` bytes; fewer than `max` means the message ended.
    ///
    /// A successful read hands out exactly the bytes it delivers, and a
    /// failing one delivers nothing and reports its error.
    fn read_block(&mut self, max: usize) -> (r: Result<Vec<u8>, Error>)
        ensures
            r matches Ok(block) ==> block@.len() <= max
                && final(self).delivered() == old(self).delivered() + block@
                && final(self).failure() == old(self).failure(),
            (r matches Ok(block) && block@.len() == max)
                ==> final(self).remaining() < old(self).remaining(),
            (r matches Ok(block) && block@.len() < max) ==> final(self).ended(),
            r matches Err(e) ==> final(self).delivered() == old(self).delivered()
                && final(self).failure() == Some(e),
    ;
}

/// The fixed read size of the byte reader.
pub const BUFFER_SIZE: usize = 4096;

/// The bytes a stream delivered between two of its states.
pub open spec fn new_bytes(pre: Seq<u8>, post: Seq<u8>) -> Seq<u8> {
    post.subrange(pre.len() as int, post.len() as int)
}

/// Relies on `String::from_utf8`: it succeeds exactly on valid UTF-8 and
/// returns the string those bytes spell.
#[verifier::external_body]
fn utf8_string(bytes: Vec<u8>) -> (r: Result<String, Error>)
    ensures
        r matches Ok(s) ==> vstd::utf8::valid_utf8(bytes@) && s@ == vstd::utf8::decode_utf8(
            bytes@,
        ),
        r matches Err(e) ==> !vstd::utf8::valid_utf8(bytes@) && e == Error::ProtocolError(
            ProtocolErrorKind::InvalidEncoding,
        ),
{
    match String::from_utf8(bytes) {
        Ok(s) => Ok(s),
        Err(_) => Err(Error::ProtocolError(ProtocolErrorKind::InvalidEncoding)),
    }
}

/// Drain a stream into one string: read fixed-size blocks and collect
/// them until a block comes back short, then decode the bytes as UTF-8.
///
/// On success the stream was drained to the short read that ends its
/// message, no read failed, and the string is the UTF-8 decoding of
/// exactly the bytes the stream delivered during this call. Otherwise
/// either a read failed, and its own error comes back, or the delivered
/// bytes are not valid UTF-8, which is an encoding error.
pub fn read_from_stream<T: ByteStream>(stream: &mut T) -> (r: Result<String, Error>)
    ensures
        old(stream).delivered().is_prefix_of(final(stream).delivered()),
        r matches Ok(s) ==> final(stream).ended() && final(stream).failure() == old(
            stream,
        ).failure() && vstd::utf8::valid_utf8(
            new_bytes(old(stream).delivered(), final(stream).delivered()),
        ) && s@ == vstd::utf8::decode_utf8(
            new_bytes(old(stream).delivered(), final(stream).delivered()),
        ),
        r matches Err(e) ==> final(stream).failure() == Some(e) || (e == Error::ProtocolError(
            ProtocolErrorKind::InvalidEncoding,
        ) && !vstd::utf8::valid_utf8(
            new_bytes(old(stream).delivered(), final(stream).delivered()),
        ) && final(stream).failure() == old(stream).failure()),
{
    let mut raw: Vec<u8> = Vec::new();
    proof {
        assert(old(stream).delivered() + raw@ =~= old(stream).delivered());
    }
    loop
        invariant
            stream.delivered() == old(stream).delivered() + raw@,
            stream.failure() == old(stream).failure(),
        ensures
            stream.delivered() == old(stream).delivered() + raw@,
            stream.failure() == old(stream).failure(),
            stream.ended(),
        decreases stream.remaining(),
    {
        match stream.read_block(BUFFER_SIZE) {
            Err(e) => {
                proof {
                    assert(old(stream).delivered().is_prefix_of(stream.delivered())) by {
                        assert(stream.delivered().subrange(
                            0,
                            old(stream).delivered().len() as int,
                        ) =~= old(stream).delivered());
                    }
                }
                return Err(e);
            },
            Ok(block) => {
                let len = block.len();
                let mut block = block;
                let ghost raw0 = raw@;
                let ghost b0 = block@;
                raw.append(&mut block);
                proof {
                    assert(old(stream).delivered() + raw@ =~= (old(stream).delivered() + raw0)
                        + b0);
                }
                if len < BUFFER_SIZE {
                    break ;
                }
            },
        }
    }
    proof {
        assert(old(stream).delivered().is_prefix_of(stream.delivered())) by {
            assert(stream.delivered().subrange(0, old(stream).delivered().len() as int) =~= old(
                stream,
            ).delivered());
        }
        assert(new_bytes(old(stream).delivered(), stream.delivered()) =~= raw@);
    }
    utf8_string(raw)
}

} // verus!
