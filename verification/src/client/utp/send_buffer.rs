use vstd::prelude::*;

use crate::client::utp::header::Type;
use crate::message::ProtocolMessage;
use crate::wire::write_all;

verus! {

/// What is to be sent on a uTP connection: packets that are only a header, and data.
#[derive(Default)]
pub struct UtpSendBuffer {
    data_buffer: Vec<u8>,
    header_only: Vec<Type>,
}

impl UtpSendBuffer {
    /// The data to be sent.
    pub closed spec fn data(&self) -> Seq<u8> {
        self.data_buffer@
    }

    /// The types of the header-only packets to be sent, in order.
    pub closed spec fn headers(&self) -> Seq<Type> {
        self.header_only@
    }

    /// A buffer with nothing to send.
    pub fn new() -> (r: UtpSendBuffer)
        ensures
            r.data() == Seq::<u8>::empty(),
            r.headers() == Seq::<Type>::empty(),
    {
        UtpSendBuffer { data_buffer: Vec::new(), header_only: Vec::new() }
    }

    /// Queues the encoding of `message`.
    pub fn add_message<T: ProtocolMessage>(&mut self, message: T)
        requires
            message.fits(),
        ensures
            final(self).data() == old(self).data() + message.spec_bytes(),
            final(self).headers() == old(self).headers(),
    {
        message.write(&mut self.data_buffer);
    }

    /// Queues raw bytes.
    pub fn add_data(&mut self, data: &[u8])
        ensures
            final(self).data() == old(self).data() + data@,
            final(self).headers() == old(self).headers(),
    {
        write_all(&mut self.data_buffer, data);
    }

    /// Queues a packet that is only a header of type `header`.
    pub fn add_header(&mut self, header: Type)
        ensures
            final(self).data() == old(self).data(),
            final(self).headers() == old(self).headers().push(header),
    {
        self.header_only.push(header);
    }

    /// Hands out the queued header-only packets, leaving none.
    pub fn take_headers(&mut self) -> (r: Vec<Type>)
        ensures
            r@ == old(self).headers(),
            final(self).headers() == Seq::<Type>::empty(),
            final(self).data() == old(self).data(),
    {
        let mut taken: Vec<Type> = Vec::new();
        std::mem::swap(&mut taken, &mut self.header_only);
        taken
    }

    /// Hands out the queued data, leaving none.
    pub fn take_data(&mut self) -> (r: Vec<u8>)
        ensures
            r@ == old(self).data(),
            final(self).data() == Seq::<u8>::empty(),
            final(self).headers() == old(self).headers(),
    {
        let mut taken: Vec<u8> = Vec::new();
        std::mem::swap(&mut taken, &mut self.data_buffer);
        taken
    }
}

} // verus!
