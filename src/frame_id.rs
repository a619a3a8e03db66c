//! The 29-bit CAN identifiers of the four transfer kinds.

use vstd::prelude::*;

verus! {

/// The identifier's type id does not match the expected data type.
#[derive(Debug, Clone, Copy, PartialEq, Eq, Structural)]
pub enum FrameIdError {
    WrongTypeId,
}

/// Header of a message from a node with an id.
#[derive(Debug, Clone, Copy, PartialEq, Eq, Structural)]
pub struct MessageHeader {
    pub priority: u8,
    pub type_id: u16,
    pub source_node: u8,
}

/// Header of a message from a node without an id.
#[derive(Debug, Clone, Copy, PartialEq, Eq, Structural)]
pub struct AnonymousHeader {
    pub priority: u8,
    pub type_id: u8,
    pub discriminator: u16,
}

/// Header of a service request or response.
#[derive(Debug, Clone, Copy, PartialEq, Eq, Structural)]
pub struct ServiceHeader {
    pub priority: u8,
    pub type_id: u8,
    pub source_node: u8,
    pub destination_node: u8,
}

/// The bits of `id` from `lo` up that `mask` selects, right-aligned.
pub open spec fn field_of(id: u32, lo: u32, mask: u32) -> u32 {
    (id >> lo) & mask
}

pub open spec fn message_id(priority: u8, type_id: u16, source_node: u8) -> u32 {
    (source_node as u32) | ((type_id as u32) << 8u32) | ((priority as u32) << 24u32)
}

pub open spec fn anonymous_id(priority: u8, type_id: u8, discriminator: u16) -> u32 {
    ((type_id as u32) << 8u32) | ((discriminator as u32) << 10u32) | ((priority as u32) << 24u32)
}

pub open spec fn service_id(priority: u8, type_id: u8, source_node: u8, destination_node: u8) -> u32 {
    (source_node as u32) | ((destination_node as u32) << 8u32) | (1u32 << 15u32) | ((
    type_id as u32) << 16u32) | ((priority as u32) << 24u32)
}

/// The message header of data type `type_id` that `id` holds.
pub open spec fn parse_message(id: u32, type_id: u16) -> Result<MessageHeader, FrameIdError> {
    if field_of(id, 8, 0xffff) != type_id as u32 {
        Err(FrameIdError::WrongTypeId)
    } else {
        Ok(
            MessageHeader {
                priority: field_of(id, 24, 0x1f) as u8,
                type_id,
                source_node: field_of(id, 0, 0x7f) as u8,
            },
        )
    }
}

/// The anonymous header of data type `type_id` that `id` holds.
pub open spec fn parse_anonymous(id: u32, type_id: u8) -> Result<AnonymousHeader, FrameIdError> {
    if field_of(id, 8, 0x3) != type_id as u32 {
        Err(FrameIdError::WrongTypeId)
    } else {
        Ok(
            AnonymousHeader {
                priority: field_of(id, 24, 0x1f) as u8,
                type_id,
                discriminator: field_of(id, 10, 0x3fff) as u16,
            },
        )
    }
}

/// The service header of data type `type_id` that `id` holds.
pub open spec fn parse_service(id: u32, type_id: u8) -> Result<ServiceHeader, FrameIdError> {
    if field_of(id, 15, 0x1) != 1 || field_of(id, 16, 0xff) != type_id as u32 {
        Err(FrameIdError::WrongTypeId)
    } else {
        Ok(
            ServiceHeader {
                priority: field_of(id, 24, 0x1f) as u8,
                type_id,
                source_node: field_of(id, 0, 0x7f) as u8,
                destination_node: field_of(id, 8, 0x7f) as u8,
            },
        )
    }
}

/// A valid message header is read back from its identifier, and an
/// identifier is read as a message of no other data type.
pub proof fn lemma_message_id_round_trip(h: MessageHeader, other: u16)
    requires
        h.wf(),
        other != h.type_id,
    ensures
        parse_message(h.spec_id(), h.type_id) == Ok::<MessageHeader, FrameIdError>(h),
        parse_message(h.spec_id(), other) == Err::<MessageHeader, FrameIdError>(
            FrameIdError::WrongTypeId,
        ),
{
    let p = h.priority as u32;
    let t = h.type_id as u32;
    let s = h.source_node as u32;
    let id = s | (t << 8u32) | (p << 24u32);
    assert(((id >> 8u32) & 0xffff) == t && ((id >> 24u32) & 0x1f) == p && ((id >> 0u32) & 0x7f)
        == s) by (bit_vector)
        requires
            p < 32,
            t < 0x1_0000,
            s < 128,
            id == s | (t << 8u32) | (p << 24u32),
    ;
}

/// A valid anonymous header is read back from its identifier, and an
/// identifier is read as an anonymous message of no other data type.
pub proof fn lemma_anonymous_id_round_trip(h: AnonymousHeader, other: u8)
    requires
        h.wf(),
        other != h.type_id,
    ensures
        parse_anonymous(h.spec_id(), h.type_id) == Ok::<AnonymousHeader, FrameIdError>(h),
        parse_anonymous(h.spec_id(), other) == Err::<AnonymousHeader, FrameIdError>(
            FrameIdError::WrongTypeId,
        ),
{
    let p = h.priority as u32;
    let t = h.type_id as u32;
    let d = h.discriminator as u32;
    let id = (t << 8u32) | (d << 10u32) | (p << 24u32);
    assert(((id >> 8u32) & 0x3) == t && ((id >> 24u32) & 0x1f) == p && ((id >> 10u32) & 0x3fff)
        == d) by (bit_vector)
        requires
            p < 32,
            t < 4,
            d < 0x4000,
            id == (t << 8u32) | (d << 10u32) | (p << 24u32),
    ;
}

/// A valid service header is read back from its identifier, and an
/// identifier is read as a service frame of no other data type.
pub proof fn lemma_service_id_round_trip(h: ServiceHeader, other: u8)
    requires
        h.wf(),
        other != h.type_id,
    ensures
        parse_service(h.spec_id(), h.type_id) == Ok::<ServiceHeader, FrameIdError>(h),
        parse_service(h.spec_id(), other) == Err::<ServiceHeader, FrameIdError>(
            FrameIdError::WrongTypeId,
        ),
{
    let p = h.priority as u32;
    let t = h.type_id as u32;
    let s = h.source_node as u32;
    let d = h.destination_node as u32;
    let id = s | (d << 8u32) | (1u32 << 15u32) | (t << 16u32) | (p << 24u32);
    assert(((id >> 15u32) & 0x1) == 1 && ((id >> 16u32) & 0xff) == t && ((id >> 24u32) & 0x1f)
        == p && ((id >> 0u32) & 0x7f) == s && ((id >> 8u32) & 0x7f) == d) by (bit_vector)
        requires
            p < 32,
            t < 0x100,
            s < 128,
            d < 128,
            id == s | (d << 8u32) | (1u32 << 15u32) | (t << 16u32) | (p << 24u32),
    ;
}

impl MessageHeader {
    /// Sets the low five bits of the priority, where priorities live.
    pub fn set_priority(&mut self, priority: u8)
        requires
            priority < 32,
        ensures
            *final(self) == (MessageHeader { priority: (old(self).priority & 0xe0) | priority, ..*old(self) }),
    {
        self.priority = (self.priority & 0xe0) | priority;
    }

    /// The low five bits of the priority.
    pub fn get_priority(&self) -> (r: u8)
        ensures
            r == self.priority & 0x1f,
            self.priority < 32 ==> r == self.priority,
    {
        let p = self.priority;
        assert(p < 32 ==> p & 0x1f == p) by (bit_vector);
        p & 0x1f
    }

    pub open spec fn wf(&self) -> bool {
        self.priority < 32 && self.source_node < 128
    }

    pub open spec fn spec_id(&self) -> u32 {
        message_id(self.priority, self.type_id, self.source_node)
    }

    pub fn id(&self) -> (r: u32)
        requires
            self.wf(),
        ensures
            r == self.spec_id(),
            r < 0x2000_0000,
    {
        let p = self.priority as u32;
        let t = self.type_id as u32;
        let s = self.source_node as u32;
        assert(s | (t << 8u32) | (p << 24u32) < 0x2000_0000) by (bit_vector)
            requires
                p < 32,
                t < 0x1_0000,
                s < 128,
        ;
        s | (t << 8) | (p << 24)
    }

    /// Reads a header of data type `type_id` out of `id`.
    pub fn from_id(id: u32, type_id: u16) -> (r: Result<Self, FrameIdError>)
        ensures
            r == parse_message(id, type_id),
    {
        if (id >> 8) & 0xffff != type_id as u32 {
            Err(FrameIdError::WrongTypeId)
        } else {
            assert(id >> 0u32 == id) by (bit_vector);
            Ok(MessageHeader {
                priority: ((id >> 24) & 0x1f) as u8,
                type_id,
                source_node: (id & 0x7f) as u8,
            })
        }
    }
}

impl AnonymousHeader {
    /// Sets the low five bits of the priority, where priorities live.
    pub fn set_priority(&mut self, priority: u8)
        requires
            priority < 32,
        ensures
            *final(self) == (AnonymousHeader { priority: (old(self).priority & 0xe0) | priority, ..*old(self) }),
    {
        self.priority = (self.priority & 0xe0) | priority;
    }

    /// The low five bits of the priority.
    pub fn get_priority(&self) -> (r: u8)
        ensures
            r == self.priority & 0x1f,
            self.priority < 32 ==> r == self.priority,
    {
        let p = self.priority;
        assert(p < 32 ==> p & 0x1f == p) by (bit_vector);
        p & 0x1f
    }

    pub open spec fn wf(&self) -> bool {
        self.priority < 32 && self.type_id < 4 && self.discriminator < 0x4000
    }

    pub open spec fn spec_id(&self) -> u32 {
        anonymous_id(self.priority, self.type_id, self.discriminator)
    }

    pub fn id(&self) -> (r: u32)
        requires
            self.wf(),
        ensures
            r == self.spec_id(),
            r < 0x2000_0000,
    {
        let p = self.priority as u32;
        let t = self.type_id as u32;
        let d = self.discriminator as u32;
        assert((t << 8u32) | (d << 10u32) | (p << 24u32) < 0x2000_0000) by (bit_vector)
            requires
                p < 32,
                t < 4,
                d < 0x4000,
        ;
        (t << 8) | (d << 10) | (p << 24)
    }

    /// Reads a header of data type `type_id` out of `id`.
    pub fn from_id(id: u32, type_id: u8) -> (r: Result<Self, FrameIdError>)
        ensures
            r == parse_anonymous(id, type_id),
    {
        if (id >> 8) & 0x3 != type_id as u32 {
            Err(FrameIdError::WrongTypeId)
        } else {
            Ok(AnonymousHeader {
                priority: ((id >> 24) & 0x1f) as u8,
                type_id,
                discriminator: ((id >> 10) & 0x3fff) as u16,
            })
        }
    }
}

impl ServiceHeader {
    /// Sets the low five bits of the priority, where priorities live.
    pub fn set_priority(&mut self, priority: u8)
        requires
            priority < 32,
        ensures
            *final(self) == (ServiceHeader { priority: (old(self).priority & 0xe0) | priority, ..*old(self) }),
    {
        self.priority = (self.priority & 0xe0) | priority;
    }

    /// The low five bits of the priority.
    pub fn get_priority(&self) -> (r: u8)
        ensures
            r == self.priority & 0x1f,
            self.priority < 32 ==> r == self.priority,
    {
        let p = self.priority;
        assert(p < 32 ==> p & 0x1f == p) by (bit_vector);
        p & 0x1f
    }

    pub open spec fn wf(&self) -> bool {
        self.priority < 32 && self.source_node < 128 && self.destination_node < 128
    }

    pub open spec fn spec_id(&self) -> u32 {
        service_id(self.priority, self.type_id, self.source_node, self.destination_node)
    }

    pub fn id(&self) -> (r: u32)
        requires
            self.wf(),
        ensures
            r == self.spec_id(),
            r < 0x2000_0000,
    {
        let p = self.priority as u32;
        let t = self.type_id as u32;
        let s = self.source_node as u32;
        let d = self.destination_node as u32;
        assert(s | (d << 8u32) | (1u32 << 15u32) | (t << 16u32) | (p << 24u32) < 0x2000_0000)
            by (bit_vector)
            requires
                p < 32,
                t < 0x100,
                s < 128,
                d < 128,
        ;
        s | (d << 8) | (1u32 << 15) | (t << 16) | (p << 24)
    }

    /// Reads a service header of data type `type_id` out of `id`; an
    /// identifier without the service bit 15 is no service frame.
    pub fn from_id(id: u32, type_id: u8) -> (r: Result<Self, FrameIdError>)
        ensures
            r == parse_service(id, type_id),
    {
        assert(id >> 0u32 == id) by (bit_vector);
        if (id >> 15) & 0x1 != 1 || (id >> 16) & 0xff != type_id as u32 {
            Err(FrameIdError::WrongTypeId)
        } else {
            Ok(ServiceHeader {
                priority: ((id >> 24) & 0x1f) as u8,
                type_id,
                source_node: (id & 0x7f) as u8,
                destination_node: ((id >> 8) & 0x7f) as u8,
            })
        }
    }
}

/// A transfer: its identifier, the signature of its data type and its body.
pub struct Frame<B> {
    pub id: u32,
    pub data_type_signature: u64,
    pub body: B,
}

impl<B> Frame<B> {
    /// A message from node `source_node`.
    pub fn from_message(
        message: B,
        type_id: u16,
        data_type_signature: u64,
        priority: u8,
        source_node: u8,
    ) -> (r: Self)
        requires
            priority < 32,
            source_node < 128,
        ensures
            r.id == message_id(priority, type_id, source_node),
            r.data_type_signature == data_type_signature,
            r.body == message,
    {
        let header = MessageHeader { priority, type_id, source_node };
        Frame::from_parts(header.id(), data_type_signature, message)
    }

    /// A message from a node without an id, told apart by `discriminator`.
    pub fn from_anonymous_message(
        message: B,
        type_id: u8,
        data_type_signature: u64,
        priority: u8,
        discriminator: u16,
    ) -> (r: Self)
        requires
            priority < 32,
            type_id < 4,
            discriminator < 0x4000,
        ensures
            r.id == anonymous_id(priority, type_id, discriminator),
            r.data_type_signature == data_type_signature,
            r.body == message,
    {
        let header = AnonymousHeader { priority, type_id, discriminator };
        Frame::from_parts(header.id(), data_type_signature, message)
    }

    /// A service request from `source_node` to `destination_node`.
    pub fn from_request(
        request: B,
        type_id: u8,
        data_type_signature: u64,
        priority: u8,
        source_node: u8,
        destination_node: u8,
    ) -> (r: Self)
        requires
            priority < 32,
            source_node < 128,
            destination_node < 128,
        ensures
            r.id == service_id(priority, type_id, source_node, destination_node),
            r.data_type_signature == data_type_signature,
            r.body == request,
    {
        let header = ServiceHeader { priority, type_id, source_node, destination_node };
        Frame::from_parts(header.id(), data_type_signature, request)
    }

    /// A service response from `source_node` to `destination_node`.
    pub fn from_response(
        response: B,
        type_id: u8,
        data_type_signature: u64,
        priority: u8,
        source_node: u8,
        destination_node: u8,
    ) -> (r: Self)
        requires
            priority < 32,
            source_node < 128,
            destination_node < 128,
        ensures
            r.id == service_id(priority, type_id, source_node, destination_node),
            r.data_type_signature == data_type_signature,
            r.body == response,
    {
        let header = ServiceHeader { priority, type_id, source_node, destination_node };
        Frame::from_parts(header.id(), data_type_signature, response)
    }

    pub fn from_parts(id: u32, data_type_signature: u64, body: B) -> (r: Self)
        ensures
            r.id == id,
            r.data_type_signature == data_type_signature,
            r.body == body,
    {
        Frame { id, data_type_signature, body }
    }

    pub fn into_parts(self) -> (r: (u32, B))
        ensures
            r == (self.id, self.body),
    {
        (self.id, self.body)
    }
}

} // verus!
