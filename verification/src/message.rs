//! The model of an mDNS message: exactly the parts of the DNS wire format
//! this protocol reads and writes.
//!
//! A message holds questions, answers and additionals; records carry SRV,
//! A, AAAA or TXT data.  Ghost views mirror each piece over sequences, so
//! contracts can state what a built or parsed message holds, byte for
//! byte.

use crate::addr::IpAddr;
use crate::name::{labels_view, DnsName};
use vstd::prelude::*;

verus! {

/// The DNS class `IN`.
pub const CLASS_IN: u16 = 1;

/// The record type of an IPv4 address record.
pub const TYPE_A: u16 = 1;

/// The record type of a pointer record, used for the service query.
pub const TYPE_PTR: u16 = 12;

/// The record type of a text record.
pub const TYPE_TXT: u16 = 16;

/// The record type of an IPv6 address record.
pub const TYPE_AAAA: u16 = 28;

/// The record type of a service locator record.
pub const TYPE_SRV: u16 = 33;

/// The data of a resource record.
pub enum RecordData {
    /// A service locator: where the named service instance listens.
    Srv { priority: u16, weight: u16, port: u16, target: DnsName },
    /// An IPv4 address in network byte order.
    A(u32),
    /// An IPv6 address in network byte order.
    Aaaa(u128),
    /// A text record: a list of byte strings.
    Txt(Vec<Vec<u8>>),
    /// Data of any other record type, carried opaquely.
    Other(u16),
}

/// A resource record.
pub struct DnsRecord {
    /// The owner name.
    pub name: DnsName,
    /// The record class.
    pub class: u16,
    /// The time to live, in seconds.
    pub ttl: u32,
    /// The record data.
    pub data: RecordData,
}

/// A question.
pub struct DnsQuestion {
    /// The queried name.
    pub name: DnsName,
    /// The queried record type.
    pub qtype: u16,
    /// The queried class.
    pub qclass: u16,
}

/// An mDNS message: the header bits this protocol uses and three record
/// sections.  Authority records are never sent and not modelled.
pub struct DnsMessage {
    /// The message id; zero in mDNS.
    pub id: u16,
    /// Whether this is a response (`QR` bit).
    pub is_response: bool,
    /// The authoritative-answer bit.
    pub authoritative: bool,
    /// The question section.
    pub questions: Vec<DnsQuestion>,
    /// The answer section.
    pub answers: Vec<DnsRecord>,
    /// The additional section.
    pub additionals: Vec<DnsRecord>,
}

/// View of record data over sequences.
pub ghost enum DataView {
    Srv { priority: u16, weight: u16, port: u16, target: Seq<Seq<u8>> },
    A(u32),
    Aaaa(u128),
    Txt(Seq<Seq<u8>>),
    Other(u16),
}

/// View of a resource record.
pub ghost struct RecordView {
    pub name: Seq<Seq<u8>>,
    pub class: u16,
    pub ttl: u32,
    pub data: DataView,
}

/// View of a question.
pub ghost struct QuestionView {
    pub name: Seq<Seq<u8>>,
    pub qtype: u16,
    pub qclass: u16,
}

/// View of a message.
pub ghost struct MessageView {
    pub id: u16,
    pub is_response: bool,
    pub authoritative: bool,
    pub questions: Seq<QuestionView>,
    pub answers: Seq<RecordView>,
    pub additionals: Seq<RecordView>,
}

impl RecordData {
    /// The data as a view.
    pub open spec fn view_of(self) -> DataView {
        match self {
            RecordData::Srv { priority, weight, port, target } => DataView::Srv {
                priority,
                weight,
                port,
                target: target.view_of(),
            },
            RecordData::A(a) => DataView::A(a),
            RecordData::Aaaa(a) => DataView::Aaaa(a),
            RecordData::Txt(strings) => DataView::Txt(labels_view(strings@)),
            RecordData::Other(t) => DataView::Other(t),
        }
    }
}

impl DnsRecord {
    /// The record as a view.
    pub open spec fn view_of(self) -> RecordView {
        RecordView {
            name: self.name.view_of(),
            class: self.class,
            ttl: self.ttl,
            data: self.data.view_of(),
        }
    }
}

impl DnsQuestion {
    /// The question as a view.
    pub open spec fn view_of(self) -> QuestionView {
        QuestionView { name: self.name.view_of(), qtype: self.qtype, qclass: self.qclass }
    }
}

/// The views of a question sequence.
pub open spec fn questions_view(s: Seq<DnsQuestion>) -> Seq<QuestionView> {
    s.map_values(|q: DnsQuestion| q.view_of())
}

/// The views of a record sequence.
pub open spec fn records_view(s: Seq<DnsRecord>) -> Seq<RecordView> {
    s.map_values(|r: DnsRecord| r.view_of())
}

/// Appending a record appends its view.
pub proof fn lemma_records_view_push(s: Seq<DnsRecord>, r: DnsRecord)
    ensures
        records_view(s.push(r)) == records_view(s).push(r.view_of()),
{
    assert(records_view(s.push(r)) =~= records_view(s).push(r.view_of()));
}

impl DnsMessage {
    /// The message as a view.
    pub open spec fn view_of(self) -> MessageView {
        MessageView {
            id: self.id,
            is_response: self.is_response,
            authoritative: self.authoritative,
            questions: questions_view(self.questions@),
            answers: records_view(self.answers@),
            additionals: records_view(self.additionals@),
        }
    }
}

} // verus!
