//! The packets that actors exchange, and their JSON text.

use vstd::prelude::*;

verus! {

/// A message on the bus: who sent it, whom it is for, what to do, and a payload.
pub struct Packet {
    pub from: String,
    pub to: String,
    pub command: String,
    pub data: String,
}

/// The compact JSON text that serde_json writes for an object whose members
/// are the given keys, each with the given string value.
pub uninterp spec fn json_object_text(members: Seq<(Seq<char>, Seq<char>)>) -> Seq<char>;

/// The members of the JSON object that encodes a packet, in the order the
/// fields are written: `from`, `to`, `command`, `data`.
pub open spec fn packet_members(
    from: Seq<char>,
    to: Seq<char>,
    command: Seq<char>,
    data: Seq<char>,
) -> Seq<(Seq<char>, Seq<char>)> {
    seq![("from"@, from), ("to"@, to), ("command"@, command), ("data"@, data)]
}

/// Builds a `serde_json::Map` from the given `(key, string value)` members and
/// renders `serde_json::Value::Object` of it with its `Display` (compact JSON).
/// The contract only names the text; serde_json's escaping and member order
/// are not restated here.
#[verifier::external_body]
fn json_object_of_strings(members: &Vec<(String, String)>) -> (text: String)
    ensures
        text@ == json_object_text(members@.map_values(|m: (String, String)| (m.0@, m.1@))),
{
    let object: serde_json::Map<String, serde_json::Value> = members.iter().map(
        |m| (m.0.clone(), serde_json::Value::String(m.1.clone())),
    ).collect();
    serde_json::Value::Object(object).to_string()
}

impl View for Packet {
    type V = (Seq<char>, Seq<char>, Seq<char>, Seq<char>);

    /// The packet's `(from, to, command, data)`.
    open spec fn view(&self) -> Self::V {
        (self.from@, self.to@, self.command@, self.data@)
    }
}

impl Packet {
    /// A packet with the given fields.
    pub fn new(from: &str, to: &str, command: &str, data: &str) -> (p: Packet)
        ensures
            p.from@ == from@,
            p.to@ == to@,
            p.command@ == command@,
            p.data@ == data@,
    {
        Packet {
            from: from.to_string(),
            to: to.to_string(),
            command: command.to_string(),
            data: data.to_string(),
        }
    }

    /// The JSON text of a packet with the given fields, as it travels on the bus.
    pub fn stringify(from: &str, to: &str, command: &str, data: &str) -> (text: String)
        ensures
            text@ == json_object_text(packet_members(from@, to@, command@, data@)),
    {
        let mut members: Vec<(String, String)> = Vec::new();
        members.push(("from".to_string(), from.to_string()));
        members.push(("to".to_string(), to.to_string()));
        members.push(("command".to_string(), command.to_string()));
        members.push(("data".to_string(), data.to_string()));
        let ghost viewed = members@.map_values(|m: (String, String)| (m.0@, m.1@));
        assert(viewed =~= packet_members(from@, to@, command@, data@));
        json_object_of_strings(&members)
    }
}

/// What a mailbox does with a packet it took from the bus.
pub enum Delivery {
    /// The packet is for this mailbox: hand it to the actor.
    Deliver(Packet),
    /// The packet is for someone else: put it back on the bus.
    PutBack(Packet),
}

/// Routes a packet taken from the bus by the mailbox of `address`: it is
/// delivered exactly when it is addressed to `address`, else put back unchanged.
pub fn route(address: &str, packet: Packet) -> (d: Delivery)
    ensures
        packet.to@ == address@ ==> d == Delivery::Deliver(packet),
        packet.to@ != address@ ==> d == Delivery::PutBack(packet),
{
    let own = address.to_string();
    if packet.to == own {
        Delivery::Deliver(packet)
    } else {
        Delivery::PutBack(packet)
    }
}

} // verus!
