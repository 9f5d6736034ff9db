//! Inbound packet channels. Each node exclusively owns the receiving half of
//! an unbounded multi-producer channel; the router holds the sending halves.

use crate::Packet;
use vstd::prelude::*;

verus! {

#[verifier::external_type_specification]
#[verifier::external_body]
#[verifier::reject_recursive_types(T)]
pub struct ExSender<T>(crossbeam_channel::Sender<T>);

#[verifier::external_type_specification]
#[verifier::external_body]
#[verifier::reject_recursive_types(T)]
pub struct ExReceiver<T>(crossbeam_channel::Receiver<T>);

#[verifier::external_type_specification]
#[verifier::external_body]
#[verifier::reject_recursive_types(T)]
pub struct ExSendError<T>(crossbeam_channel::SendError<T>);

/// Relies on `crossbeam_channel::unbounded`: creates a connected
/// sender/receiver pair. Channel identity is not modeled, so nothing is
/// stated of the result.
#[verifier::external_body]
pub(crate) fn new_packet_channel() -> (r: (
    crossbeam_channel::Sender<Packet>,
    crossbeam_channel::Receiver<Packet>,
)) {
    crossbeam_channel::unbounded()
}

/// Relies on `crossbeam_channel::Sender::send`: enqueues the packet, failing
/// only when every receiving half has been dropped. Whether the far end is
/// still alive is ambient state, so nothing is stated of the result.
#[verifier::external_body]
pub(crate) fn send_packet(
    sender: &crossbeam_channel::Sender<Packet>,
    packet: Packet,
) -> (r: Result<(), crossbeam_channel::SendError<Packet>>) {
    sender.send(packet)
}

/// Relies on `crossbeam_channel::Receiver::try_iter`: takes every packet that
/// is immediately available, without blocking. What arrives depends on other
/// threads, so nothing is stated of the contents.
#[verifier::external_body]
pub(crate) fn drain_packets(receiver: &crossbeam_channel::Receiver<Packet>) -> (out: Vec<Packet>) {
    receiver.try_iter().collect()
}

} // verus!
