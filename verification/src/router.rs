//! Addressed delivery of packets to destination nodes, with configurable
//! loss. The router owns the sending half of every node's inbound channel.

use crate::channel::send_packet;
use crate::rng::rng_below;
use crate::{assoc_has, lemma_assoc_none, Error, NodeId, Packet};
use vstd::prelude::*;

verus! {

/// In-process delivery fabric: one sender per known destination, plus the
/// per-send drop probability in thousandths.
pub struct Router {
    senders: Vec<(NodeId, crossbeam_channel::Sender<Packet>)>,
    drop_permille: u32,
}

impl Router {
    /// Whether the router has a channel for `dest`.
    pub closed spec fn knows(&self, dest: NodeId) -> bool {
        assoc_has(self.senders@, dest)
    }

    pub closed spec fn wf(&self) -> bool {
        self.drop_permille <= 1000
    }

    /// The configured per-send drop probability, in thousandths.
    pub closed spec fn spec_drop_permille(&self) -> u32 {
        self.drop_permille
    }

    pub fn new(
        senders: Vec<(NodeId, crossbeam_channel::Sender<Packet>)>,
        drop_permille: u32,
    ) -> (r: Router)
        requires
            drop_permille <= 1000,
        ensures
            r.wf(),
            r.spec_drop_permille() == drop_permille,
            forall|d: NodeId| #[trigger] r.knows(d) <==> assoc_has(senders@, d),
    {
        Router { senders, drop_permille }
    }

    /// Either enqueues the packet on the destination's inbound channel or
    /// drops it with probability `drop_permille / 1000`. Fails exactly on an
    /// unknown destination, or on a destination whose channel is closed.
    pub fn send(&self, rng: &mut rand::rngs::StdRng, dest: NodeId, packet: Packet) -> (r: Result<
        (),
        Error,
    >)
        requires
            self.wf(),
        ensures
            !self.knows(dest) ==> r == Err::<(), Error>(Error::UnknownDestination(dest)),
            self.knows(dest) ==> r == Ok::<(), Error>(()) || r == Err::<(), Error>(
                Error::ChannelClosed(dest),
            ),
            self.knows(dest) && self.spec_drop_permille() == 1000 ==> r == Ok::<(), Error>(()),
    {
        let n = self.senders.len();
        let mut i: usize = 0;
        while i < n
            invariant
                i <= n,
                n == self.senders@.len(),
                forall|q: int| 0 <= q < i ==> (#[trigger] self.senders@[q]).0 != dest,
            decreases n - i,
        {
            if self.senders[i].0 == dest {
                let draw = rng_below(rng, 1000);
                if draw < self.drop_permille as usize {
                    // Lossy delivery: the packet vanishes, which is a
                    // successful send as far as the caller can tell.
                    return Ok(());
                }
                return match send_packet(&self.senders[i].1, packet) {
                    Ok(()) => Ok(()),
                    Err(_) => Err(Error::ChannelClosed(dest)),
                };
            }
            i += 1;
        }
        proof {
            lemma_assoc_none(self.senders@, dest);
        }
        Err(Error::UnknownDestination(dest))
    }
}

} // verus!
