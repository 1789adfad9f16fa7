//! The packet-capture sidecar: its fixed strings and its loop policy.
//!
//! When capture is on, a sidecar runs beside a host's executor.  It reads
//! packets matching the host's address and appends each to `<host>.pcap`,
//! until the executor has finished or a read fails.  The reads and writes
//! are outside work; the policy — what stops the loop, and that exactly
//! the packets read before the stop end up appended — lives here.

use vstd::prelude::*;

verus! {

/// The name of the capture file for one host: `<host>.pcap`.
pub fn pcap_file_name(host: &str) -> (r: String)
    ensures
        r@ == host@ + ".pcap"@,
{
    let mut name = host.to_owned();
    name.append(".pcap");
    name
}

/// The capture filter for one host, in BPF syntax: `host <address>`.
pub fn bpf_filter(host: &str) -> (r: String)
    ensures
        r@ == "host "@ + host@,
{
    let mut f: String = "host ".to_owned();
    f.append(host);
    f
}

/// What the sidecar observed in one turn of its loop.
#[derive(Debug, Clone, Copy, PartialEq, Eq, Structural)]
pub enum CapEvent {
    /// The executor thread has finished: the sidecar stops.
    ExecutorFinished,
    /// A packet was read and appended to the capture file.
    PacketRead,
    /// The read failed: the sidecar stops.
    ReadFailed,
}

/// An event that ends the sidecar's loop.
pub open spec fn cap_stops(ev: CapEvent) -> bool {
    ev is ExecutorFinished || ev is ReadFailed
}

/// How many packets a sequence of sidecar events appended.
pub open spec fn spec_packets(evs: Seq<CapEvent>) -> int
    decreases evs.len(),
{
    if evs.len() == 0 {
        0
    } else {
        spec_packets(evs.drop_last()) + if evs.last() is PacketRead {
            1int
        } else {
            0int
        }
    }
}

/// The capture file is non-empty exactly when some packet was read.
pub proof fn lemma_capture_nonempty_iff_packet(evs: Seq<CapEvent>)
    ensures
        spec_packets(evs) >= 0,
        spec_packets(evs) > 0 <==> exists|i: int|
            0 <= i < evs.len() && (#[trigger] evs[i]) is PacketRead,
    decreases evs.len(),
{
    if evs.len() > 0 {
        lemma_capture_nonempty_iff_packet(evs.drop_last());
        if evs.last() is PacketRead {
            assert(evs[evs.len() - 1] is PacketRead);
        } else {
            if spec_packets(evs.drop_last()) > 0 {
                let i = choose|i: int|
                    0 <= i < evs.drop_last().len() && (#[trigger] evs.drop_last()[i])
                        is PacketRead;
                assert(evs[i] is PacketRead);
            }
            if exists|i: int| 0 <= i < evs.len() && (#[trigger] evs[i]) is PacketRead {
                let i = choose|i: int| 0 <= i < evs.len() && (#[trigger] evs[i]) is PacketRead;
                assert(i < evs.len() - 1);
                assert(evs.drop_last()[i] is PacketRead);
            }
        }
    }
}

/// One sidecar's loop state: whether it has stopped, and — as ghost
/// bookkeeping — every event it consumed and how many packets that
/// appended.
pub struct CaptureRun {
    pub stopped: bool,
    pub appended: Ghost<int>,
    pub history: Ghost<Seq<CapEvent>>,
}

impl CaptureRun {
    /// The appended count matches the history, a stopping event is never
    /// followed by anything, and the sidecar has stopped exactly when the
    /// last event stops it.
    pub open spec fn inv(&self) -> bool {
        &&& self.appended@ == spec_packets(self.history@)
        &&& forall|i: int|
            0 <= i < self.history@.len() - 1 ==> !cap_stops(#[trigger] self.history@[i])
        &&& (self.stopped <==> self.history@.len() > 0 && cap_stops(self.history@.last()))
    }

    pub fn new() -> (r: CaptureRun)
        ensures
            !r.stopped,
            r.appended@ == 0,
            r.history@ == Seq::<CapEvent>::empty(),
            r.inv(),
    {
        CaptureRun { stopped: false, appended: Ghost(0), history: Ghost(Seq::empty()) }
    }

    /// Consumes what one turn of the loop observed: a packet keeps the
    /// sidecar going and counts as appended, anything else stops it.
    pub fn step(&mut self, ev: CapEvent)
        requires
            old(self).inv(),
            !old(self).stopped,
        ensures
            final(self).inv(),
            final(self).history@ == old(self).history@.push(ev),
            final(self).appended@ == old(self).appended@ + if ev is PacketRead {
                1int
            } else {
                0int
            },
            final(self).stopped == cap_stops(ev),
    {
        let ghost prev = *self;
        match ev {
            CapEvent::PacketRead => {},
            _ => {
                self.stopped = true;
            },
        }
        proof {
            self.history@ = prev.history@.push(ev);
            self.appended@ = spec_packets(self.history@);
            assert(prev.history@.push(ev).drop_last() =~= prev.history@);
        }
    }
}

} // verus!
