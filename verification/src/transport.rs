//! The word-exchange transport a session is driven over. The engine sees one
//! blocking primitive: exchange a 32-bit word and receive a 32-bit response as
//! a single transaction. Implementations keep a ghost log of the exchanges
//! made, which is what every protocol contract speaks about. A transport-level
//! failure is surfaced as an error, never substituted with a default word,
//! since zero is a meaningful protocol response.

use vstd::prelude::*;

verus! {

/// High 16 bits of a 32-bit word.
pub open spec fn hi16(w: u32) -> u16 {
    (w >> 16) as u16
}

/// The words pushed onto the wire, in order: the first components of a log.
pub open spec fn sent_words(log: Seq<(u32, u32)>) -> Seq<u32> {
    log.map_values(|e: (u32, u32)| e.0)
}

/// A transport exchange failed; the word cannot be trusted to have reached the
/// peer and no response was obtained.
#[derive(Clone, Copy, Debug, PartialEq, Eq, Structural)]
pub struct TransportError;

/// Blocking, half-duplex word exchange with the remote console. The spec-level
/// `log` records every completed exchange as a `(sent, received)` pair; a
/// failed exchange leaves the log unchanged and reports the failure.
pub trait GbaSpi {
    spec fn log(&self) -> Seq<(u32, u32)>;

    /// A lower bound on how many further exchanges this transport is assured
    /// to complete. A transport that gives no such assurance (a real bus)
    /// reports zero; a scripted one, the length of its remaining script.
    /// While the bound is positive an exchange cannot fail, and a completed
    /// exchange costs at most one unit of it.
    spec fn assured(&self) -> nat;

    /// Exchange one 32-bit word; the send and receive form a single bus
    /// transaction, and the transport waits out its own quiescent delay before
    /// the next exchange.
    fn send32(&mut self, data: u32) -> (r: Result<u32, TransportError>)
        ensures
            r matches Ok(resp) ==> final(self).log() == old(self).log().push((data, resp)),
            r is Ok ==> final(self).assured() + 1 >= old(self).assured(),
            r is Err ==> final(self).log() == old(self).log() && old(self).assured() == 0,
    ;

    /// Derived 16-bit exchange: the value goes out in the low 16 bits and the
    /// high 16 bits of the response come back.
    fn send16(&mut self, data: u16) -> (r: Result<u16, TransportError>)
        ensures
            r matches Ok(resp) ==> {
                &&& final(self).log() == old(self).log().push(
                    (data as u32, final(self).log().last().1),
                )
                &&& resp == hi16(final(self).log().last().1)
            },
            r is Ok ==> final(self).assured() + 1 >= old(self).assured(),
            r is Err ==> final(self).log() == old(self).log() && old(self).assured() == 0,
    ;
}

/// A transport driven from a pre-recorded list of peer responses, front
/// first: each exchange consumes the next response, and an exhausted list
/// fails the exchange. This is the loopback form the protocol engine can be
/// exercised with, away from any hardware.
pub struct ScriptedTransport {
    responses: Vec<u32>,
    history: Vec<(u32, u32)>,
}

impl ScriptedTransport {
    /// The responses not yet served, front first.
    pub closed spec fn remaining(&self) -> Seq<u32> {
        self.responses@
    }

    pub fn new(responses: Vec<u32>) -> (r: Self)
        ensures
            r.remaining() == responses@,
            r.log() == Seq::<(u32, u32)>::empty(),
    {
        ScriptedTransport { responses, history: Vec::new() }
    }

    /// The exchanges made so far, oldest first.
    pub fn history(&self) -> (r: &Vec<(u32, u32)>)
        ensures
            r@ == self.log(),
    {
        &self.history
    }
}

impl GbaSpi for ScriptedTransport {
    closed spec fn log(&self) -> Seq<(u32, u32)> {
        self.history@
    }

    closed spec fn assured(&self) -> nat {
        self.responses@.len()
    }

    /// While responses remain, an exchange succeeds, serves the front one and
    /// consumes it; an exhausted script fails the exchange and changes
    /// nothing.
    fn send32(&mut self, data: u32) -> (r: Result<u32, TransportError>)
        ensures
            old(self).remaining().len() > 0 ==> {
                &&& r == Ok::<u32, TransportError>(old(self).remaining()[0])
                &&& final(self).remaining() == old(self).remaining().skip(1)
                &&& final(self).log() == old(self).log().push((data, old(self).remaining()[0]))
            },
            old(self).remaining().len() == 0 ==> r is Err && *final(self) == *old(self),
    {
        if self.responses.len() > 0 {
            let resp = self.responses.remove(0);
            self.history.push((data, resp));
            Ok(resp)
        } else {
            Err(TransportError)
        }
    }

    /// The 16-bit form of the same scripted behaviour.
    fn send16(&mut self, data: u16) -> (r: Result<u16, TransportError>)
        ensures
            old(self).remaining().len() > 0 ==> {
                &&& r == Ok::<u16, TransportError>(hi16(old(self).remaining()[0]))
                &&& final(self).remaining() == old(self).remaining().skip(1)
                &&& final(self).log() == old(self).log().push(
                    (data as u32, old(self).remaining()[0]),
                )
            },
            old(self).remaining().len() == 0 ==> r is Err && *final(self) == *old(self),
    {
        match self.send32(data as u32) {
            Ok(resp) => {
                proof {
                    assert((resp >> 16) < 0x10000) by (bit_vector);
                }
                Ok((resp >> 16) as u16)
            },
            Err(e) => Err(e),
        }
    }
}

} // verus!
