//! What becomes of traffic that is not for this server: the bytes that were read while
//! finding out are given on first.

use vstd::prelude::*;

use crate::bytes::{copy_of, copy_range};

verus! {

/// Where traffic goes that is not for this server.
#[derive(Debug)]
pub struct FallbackConfig {
    /// Whether there is such a target, and another listener for it.
    pub enabled: bool,
    /// The address of the other listener.
    pub listen: String,
    /// The target.
    pub target: String,
}

/// A server whose handshake is imitated.
#[derive(Debug)]
pub struct RealityServerConfig {
    pub dest: String,
    pub private_key: String,
    pub pbk: String,
    pub sid: String,
    pub sni_list: Vec<String>,
}

impl FallbackConfig {
    /// The address to listen on besides, and the target, where the fallback is on.
    pub fn listener(&self) -> (r: Option<(&str, &str)>)
        ensures
            r is Some == self.enabled,
            r matches Some((l, t)) ==> l@ == self.listen@ && t@ == self.target@,
    {
        if self.enabled {
            Some((self.listen.as_str(), self.target.as_str()))
        } else {
            None
        }
    }
}

/// Bytes that were read ahead, to be read again before the rest of a stream.
#[derive(Debug)]
pub struct Rewind {
    prefix: Vec<u8>,
    at: usize,
}

impl View for Rewind {
    type V = Seq<u8>;

    /// What is left to be read again.
    closed spec fn view(&self) -> Seq<u8> {
        self.prefix@.subrange(self.at as int, self.prefix@.len() as int)
    }
}

impl Rewind {
    pub closed spec fn wf(&self) -> bool {
        self.at <= self.prefix@.len()
    }

    pub fn new(prefix: &[u8]) -> (r: Self)
        ensures
            r.wf(),
            r@ == prefix@,
    {
        let r = Rewind { prefix: copy_of(prefix), at: 0 };
        assert(r@ =~= prefix@);
        r
    }

    /// Reads at most `room` bytes again; nothing once all were, when the stream itself is
    /// read.
    pub fn read(&mut self, room: usize) -> (r: Option<Vec<u8>>)
        requires
            old(self).wf(),
        ensures
            final(self).wf(),
            match r {
                Some(b) => {
                    &&& old(self)@.len() > 0
                    &&& b@.len() == if old(self)@.len() < room {
                        old(self)@.len()
                    } else {
                        room as nat
                    }
                    &&& b@ + final(self)@ == old(self)@
                },
                None => old(self)@.len() == 0 && final(self)@ == old(self)@,
            },
    {
        let left: usize = self.prefix.len() - self.at;
        if left == 0 {
            return None;
        }
        let n: usize = if left < room {
            left
        } else {
            room
        };
        let out = copy_range(&self.prefix, self.at, self.at + n);
        self.at = self.at + n;
        assert(out@ + self@ =~= old(self)@);
        Some(out)
    }
}

} // verus!
