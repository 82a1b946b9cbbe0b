//! The process supervisor's decisions. At most one mirroring process is
//! tracked at a time; the host performs the actual spawn and kill and
//! reports back. Starting without a device, or while a process is live,
//! plans no spawn; stopping clears the tracked handle unconditionally
//! and is a no-op when nothing is live.

use vstd::prelude::*;

use crate::session::{session_wf, SessionState};
use crate::tokens::{copy_bytes, seqs_of};

verus! {

/// One spawn the host should perform: the mirroring binary, given the
/// serial of the selected device and the normalized argument tokens,
/// each passed as its own command-line argument with no re-splitting.
pub struct SpawnRequest {
    pub serial: Vec<u8>,
    pub args: Vec<Vec<u8>>,
}

pub ghost struct SpawnRequestView {
    pub serial: Seq<u8>,
    pub args: Seq<Seq<u8>>,
}

impl View for SpawnRequest {
    type V = SpawnRequestView;

    open spec fn view(&self) -> SpawnRequestView {
        SpawnRequestView { serial: self.serial@, args: seqs_of(self.args@) }
    }
}

/// The argument tokens of a resolution, or none at all.
pub open spec fn spec_args_or_empty(args: Option<Seq<Seq<u8>>>) -> Seq<Seq<u8>> {
    match args {
        Some(a) => a,
        None => Seq::empty(),
    }
}

/// Tracks whether a mirroring process is currently live.
pub struct Supervisor {
    pub live: bool,
}

/// Deep copy of a token list.
fn copy_tokens(ts: &Vec<Vec<u8>>) -> (r: Vec<Vec<u8>>)
    ensures
        seqs_of(r@) == seqs_of(ts@),
{
    let mut r: Vec<Vec<u8>> = Vec::new();
    let mut i: usize = 0;
    while i < ts.len()
        invariant
            i <= ts.len(),
            r@.len() == i,
            forall|k: int| 0 <= k < i ==> seqs_of(r@)[k] == seqs_of(ts@)[k],
        decreases ts.len() - i,
    {
        let ghost old_r = r@;
        let t = copy_bytes(ts[i].as_slice());
        r.push(t);
        proof {
            assert(seqs_of(r@)[i as int] == ts@[i as int]@);
            assert(forall|k: int| 0 <= k < i ==> seqs_of(r@)[k] == seqs_of(old_r)[k]);
        }
        i = i + 1;
    }
    proof {
        assert(seqs_of(r@) =~= seqs_of(ts@));
    }
    r
}

impl Supervisor {
    pub fn new() -> (r: Self)
        ensures
            !r.live,
    {
        Supervisor { live: false }
    }

    /// The spawn the start action performs, if any: nothing while a
    /// process is already tracked or no device is attached; otherwise
    /// the selected identity together with the normalized argument
    /// tokens of the current resolution.
    pub fn plan_start(&self, session: &SessionState) -> (r: Option<SpawnRequest>)
        requires
            session_wf(session@),
        ensures
            match r {
                Option::None => self.live || session@.devices.len() == 0,
                Option::Some(req) => {
                    &&& !self.live
                    &&& session@.devices.len() > 0
                    &&& req@.serial == session@.devices[session@.selected as int]
                    &&& req@.args == spec_args_or_empty(session@.resolved.args)
                },
            },
    {
        if self.live {
            return None;
        }
        match session.selected_identity() {
            None => None,
            Some(ident) => {
                let serial = copy_bytes(ident.as_slice());
                let args = match &session.resolved.args {
                    Some(ts) => copy_tokens(ts),
                    None => Vec::new(),
                };
                proof {
                    if session.resolved.args is None {
                        assert(seqs_of(args@) =~= Seq::<Seq<u8>>::empty());
                    }
                }
                Some(SpawnRequest { serial, args })
            },
        }
    }

    /// Record the outcome of a spawn the host attempted for a planned
    /// request: the handle is tracked exactly when the spawn succeeded.
    pub fn confirm_start(&mut self, started: bool)
        requires
            !old(self).live,
        ensures
            final(self).live == started,
    {
        self.live = started;
    }

    /// Request termination: tells the host whether a kill should be
    /// attempted, and clears the tracked handle unconditionally. A
    /// no-op when no process is live.
    pub fn stop(&mut self) -> (kill: bool)
        ensures
            !final(self).live,
            kill == old(self).live,
    {
        let kill = self.live;
        self.live = false;
        kill
    }
}

} // verus!
