//! The caller-side handle of one call: a pull-based view of the updates and
//! the single terminal result, with cooperative cancellation. The reactor
//! feeds frames in as they arrive; the client thread pulls. Blocking is the
//! client's concern: a `NotReady` outcome is where a real client would wait.

use vstd::prelude::*;
use crate::rpc::{CallId, RpcResult, RpcResultView};

verus! {

/// What one pull from a handle yields.
pub enum RecvOutcome {
    /// Nothing queued yet; a blocking client would wait here.
    NotReady,
    /// The next streamed update, in the order the callee emitted them.
    Update(String),
    /// The call is done; yielded exactly once, after the terminal result.
    Finished,
}

/// The caller-side record of one in-flight or completed call.
pub struct Handle {
    call_id: CallId,
    pending: Vec<String>,
    terminal: Option<RpcResult>,
    done_delivered: bool,
    cancelled: bool,
}

/// The mathematical content of a `Handle`.
pub struct HandleView {
    pub call_id: CallId,
    pub pending: Seq<Seq<char>>,
    pub terminal: Option<RpcResultView>,
    pub done_delivered: bool,
    pub cancelled: bool,
}

impl View for Handle {
    type V = HandleView;

    closed spec fn view(&self) -> HandleView {
        HandleView {
            call_id: self.call_id,
            pending: self.pending@.map_values(|p: String| p@),
            terminal: match self.terminal {
                Some(r) => Some(r@),
                None => None,
            },
            done_delivered: self.done_delivered,
            cancelled: self.cancelled,
        }
    }
}

impl Handle {
    /// A fresh handle for a call that was just issued.
    pub fn new(call_id: CallId) -> (r: Self)
        ensures
            r@ == (HandleView {
                call_id,
                pending: Seq::<Seq<char>>::empty(),
                terminal: None,
                done_delivered: false,
                cancelled: false,
            }),
    {
        let r = Handle {
            call_id,
            pending: Vec::new(),
            terminal: None,
            done_delivered: false,
            cancelled: false,
        };
        proof {
            assert(r@.pending =~= Seq::<Seq<char>>::empty());
        }
        r
    }

    /// The id of the call this handle follows.
    pub fn call_id(&self) -> (r: CallId)
        ensures
            r == self@.call_id,
    {
        self.call_id
    }

    /// Queues one streamed update for the client to pull — unless the handle
    /// was cancelled or the call is already done, in which case the update is
    /// dropped and never observable.
    pub fn on_update(&mut self, payload: String)
        ensures
            final(self)@ == if old(self)@.cancelled || old(self)@.terminal is Some {
                old(self)@
            } else {
                (HandleView { pending: old(self)@.pending.push(payload@), ..old(self)@ })
            },
    {
        if !self.cancelled && self.terminal.is_none() {
            let ghost prior = self@.pending;
            self.pending.push(payload);
            proof {
                assert(self@.pending =~= prior.push(payload@));
            }
        }
    }

    /// Records the terminal result. The first terminal wins: a call resolves
    /// exactly once, so a later one is ignored.
    pub fn on_return(&mut self, result: RpcResult)
        ensures
            final(self)@ == if old(self)@.terminal is Some {
                old(self)@
            } else {
                (HandleView { terminal: Some(result@), ..old(self)@ })
            },
    {
        if self.terminal.is_none() {
            self.terminal = Some(result);
        }
    }

    /// Stops observation: queued updates are discarded and later ones are
    /// dropped on arrival, so after this call no update is ever observable
    /// through this handle; only the terminal result remains to be pulled.
    pub fn cancel(&mut self)
        ensures
            final(self)@ == (HandleView {
                pending: Seq::<Seq<char>>::empty(),
                cancelled: true,
                ..old(self)@
            }),
    {
        self.cancelled = true;
        self.pending.clear();
        proof {
            assert(self@.pending =~= Seq::<Seq<char>>::empty());
        }
    }

    /// Pulls the next observation: the oldest queued update; or, once the
    /// terminal result is in, `Finished` exactly once; otherwise nothing yet.
    /// A cancelled handle never yields an update.
    pub fn recv(&mut self) -> (r: RecvOutcome)
        ensures
            old(self)@.cancelled ==> !(r matches RecvOutcome::Update(..)),
            if !old(self)@.done_delivered && !old(self)@.cancelled && old(self)@.pending.len()
                > 0 {
                r matches RecvOutcome::Update(p) && p@ == old(self)@.pending.first()
                    && final(self)@ == (HandleView {
                    pending: old(self)@.pending.drop_first(),
                    ..old(self)@
                })
            } else if !old(self)@.done_delivered && old(self)@.terminal is Some {
                r matches RecvOutcome::Finished && final(self)@ == (HandleView {
                    done_delivered: true,
                    ..old(self)@
                })
            } else {
                r matches RecvOutcome::NotReady && final(self)@ == old(self)@
            },
    {
        if !self.done_delivered && !self.cancelled && self.pending.len() > 0 {
            let ghost prior = self@.pending;
            let p = self.pending.remove(0);
            proof {
                assert(self@.pending =~= prior.drop_first());
            }
            RecvOutcome::Update(p)
        } else if !self.done_delivered && self.terminal.is_some() {
            self.done_delivered = true;
            RecvOutcome::Finished
        } else {
            RecvOutcome::NotReady
        }
    }

    /// Waits for the single terminal result: discards any queued updates and
    /// yields the result once it is in; `None` while the call is still
    /// running, or once the result has already been taken.
    pub fn wait_for(&mut self) -> (r: Option<RpcResult>)
        ensures
            match old(self)@.terminal {
                Some(v) => r matches Some(res) && res@ == v && final(self)@ == (HandleView {
                    pending: Seq::<Seq<char>>::empty(),
                    terminal: None,
                    done_delivered: true,
                    ..old(self)@
                }),
                None => r is None && final(self)@ == old(self)@,
            },
    {
        let t = self.terminal.take();
        match t {
            Some(res) => {
                self.pending.clear();
                self.done_delivered = true;
                proof {
                    assert(self@.pending =~= Seq::<Seq<char>>::empty());
                }
                Some(res)
            },
            None => None,
        }
    }
}

} // verus!
