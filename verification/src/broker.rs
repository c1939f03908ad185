//! The call-lifecycle broker: the call table and method registry, advanced by
//! one deterministic transition per protocol event. The reactor decodes
//! frames, feeds them in, and enqueues the returned directives; the broker
//! itself never blocks and never touches a socket.

use vstd::prelude::*;
use crate::rpc::{CallId, ConnectionId, Directive, DirectiveView, Frame, FrameView, RpcError,
    RpcErrorView, RpcResult, RpcResultView, dirs_of};

verus! {

/// Where a call stands between routing and its terminal `Return`.
#[derive(Clone, Copy, Debug, PartialEq, Eq)]
pub enum CallState {
    /// Routed to the callee, no response yet.
    Pending,
    /// At least one update has been forwarded; more may follow.
    Streaming,
}

/// One in-flight call, the join key between its two connections.
pub struct CallRecord {
    pub id: CallId,
    pub method: String,
    pub caller: ConnectionId,
    pub callee: ConnectionId,
    pub state: CallState,
    pub cancelling: bool,
}

/// The mathematical content of a `CallRecord`.
pub struct CallView {
    pub id: CallId,
    pub method: Seq<char>,
    pub caller: ConnectionId,
    pub callee: ConnectionId,
    pub state: CallState,
    pub cancelling: bool,
}

impl View for CallRecord {
    type V = CallView;

    open spec fn view(&self) -> CallView {
        CallView {
            id: self.id,
            method: self.method@,
            caller: self.caller,
            callee: self.callee,
            state: self.state,
            cancelling: self.cancelling,
        }
    }
}

/// One method name and the connection that services it.
pub struct Registration {
    pub method: String,
    pub owner: ConnectionId,
}

/// The mathematical content of a `Registration`.
pub struct RegistrationView {
    pub method: Seq<char>,
    pub owner: ConnectionId,
}

impl View for Registration {
    type V = RegistrationView;

    open spec fn view(&self) -> RegistrationView {
        RegistrationView { method: self.method@, owner: self.owner }
    }
}

/// The first owner registered for `method`, if any.
pub open spec fn spec_resolve(regs: Seq<RegistrationView>, method: Seq<char>) -> Option<
    ConnectionId,
>
    decreases regs.len(),
{
    if regs.len() == 0 {
        None
    } else if regs.first().method == method {
        Some(regs.first().owner)
    } else {
        spec_resolve(regs.drop_first(), method)
    }
}

/// True if some call in the table carries this id.
pub open spec fn spec_has_call(calls: Seq<CallView>, id: CallId) -> bool {
    exists|k: int| 0 <= k < calls.len() && calls[k].id == id
}

/// The index of the call with this id; unique when the table is well formed.
pub open spec fn spec_call_index(calls: Seq<CallView>, id: CallId) -> int {
    choose|k: int| 0 <= k < calls.len() && calls[k].id == id
}

/// The call with this id.
pub open spec fn spec_call(calls: Seq<CallView>, id: CallId) -> CallView {
    calls[spec_call_index(calls, id)]
}

/// The connection multiplexer's single source of truth: every in-flight call
/// and every live method registration.
pub struct Broker {
    calls: Vec<CallRecord>,
    registry: Vec<Registration>,
    next_call_id: CallId,
}

impl Broker {
    /// The call table, as the sequence of call views in insertion order.
    pub closed spec fn calls_view(self) -> Seq<CallView> {
        self.calls@.map_values(|c: CallRecord| c@)
    }

    /// The method registry, in registration order.
    pub closed spec fn registry_view(self) -> Seq<RegistrationView> {
        self.registry@.map_values(|r: Registration| r@)
    }

    /// The next call id to be minted.
    pub closed spec fn next_id(self) -> int {
        self.next_call_id as int
    }

    /// Call ids are unique and below the mint counter; method names own at
    /// most one registration.
    pub open spec fn wf(self) -> bool {
        &&& forall|k: int, l: int|
            0 <= k < l < self.calls_view().len() ==> (#[trigger] self.calls_view()[k]).id != (
            #[trigger] self.calls_view()[l]).id
        &&& forall|k: int|
            0 <= k < self.calls_view().len() ==> (#[trigger] self.calls_view()[k]).id
                < self.next_id()
        &&& forall|k: int, l: int|
            0 <= k < l < self.registry_view().len() ==> (
            #[trigger] self.registry_view()[k]).method != (
            #[trigger] self.registry_view()[l]).method
    }

    /// A broker with no calls and no registrations.
    pub fn new() -> (r: Self)
        ensures
            r.calls_view() == Seq::<CallView>::empty(),
            r.registry_view() == Seq::<RegistrationView>::empty(),
            r.next_id() == 0,
            r.wf(),
    {
        let r = Broker { calls: Vec::new(), registry: Vec::new(), next_call_id: 0 };
        proof {
            assert(r.calls_view() =~= Seq::<CallView>::empty());
            assert(r.registry_view() =~= Seq::<RegistrationView>::empty());
        }
        r
    }

    /// The connection currently willing to service `method`, if any.
    pub fn resolve(&self, method: &str) -> (r: Option<ConnectionId>)
        ensures
            r == spec_resolve(self.registry_view(), method@),
    {
        let n: usize = self.registry.len();
        let mut k: usize = 0;
        proof {
            assert(self.registry_view().skip(0) =~= self.registry_view());
        }
        while k < n
            invariant
                k <= n,
                n == self.registry_view().len(),
                spec_resolve(self.registry_view(), method@) == spec_resolve(
                    self.registry_view().skip(k as int),
                    method@,
                ),
            decreases n - k,
        {
            let ghost tail = self.registry_view().skip(k as int);
            proof {
                assert(tail.first() == self.registry_view()[k as int]);
                assert(tail.drop_first() =~= self.registry_view().skip(k as int + 1));
            }
            if crate::subsequence_match::str_eq(self.registry[k].method.as_str(), method) {
                proof {
                    assert(self.registry_view()[k as int] == self.registry@[k as int]@);
                }
                return Some(self.registry[k].owner);
            }
            proof {
                assert(self.registry_view()[k as int] == self.registry@[k as int]@);
            }
            k = k + 1;
        }
        proof {
            assert(self.registry_view().skip(n as int) =~= Seq::<RegistrationView>::empty());
        }
        None
    }

    /// The position of the call with this id in the table, if present.
    fn find_call(&self, call_id: CallId) -> (r: Option<usize>)
        ensures
            match r {
                Some(k) => k < self.calls_view().len() && self.calls_view()[k as int].id
                    == call_id,
                None => !spec_has_call(self.calls_view(), call_id),
            },
    {
        let n: usize = self.calls.len();
        let mut k: usize = 0;
        while k < n
            invariant
                k <= n,
                n == self.calls_view().len(),
                forall|t: int| 0 <= t < k ==> (#[trigger] self.calls_view()[t]).id != call_id,
            decreases n - k,
        {
            proof {
                assert(self.calls_view()[k as int] == self.calls@[k as int]@);
            }
            if self.calls[k].id == call_id {
                return Some(k);
            }
            k = k + 1;
        }
        None
    }

    /// Records `owner` as the servicer of `method`, unless another live
    /// connection already owns it; either way the registrant is told.
    pub fn handle_register(&mut self, owner: ConnectionId, method: &str) -> (ds: Vec<Directive>)
        requires
            old(self).wf(),
        ensures
            final(self).wf(),
            final(self).calls_view() == old(self).calls_view(),
            final(self).next_id() == old(self).next_id(),
            match spec_resolve(old(self).registry_view(), method@) {
                Some(o) => final(self).registry_view() == old(self).registry_view() && dirs_of(
                    ds@,
                ) == seq![
                    DirectiveView {
                        to: owner,
                        frame: FrameView::RegisterAck {
                            result: if o == owner {
                                RpcResultView::Value(Seq::<char>::empty())
                            } else {
                                RpcResultView::Error(RpcErrorView::AlreadyRegistered)
                            },
                        },
                    },
                ],
                None => final(self).registry_view() == old(self).registry_view().push(
                    RegistrationView { method: method@, owner },
                ) && dirs_of(ds@) == seq![
                    DirectiveView {
                        to: owner,
                        frame: FrameView::RegisterAck {
                            result: RpcResultView::Value(Seq::<char>::empty()),
                        },
                    },
                ],
            },
    {
        let mut ds: Vec<Directive> = Vec::new();
        let existing = self.resolve(method);
        let result: RpcResult = match existing {
            Some(o) => {
                if o == owner {
                    RpcResult::Value(String::new())
                } else {
                    RpcResult::Error(RpcError::AlreadyRegistered)
                }
            },
            None => {
                let ghost prior = self.registry_view();
                self.registry.push(Registration { method: method.to_owned(), owner });
                proof {
                    assert(self.registry_view() =~= prior.push(
                        RegistrationView { method: method@, owner },
                    ));
                    lemma_resolve_none_all_differ(prior, method@);
                }
                RpcResult::Value(String::new())
            },
        };
        ds.push(Directive { to: owner, frame: Frame::RegisterAck { result } });
        proof {
            reveal_strlit("");
            assert(dirs_of(ds@) =~= seq![ds@[0]@]);
        }
        ds
    }

    /// Routes a new call: mints its id, and either forwards it to the
    /// method's owner as a fresh pending table entry, or answers the caller
    /// at once with `NoSuchMethod` and leaves no entry behind.
    pub fn handle_call(&mut self, caller: ConnectionId, method: &str, args: &str) -> (r: (
        CallId,
        Vec<Directive>,
    ))
        requires
            old(self).wf(),
            old(self).next_id() < CallId::MAX,
        ensures
            final(self).wf(),
            final(self).registry_view() == old(self).registry_view(),
            r.0 == old(self).next_id(),
            final(self).next_id() == old(self).next_id() + 1,
            match spec_resolve(old(self).registry_view(), method@) {
                Some(owner) => final(self).calls_view() == old(self).calls_view().push(
                    CallView {
                        id: r.0,
                        method: method@,
                        caller,
                        callee: owner,
                        state: CallState::Pending,
                        cancelling: false,
                    },
                ) && dirs_of(r.1@) == seq![
                    DirectiveView {
                        to: owner,
                        frame: FrameView::Call { call_id: r.0, method: method@, args: args@ },
                    },
                ],
                None => final(self).calls_view() == old(self).calls_view() && dirs_of(r.1@)
                    == seq![
                    DirectiveView {
                        to: caller,
                        frame: FrameView::Return {
                            call_id: r.0,
                            result: RpcResultView::Error(RpcErrorView::NoSuchMethod),
                        },
                    },
                ],
            },
    {
        let id: CallId = self.next_call_id;
        self.next_call_id = self.next_call_id + 1;
        let mut ds: Vec<Directive> = Vec::new();
        match self.resolve(method) {
            Some(owner) => {
                let ghost prior = self.calls_view();
                self.calls.push(
                    CallRecord {
                        id,
                        method: method.to_owned(),
                        caller,
                        callee: owner,
                        state: CallState::Pending,
                        cancelling: false,
                    },
                );
                proof {
                    assert(self.calls_view() =~= prior.push(
                        CallView {
                            id,
                            method: method@,
                            caller,
                            callee: owner,
                            state: CallState::Pending,
                            cancelling: false,
                        },
                    ));
                }
                ds.push(
                    Directive {
                        to: owner,
                        frame: Frame::Call {
                            call_id: id,
                            method: method.to_owned(),
                            args: args.to_owned(),
                        },
                    },
                );
            },
            None => {
                ds.push(
                    Directive {
                        to: caller,
                        frame: Frame::Return {
                            call_id: id,
                            result: RpcResult::Error(RpcError::NoSuchMethod),
                        },
                    },
                );
            },
        }
        proof {
            assert(dirs_of(ds@) =~= seq![ds@[0]@]);
        }
        (id, ds)
    }
}

/// When no registration resolves, every registered name differs.
proof fn lemma_resolve_none_all_differ(regs: Seq<RegistrationView>, method: Seq<char>)
    requires
        spec_resolve(regs, method) is None,
    ensures
        forall|k: int| 0 <= k < regs.len() ==> (#[trigger] regs[k]).method != method,
    decreases regs.len(),
{
    if regs.len() > 0 {
        lemma_resolve_none_all_differ(regs.drop_first(), method);
        assert(forall|k: int|
            1 <= k < regs.len() ==> (#[trigger] regs[k]) == regs.drop_first()[k - 1]);
    }
}

/// The same call, marked as having streamed at least one update.
pub open spec fn with_streaming(c: CallView) -> CallView {
    CallView { state: CallState::Streaming, ..c }
}

/// The same call, flagged as cancelling.
pub open spec fn with_cancelling(c: CallView) -> CallView {
    CallView { cancelling: true, ..c }
}

/// In a table with unique ids, the call found at `k` is the call of its id.
proof fn lemma_index_unique(calls: Seq<CallView>, k: int, id: CallId)
    requires
        forall|a: int, b: int| 0 <= a < b < calls.len() ==> calls[a].id != calls[b].id,
        0 <= k < calls.len(),
        calls[k].id == id,
    ensures
        spec_has_call(calls, id),
        spec_call_index(calls, id) == k,
        spec_call(calls, id) == calls[k],
{
    assert(spec_has_call(calls, id));
    let c = spec_call_index(calls, id);
    assert(0 <= c < calls.len() && calls[c].id == id);
    if c < k {
        assert(calls[c].id != calls[k].id);
    } else if k < c {
        assert(calls[k].id != calls[c].id);
    }
}


/// Removing a call keeps ids unique and below the mint counter.
proof fn lemma_remove_keeps_wf(calls: Seq<CallView>, k: int, bound: int)
    requires
        forall|a: int, b: int| 0 <= a < b < calls.len() ==> calls[a].id != calls[b].id,
        forall|a: int| 0 <= a < calls.len() ==> (#[trigger] calls[a]).id < bound,
        0 <= k < calls.len(),
    ensures
        forall|a: int, b: int|
            0 <= a < b < calls.remove(k).len() ==> calls.remove(k)[a].id != calls.remove(k)[b].id,
        forall|a: int|
            0 <= a < calls.remove(k).len() ==> (#[trigger] calls.remove(k)[a]).id < bound,
{
    let r = calls.remove(k);
    assert forall|a: int, b: int| 0 <= a < b < r.len() implies r[a].id != r[b].id by {
        let a2: int = if a < k { a } else { a + 1 };
        let b2: int = if b < k { b } else { b + 1 };
        assert(r[a] == calls[a2]);
        assert(r[b] == calls[b2]);
    }
    assert forall|a: int| 0 <= a < r.len() implies (#[trigger] r[a]).id < bound by {
        let a2: int = if a < k { a } else { a + 1 };
        assert(r[a] == calls[a2]);
    }
}

/// Replacing one call with another of the same id keeps ids unique and below
/// the mint counter.
proof fn lemma_update_keeps_wf(calls: Seq<CallView>, k: int, c: CallView, bound: int)
    requires
        forall|a: int, b: int| 0 <= a < b < calls.len() ==> calls[a].id != calls[b].id,
        forall|a: int| 0 <= a < calls.len() ==> (#[trigger] calls[a]).id < bound,
        0 <= k < calls.len(),
        c.id == calls[k].id,
    ensures
        forall|a: int, b: int|
            0 <= a < b < calls.update(k, c).len() ==> calls.update(k, c)[a].id != calls.update(
                k,
                c,
            )[b].id,
        forall|a: int|
            0 <= a < calls.update(k, c).len() ==> (#[trigger] calls.update(k, c)[a]).id < bound,
{
    let r = calls.update(k, c);
    assert forall|a: int, b: int| 0 <= a < b < r.len() implies r[a].id != r[b].id by {
        assert(r[a].id == calls[a].id);
        assert(r[b].id == calls[b].id);
    }
    assert forall|a: int| 0 <= a < r.len() implies (#[trigger] r[a]).id < bound by {
        assert(r[a].id == calls[a].id);
    }
}

impl Broker {
    /// Forwards a callee's update to the caller and marks the call as
    /// streaming — unless the call is being cancelled, in which case the
    /// update is dropped silently, or the frame does not belong to a live
    /// call of this callee, in which case it is ignored.
    pub fn handle_update(&mut self, from: ConnectionId, call_id: CallId, payload: &str) -> (ds:
        Vec<Directive>)
        requires
            old(self).wf(),
        ensures
            final(self).wf(),
            final(self).registry_view() == old(self).registry_view(),
            final(self).next_id() == old(self).next_id(),
            if spec_has_call(old(self).calls_view(), call_id) && spec_call(
                old(self).calls_view(),
                call_id,
            ).callee == from && !spec_call(old(self).calls_view(), call_id).cancelling {
                final(self).calls_view() == old(self).calls_view().update(
                    spec_call_index(old(self).calls_view(), call_id),
                    with_streaming(spec_call(old(self).calls_view(), call_id)),
                ) && dirs_of(ds@) == seq![
                    (DirectiveView {
                        to: spec_call(old(self).calls_view(), call_id).caller,
                        frame: FrameView::Update { call_id, payload: payload@ },
                    }),
                ]
            } else {
                *final(self) == *old(self) && dirs_of(ds@) == Seq::<DirectiveView>::empty()
            },
    {
        let mut ds: Vec<Directive> = Vec::new();
        match self.find_call(call_id) {
            Some(k) => {
                proof {
                    lemma_index_unique(self.calls_view(), k as int, call_id);
                    assert(self.calls_view()[k as int] == self.calls@[k as int]@);
                }
                if self.calls[k].callee == from && !self.calls[k].cancelling {
                    let ghost prior = self.calls_view();
                    let mut rec = self.calls.remove(k);
                    let caller = rec.caller;
                    rec.state = CallState::Streaming;
                    self.calls.insert(k, rec);
                    ds.push(
                        Directive {
                            to: caller,
                            frame: Frame::Update { call_id, payload: payload.to_owned() },
                        },
                    );
                    proof {
                        assert(self.calls_view() =~= prior.update(
                            k as int,
                            with_streaming(prior[k as int]),
                        ));
                        assert(dirs_of(ds@) =~= seq![ds@[0]@]);
                        lemma_update_keeps_wf(
                            prior,
                            k as int,
                            with_streaming(prior[k as int]),
                            old(self).next_id(),
                        );
                        assert(self.registry_view() == old(self).registry_view());
                        assert(self.wf());
                    }
                } else {
                    proof {
                        assert(dirs_of(ds@) =~= Seq::<DirectiveView>::empty());
                    }
                }
            },
            None => {
                proof {
                    assert(dirs_of(ds@) =~= Seq::<DirectiveView>::empty());
                }
            },
        }
        ds
    }

    /// Delivers a callee's terminal `Return` to the caller and retires the
    /// call: the only event that ends a call between two live connections.
    /// A `Return` that matches no live call of this callee is ignored.
    pub fn handle_return(&mut self, from: ConnectionId, call_id: CallId, result: RpcResult) -> (ds:
        Vec<Directive>)
        requires
            old(self).wf(),
        ensures
            final(self).wf(),
            final(self).registry_view() == old(self).registry_view(),
            final(self).next_id() == old(self).next_id(),
            if spec_has_call(old(self).calls_view(), call_id) && spec_call(
                old(self).calls_view(),
                call_id,
            ).callee == from {
                final(self).calls_view() == old(self).calls_view().remove(
                    spec_call_index(old(self).calls_view(), call_id),
                ) && dirs_of(ds@) == seq![
                    (DirectiveView {
                        to: spec_call(old(self).calls_view(), call_id).caller,
                        frame: FrameView::Return { call_id, result: result@ },
                    }),
                ]
            } else {
                *final(self) == *old(self) && dirs_of(ds@) == Seq::<DirectiveView>::empty()
            },
    {
        let mut ds: Vec<Directive> = Vec::new();
        match self.find_call(call_id) {
            Some(k) => {
                proof {
                    lemma_index_unique(self.calls_view(), k as int, call_id);
                    assert(self.calls_view()[k as int] == self.calls@[k as int]@);
                }
                if self.calls[k].callee == from {
                    let ghost prior = self.calls_view();
                    let rec = self.calls.remove(k);
                    ds.push(
                        Directive { to: rec.caller, frame: Frame::Return { call_id, result } },
                    );
                    proof {
                        assert(self.calls_view() =~= prior.remove(k as int));
                        assert(dirs_of(ds@) =~= seq![ds@[0]@]);
                        lemma_remove_keeps_wf(prior, k as int, old(self).next_id());
                        assert(self.registry_view() == old(self).registry_view());
                        assert(self.wf());
                    }
                } else {
                    proof {
                        assert(dirs_of(ds@) =~= Seq::<DirectiveView>::empty());
                    }
                }
            },
            None => {
                proof {
                    assert(dirs_of(ds@) =~= Seq::<DirectiveView>::empty());
                }
            },
        }
        ds
    }

    /// Flags the caller's call as cancelling and tells the callee to stop
    /// producing updates. Only the call's own caller can cancel it; a repeat
    /// cancel is dropped. The call stays in the table until the callee
    /// returns or the broker's bound expires.
    pub fn handle_cancel(&mut self, from: ConnectionId, call_id: CallId) -> (ds: Vec<Directive>)
        requires
            old(self).wf(),
        ensures
            final(self).wf(),
            final(self).registry_view() == old(self).registry_view(),
            final(self).next_id() == old(self).next_id(),
            if spec_has_call(old(self).calls_view(), call_id) && spec_call(
                old(self).calls_view(),
                call_id,
            ).caller == from && !spec_call(old(self).calls_view(), call_id).cancelling {
                final(self).calls_view() == old(self).calls_view().update(
                    spec_call_index(old(self).calls_view(), call_id),
                    with_cancelling(spec_call(old(self).calls_view(), call_id)),
                ) && dirs_of(ds@) == seq![
                    (DirectiveView {
                        to: spec_call(old(self).calls_view(), call_id).callee,
                        frame: FrameView::Cancel { call_id },
                    }),
                ]
            } else {
                *final(self) == *old(self) && dirs_of(ds@) == Seq::<DirectiveView>::empty()
            },
    {
        let mut ds: Vec<Directive> = Vec::new();
        match self.find_call(call_id) {
            Some(k) => {
                proof {
                    lemma_index_unique(self.calls_view(), k as int, call_id);
                    assert(self.calls_view()[k as int] == self.calls@[k as int]@);
                }
                if self.calls[k].caller == from && !self.calls[k].cancelling {
                    let ghost prior = self.calls_view();
                    let mut rec = self.calls.remove(k);
                    let callee = rec.callee;
                    rec.cancelling = true;
                    self.calls.insert(k, rec);
                    ds.push(Directive { to: callee, frame: Frame::Cancel { call_id } });
                    proof {
                        assert(self.calls_view() =~= prior.update(
                            k as int,
                            with_cancelling(prior[k as int]),
                        ));
                        assert(dirs_of(ds@) =~= seq![ds@[0]@]);
                        lemma_update_keeps_wf(
                            prior,
                            k as int,
                            with_cancelling(prior[k as int]),
                            old(self).next_id(),
                        );
                        assert(self.registry_view() == old(self).registry_view());
                        assert(self.wf());
                    }
                } else {
                    proof {
                        assert(dirs_of(ds@) =~= Seq::<DirectiveView>::empty());
                    }
                }
            },
            None => {
                proof {
                    assert(dirs_of(ds@) =~= Seq::<DirectiveView>::empty());
                }
            },
        }
        ds
    }

    /// Enforces the cancellation bound: once the configured wait for a
    /// cancelled call has elapsed without a `Return`, the broker synthesizes
    /// `Cancelled` to the caller and frees the table entry. A call that is
    /// not cancelling is left alone.
    pub fn cancel_timeout(&mut self, call_id: CallId) -> (ds: Vec<Directive>)
        requires
            old(self).wf(),
        ensures
            final(self).wf(),
            final(self).registry_view() == old(self).registry_view(),
            final(self).next_id() == old(self).next_id(),
            if spec_has_call(old(self).calls_view(), call_id) && spec_call(
                old(self).calls_view(),
                call_id,
            ).cancelling {
                final(self).calls_view() == old(self).calls_view().remove(
                    spec_call_index(old(self).calls_view(), call_id),
                ) && dirs_of(ds@) == seq![
                    (DirectiveView {
                        to: spec_call(old(self).calls_view(), call_id).caller,
                        frame: FrameView::Return {
                            call_id,
                            result: RpcResultView::Error(RpcErrorView::Cancelled),
                        },
                    }),
                ]
            } else {
                *final(self) == *old(self) && dirs_of(ds@) == Seq::<DirectiveView>::empty()
            },
    {
        let mut ds: Vec<Directive> = Vec::new();
        match self.find_call(call_id) {
            Some(k) => {
                proof {
                    lemma_index_unique(self.calls_view(), k as int, call_id);
                    assert(self.calls_view()[k as int] == self.calls@[k as int]@);
                }
                if self.calls[k].cancelling {
                    let ghost prior = self.calls_view();
                    let rec = self.calls.remove(k);
                    ds.push(
                        Directive {
                            to: rec.caller,
                            frame: Frame::Return {
                                call_id,
                                result: RpcResult::Error(RpcError::Cancelled),
                            },
                        },
                    );
                    proof {
                        assert(self.calls_view() =~= prior.remove(k as int));
                        assert(dirs_of(ds@) =~= seq![ds@[0]@]);
                        lemma_remove_keeps_wf(prior, k as int, old(self).next_id());
                        assert(self.registry_view() == old(self).registry_view());
                        assert(self.wf());
                    }
                } else {
                    proof {
                        assert(dirs_of(ds@) =~= Seq::<DirectiveView>::empty());
                    }
                }
            },
            None => {
                proof {
                    assert(dirs_of(ds@) =~= Seq::<DirectiveView>::empty());
                }
            },
        }
        ds
    }
}

/// The calls that survive a disconnect of `conn`: those it took part in are
/// gone.
pub open spec fn spec_live_calls(calls: Seq<CallView>, conn: ConnectionId) -> Seq<CallView>
    decreases calls.len(),
{
    if calls.len() == 0 {
        Seq::empty()
    } else {
        let rest = spec_live_calls(calls.drop_last(), conn);
        let c = calls.last();
        if c.caller == conn || c.callee == conn {
            rest
        } else {
            rest.push(c)
        }
    }
}

/// The registrations that survive a disconnect of `conn`.
pub open spec fn spec_live_regs(regs: Seq<RegistrationView>, conn: ConnectionId) -> Seq<
    RegistrationView,
>
    decreases regs.len(),
{
    if regs.len() == 0 {
        Seq::empty()
    } else {
        let rest = spec_live_regs(regs.drop_last(), conn);
        if regs.last().owner == conn {
            rest
        } else {
            rest.push(regs.last())
        }
    }
}

/// What a disconnect of `conn` sends, one notification per affected call, in
/// table order: the caller of a call whose callee vanished hears `PeerGone`;
/// the callee of a call whose caller vanished is told to cancel.
pub open spec fn spec_disconnect_dirs(calls: Seq<CallView>, conn: ConnectionId) -> Seq<
    DirectiveView,
>
    decreases calls.len(),
{
    if calls.len() == 0 {
        Seq::empty()
    } else {
        let rest = spec_disconnect_dirs(calls.drop_last(), conn);
        let c = calls.last();
        if c.callee == conn && c.caller != conn {
            rest.push(
                DirectiveView {
                    to: c.caller,
                    frame: FrameView::Return {
                        call_id: c.id,
                        result: RpcResultView::Error(RpcErrorView::PeerGone),
                    },
                },
            )
        } else if c.caller == conn && c.callee != conn {
            rest.push(DirectiveView { to: c.callee, frame: FrameView::Cancel { call_id: c.id } })
        } else {
            rest
        }
    }
}

/// Every surviving call was in the table and references the dead connection
/// on neither side: a disconnect leaks no entry.
pub proof fn lemma_live_calls_props(calls: Seq<CallView>, conn: ConnectionId)
    ensures
        forall|t: int|
            0 <= t < spec_live_calls(calls, conn).len() ==> calls.contains(
                #[trigger] spec_live_calls(calls, conn)[t],
            ),
        forall|t: int|
            0 <= t < spec_live_calls(calls, conn).len() ==> (#[trigger] spec_live_calls(
                calls,
                conn,
            )[t]).caller != conn && spec_live_calls(calls, conn)[t].callee != conn,
    decreases calls.len(),
{
    if calls.len() > 0 {
        let dl = calls.drop_last();
        lemma_live_calls_props(dl, conn);
        assert forall|t: int|
            0 <= t < spec_live_calls(calls, conn).len() implies calls.contains(
            #[trigger] spec_live_calls(calls, conn)[t],
        ) by {
            let x = spec_live_calls(calls, conn)[t];
            if t < spec_live_calls(dl, conn).len() {
                assert(dl.contains(x));
                let j = choose|j: int| 0 <= j < dl.len() && dl[j] == x;
                assert(calls[j] == x);
            } else {
                assert(x == calls.last());
                assert(calls[calls.len() - 1] == x);
            }
        }
    }
}

/// A disconnect keeps the surviving table well formed.
proof fn lemma_live_calls_wf(calls: Seq<CallView>, conn: ConnectionId, bound: int)
    requires
        forall|a: int, b: int|
            0 <= a < b < calls.len() ==> (#[trigger] calls[a]).id != (#[trigger] calls[b]).id,
        forall|a: int| 0 <= a < calls.len() ==> (#[trigger] calls[a]).id < bound,
    ensures
        forall|a: int, b: int|
            0 <= a < b < spec_live_calls(calls, conn).len() ==> (#[trigger] spec_live_calls(
                calls,
                conn,
            )[a]).id != (#[trigger] spec_live_calls(calls, conn)[b]).id,
        forall|a: int|
            0 <= a < spec_live_calls(calls, conn).len() ==> (#[trigger] spec_live_calls(
                calls,
                conn,
            )[a]).id < bound,
    decreases calls.len(),
{
    if calls.len() > 0 {
        let dl = calls.drop_last();
        let live = spec_live_calls(calls, conn);
        let rest = spec_live_calls(dl, conn);
        assert(forall|a: int, b: int|
            0 <= a < b < dl.len() ==> (#[trigger] dl[a]).id != (#[trigger] dl[b]).id);
        assert(forall|a: int| 0 <= a < dl.len() ==> (#[trigger] dl[a]).id < bound);
        lemma_live_calls_wf(dl, conn, bound);
        lemma_live_calls_props(dl, conn);
        let c = calls.last();
        if !(c.caller == conn || c.callee == conn) {
            assert forall|a: int, b: int| 0 <= a < b < live.len() implies (
            #[trigger] live[a]).id != (#[trigger] live[b]).id by {
                if b == live.len() - 1 {
                    assert(live[b] == c);
                    assert(dl.contains(rest[a]));
                    let j = choose|j: int| 0 <= j < dl.len() && dl[j] == rest[a];
                    assert(calls[j].id != calls[calls.len() - 1].id);
                }
            }
        }
    }
}

/// A disconnect keeps the surviving registry well formed, and frees every
/// name the connection owned.
pub proof fn lemma_live_regs_props(regs: Seq<RegistrationView>, conn: ConnectionId)
    requires
        forall|a: int, b: int|
            0 <= a < b < regs.len() ==> (#[trigger] regs[a]).method != (#[trigger] regs[b]).method,
    ensures
        forall|a: int, b: int|
            0 <= a < b < spec_live_regs(regs, conn).len() ==> (#[trigger] spec_live_regs(
                regs,
                conn,
            )[a]).method != (#[trigger] spec_live_regs(regs, conn)[b]).method,
        forall|a: int|
            0 <= a < spec_live_regs(regs, conn).len() ==> (#[trigger] spec_live_regs(
                regs,
                conn,
            )[a]).owner != conn,
        forall|a: int|
            0 <= a < spec_live_regs(regs, conn).len() ==> regs.contains(
                #[trigger] spec_live_regs(regs, conn)[a],
            ),
    decreases regs.len(),
{
    if regs.len() > 0 {
        let dl = regs.drop_last();
        let live = spec_live_regs(regs, conn);
        let rest = spec_live_regs(dl, conn);
        assert(forall|a: int, b: int|
            0 <= a < b < dl.len() ==> (#[trigger] dl[a]).method != (#[trigger] dl[b]).method);
        lemma_live_regs_props(dl, conn);
        assert forall|a: int|
            0 <= a < live.len() implies regs.contains(#[trigger] live[a]) by {
            if a < rest.len() {
                assert(dl.contains(rest[a]));
                let j = choose|j: int| 0 <= j < dl.len() && dl[j] == rest[a];
                assert(regs[j] == live[a]);
            } else {
                assert(regs[regs.len() - 1] == live[a]);
            }
        }
        if regs.last().owner != conn {
            assert forall|a: int, b: int| 0 <= a < b < live.len() implies (
            #[trigger] live[a]).method != (#[trigger] live[b]).method by {
                if b == live.len() - 1 {
                    assert(dl.contains(rest[a]));
                    let j = choose|j: int| 0 <= j < dl.len() && dl[j] == rest[a];
                    assert(regs[j].method != regs[regs.len() - 1].method);
                }
            }
        }
    }
}


impl Broker {
    /// Removes every method registration the connection owns, so that later
    /// calls to those names fail fast with `NoSuchMethod` instead of
    /// hanging; the call table is untouched.
    pub fn deregister_all(&mut self, conn: ConnectionId)
        requires
            old(self).wf(),
        ensures
            final(self).wf(),
            final(self).next_id() == old(self).next_id(),
            final(self).calls_view() == old(self).calls_view(),
            final(self).registry_view() == spec_live_regs(old(self).registry_view(), conn),
    {
        let ghost regs = old(self).registry_view();
        let ghost q: int = 0;
        let mut j: usize = 0;
        proof {
            assert(regs.take(0) =~= Seq::<RegistrationView>::empty());
            assert(regs.skip(0) =~= regs);
            assert(self.registry_view() =~= spec_live_regs(regs.take(0), conn) + regs.skip(0));
        }
        while j < self.registry.len()
            invariant
                0 <= q <= regs.len(),
                j as int == spec_live_regs(regs.take(q), conn).len(),
                self.registry_view() =~= spec_live_regs(regs.take(q), conn) + regs.skip(q),
                self.calls_view() == old(self).calls_view(),
                self.next_id() == old(self).next_id(),
            decreases regs.len() - q,
        {
            proof {
                assert(self.registry_view().len() == j + (regs.len() - q));
                assert(q < regs.len());
                assert(regs.take(q + 1).drop_last() =~= regs.take(q));
                assert(regs.take(q + 1).last() == regs[q]);
                assert(self.registry_view()[j as int] == regs.skip(q)[0]);
                assert(regs.skip(q)[0] == regs[q]);
                assert(self.registry_view()[j as int] == self.registry@[j as int]@);
            }
            if self.registry[j].owner == conn {
                let ghost prior = self.registry_view();
                let _ = self.registry.remove(j);
                proof {
                    assert(self.registry_view() =~= prior.remove(j as int));
                    assert(prior.remove(j as int) =~= spec_live_regs(regs.take(q), conn)
                        + regs.skip(q + 1));
                    assert(spec_live_regs(regs.take(q + 1), conn) =~= spec_live_regs(
                        regs.take(q),
                        conn,
                    ));
                }
            } else {
                proof {
                    assert(spec_live_regs(regs.take(q + 1), conn) =~= spec_live_regs(
                        regs.take(q),
                        conn,
                    ).push(regs[q]));
                    assert(self.registry_view() =~= spec_live_regs(regs.take(q + 1), conn)
                        + regs.skip(q + 1));
                }
                j = j + 1;
            }
            proof {
                q = q + 1;
            }
        }
        proof {
            assert(q == regs.len());
            assert(regs.take(q) =~= regs);
            assert(regs.skip(q) =~= Seq::<RegistrationView>::empty());
            assert(self.registry_view() =~= spec_live_regs(regs, conn));
            assert(forall|a: int, b: int|
                0 <= a < b < regs.len() ==> (#[trigger] regs[a]).method != (
                #[trigger] regs[b]).method);
            lemma_live_regs_props(regs, conn);
            assert(self.wf());
        }
    }
}

impl Broker {
    /// Tears down everything a vanished connection touched: its method
    /// registrations are removed, every call it was part of leaves the table,
    /// each caller whose callee vanished hears `PeerGone`, and each callee
    /// whose caller vanished is told to cancel. No call referencing the
    /// connection survives.
    pub fn handle_disconnect(&mut self, conn: ConnectionId) -> (ds: Vec<Directive>)
        requires
            old(self).wf(),
        ensures
            final(self).wf(),
            final(self).next_id() == old(self).next_id(),
            final(self).calls_view() == spec_live_calls(old(self).calls_view(), conn),
            final(self).registry_view() == spec_live_regs(old(self).registry_view(), conn),
            dirs_of(ds@) == spec_disconnect_dirs(old(self).calls_view(), conn),
    {
        let ghost all = old(self).calls_view();
        let mut ds: Vec<Directive> = Vec::new();
        let ghost p: int = 0;
        let mut k: usize = 0;
        proof {
            assert(all.take(0) =~= Seq::<CallView>::empty());
            assert(all.skip(0) =~= all);
            assert(self.calls_view() =~= spec_live_calls(all.take(0), conn) + all.skip(0));
            assert(dirs_of(ds@) =~= spec_disconnect_dirs(all.take(0), conn));
        }
        while k < self.calls.len()
            invariant
                0 <= p <= all.len(),
                k as int == spec_live_calls(all.take(p), conn).len(),
                self.calls_view() =~= spec_live_calls(all.take(p), conn) + all.skip(p),
                dirs_of(ds@) == spec_disconnect_dirs(all.take(p), conn),
                self.registry_view() == old(self).registry_view(),
                self.next_id() == old(self).next_id(),
            decreases all.len() - p,
        {
            proof {
                assert(self.calls_view().len() == k + (all.len() - p));
                assert(p < all.len());
                assert(all.take(p + 1).drop_last() =~= all.take(p));
                assert(all.take(p + 1).last() == all[p]);
                assert(self.calls_view()[k as int] == all.skip(p)[0]);
                assert(all.skip(p)[0] == all[p]);
                assert(self.calls_view()[k as int] == self.calls@[k as int]@);
            }
            let touches = self.calls[k].caller == conn || self.calls[k].callee == conn;
            if touches {
                let ghost prior = self.calls_view();
                let rec = self.calls.remove(k);
                proof {
                    assert(self.calls_view() =~= prior.remove(k as int));
                    assert(prior.remove(k as int) =~= spec_live_calls(all.take(p), conn)
                        + all.skip(p + 1));
                    assert(spec_live_calls(all.take(p + 1), conn) =~= spec_live_calls(
                        all.take(p),
                        conn,
                    ));
                }
                if rec.callee == conn && rec.caller != conn {
                    ds.push(
                        Directive {
                            to: rec.caller,
                            frame: Frame::Return {
                                call_id: rec.id,
                                result: RpcResult::Error(RpcError::PeerGone),
                            },
                        },
                    );
                    proof {
                        assert(dirs_of(ds@) =~= spec_disconnect_dirs(all.take(p), conn).push(
                            ds@.last()@,
                        ));
                        assert(dirs_of(ds@) =~= spec_disconnect_dirs(all.take(p + 1), conn));
                    }
                } else if rec.caller == conn && rec.callee != conn {
                    ds.push(Directive { to: rec.callee, frame: Frame::Cancel { call_id: rec.id } });
                    proof {
                        assert(dirs_of(ds@) =~= spec_disconnect_dirs(all.take(p), conn).push(
                            ds@.last()@,
                        ));
                        assert(dirs_of(ds@) =~= spec_disconnect_dirs(all.take(p + 1), conn));
                    }
                } else {
                    proof {
                        assert(dirs_of(ds@) =~= spec_disconnect_dirs(all.take(p + 1), conn));
                    }
                }
            } else {
                proof {
                    assert(spec_live_calls(all.take(p + 1), conn) =~= spec_live_calls(
                        all.take(p),
                        conn,
                    ).push(all[p]));
                    assert(self.calls_view() =~= spec_live_calls(all.take(p + 1), conn) + all.skip(
                        p + 1,
                    ));
                    assert(dirs_of(ds@) =~= spec_disconnect_dirs(all.take(p + 1), conn));
                }
                k = k + 1;
            }
            proof {
                p = p + 1;
            }
        }
        proof {
            assert(p == all.len());
            assert(all.take(p) =~= all);
            assert(all.skip(p) =~= Seq::<CallView>::empty());
            assert(self.calls_view() =~= spec_live_calls(all, conn));
        }
        proof {
            lemma_live_calls_wf(all, conn, old(self).next_id());
            assert(self.wf());
        }
        self.deregister_all(conn);
        ds
    }
}

/// True if the directive delivers the terminal `Return` of call `id`.
pub open spec fn spec_is_return_for(d: DirectiveView, id: CallId) -> bool {
    d.frame matches FrameView::Return { call_id: c, .. } && c == id
}

/// How many terminal `Return` directives for call `id` a batch holds.
pub open spec fn spec_returns_for(ds: Seq<DirectiveView>, id: CallId) -> int
    decreases ds.len(),
{
    if ds.len() == 0 {
        0
    } else {
        spec_returns_for(ds.drop_last(), id) + if spec_is_return_for(ds.last(), id) {
            1int
        } else {
            0int
        }
    }
}

/// A disconnect never synthesizes a `Return` for a call that is not in the
/// table.
proof fn lemma_no_call_no_return(calls: Seq<CallView>, conn: ConnectionId, id: CallId)
    requires
        forall|k: int| 0 <= k < calls.len() ==> (#[trigger] calls[k]).id != id,
    ensures
        spec_returns_for(spec_disconnect_dirs(calls, conn), id) == 0,
    decreases calls.len(),
{
    if calls.len() > 0 {
        let dl = calls.drop_last();
        assert(forall|k: int| 0 <= k < dl.len() ==> (#[trigger] dl[k]).id != id);
        lemma_no_call_no_return(dl, conn, id);
        let ds = spec_disconnect_dirs(calls, conn);
        let rest = spec_disconnect_dirs(dl, conn);
        if ds.len() > rest.len() {
            assert(ds.drop_last() =~= rest);
        }
    }
}

/// Exactly one terminal resolution reaches the caller of each call whose
/// callee vanished: the disconnect batch holds one `PeerGone` `Return` for
/// it, addressed to its caller, and the call leaves the table.
pub proof fn lemma_disconnect_exactly_one_return(
    calls: Seq<CallView>,
    conn: ConnectionId,
    id: CallId,
)
    requires
        forall|a: int, b: int|
            0 <= a < b < calls.len() ==> (#[trigger] calls[a]).id != (#[trigger] calls[b]).id,
        spec_has_call(calls, id),
        spec_call(calls, id).callee == conn,
        spec_call(calls, id).caller != conn,
    ensures
        spec_returns_for(spec_disconnect_dirs(calls, conn), id) == 1,
        exists|t: int|
            0 <= t < spec_disconnect_dirs(calls, conn).len() && spec_disconnect_dirs(calls, conn)[t]
                == (DirectiveView {
                to: spec_call(calls, id).caller,
                frame: FrameView::Return {
                    call_id: id,
                    result: RpcResultView::Error(RpcErrorView::PeerGone),
                },
            }),
        !spec_has_call(spec_live_calls(calls, conn), id),
    decreases calls.len(),
{
    let dl = calls.drop_last();
    let c = calls.last();
    let ds = spec_disconnect_dirs(calls, conn);
    let rest = spec_disconnect_dirs(dl, conn);
    let live = spec_live_calls(calls, conn);
    lemma_live_calls_props(calls, conn);
    if c.id == id {
        lemma_index_unique(calls, calls.len() - 1, id);
        assert(spec_call(calls, id) == c);
        assert(forall|k: int| 0 <= k < dl.len() ==> (#[trigger] dl[k]).id != id);
        lemma_no_call_no_return(dl, conn, id);
        assert(ds == rest.push(
            DirectiveView {
                to: c.caller,
                frame: FrameView::Return {
                    call_id: id,
                    result: RpcResultView::Error(RpcErrorView::PeerGone),
                },
            },
        ));
        assert(ds.drop_last() =~= rest);
        assert(spec_is_return_for(ds.last(), id));
        assert(ds[ds.len() - 1] == ds.last());
        assert forall|t: int|
            0 <= t < live.len() implies (#[trigger] live[t]).id != id by {
            assert(calls.contains(live[t]));
            let j = choose|j: int| 0 <= j < calls.len() && calls[j] == live[t];
            if j < calls.len() - 1 {
                assert(dl[j] == calls[j]);
            } else {
                assert(live[t].callee == conn);
                assert(live[t].callee != conn);
            }
        }
    } else {
        let w = spec_call_index(calls, id);
        assert(0 <= w < calls.len() && calls[w].id == id);
        assert(w != calls.len() - 1);
        assert(dl[w] == calls[w]);
        assert(forall|a: int, b: int|
            0 <= a < b < dl.len() ==> (#[trigger] dl[a]).id != (#[trigger] dl[b]).id);
        lemma_index_unique(dl, w, id);
        lemma_index_unique(calls, w, id);
        assert(spec_call(dl, id) == spec_call(calls, id));
        lemma_disconnect_exactly_one_return(dl, conn, id);
        if ds.len() > rest.len() {
            assert(ds.drop_last() =~= rest);
            assert(!spec_is_return_for(ds.last(), id));
            assert(forall|t: int| 0 <= t < rest.len() ==> ds[t] == (#[trigger] rest[t]));
            let t0 = choose|t: int|
                0 <= t < rest.len() && rest[t] == (DirectiveView {
                    to: spec_call(dl, id).caller,
                    frame: FrameView::Return {
                        call_id: id,
                        result: RpcResultView::Error(RpcErrorView::PeerGone),
                    },
                });
            assert(ds[t0] == rest[t0]);
        } else {
            assert(ds == rest);
        }
        assert forall|t: int|
            0 <= t < live.len() implies (#[trigger] live[t]).id != id by {
            let restl = spec_live_calls(dl, conn);
            if t < restl.len() {
                assert(live[t] == restl[t]);
                assert(!spec_has_call(restl, id));
            } else {
                assert(live[t] == c);
            }
        }
    }
    assert(!spec_has_call(live, id));
}

/// Some registration carries the resolved owner and the method's name.
proof fn lemma_resolve_some_entry(regs: Seq<RegistrationView>, method: Seq<char>)
    requires
        spec_resolve(regs, method) is Some,
    ensures
        exists|k: int|
            0 <= k < regs.len() && (#[trigger] regs[k]).method == method && regs[k].owner
                == spec_resolve(regs, method)->Some_0,
    decreases regs.len(),
{
    if regs.len() > 0 {
        if regs.first().method == method {
            assert(regs[0].method == method);
        } else {
            lemma_resolve_some_entry(regs.drop_first(), method);
            let k = choose|k: int|
                0 <= k < regs.drop_first().len() && (#[trigger] regs.drop_first()[k]).method
                    == method && regs.drop_first()[k].owner == spec_resolve(
                    regs.drop_first(),
                    method,
                )->Some_0;
            assert(regs[k + 1] == regs.drop_first()[k]);
        }
    }
}

/// A name no registration carries does not resolve.
proof fn lemma_all_differ_resolve_none(regs: Seq<RegistrationView>, method: Seq<char>)
    requires
        forall|k: int| 0 <= k < regs.len() ==> (#[trigger] regs[k]).method != method,
    ensures
        spec_resolve(regs, method) is None,
    decreases regs.len(),
{
    if regs.len() > 0 {
        assert(regs[0] == regs.first());
        assert(forall|k: int|
            0 <= k < regs.drop_first().len() ==> (#[trigger] regs.drop_first()[k]).method
                != method);
        lemma_all_differ_resolve_none(regs.drop_first(), method);
    }
}

/// Once the owner of a method disconnects, the name no longer resolves, so
/// it can be registered afresh.
pub proof fn lemma_disconnect_frees_methods(
    regs: Seq<RegistrationView>,
    conn: ConnectionId,
    method: Seq<char>,
)
    requires
        forall|a: int, b: int|
            0 <= a < b < regs.len() ==> (#[trigger] regs[a]).method != (#[trigger] regs[b]).method,
        spec_resolve(regs, method) == Some(conn),
    ensures
        spec_resolve(spec_live_regs(regs, conn), method) is None,
{
    let live = spec_live_regs(regs, conn);
    lemma_live_regs_props(regs, conn);
    lemma_resolve_some_entry(regs, method);
    let k = choose|k: int|
        0 <= k < regs.len() && (#[trigger] regs[k]).method == method && regs[k].owner == conn;
    assert forall|t: int| 0 <= t < live.len() implies (#[trigger] live[t]).method != method by {
        assert(regs.contains(live[t]));
        let j = choose|j: int| 0 <= j < regs.len() && regs[j] == live[t];
        if live[t].method == method {
            if j < k {
                assert(regs[j].method != regs[k].method);
            } else if k < j {
                assert(regs[k].method != regs[j].method);
            } else {
                assert(live[t].owner == conn);
                assert(live[t].owner != conn);
            }
        }
    }
    lemma_all_differ_resolve_none(live, method);
}

/// One protocol event, as the reactor's decode path hands it to the broker.
pub enum Event {
    Call { caller: ConnectionId, method: String, args: String },
    Update { from: ConnectionId, call_id: CallId, payload: String },
    Return { from: ConnectionId, call_id: CallId, result: RpcResult },
    Cancel { from: ConnectionId, call_id: CallId },
    Register { owner: ConnectionId, method: String },
    CancelExpired { call_id: CallId },
    Disconnect { conn: ConnectionId },
}

/// The exact transition one event makes: the broker after the event, and
/// the directive batch it emits, as a function of the broker before it.
/// Each arm is the corresponding handler's contract, word for word.
pub open spec fn spec_step_transition(
    pre: Broker,
    post: Broker,
    ds: Seq<DirectiveView>,
    event: Event,
) -> bool {
    match event {
        Event::Call { caller, method, args } => {
            &&& post.next_id() == pre.next_id() + 1
            &&& post.registry_view() == pre.registry_view()
            &&& match spec_resolve(pre.registry_view(), method@) {
                Some(owner) => post.calls_view() == pre.calls_view().push(
                    CallView {
                        id: pre.next_id() as CallId,
                        method: method@,
                        caller,
                        callee: owner,
                        state: CallState::Pending,
                        cancelling: false,
                    },
                ) && ds == seq![
                    DirectiveView {
                        to: owner,
                        frame: FrameView::Call {
                            call_id: pre.next_id() as CallId,
                            method: method@,
                            args: args@,
                        },
                    },
                ],
                None => post.calls_view() == pre.calls_view() && ds == seq![
                    DirectiveView {
                        to: caller,
                        frame: FrameView::Return {
                            call_id: pre.next_id() as CallId,
                            result: RpcResultView::Error(RpcErrorView::NoSuchMethod),
                        },
                    },
                ],
            }
        },
        Event::Update { from, call_id, payload } => {
            &&& post.next_id() == pre.next_id()
            &&& post.registry_view() == pre.registry_view()
            &&& if spec_has_call(pre.calls_view(), call_id) && spec_call(
                pre.calls_view(),
                call_id,
            ).callee == from && !spec_call(pre.calls_view(), call_id).cancelling {
                post.calls_view() == pre.calls_view().update(
                    spec_call_index(pre.calls_view(), call_id),
                    with_streaming(spec_call(pre.calls_view(), call_id)),
                ) && ds == seq![
                    DirectiveView {
                        to: spec_call(pre.calls_view(), call_id).caller,
                        frame: FrameView::Update { call_id, payload: payload@ },
                    },
                ]
            } else {
                post == pre && ds == Seq::<DirectiveView>::empty()
            }
        },
        Event::Return { from, call_id, result } => {
            &&& post.next_id() == pre.next_id()
            &&& post.registry_view() == pre.registry_view()
            &&& if spec_has_call(pre.calls_view(), call_id) && spec_call(
                pre.calls_view(),
                call_id,
            ).callee == from {
                post.calls_view() == pre.calls_view().remove(
                    spec_call_index(pre.calls_view(), call_id),
                ) && ds == seq![
                    DirectiveView {
                        to: spec_call(pre.calls_view(), call_id).caller,
                        frame: FrameView::Return { call_id, result: result@ },
                    },
                ]
            } else {
                post == pre && ds == Seq::<DirectiveView>::empty()
            }
        },
        Event::Cancel { from, call_id } => {
            &&& post.next_id() == pre.next_id()
            &&& post.registry_view() == pre.registry_view()
            &&& if spec_has_call(pre.calls_view(), call_id) && spec_call(
                pre.calls_view(),
                call_id,
            ).caller == from && !spec_call(pre.calls_view(), call_id).cancelling {
                post.calls_view() == pre.calls_view().update(
                    spec_call_index(pre.calls_view(), call_id),
                    with_cancelling(spec_call(pre.calls_view(), call_id)),
                ) && ds == seq![
                    DirectiveView {
                        to: spec_call(pre.calls_view(), call_id).callee,
                        frame: FrameView::Cancel { call_id },
                    },
                ]
            } else {
                post == pre && ds == Seq::<DirectiveView>::empty()
            }
        },
        Event::Register { owner, method } => {
            &&& post.next_id() == pre.next_id()
            &&& post.calls_view() == pre.calls_view()
            &&& match spec_resolve(pre.registry_view(), method@) {
                Some(o) => post.registry_view() == pre.registry_view() && ds == seq![
                    DirectiveView {
                        to: owner,
                        frame: FrameView::RegisterAck {
                            result: if o == owner {
                                RpcResultView::Value(Seq::<char>::empty())
                            } else {
                                RpcResultView::Error(RpcErrorView::AlreadyRegistered)
                            },
                        },
                    },
                ],
                None => post.registry_view() == pre.registry_view().push(
                    RegistrationView { method: method@, owner },
                ) && ds == seq![
                    DirectiveView {
                        to: owner,
                        frame: FrameView::RegisterAck {
                            result: RpcResultView::Value(Seq::<char>::empty()),
                        },
                    },
                ],
            }
        },
        Event::CancelExpired { call_id } => {
            &&& post.next_id() == pre.next_id()
            &&& post.registry_view() == pre.registry_view()
            &&& if spec_has_call(pre.calls_view(), call_id) && spec_call(
                pre.calls_view(),
                call_id,
            ).cancelling {
                post.calls_view() == pre.calls_view().remove(
                    spec_call_index(pre.calls_view(), call_id),
                ) && ds == seq![
                    DirectiveView {
                        to: spec_call(pre.calls_view(), call_id).caller,
                        frame: FrameView::Return {
                            call_id,
                            result: RpcResultView::Error(RpcErrorView::Cancelled),
                        },
                    },
                ]
            } else {
                post == pre && ds == Seq::<DirectiveView>::empty()
            }
        },
        Event::Disconnect { conn } => {
            &&& post.next_id() == pre.next_id()
            &&& post.calls_view() == spec_live_calls(pre.calls_view(), conn)
            &&& post.registry_view() == spec_live_regs(pre.registry_view(), conn)
            &&& ds == spec_disconnect_dirs(pre.calls_view(), conn)
        },
    }
}

/// The batch holds exactly one terminal `Return` for call `id`, and it is
/// addressed to `caller`.
pub open spec fn spec_resolved_to_caller(
    ds: Seq<DirectiveView>,
    id: CallId,
    caller: ConnectionId,
) -> bool {
    &&& spec_returns_for(ds, id) == 1
    &&& exists|t: int|
        0 <= t < ds.len() && spec_is_return_for(#[trigger] ds[t], id) && ds[t].to == caller
}

/// Counting terminal returns in a batch of none or one directive.
proof fn lemma_returns_for_small(ds: Seq<DirectiveView>, id: CallId)
    requires
        ds.len() <= 1,
    ensures
        ds.len() == 0 ==> spec_returns_for(ds, id) == 0,
        ds.len() == 1 && spec_is_return_for(ds[0], id) ==> spec_returns_for(ds, id) == 1,
        ds.len() == 1 && !spec_is_return_for(ds[0], id) ==> spec_returns_for(ds, id) == 0,
{
    assert(spec_returns_for(Seq::<DirectiveView>::empty(), id) == 0);
    if ds.len() == 1 {
        assert(ds.drop_last() =~= Seq::<DirectiveView>::empty());
        assert(ds.last() == ds[0]);
        assert(spec_returns_for(ds, id) == spec_returns_for(ds.drop_last(), id)
            + if spec_is_return_for(ds.last(), id) {
            1int
        } else {
            0int
        });
    }
}

/// A transition that keeps every call's id in place neither retires a call
/// nor delivers a terminal.
proof fn lemma_step_same_ids(prior: Seq<CallView>, cur: Seq<CallView>, ds: Seq<DirectiveView>)
    requires
        cur.len() == prior.len(),
        forall|t: int| 0 <= t < cur.len() ==> (#[trigger] cur[t]).id == prior[t].id,
        ds.len() <= 1,
        ds.len() == 1 ==> !(ds[0].frame matches FrameView::Return { .. }),
    ensures
        forall|id: CallId| #[trigger] spec_has_call(prior, id) ==> spec_has_call(cur, id),
        forall|id: CallId| #[trigger] spec_has_call(cur, id) ==> spec_has_call(prior, id),
        forall|id: CallId| #[trigger] spec_returns_for(ds, id) == 0,
{
    assert forall|id: CallId| #[trigger] spec_has_call(prior, id) implies spec_has_call(
        cur,
        id,
    ) by {
        let k = spec_call_index(prior, id);
        assert(cur[k].id == id);
    }
    assert forall|id: CallId| #[trigger] spec_has_call(cur, id) implies spec_has_call(
        prior,
        id,
    ) by {
        let k = spec_call_index(cur, id);
        assert(prior[k].id == id);
    }
    assert forall|id: CallId| #[trigger] spec_returns_for(ds, id) == 0 by {
        lemma_returns_for_small(ds, id);
    }
}

/// Retiring the call at `w` while delivering its one terminal to its caller
/// leaves every other call in place, delivers nothing else, and delivers
/// nothing twice.
proof fn lemma_step_removal(
    prior: Seq<CallView>,
    cur: Seq<CallView>,
    ds: Seq<DirectiveView>,
    w: int,
)
    requires
        forall|a: int, b: int|
            0 <= a < b < prior.len() ==> (#[trigger] prior[a]).id != (#[trigger] prior[b]).id,
        0 <= w < prior.len(),
        cur == prior.remove(w),
        ds.len() == 1,
        spec_is_return_for(ds[0], prior[w].id),
        ds[0].to == prior[w].caller,
    ensures
        !spec_has_call(cur, prior[w].id),
        spec_resolved_to_caller(ds, prior[w].id, prior[w].caller),
        spec_call(prior, prior[w].id) == prior[w],
        forall|id: CallId|
            #[trigger] spec_has_call(prior, id) && id != prior[w].id ==> spec_has_call(cur, id),
        forall|id: CallId| #[trigger] spec_has_call(cur, id) ==> spec_has_call(prior, id),
        forall|id: CallId| id != prior[w].id ==> #[trigger] spec_returns_for(ds, id) == 0,
{
    lemma_index_unique(prior, w, prior[w].id);
    assert forall|t: int| 0 <= t < cur.len() implies (#[trigger] cur[t]).id != prior[w].id by {
        let t2: int = if t < w {
            t
        } else {
            t + 1
        };
        assert(cur[t] == prior[t2]);
    }
    lemma_returns_for_small(ds, prior[w].id);
    assert(spec_resolved_to_caller(ds, prior[w].id, prior[w].caller));
    assert forall|id: CallId|
        #[trigger] spec_has_call(prior, id) && id != prior[w].id implies spec_has_call(
        cur,
        id,
    ) by {
        let k = spec_call_index(prior, id);
        let k2: int = if k < w {
            k
        } else {
            k - 1
        };
        assert(cur[k2] == prior[k]);
    }
    assert forall|id: CallId| #[trigger] spec_has_call(cur, id) implies spec_has_call(
        prior,
        id,
    ) by {
        let k = spec_call_index(cur, id);
        let k2: int = if k < w {
            k
        } else {
            k + 1
        };
        assert(cur[k] == prior[k2]);
    }
    assert forall|id: CallId| id != prior[w].id implies #[trigger] spec_returns_for(ds, id)
        == 0 by {
        lemma_returns_for_small(ds, id);
    }
}

/// A call that references the vanished connection on neither side survives
/// its disconnect.
proof fn lemma_live_calls_keeps(calls: Seq<CallView>, conn: ConnectionId, id: CallId)
    requires
        spec_has_call(calls, id),
        spec_call(calls, id).caller != conn,
        spec_call(calls, id).callee != conn,
        forall|a: int, b: int|
            0 <= a < b < calls.len() ==> (#[trigger] calls[a]).id != (#[trigger] calls[b]).id,
    ensures
        spec_has_call(spec_live_calls(calls, conn), id),
    decreases calls.len(),
{
    let w = spec_call_index(calls, id);
    let c = calls.last();
    let dl = calls.drop_last();
    let live = spec_live_calls(calls, conn);
    let rest = spec_live_calls(dl, conn);
    if w == calls.len() - 1 {
        assert(spec_call(calls, id) == c);
        assert(live == rest.push(c));
        assert(live[live.len() - 1].id == id);
    } else {
        assert(dl[w] == calls[w]);
        assert(forall|a: int, b: int|
            0 <= a < b < dl.len() ==> (#[trigger] dl[a]).id != (#[trigger] dl[b]).id);
        lemma_index_unique(dl, w, id);
        lemma_index_unique(calls, w, id);
        assert(spec_call(dl, id) == spec_call(calls, id));
        lemma_live_calls_keeps(dl, conn, id);
        let t = spec_call_index(rest, id);
        if live.len() > rest.len() {
            assert(live[t] == rest[t]);
        }
        assert(spec_has_call(live, id));
    }
}

/// A disconnect emits no terminal `Return` for a call it does not remove.
proof fn lemma_disconnect_no_return_for_kept(calls: Seq<CallView>, conn: ConnectionId, id: CallId)
    requires
        forall|k: int|
            0 <= k < calls.len() && (#[trigger] calls[k]).id == id ==> calls[k].callee != conn
                || calls[k].caller == conn,
    ensures
        spec_returns_for(spec_disconnect_dirs(calls, conn), id) == 0,
    decreases calls.len(),
{
    if calls.len() > 0 {
        let dl = calls.drop_last();
        assert(forall|k: int|
            0 <= k < dl.len() && (#[trigger] dl[k]).id == id ==> dl[k].callee != conn
                || dl[k].caller == conn);
        lemma_disconnect_no_return_for_kept(dl, conn, id);
        let ds = spec_disconnect_dirs(calls, conn);
        let rest = spec_disconnect_dirs(dl, conn);
        let c = calls.last();
        assert(calls[calls.len() - 1] == c);
        if ds.len() > rest.len() {
            assert(ds.drop_last() =~= rest);
        }
    }
}

impl Broker {
    /// `handle_disconnect`, with the per-step obligations stated over its
    /// batch: used by `step`.
    fn step_disconnect(&mut self, conn: ConnectionId) -> (ds: Vec<Directive>)
        requires
            old(self).wf(),
        ensures
            final(self).wf(),
            final(self).next_id() == old(self).next_id(),
            final(self).calls_view() == spec_live_calls(old(self).calls_view(), conn),
            final(self).registry_view() == spec_live_regs(old(self).registry_view(), conn),
            dirs_of(ds@) == spec_disconnect_dirs(old(self).calls_view(), conn),
            forall|id: CallId|
                #[trigger] spec_has_call(old(self).calls_view(), id) && !spec_has_call(
                    final(self).calls_view(),
                    id,
                ) ==> spec_resolved_to_caller(
                    dirs_of(ds@),
                    id,
                    spec_call(old(self).calls_view(), id).caller,
                ) || spec_call(old(self).calls_view(), id).caller == conn,
            forall|id: CallId|
                #[trigger] spec_has_call(old(self).calls_view(), id) && spec_has_call(
                    final(self).calls_view(),
                    id,
                ) ==> spec_returns_for(dirs_of(ds@), id) == 0,
            forall|id: CallId|
                #[trigger] spec_returns_for(dirs_of(ds@), id) != 0 ==> spec_has_call(
                    old(self).calls_view(),
                    id,
                ),
            forall|id: CallId|
                #[trigger] spec_has_call(final(self).calls_view(), id) ==> spec_has_call(
                    old(self).calls_view(),
                    id,
                ),
    {
        let ghost prior = old(self).calls_view();
        let ds = self.handle_disconnect(conn);
        proof {
            let cur = self.calls_view();
            let dirs = dirs_of(ds@);
            lemma_live_calls_props(prior, conn);
            assert forall|id: CallId|
                #[trigger] spec_has_call(prior, id) && !spec_has_call(cur, id) implies
                spec_resolved_to_caller(dirs, id, spec_call(prior, id).caller) || spec_call(
                prior,
                id,
            ).caller == conn by {
                let c = spec_call(prior, id);
                if c.caller != conn && c.callee != conn {
                    lemma_live_calls_keeps(prior, conn, id);
                } else if c.caller != conn {
                    lemma_disconnect_exactly_one_return(prior, conn, id);
                    let t = choose|t: int|
                        0 <= t < dirs.len() && dirs[t] == (DirectiveView {
                            to: c.caller,
                            frame: FrameView::Return {
                                call_id: id,
                                result: RpcResultView::Error(RpcErrorView::PeerGone),
                            },
                        });
                    assert(spec_is_return_for(dirs[t], id) && dirs[t].to == c.caller);
                }
            }
            assert forall|id: CallId|
                #[trigger] spec_has_call(prior, id) && spec_has_call(cur, id) implies
                spec_returns_for(dirs, id) == 0 by {
                let t = spec_call_index(cur, id);
                assert(prior.contains(cur[t]));
                let j = choose|j: int| 0 <= j < prior.len() && prior[j] == cur[t];
                assert forall|k: int|
                    0 <= k < prior.len() && (#[trigger] prior[k]).id == id implies
                    prior[k].callee != conn || prior[k].caller == conn by {
                    if k < j {
                        assert(prior[k].id != prior[j].id);
                    } else if j < k {
                        assert(prior[j].id != prior[k].id);
                    } else {
                        assert(prior[k].callee != conn);
                    }
                }
                lemma_disconnect_no_return_for_kept(prior, conn, id);
            }
            assert forall|id: CallId|
                #[trigger] spec_returns_for(dirs, id) != 0 implies spec_has_call(prior, id) by {
                if !spec_has_call(prior, id) {
                    assert(forall|k: int| 0 <= k < prior.len() ==> (#[trigger] prior[k]).id != id);
                    lemma_no_call_no_return(prior, conn, id);
                }
            }
            assert forall|id: CallId| #[trigger] spec_has_call(cur, id) implies spec_has_call(
                prior,
                id,
            ) by {
                let t = spec_call_index(cur, id);
                assert(prior.contains(cur[t]));
                let j = choose|j: int| 0 <= j < prior.len() && prior[j] == cur[t];
                assert(prior[j].id == id);
            }
        }
        ds
    }

    /// Advances the broker by one event: the per-step shape of the bus's
    /// central obligation, which therefore holds over every interleaving of
    /// updates, cancels, returns and disconnects. A call leaves the table
    /// exactly when one terminal `Return` reaches its caller — or when its
    /// caller is the very connection that vanished. A call that stays, or
    /// was never tabled, gets no terminal, except the immediate
    /// `NoSuchMethod` answer to an unroutable call, which leaves no entry
    /// behind. A call enters the table only under the freshly minted id.
    /// Nothing is silently dropped, and nothing is delivered twice.
    /// Besides these invariants, the event's exact transition is pinned:
    /// `spec_step_transition` restates, arm by arm, what the corresponding
    /// handler's contract says the new state and the batch are.
    #[verifier::rlimit(100)]
    pub fn step(&mut self, event: Event) -> (ds: Vec<Directive>)
        requires
            old(self).wf(),
            old(self).next_id() < CallId::MAX,
        ensures
            final(self).wf(),
            spec_step_transition(*old(self), *final(self), dirs_of(ds@), event),
            forall|id: CallId|
                #[trigger] spec_has_call(old(self).calls_view(), id) && !spec_has_call(
                    final(self).calls_view(),
                    id,
                ) ==> spec_resolved_to_caller(
                    dirs_of(ds@),
                    id,
                    spec_call(old(self).calls_view(), id).caller,
                ) || (event matches Event::Disconnect { conn } && spec_call(
                    old(self).calls_view(),
                    id,
                ).caller == conn),
            forall|id: CallId|
                #[trigger] spec_has_call(old(self).calls_view(), id) && spec_has_call(
                    final(self).calls_view(),
                    id,
                ) ==> spec_returns_for(dirs_of(ds@), id) == 0,
            forall|id: CallId|
                #[trigger] spec_returns_for(dirs_of(ds@), id) != 0 ==> spec_has_call(
                    old(self).calls_view(),
                    id,
                ) || ((event matches Event::Call { .. }) && id == old(self).next_id()
                    && !spec_has_call(final(self).calls_view(), id)),
            forall|id: CallId|
                #[trigger] spec_has_call(final(self).calls_view(), id) ==> spec_has_call(
                    old(self).calls_view(),
                    id,
                ) || id == old(self).next_id(),
    {
        let ghost prior = old(self).calls_view();
        let ghost ev = event;
        match event {
            Event::Call { caller, method, args } => {
                let (minted, ds) = self.handle_call(caller, method.as_str(), args.as_str());
                proof {
                    let cur = self.calls_view();
                    let dirs = dirs_of(ds@);
                    assert forall|id: CallId| #[trigger] spec_has_call(prior, id) implies
                        spec_has_call(cur, id) && id != minted by {
                        let k = spec_call_index(prior, id);
                        assert(cur[k].id == id);
                        assert(prior[k].id < old(self).next_id());
                    }
                    assert forall|id: CallId| #[trigger] spec_has_call(cur, id) implies
                        spec_has_call(prior, id) || id == minted by {
                        let k = spec_call_index(cur, id);
                        if k < prior.len() {
                            assert(prior[k].id == id);
                        }
                    }
                    if spec_resolve(old(self).registry_view(), method@) is Some {
                        assert forall|id: CallId| #[trigger] spec_returns_for(dirs, id)
                            == 0 by {
                            lemma_returns_for_small(dirs, id);
                        }
                    } else {
                        assert forall|id: CallId| id != minted implies #[trigger] spec_returns_for(
                            dirs,
                            id,
                        ) == 0 by {
                            lemma_returns_for_small(dirs, id);
                        }
                        lemma_returns_for_small(dirs, minted);
                        assert(spec_returns_for(dirs, minted) == 1);
                        assert(!spec_has_call(cur, minted));
                    }
                    assert(minted == old(self).next_id() as CallId);
                    assert(spec_step_transition(*old(self), *self, dirs, ev));
                }
                ds
            },
            Event::Update { from, call_id, payload } => {
                let ds = self.handle_update(from, call_id, payload.as_str());
                proof {
                    let cur = self.calls_view();
                    assert forall|t: int| 0 <= t < cur.len() implies (#[trigger] cur[t]).id
                        == prior[t].id by {}
                    lemma_step_same_ids(prior, cur, dirs_of(ds@));
                    assert(spec_step_transition(*old(self), *self, dirs_of(ds@), ev));
                }
                ds
            },
            Event::Return { from, call_id, result } => {
                let ghost rv = result@;
                let ds = self.handle_return(from, call_id, result);
                proof {
                    let cur = self.calls_view();
                    let dirs = dirs_of(ds@);
                    if spec_has_call(prior, call_id) && spec_call(prior, call_id).callee == from {
                        let w = spec_call_index(prior, call_id);
                        lemma_step_removal(prior, cur, dirs, w);
                    } else {
                        assert forall|t: int| 0 <= t < cur.len() implies (#[trigger] cur[t]).id
                            == prior[t].id by {}
                        lemma_step_same_ids(prior, cur, dirs);
                    }
                    assert(spec_step_transition(*old(self), *self, dirs, ev));
                }
                ds
            },
            Event::Cancel { from, call_id } => {
                let ds = self.handle_cancel(from, call_id);
                proof {
                    let cur = self.calls_view();
                    assert forall|t: int| 0 <= t < cur.len() implies (#[trigger] cur[t]).id
                        == prior[t].id by {}
                    lemma_step_same_ids(prior, cur, dirs_of(ds@));
                    assert(spec_step_transition(*old(self), *self, dirs_of(ds@), ev));
                }
                ds
            },
            Event::Register { owner, method } => {
                let ds = self.handle_register(owner, method.as_str());
                proof {
                    let cur = self.calls_view();
                    assert forall|t: int| 0 <= t < cur.len() implies (#[trigger] cur[t]).id
                        == prior[t].id by {}
                    lemma_step_same_ids(prior, cur, dirs_of(ds@));
                    assert(spec_step_transition(*old(self), *self, dirs_of(ds@), ev));
                }
                ds
            },
            Event::CancelExpired { call_id } => {
                let ds = self.cancel_timeout(call_id);
                proof {
                    let cur = self.calls_view();
                    let dirs = dirs_of(ds@);
                    if spec_has_call(prior, call_id) && spec_call(prior, call_id).cancelling {
                        let w = spec_call_index(prior, call_id);
                        lemma_step_removal(prior, cur, dirs, w);
                    } else {
                        assert forall|t: int| 0 <= t < cur.len() implies (#[trigger] cur[t]).id
                            == prior[t].id by {}
                        lemma_step_same_ids(prior, cur, dirs);
                    }
                    assert(spec_step_transition(*old(self), *self, dirs, ev));
                }
                ds
            },
            Event::Disconnect { conn } => {
                let ds = self.step_disconnect(conn);
                proof {
                    assert(spec_step_transition(*old(self), *self, dirs_of(ds@), ev));
                }
                ds
            },
        }
    }
}

} // verus!
