//! The typed messages exchanged over a connection, their error taxonomy, and
//! the mathematical views the broker's contracts are stated over.

use vstd::prelude::*;

verus! {

/// Identifies one socket endpoint for the lifetime of its session.
pub type ConnectionId = u64;

/// Identifies one call end to end; minted by the broker, never reused.
pub type CallId = u64;

/// Why a call ended without a normal result, or why a request was refused.
#[derive(Clone, Debug, PartialEq, Eq)]
pub enum RpcError {
    /// A frame violated the protocol; fatal to its connection.
    MalformedFrame,
    /// No live connection owns the called method.
    NoSuchMethod,
    /// The method is owned by another live connection.
    AlreadyRegistered,
    /// The callee's connection vanished mid-call.
    PeerGone,
    /// The call was cancelled before the callee returned.
    Cancelled,
    /// The callee's own failure, passed through verbatim.
    HandlerError(String),
}

/// The outcome a `Return` frame carries.
#[derive(Clone, Debug, PartialEq, Eq)]
pub enum RpcResult {
    Value(String),
    Error(RpcError),
}


impl RpcError {
    /// An equal copy of the error, with the equality in the contract; the
    /// derived `Clone` promises nothing to the verifier.
    pub fn duplicate(&self) -> (r: RpcError)
        ensures
            r == *self,
    {
        match self {
            RpcError::MalformedFrame => RpcError::MalformedFrame,
            RpcError::NoSuchMethod => RpcError::NoSuchMethod,
            RpcError::AlreadyRegistered => RpcError::AlreadyRegistered,
            RpcError::PeerGone => RpcError::PeerGone,
            RpcError::Cancelled => RpcError::Cancelled,
            RpcError::HandlerError(s) => RpcError::HandlerError(s.clone()),
        }
    }
}

impl RpcResult {
    /// An equal copy of the result, with the equality in the contract: what
    /// the reactor forwards and what a handle keeps are provably the same
    /// value.
    pub fn duplicate(&self) -> (r: RpcResult)
        ensures
            r == *self,
    {
        match self {
            RpcResult::Value(s) => RpcResult::Value(s.clone()),
            RpcResult::Error(e) => RpcResult::Error(e.duplicate()),
        }
    }
}

/// One self-delimited protocol message.
#[derive(Clone, Debug, PartialEq, Eq)]
pub enum Frame {
    Call { call_id: CallId, method: String, args: String },
    Update { call_id: CallId, payload: String },
    Return { call_id: CallId, result: RpcResult },
    Cancel { call_id: CallId },
    Register { method: String },
    RegisterAck { result: RpcResult },
}

/// The mathematical content of an `RpcError`.
pub enum RpcErrorView {
    MalformedFrame,
    NoSuchMethod,
    AlreadyRegistered,
    PeerGone,
    Cancelled,
    HandlerError(Seq<char>),
}

/// The mathematical content of an `RpcResult`.
pub enum RpcResultView {
    Value(Seq<char>),
    Error(RpcErrorView),
}

/// The mathematical content of a `Frame`.
pub enum FrameView {
    Call { call_id: CallId, method: Seq<char>, args: Seq<char> },
    Update { call_id: CallId, payload: Seq<char> },
    Return { call_id: CallId, result: RpcResultView },
    Cancel { call_id: CallId },
    Register { method: Seq<char> },
    RegisterAck { result: RpcResultView },
}

impl View for RpcError {
    type V = RpcErrorView;

    open spec fn view(&self) -> RpcErrorView {
        match self {
            RpcError::MalformedFrame => RpcErrorView::MalformedFrame,
            RpcError::NoSuchMethod => RpcErrorView::NoSuchMethod,
            RpcError::AlreadyRegistered => RpcErrorView::AlreadyRegistered,
            RpcError::PeerGone => RpcErrorView::PeerGone,
            RpcError::Cancelled => RpcErrorView::Cancelled,
            RpcError::HandlerError(s) => RpcErrorView::HandlerError(s@),
        }
    }
}

impl View for RpcResult {
    type V = RpcResultView;

    open spec fn view(&self) -> RpcResultView {
        match self {
            RpcResult::Value(s) => RpcResultView::Value(s@),
            RpcResult::Error(e) => RpcResultView::Error(e@),
        }
    }
}

impl View for Frame {
    type V = FrameView;

    open spec fn view(&self) -> FrameView {
        match self {
            Frame::Call { call_id, method, args } => FrameView::Call {
                call_id: *call_id,
                method: method@,
                args: args@,
            },
            Frame::Update { call_id, payload } => FrameView::Update {
                call_id: *call_id,
                payload: payload@,
            },
            Frame::Return { call_id, result } => FrameView::Return {
                call_id: *call_id,
                result: result@,
            },
            Frame::Cancel { call_id } => FrameView::Cancel { call_id: *call_id },
            Frame::Register { method } => FrameView::Register { method: method@ },
            Frame::RegisterAck { result } => FrameView::RegisterAck { result: result@ },
        }
    }
}

/// A frame the broker asks the reactor to enqueue on one connection.
pub struct Directive {
    pub to: ConnectionId,
    pub frame: Frame,
}

/// The mathematical content of a `Directive`.
pub struct DirectiveView {
    pub to: ConnectionId,
    pub frame: FrameView,
}

impl View for Directive {
    type V = DirectiveView;

    open spec fn view(&self) -> DirectiveView {
        DirectiveView { to: self.to, frame: self.frame@ }
    }
}

/// The views of a sequence of directives, elementwise.
pub open spec fn dirs_of(s: Seq<Directive>) -> Seq<DirectiveView> {
    s.map_values(|d: Directive| d@)
}

} // verus!
