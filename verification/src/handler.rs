use vstd::prelude::*;

use core::marker::PhantomData;

use crate::error::DemoError;
use crate::parser::{Context, Visitor};

verus! {

/// A value that can be extracted from a decoded message's context: a
/// caller-declared parameter type for a registered callback. The
/// extraction decides whether the callback fires for this message, and
/// is pinned to a specification-level function so that dispatch can be
/// reasoned about.
pub trait FromPacket: Sized {
    /// What the extraction yields, as the model sees it.
    spec fn extracts(context: Context, packet_type: u32, data: Seq<u8>) -> Option<Self>;

    /// Extracts a value of this type from the message, or declines.
    fn from_context(context: &Context, packet_type: u32, data: &Vec<u8>) -> (r: Option<Self>)
        ensures
            r == Self::extracts(*context, packet_type, data@),
    ;
}

impl FromPacket for Context {
    /// The context itself always extracts.
    open spec fn extracts(context: Context, packet_type: u32, data: Seq<u8>) -> Option<
        Context,
    > {
        Some(context)
    }

    fn from_context(context: &Context, _packet_type: u32, _data: &Vec<u8>) -> (r: Option<
        Self,
    >) {
        Some(*context)
    }
}

/// A registered callback, ready to be offered every decoded message.
pub trait PacketHandler<S> {
    /// Offers one message; the handler decides whether it applies.
    fn call(&self, state: &mut S, context: &Context, packet_type: u32, data: &Vec<u8>);
}

/// A caller-supplied function over one extractable message type,
/// convertible into a registered handler.
pub trait IntoPacketHandler<S, M: FromPacket>: Sized {
    /// Handles one extracted message.
    fn handle(&self, state: &mut S, msg: M);

    /// Wraps the function as a registrable handler holding exactly the
    /// given function, moved in unchanged.
    fn wrap(self) -> (r: PacketHandlerWrapper<S, Self, M>)
        ensures
            r.sfunc() == self,
    {
        PacketHandlerWrapper { func: self, _phantom: PhantomData }
    }
}

/// The adapter that matches a callback's declared message type against
/// each incoming message and invokes the callback only when every
/// parameter extracts.
pub struct PacketHandlerWrapper<S, H, M> {
    func: H,
    _phantom: PhantomData<(S, M)>,
}

impl<S, H, M> PacketHandlerWrapper<S, H, M> {
    /// The wrapped function.
    pub closed spec fn sfunc(&self) -> H {
        self.func
    }
}

impl<S, H: IntoPacketHandler<S, M>, M: FromPacket> PacketHandler<S> for PacketHandlerWrapper<
    S,
    H,
    M,
> {
    /// When the message's parameter type declines to extract, the
    /// callback does not fire and the state is untouched; when it
    /// extracts, the callback alone decides the new state.
    fn call(&self, state: &mut S, context: &Context, packet_type: u32, data: &Vec<u8>)
        ensures
            M::extracts(*context, packet_type, data@) is None ==> *final(state) == *old(
                state,
            ),
    {
        match M::from_context(context, packet_type, data) {
            Some(msg) => self.func.handle(state, msg),
            None => {},
        }
    }
}

/// A visitor that dispatches every decoded message to a registry of
/// typed handlers sharing one mutable state value.
pub struct HandlerVisitor<S, H> {
    packet_handlers: Vec<H>,
    state: S,
}

impl<S, H: PacketHandler<S>> HandlerVisitor<S, H> {
    /// The registered handlers, in registration order.
    pub closed spec fn shandlers(&self) -> Seq<H> {
        self.packet_handlers@
    }

    /// The shared state the handlers mutate.
    pub closed spec fn sstate(&self) -> S {
        self.state
    }

    /// An empty registry around an initial state value.
    pub fn with_state(state: S) -> (r: Self)
        ensures
            r.shandlers().len() == 0,
            r.sstate() == state,
    {
        HandlerVisitor { packet_handlers: Vec::new(), state }
    }

    /// Registers one more handler, after those already registered.
    pub fn with(self, handler: H) -> (r: Self)
        ensures
            r.shandlers() == self.shandlers().push(handler),
            r.sstate() == self.sstate(),
    {
        let mut s = self;
        s.packet_handlers.push(handler);
        s
    }

    /// The current shared state.
    pub fn state(&self) -> (r: &S)
        ensures
            *r == self.sstate(),
    {
        &self.state
    }
}

impl<S, H: PacketHandler<S>> Visitor for HandlerVisitor<S, H> {
    /// Offers the message to every registered handler, in order.
    /// Dispatch never fails, and never adds, removes or reorders
    /// handlers: only the shared state may change, and only through
    /// the handlers themselves.
    fn on_packet(&mut self, ctx: &Context, packet_type: u32, data: &Vec<u8>) -> (r: Result<
        (),
        DemoError,
    >)
        ensures
            r is Ok,
            final(self).shandlers() == old(self).shandlers(),
    {
        let n = self.packet_handlers.len();
        let mut i: usize = 0;
        while i < n
            invariant
                n == self.packet_handlers@.len(),
                self.packet_handlers@ == old(self).packet_handlers@,
            decreases n - i,
        {
            self.packet_handlers[i].call(&mut self.state, ctx, packet_type, data);
            i = i + 1;
        }
        Ok(())
    }
}

} // verus!
