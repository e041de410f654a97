//! Source positions: a byte range paired with an expansion-context handle.

use vstd::prelude::*;

verus! {

/// An opaque handle identifying an expansion (hygiene) context.
/// The handle value `0` is reserved for "not inside any expansion".
#[derive(Debug, Default, Clone, Copy, PartialEq, Eq, Hash, Structural)]
pub struct CtxId {
    handle: u32,
}

impl CtxId {
    /// The raw handle value.
    pub closed spec fn id(self) -> u32 {
        self.handle
    }

    pub fn new(handle: u32) -> (r: Self)
        ensures
            r.id() == handle,
    {
        CtxId { handle }
    }

    /// The context of code that is not inside any expansion.
    pub fn root() -> (r: Self)
        ensures
            r.id() == 0,
    {
        CtxId { handle: 0 }
    }

    pub fn as_u32(&self) -> (r: u32)
        ensures
            r == self.id(),
    {
        self.handle
    }

    pub fn is_root(&self) -> (r: bool)
        ensures
            r == (self.id() == 0),
    {
        self.handle == 0
    }
}

/// Two context handles are the same context exactly when their raw values
/// are equal: equality is by raw handle value.
pub proof fn lemma_ctx_eq_by_id(a: CtxId, b: CtxId)
    ensures
        (a == b) <==> (a.id() == b.id()),
{
}

/// A contiguous extent of source text: a start byte offset and a byte
/// length, tagged with the expansion context it belongs to.
#[derive(Debug, Clone, Copy, PartialEq, Eq, Hash, Structural)]
pub struct Span {
    start: u32,
    len: u32,
    ctx: CtxId,
}

impl Span {
    pub closed spec fn spec_start(self) -> u32 {
        self.start
    }

    pub closed spec fn spec_len(self) -> u32 {
        self.len
    }

    pub closed spec fn spec_ctx(self) -> CtxId {
        self.ctx
    }

    pub fn new(start: u32, len: u32, ctx: CtxId) -> (r: Self)
        ensures
            r.spec_start() == start,
            r.spec_len() == len,
            r.spec_ctx() == ctx,
    {
        Span { start, len, ctx }
    }

    pub fn start(&self) -> (r: u32)
        ensures
            r == self.spec_start(),
    {
        self.start
    }

    /// The offset one past the last byte of the span.
    pub fn end(&self) -> (r: u32)
        requires
            self.spec_start() + self.spec_len() <= u32::MAX,
        ensures
            r == self.spec_start() + self.spec_len(),
    {
        self.start + self.len
    }

    pub fn len(&self) -> (r: u32)
        ensures
            r == self.spec_len(),
    {
        self.len
    }

    pub fn is_empty(&self) -> (r: bool)
        ensures
            r == (self.spec_len() == 0),
    {
        self.len == 0
    }

    pub fn ctx(&self) -> (r: CtxId)
        ensures
            r == self.spec_ctx(),
    {
        self.ctx
    }
}

} // verus!
