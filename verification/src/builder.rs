//! The CST builder: a thin trusted layer over `rowan`'s green tree
//! builder.
//!
//! The builder's state is modelled as the flat sequence of events applied
//! to it so far, named by `builder_log`; the finished green tree is
//! modelled by the event sequence it serializes to, named by `green_log`.
//! `rowan` maintains exactly this discipline: tokens and node boundaries
//! are recorded in order, and `start_node_at` retroactively splices a
//! start event at a previously captured position, adopting everything
//! recorded since. A `Mark` pairs the captured `rowan` checkpoint with a
//! ghost snapshot of the log at capture; using it demands that the log
//! below the mark is still that snapshot, which rules out marks gone
//! stale. A `Mark` must only be used with the builder it was taken from;
//! the single parser in this crate drives a single builder.

use vstd::prelude::*;
use crate::syntax::SyntaxKind;
use crate::tree::{Ev, Tree, ev_start, ev_finish, ev_token, events_of, forest_events,
    log_text_len};

verus! {

#[verifier::external_type_specification]
#[verifier::external_body]
pub struct ExGreenNodeBuilder<'cache>(rowan::GreenNodeBuilder<'cache>);

#[verifier::external_type_specification]
#[verifier::external_body]
pub struct ExCheckpoint(rowan::Checkpoint);

#[verifier::external_type_specification]
#[verifier::external_body]
pub struct ExGreenNode(rowan::GreenNode);

/// The events applied to a builder so far, oldest first.
pub uninterp spec fn builder_log(b: rowan::GreenNodeBuilder<'static>) -> Seq<Ev>;

/// The event sequence a finished green tree serializes to.
pub uninterp spec fn green_log(n: rowan::GreenNode) -> Seq<Ev>;

/// A captured builder position: the point just before the next child of
/// the currently open node. The fields are private, so a mark can only be
/// made by `builder_checkpoint`, which keeps the ghost snapshot of the
/// log in step with the captured `rowan` checkpoint. The snapshot lets
/// `builder_start_node_at` demand that nothing below the mark has moved
/// since capture, so a mark that went stale — the log spliced under it at
/// an earlier position — is rejected by that `requires`.
pub struct Mark {
    cp: rowan::Checkpoint,
    log: Ghost<Seq<Ev>>,
}

impl Mark {
    /// The whole builder log at capture time.
    pub closed spec fn captured(self) -> Seq<Ev> {
        self.log@
    }

    /// The model position of the mark: the length of the builder's log at
    /// capture time.
    pub open spec fn pos(self) -> int {
        self.captured().len() as int
    }
}

/// Relies on rowan::GreenNodeBuilder::new: a fresh builder holds nothing.
#[verifier::external_body]
pub(crate) fn builder_new() -> (b: rowan::GreenNodeBuilder<'static>)
    ensures
        builder_log(b) == Seq::<Ev>::empty(),
{
    rowan::GreenNodeBuilder::new()
}

/// Relies on rowan::GreenNodeBuilder::token: appends one leaf with the
/// given kind and exact text to the current branch.
#[verifier::external_body]
pub(crate) fn builder_token(b: &mut rowan::GreenNodeBuilder<'static>, kind: SyntaxKind, text: &String)
    ensures
        builder_log(*final(b)) == builder_log(*old(b)).push(ev_token(kind, text@)),
{
    b.token(rowan::SyntaxKind(kind.to_raw()), text)
}

/// Relies on rowan::GreenNodeBuilder::start_node: opens a new node, which
/// becomes the current branch.
#[verifier::external_body]
pub(crate) fn builder_start_node(b: &mut rowan::GreenNodeBuilder<'static>, kind: SyntaxKind)
    ensures
        builder_log(*final(b)) == builder_log(*old(b)).push(ev_start(kind)),
{
    b.start_node(rowan::SyntaxKind(kind.to_raw()))
}

/// Relies on rowan::GreenNodeBuilder::finish_node: closes the innermost
/// open node. The log must show an unmatched start: an open node whose
/// recorded children form complete trees. Closing a node measures each
/// child's text as a 32-bit size (rowan's GreenNode::new, via text-size's
/// TextSize::of, which panics on longer text), so the log's total token
/// text must stay below 2^32 bytes; a character takes at most four.
#[verifier::external_body]
pub(crate) fn builder_finish_node(b: &mut rowan::GreenNodeBuilder<'static>)
    requires
        4 * log_text_len(builder_log(*old(b))) < 0x1_0000_0000,
        exists|p: Seq<Ev>, k: SyntaxKind, ts: Seq<Tree>|
            builder_log(*old(b)) == p + seq![ev_start(k)] + forest_events(ts),
    ensures
        builder_log(*final(b)) == builder_log(*old(b)).push(ev_finish()),
{
    b.finish_node()
}

/// Relies on rowan::GreenNodeBuilder::checkpoint: captures the position
/// just before the next child of the current branch. The returned value
/// carries no contract of its own; `builder_checkpoint` pairs it with the
/// model position it stands for.
#[verifier::external_body]
fn raw_checkpoint(b: &rowan::GreenNodeBuilder<'static>) -> rowan::Checkpoint {
    b.checkpoint()
}

/// Captures the current position of the builder as a mark.
pub(crate) fn builder_checkpoint(b: &rowan::GreenNodeBuilder<'static>) -> (m: Mark)
    ensures
        m.captured() == builder_log(*b),
        m.pos() == builder_log(*b).len(),
{
    Mark { cp: raw_checkpoint(b), log: Ghost(builder_log(*b)) }
}

/// Relies on rowan::GreenNodeBuilder::start_node_at: retroactively opens a
/// node at the marked position, adopting as its children everything
/// recorded since; the new node becomes the current branch. The log below
/// the mark must still be exactly what it was at capture — so no later
/// splice has shifted the marked position — and everything recorded since
/// the mark must form complete trees, so that the mark is still valid (no
/// enclosing node was finished meanwhile).
#[verifier::external_body]
pub(crate) fn builder_start_node_at(
    b: &mut rowan::GreenNodeBuilder<'static>,
    m: &Mark,
    kind: SyntaxKind,
)
    requires
        0 <= m.pos() <= builder_log(*old(b)).len(),
        builder_log(*old(b)).subrange(0, m.pos()) == m.captured(),
        exists|ts: Seq<Tree>|
            builder_log(*old(b)).subrange(m.pos(), builder_log(*old(b)).len() as int)
                == forest_events(ts),
    ensures
        builder_log(*final(b)) == builder_log(*old(b)).subrange(0, m.pos())
            + seq![ev_start(kind)]
            + builder_log(*old(b)).subrange(m.pos(), builder_log(*old(b)).len() as int),
{
    b.start_node_at(m.cp, rowan::SyntaxKind(kind.to_raw()))
}

/// Relies on rowan::GreenNodeBuilder::finish: returns the finished,
/// immutable green tree. The log must serialize exactly one complete
/// node, which becomes the root.
#[verifier::external_body]
pub(crate) fn builder_finish(b: rowan::GreenNodeBuilder<'static>) -> (n: rowan::GreenNode)
    requires
        exists|t: Tree| t is Node && builder_log(b) == events_of(t),
    ensures
        green_log(n) == builder_log(b),
{
    b.finish()
}

} // verus!
