//! The mathematical model of the concrete syntax tree and of the builder
//! event log.
//!
//! A tree is either a leaf carrying a lexeme or a node carrying an ordered
//! child list. The builder that assembles the executable tree is modelled
//! by a flat sequence of events — start a node, finish a node, append a
//! token — and `events_of` says which event sequence serializes a given
//! tree. Retroactive wrapping is, in this model, the splicing of a start
//! event into the middle of the log.

use vstd::prelude::*;
use crate::syntax::SyntaxKind;

verus! {

/// A model tree element: a leaf with its exact lexeme, or a node with its
/// ordered children.
pub ghost enum Tree {
    Leaf { kind: SyntaxKind, text: Seq<char> },
    Node { kind: SyntaxKind, children: Seq<Tree> },
}

/// One builder event. The first component is the tag: `0` starts a node
/// of the given kind, `1` finishes the innermost open node, `2` appends a
/// leaf of the given kind and text.
pub type Ev = (int, SyntaxKind, Seq<char>);

/// The event that opens a node of kind `k`.
pub open spec fn ev_start(k: SyntaxKind) -> Ev {
    (0int, k, Seq::<char>::empty())
}

/// The event that closes the innermost open node. It carries no data; the
/// kind component is a fixed placeholder.
pub open spec fn ev_finish() -> Ev {
    (1int, SyntaxKind::ROOT, Seq::<char>::empty())
}

/// The event that appends a leaf of kind `k` with lexeme `text`.
pub open spec fn ev_token(k: SyntaxKind, text: Seq<char>) -> Ev {
    (2int, k, text)
}

/// The serialization of one tree as builder events: a leaf is one token
/// event; a node is its start event, its children's events in order, and
/// a finish event.
pub open spec fn events_of(t: Tree) -> Seq<Ev>
    decreases t, 0int,
{
    match t {
        Tree::Leaf { kind, text } => seq![ev_token(kind, text)],
        Tree::Node { kind, children } => seq![ev_start(kind)] + forest_events_from(children, 0)
            + seq![ev_finish()],
    }
}

/// The serializations of the trees `ts[i..]`, concatenated in order.
pub open spec fn forest_events_from(ts: Seq<Tree>, i: int) -> Seq<Ev>
    decreases ts, ts.len() - i,
{
    if 0 <= i < ts.len() {
        events_of(ts[i]) + forest_events_from(ts, i + 1)
    } else {
        Seq::<Ev>::empty()
    }
}

/// The serialization of a whole forest.
pub open spec fn forest_events(ts: Seq<Tree>) -> Seq<Ev> {
    forest_events_from(ts, 0)
}

/// An empty forest serializes to no events.
pub proof fn lemma_forest_events_empty()
    ensures
        forest_events(Seq::<Tree>::empty()) == Seq::<Ev>::empty(),
{
}

/// A one-tree forest serializes to that tree's events.
pub proof fn lemma_forest_events_singleton(t: Tree)
    ensures
        forest_events(seq![t]) == events_of(t),
{
    assert(forest_events_from(seq![t], 1) == Seq::<Ev>::empty());
    assert(forest_events(seq![t]) == events_of(t) + Seq::<Ev>::empty());
    assert(events_of(t) + Seq::<Ev>::empty() =~= events_of(t));
}

/// Dropping the first `i` trees drops exactly their events.
proof fn lemma_forest_events_from_shift(ts: Seq<Tree>, extra: Seq<Tree>, i: int)
    requires
        0 <= i <= ts.len(),
    ensures
        forest_events_from(ts + extra, i) == forest_events_from(ts, i) + forest_events(extra),
    decreases ts.len() - i,
{
    let both = ts + extra;
    if i < ts.len() {
        lemma_forest_events_from_shift(ts, extra, i + 1);
        assert(both[i] == ts[i]);
        assert(forest_events_from(both, i) =~= forest_events_from(ts, i) + forest_events(extra));
    } else {
        lemma_forest_shift_only(ts, extra, 0);
        assert(forest_events_from(both, i) =~= forest_events_from(ts, i) + forest_events(extra));
    }
}

/// The tail of a concatenated forest that lies wholly inside `extra`.
proof fn lemma_forest_shift_only(ts: Seq<Tree>, extra: Seq<Tree>, j: int)
    requires
        0 <= j <= extra.len(),
    ensures
        forest_events_from(ts + extra, ts.len() + j) == forest_events_from(extra, j),
    decreases extra.len() - j,
{
    let both = ts + extra;
    if j < extra.len() {
        lemma_forest_shift_only(ts, extra, j + 1);
        assert(both[ts.len() + j] == extra[j]);
        assert(forest_events_from(both, ts.len() + j) =~= forest_events_from(extra, j));
    } else {
        assert(forest_events_from(both, ts.len() + j) =~= forest_events_from(extra, j));
    }
}

/// Serialization distributes over forest concatenation.
pub proof fn lemma_forest_events_concat(a: Seq<Tree>, b: Seq<Tree>)
    ensures
        forest_events(a + b) == forest_events(a) + forest_events(b),
{
    lemma_forest_events_from_shift(a, b, 0);
}

/// Appending one tree appends its events.
pub proof fn lemma_forest_events_push(ts: Seq<Tree>, t: Tree)
    ensures
        forest_events(ts.push(t)) == forest_events(ts) + events_of(t),
{
    assert(ts.push(t) =~= ts + seq![t]);
    lemma_forest_events_concat(ts, seq![t]);
    lemma_forest_events_singleton(t);
}

/// The length of the text an event carries: its lexeme's length for a
/// token event, nothing for a start or finish event.
pub open spec fn ev_text_len(e: Ev) -> int {
    if e.0 == 2 {
        e.2.len() as int
    } else {
        0
    }
}

/// The total length of all token texts in a log.
pub open spec fn log_text_len(log: Seq<Ev>) -> int
    decreases log.len(),
{
    if log.len() == 0 {
        0
    } else {
        log_text_len(log.drop_last()) + ev_text_len(log.last())
    }
}

/// Appending one event adds its text length.
pub proof fn lemma_log_text_len_push(log: Seq<Ev>, e: Ev)
    ensures
        log_text_len(log.push(e)) == log_text_len(log) + ev_text_len(e),
{
    assert(log.push(e).drop_last() =~= log);
}

/// A one-event log carries that event's text.
pub proof fn lemma_log_text_len_singleton(e: Ev)
    ensures
        log_text_len(seq![e]) == ev_text_len(e),
{
    assert(seq![e].drop_last() =~= Seq::<Ev>::empty());
    assert(seq![e].last() == e);
    assert(log_text_len(Seq::<Ev>::empty()) == 0);
    assert(log_text_len(seq![e]) == log_text_len(seq![e].drop_last()) + ev_text_len(
        seq![e].last()));
}

/// Token text length distributes over log concatenation.
pub proof fn lemma_log_text_len_concat(a: Seq<Ev>, b: Seq<Ev>)
    ensures
        log_text_len(a + b) == log_text_len(a) + log_text_len(b),
    decreases b.len(),
{
    if b.len() == 0 {
        assert(a + b =~= a);
    } else {
        lemma_log_text_len_concat(a, b.drop_last());
        assert((a + b).drop_last() =~= a + b.drop_last());
        assert((a + b).last() == b.last());
    }
}

/// A serialized tree carries exactly its leaf text.
pub proof fn lemma_events_text_len(t: Tree)
    ensures
        log_text_len(events_of(t)) == tree_text(t).len() as int,
    decreases t, 0int,
{
    match t {
        Tree::Leaf { kind, text } => {
            let ev = ev_token(kind, text);
            assert(seq![ev].drop_last() =~= Seq::<Ev>::empty());
            assert(seq![ev].last() == ev);
            assert(log_text_len(Seq::<Ev>::empty()) == 0);
            assert(log_text_len(seq![ev]) == log_text_len(Seq::<Ev>::empty()) + ev_text_len(ev));
            assert(ev_text_len(ev) == text.len());
            assert(events_of(t) == seq![ev]);
            assert(tree_text(t) == text);
            assert(log_text_len(events_of(t)) == tree_text(t).len());
        },
        Tree::Node { kind, children } => {
            let mid = forest_events_from(children, 0);
            lemma_forest_events_text_len_from(children, 0);
            lemma_log_text_len_concat(seq![ev_start(kind)], mid);
            lemma_log_text_len_concat(seq![ev_start(kind)] + mid, seq![ev_finish()]);
            assert(seq![ev_start(kind)].drop_last() =~= Seq::<Ev>::empty());
            assert(seq![ev_finish()].drop_last() =~= Seq::<Ev>::empty());
            assert(log_text_len(Seq::<Ev>::empty()) == 0);
            assert(seq![ev_start(kind)].last() == ev_start(kind));
            assert(seq![ev_finish()].last() == ev_finish());
            assert(log_text_len(seq![ev_start(kind)]) == 0);
            assert(log_text_len(seq![ev_finish()]) == 0);
            assert(events_of(t) == seq![ev_start(kind)] + mid + seq![ev_finish()]);
            assert(log_text_len(events_of(t)) == log_text_len(mid));
            assert(tree_text(t) == forest_text_from(children, 0));
        },
    }
}

/// A serialized forest carries exactly its leaf text.
pub proof fn lemma_forest_events_text_len_from(ts: Seq<Tree>, i: int)
    ensures
        log_text_len(forest_events_from(ts, i)) == forest_text_from(ts, i).len() as int,
    decreases ts, ts.len() - i,
{
    if 0 <= i < ts.len() {
        lemma_events_text_len(ts[i]);
        lemma_forest_events_text_len_from(ts, i + 1);
        lemma_log_text_len_concat(events_of(ts[i]), forest_events_from(ts, i + 1));
    }
}

/// A serialized forest carries exactly its leaf text.
pub proof fn lemma_forest_events_text_len(ts: Seq<Tree>)
    ensures
        log_text_len(forest_events(ts)) == forest_text(ts).len() as int,
{
    lemma_forest_events_text_len_from(ts, 0);
}

/// The concatenation of the lexemes of all leaves of `t`, in left-to-right
/// order.
pub open spec fn tree_text(t: Tree) -> Seq<char>
    decreases t, 0int,
{
    match t {
        Tree::Leaf { text, .. } => text,
        Tree::Node { children, .. } => forest_text_from(children, 0),
    }
}

/// The leaf texts of the trees `ts[i..]`, concatenated in order.
pub open spec fn forest_text_from(ts: Seq<Tree>, i: int) -> Seq<char>
    decreases ts, ts.len() - i,
{
    if 0 <= i < ts.len() {
        tree_text(ts[i]) + forest_text_from(ts, i + 1)
    } else {
        Seq::<char>::empty()
    }
}

/// The leaf texts of a whole forest.
pub open spec fn forest_text(ts: Seq<Tree>) -> Seq<char> {
    forest_text_from(ts, 0)
}

/// Leaf text concatenation: inner lemma over a start index.
proof fn lemma_forest_text_from_shift(ts: Seq<Tree>, extra: Seq<Tree>, i: int)
    requires
        0 <= i <= ts.len(),
    ensures
        forest_text_from(ts + extra, i) == forest_text_from(ts, i) + forest_text(extra),
    decreases ts.len() - i,
{
    let both = ts + extra;
    if i < ts.len() {
        lemma_forest_text_from_shift(ts, extra, i + 1);
        assert(both[i] == ts[i]);
        assert(forest_text_from(both, i) =~= forest_text_from(ts, i) + forest_text(extra));
    } else {
        lemma_forest_text_shift_only(ts, extra, 0);
        assert(forest_text_from(both, i) =~= forest_text_from(ts, i) + forest_text(extra));
    }
}

/// The tail of a concatenated forest's text that lies wholly inside `extra`.
proof fn lemma_forest_text_shift_only(ts: Seq<Tree>, extra: Seq<Tree>, j: int)
    requires
        0 <= j <= extra.len(),
    ensures
        forest_text_from(ts + extra, ts.len() + j) == forest_text_from(extra, j),
    decreases extra.len() - j,
{
    let both = ts + extra;
    if j < extra.len() {
        lemma_forest_text_shift_only(ts, extra, j + 1);
        assert(both[ts.len() + j] == extra[j]);
        assert(forest_text_from(both, ts.len() + j) =~= forest_text_from(extra, j));
    } else {
        assert(forest_text_from(both, ts.len() + j) =~= forest_text_from(extra, j));
    }
}

/// Leaf text concatenation distributes over forest concatenation.
pub proof fn lemma_forest_text_concat(a: Seq<Tree>, b: Seq<Tree>)
    ensures
        forest_text(a + b) == forest_text(a) + forest_text(b),
{
    lemma_forest_text_from_shift(a, b, 0);
}

/// A one-tree forest's text is that tree's text.
pub proof fn lemma_forest_text_singleton(t: Tree)
    ensures
        forest_text(seq![t]) == tree_text(t),
{
    assert(forest_text_from(seq![t], 1) == Seq::<char>::empty());
    assert(forest_text(seq![t]) == tree_text(t) + Seq::<char>::empty());
    assert(tree_text(t) + Seq::<char>::empty() =~= tree_text(t));
}

} // verus!
