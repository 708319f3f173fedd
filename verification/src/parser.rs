//! The parser: a recursive-descent, precedence-climbing walk over the
//! token sequence that drives the CST builder.
//!
//! The grammar, loosest level first:
//!
//! ```text
//! expr := add
//! add  := mul (('+'|'-') mul)*
//! mul  := val (('*'|'/') val)*
//! val  := NUMBER | ERROR(any single token)
//! ```
//!
//! Whitespace is a first-class leaf of the tree but transparent to the
//! grammar: peeking consumes whitespace tokens straight into the builder.
//! At each level a mark is captured once and reused for every operator
//! found, which wraps the already-built left operand retroactively and
//! yields left-associative nesting. A token found where a value was
//! expected becomes the single child of an error node; at end of input the
//! error node is empty. The parser consumes one expression and leaves any
//! trailing input unread.
//!
//! The spec functions `spec_peek`, `spec_val`, `spec_mul` and `spec_add`
//! are the mathematical model: they say, for an input and a start
//! position, which model trees are produced and where parsing stops, or at
//! which offset tokenization failed.

use vstd::prelude::*;
use crate::syntax::SyntaxKind;
use crate::tokenizer::{Tokenizer, TokenizeError, TokenStep, token_at, lemma_token_at_bounds};
use crate::tree::{Tree, Ev, ev_start, ev_finish, ev_token, events_of, forest_events, forest_text,
    tree_text, log_text_len, lemma_forest_events_empty, lemma_forest_events_concat,
    lemma_forest_events_singleton, lemma_forest_events_push, lemma_forest_text_concat,
    lemma_forest_text_singleton, lemma_log_text_len_concat, lemma_log_text_len_push,
    lemma_log_text_len_singleton, lemma_forest_events_text_len};
use crate::builder::{builder_log, green_log, builder_new, builder_token, builder_start_node,
    builder_finish_node, builder_checkpoint, builder_start_node_at, builder_finish};

verus! {

/// The operators of the tighter precedence level.
pub open spec fn is_mul_op(k: SyntaxKind) -> bool {
    k == SyntaxKind::MUL || k == SyntaxKind::DIV
}

/// The operators of the looser precedence level.
pub open spec fn is_add_op(k: SyntaxKind) -> bool {
    k == SyntaxKind::ADD || k == SyntaxKind::SUB
}

/// What peeking at position `i` observes: end of input, an unrecognized
/// character, or the next non-whitespace token — in each case together
/// with the whitespace leaves consumed on the way and the position
/// reached.
pub ghost enum Peeked {
    Eof { ws: Seq<Tree>, at: int },
    Bad { off: int },
    Next { ws: Seq<Tree>, at: int, kind: SyntaxKind },
}

/// Prepends already-consumed whitespace leaves to a peek observation.
pub open spec fn peek_prepend(w: Seq<Tree>, p: Peeked) -> Peeked {
    match p {
        Peeked::Eof { ws, at } => Peeked::Eof { ws: w + ws, at },
        Peeked::Bad { off } => Peeked::Bad { off },
        Peeked::Next { ws, at, kind } => Peeked::Next { ws: w + ws, at, kind },
    }
}

/// The peek operation: consume whitespace tokens as leaves, then report
/// the kind of the following token without consuming it.
pub open spec fn spec_peek(s: Seq<char>, i: int) -> Peeked
    decreases s.len() - i,
{
    match token_at(s, i) {
        TokenStep::End => Peeked::Eof { ws: seq![], at: i },
        TokenStep::Unrecognized => Peeked::Bad { off: i },
        TokenStep::Tok { kind, end } => {
            if kind == SyntaxKind::WHITESPACE {
                if i < end <= s.len() {
                    peek_prepend(
                        seq![Tree::Leaf { kind: SyntaxKind::WHITESPACE, text: s.subrange(i, end) }],
                        spec_peek(s, end),
                    )
                } else {
                    // never reached: a token always makes progress
                    Peeked::Bad { off: i }
                }
            } else {
                Peeked::Next { ws: seq![], at: i, kind }
            }
        },
    }
}

/// The outcome of one grammar production: the elements it appends to the
/// currently open node and the position it stops at, or the offset of an
/// unrecognized character.
pub ghost enum Parsed {
    Done { kids: Seq<Tree>, at: int },
    Fail { off: int },
}

/// The `val` production: a number leaf; or any other token wrapped in an
/// error node; or, at end of input, an empty error node.
pub open spec fn spec_val(s: Seq<char>, i: int) -> Parsed {
    match spec_peek(s, i) {
        Peeked::Bad { off } => Parsed::Fail { off },
        Peeked::Eof { ws, at } => Parsed::Done {
            kids: ws + seq![Tree::Node { kind: SyntaxKind::ERROR, children: seq![] }],
            at,
        },
        Peeked::Next { ws, at, kind } => {
            let end = token_at(s, at)->end;
            let text = s.subrange(at, end);
            if kind == SyntaxKind::NUMBER {
                Parsed::Done { kids: ws + seq![Tree::Leaf { kind, text }], at: end }
            } else {
                Parsed::Done {
                    kids: ws + seq![
                        Tree::Node { kind: SyntaxKind::ERROR, children: seq![Tree::Leaf { kind, text }] },
                    ],
                    at: end,
                }
            }
        },
    }
}

/// The operator loop of the `mul` level, already holding the elements
/// `acc` built since the level's mark: while the next token is `*` or `/`,
/// wrap everything since the mark in an operation node — the same mark
/// every time, which makes the nesting left-associative — and parse one
/// more `val` operand.
pub open spec fn spec_mul_loop(s: Seq<char>, acc: Seq<Tree>, i: int) -> Parsed
    decreases s.len() - i,
{
    match spec_peek(s, i) {
        Peeked::Bad { off } => Parsed::Fail { off },
        Peeked::Eof { ws, at } => Parsed::Done { kids: acc + ws, at },
        Peeked::Next { ws, at, kind } => {
            if is_mul_op(kind) {
                let opend = token_at(s, at)->end;
                let op = Tree::Leaf { kind, text: s.subrange(at, opend) };
                match spec_val(s, opend) {
                    Parsed::Fail { off } => Parsed::Fail { off },
                    Parsed::Done { kids: rkids, at: rat } => {
                        let node = Tree::Node {
                            kind: SyntaxKind::OPERATION,
                            children: acc + ws + seq![op] + rkids,
                        };
                        if i < rat <= s.len() {
                            spec_mul_loop(s, seq![node], rat)
                        } else {
                            // never reached: an operand ends past its operator
                            Parsed::Fail { off: i }
                        }
                    },
                }
            } else {
                Parsed::Done { kids: acc + ws, at }
            }
        },
    }
}

/// The `mul` level: one `val`, then the `*`/`/` loop.
pub open spec fn spec_mul(s: Seq<char>, i: int) -> Parsed {
    match spec_val(s, i) {
        Parsed::Fail { off } => Parsed::Fail { off },
        Parsed::Done { kids, at } => spec_mul_loop(s, kids, at),
    }
}

/// The operator loop of the `add` level; as `spec_mul_loop`, with `+`/`-`
/// operators and `mul` operands.
pub open spec fn spec_add_loop(s: Seq<char>, acc: Seq<Tree>, i: int) -> Parsed
    decreases s.len() - i,
{
    match spec_peek(s, i) {
        Peeked::Bad { off } => Parsed::Fail { off },
        Peeked::Eof { ws, at } => Parsed::Done { kids: acc + ws, at },
        Peeked::Next { ws, at, kind } => {
            if is_add_op(kind) {
                let opend = token_at(s, at)->end;
                let op = Tree::Leaf { kind, text: s.subrange(at, opend) };
                match spec_mul(s, opend) {
                    Parsed::Fail { off } => Parsed::Fail { off },
                    Parsed::Done { kids: rkids, at: rat } => {
                        let node = Tree::Node {
                            kind: SyntaxKind::OPERATION,
                            children: acc + ws + seq![op] + rkids,
                        };
                        if i < rat <= s.len() {
                            spec_add_loop(s, seq![node], rat)
                        } else {
                            // never reached: an operand ends past its operator
                            Parsed::Fail { off: i }
                        }
                    },
                }
            } else {
                Parsed::Done { kids: acc + ws, at }
            }
        },
    }
}

/// The `add` level: one `mul`, then the `+`/`-` loop.
pub open spec fn spec_add(s: Seq<char>, i: int) -> Parsed {
    match spec_mul(s, i) {
        Parsed::Fail { off } => Parsed::Fail { off },
        Parsed::Done { kids, at } => spec_add_loop(s, kids, at),
    }
}

/// The whole parse, started at position `i`: the elements of one `add`
/// production under a root node. Trailing input past the produced
/// expression is left unread.
pub open spec fn spec_parse_at(s: Seq<char>, i: int) -> Result<Tree, int> {
    match spec_add(s, i) {
        Parsed::Fail { off } => Err(off),
        Parsed::Done { kids, at } => Ok(Tree::Node { kind: SyntaxKind::ROOT, children: kids }),
    }
}

/// The whole parse of `s` from its start.
pub open spec fn spec_parse(s: Seq<char>) -> Result<Tree, int> {
    spec_parse_at(s, 0)
}

/// How far the parse of `s` read: the stop position on success, the
/// failing offset otherwise.
pub open spec fn spec_consumed(s: Seq<char>) -> int {
    match spec_add(s, 0) {
        Parsed::Done { at, .. } => at,
        Parsed::Fail { off } => off,
    }
}

/// Peeking stays inside the input, stops at a genuine token boundary, and
/// the whitespace it consumes is exactly the text it moved over.
pub proof fn lemma_spec_peek(s: Seq<char>, i: int)
    requires
        0 <= i <= s.len(),
    ensures
        match spec_peek(s, i) {
            Peeked::Eof { ws, at } => {
                &&& i <= at <= s.len()
                &&& token_at(s, at) is End
                &&& forest_text(ws) == s.subrange(i, at)
            },
            Peeked::Bad { off } => i <= off < s.len(),
            Peeked::Next { ws, at, kind } => {
                &&& i <= at <= s.len()
                &&& token_at(s, at) matches TokenStep::Tok { kind: k2, end } && k2 == kind
                    && kind != SyntaxKind::WHITESPACE && at < end <= s.len()
                &&& forest_text(ws) == s.subrange(i, at)
            },
        },
    decreases s.len() - i,
{
    match token_at(s, i) {
        TokenStep::End => {
            assert(forest_text(Seq::<Tree>::empty()) =~= s.subrange(i, i));
        },
        TokenStep::Unrecognized => {},
        TokenStep::Tok { kind, end } => {
            lemma_token_at_bounds(s, i);
            if kind == SyntaxKind::WHITESPACE {
                lemma_spec_peek(s, end);
                let leaf = Tree::Leaf { kind: SyntaxKind::WHITESPACE, text: s.subrange(i, end) };
                match spec_peek(s, end) {
                    Peeked::Eof { ws, at } => {
                        lemma_forest_text_concat(seq![leaf], ws);
                        lemma_forest_text_singleton(leaf);
                        assert(s.subrange(i, end) + s.subrange(end, at) =~= s.subrange(i, at));
                    },
                    Peeked::Bad { .. } => {},
                    Peeked::Next { ws, at, .. } => {
                        lemma_forest_text_concat(seq![leaf], ws);
                        lemma_forest_text_singleton(leaf);
                        assert(s.subrange(i, end) + s.subrange(end, at) =~= s.subrange(i, at));
                    },
                }
            } else {
                assert(forest_text(Seq::<Tree>::empty()) =~= s.subrange(i, i));
                lemma_token_at_bounds(s, i);
            }
        },
    }
}

/// A `val` production stays inside the input and appends exactly the text
/// it moved over.
pub proof fn lemma_spec_val(s: Seq<char>, i: int)
    requires
        0 <= i <= s.len(),
    ensures
        match spec_val(s, i) {
            Parsed::Done { kids, at } => {
                &&& i <= at <= s.len()
                &&& forest_text(kids) == s.subrange(i, at)
            },
            Parsed::Fail { off } => i <= off < s.len(),
        },
{
    lemma_spec_peek(s, i);
    match spec_peek(s, i) {
        Peeked::Bad { .. } => {},
        Peeked::Eof { ws, at } => {
            let err = Tree::Node { kind: SyntaxKind::ERROR, children: seq![] };
            lemma_forest_text_concat(ws, seq![err]);
            lemma_forest_text_singleton(err);
            assert(tree_text(err) =~= Seq::<char>::empty());
            assert(forest_text(ws + seq![err]) =~= s.subrange(i, at));
        },
        Peeked::Next { ws, at, kind } => {
            let end = token_at(s, at)->end;
            let text = s.subrange(at, end);
            if kind == SyntaxKind::NUMBER {
                let leaf = Tree::Leaf { kind, text };
                lemma_forest_text_concat(ws, seq![leaf]);
                lemma_forest_text_singleton(leaf);
                assert(s.subrange(i, at) + s.subrange(at, end) =~= s.subrange(i, end));
            } else {
                let leaf = Tree::Leaf { kind, text };
                let err = Tree::Node { kind: SyntaxKind::ERROR, children: seq![leaf] };
                lemma_forest_text_concat(ws, seq![err]);
                lemma_forest_text_singleton(err);
                lemma_forest_text_singleton(leaf);
                assert(tree_text(err) == forest_text(seq![leaf]));
                assert(s.subrange(i, at) + s.subrange(at, end) =~= s.subrange(i, end));
            }
        },
    }
}

/// The `mul` operator loop stays inside the input, never moves backwards,
/// and appends exactly the text it moved over.
pub proof fn lemma_spec_mul_loop(s: Seq<char>, acc: Seq<Tree>, i: int)
    requires
        0 <= i <= s.len(),
    ensures
        match spec_mul_loop(s, acc, i) {
            Parsed::Done { kids, at } => {
                &&& i <= at <= s.len()
                &&& forest_text(kids) == forest_text(acc) + s.subrange(i, at)
            },
            Parsed::Fail { off } => i <= off < s.len(),
        },
    decreases s.len() - i,
{
    lemma_spec_peek(s, i);
    match spec_peek(s, i) {
        Peeked::Bad { .. } => {},
        Peeked::Eof { ws, at } => {
            lemma_forest_text_concat(acc, ws);
        },
        Peeked::Next { ws, at, kind } => {
            if is_mul_op(kind) {
                let opend = token_at(s, at)->end;
                let op = Tree::Leaf { kind, text: s.subrange(at, opend) };
                lemma_spec_val(s, opend);
                match spec_val(s, opend) {
                    Parsed::Fail { .. } => {},
                    Parsed::Done { kids: rkids, at: rat } => {
                        let node = Tree::Node {
                            kind: SyntaxKind::OPERATION,
                            children: acc + ws + seq![op] + rkids,
                        };
                        lemma_spec_mul_loop(s, seq![node], rat);
                        lemma_forest_text_concat(acc + ws + seq![op], rkids);
                        lemma_forest_text_concat(acc + ws, seq![op]);
                        lemma_forest_text_concat(acc, ws);
                        lemma_forest_text_singleton(op);
                        lemma_forest_text_singleton(node);
                        assert(forest_text(acc) + s.subrange(i, at) + s.subrange(at, opend)
                            + s.subrange(opend, rat) =~= forest_text(acc) + s.subrange(i, rat));
                        assert(tree_text(node) == forest_text(acc + ws + seq![op] + rkids));
                        match spec_mul_loop(s, seq![node], rat) {
                            Parsed::Fail { .. } => {},
                            Parsed::Done { kids, at: fat } => {
                                assert(forest_text(kids) == forest_text(seq![node])
                                    + s.subrange(rat, fat));
                                assert(forest_text(acc) + s.subrange(i, rat)
                                    + s.subrange(rat, fat) =~= forest_text(acc)
                                    + s.subrange(i, fat));
                            },
                        }
                    },
                }
            } else {
                lemma_forest_text_concat(acc, ws);
            }
        },
    }
}

/// The `mul` level stays inside the input and appends exactly the text it
/// moved over.
pub proof fn lemma_spec_mul(s: Seq<char>, i: int)
    requires
        0 <= i <= s.len(),
    ensures
        match spec_mul(s, i) {
            Parsed::Done { kids, at } => {
                &&& i <= at <= s.len()
                &&& forest_text(kids) == s.subrange(i, at)
            },
            Parsed::Fail { off } => i <= off < s.len(),
        },
{
    lemma_spec_val(s, i);
    match spec_val(s, i) {
        Parsed::Fail { .. } => {},
        Parsed::Done { kids, at } => {
            lemma_spec_mul_loop(s, kids, at);
            match spec_mul_loop(s, kids, at) {
                Parsed::Fail { .. } => {},
                Parsed::Done { kids: fk, at: fat } => {
                    assert(s.subrange(i, at) + s.subrange(at, fat) =~= s.subrange(i, fat));
                },
            }
        },
    }
}

/// The `add` operator loop stays inside the input, never moves backwards,
/// and appends exactly the text it moved over.
pub proof fn lemma_spec_add_loop(s: Seq<char>, acc: Seq<Tree>, i: int)
    requires
        0 <= i <= s.len(),
    ensures
        match spec_add_loop(s, acc, i) {
            Parsed::Done { kids, at } => {
                &&& i <= at <= s.len()
                &&& forest_text(kids) == forest_text(acc) + s.subrange(i, at)
            },
            Parsed::Fail { off } => i <= off < s.len(),
        },
    decreases s.len() - i,
{
    lemma_spec_peek(s, i);
    match spec_peek(s, i) {
        Peeked::Bad { .. } => {},
        Peeked::Eof { ws, at } => {
            lemma_forest_text_concat(acc, ws);
        },
        Peeked::Next { ws, at, kind } => {
            if is_add_op(kind) {
                let opend = token_at(s, at)->end;
                let op = Tree::Leaf { kind, text: s.subrange(at, opend) };
                lemma_spec_mul(s, opend);
                match spec_mul(s, opend) {
                    Parsed::Fail { .. } => {},
                    Parsed::Done { kids: rkids, at: rat } => {
                        let node = Tree::Node {
                            kind: SyntaxKind::OPERATION,
                            children: acc + ws + seq![op] + rkids,
                        };
                        lemma_spec_add_loop(s, seq![node], rat);
                        lemma_forest_text_concat(acc + ws + seq![op], rkids);
                        lemma_forest_text_concat(acc + ws, seq![op]);
                        lemma_forest_text_concat(acc, ws);
                        lemma_forest_text_singleton(op);
                        lemma_forest_text_singleton(node);
                        assert(forest_text(acc) + s.subrange(i, at) + s.subrange(at, opend)
                            + s.subrange(opend, rat) =~= forest_text(acc) + s.subrange(i, rat));
                        assert(tree_text(node) == forest_text(acc + ws + seq![op] + rkids));
                        match spec_add_loop(s, seq![node], rat) {
                            Parsed::Fail { .. } => {},
                            Parsed::Done { kids, at: fat } => {
                                assert(forest_text(kids) == forest_text(seq![node])
                                    + s.subrange(rat, fat));
                                assert(forest_text(acc) + s.subrange(i, rat)
                                    + s.subrange(rat, fat) =~= forest_text(acc)
                                    + s.subrange(i, fat));
                            },
                        }
                    },
                }
            } else {
                lemma_forest_text_concat(acc, ws);
            }
        },
    }
}

/// The `add` level stays inside the input and appends exactly the text it
/// moved over.
pub proof fn lemma_spec_add(s: Seq<char>, i: int)
    requires
        0 <= i <= s.len(),
    ensures
        match spec_add(s, i) {
            Parsed::Done { kids, at } => {
                &&& i <= at <= s.len()
                &&& forest_text(kids) == s.subrange(i, at)
            },
            Parsed::Fail { off } => i <= off < s.len(),
        },
{
    lemma_spec_mul(s, i);
    match spec_mul(s, i) {
        Parsed::Fail { .. } => {},
        Parsed::Done { kids, at } => {
            lemma_spec_add_loop(s, kids, at);
            match spec_add_loop(s, kids, at) {
                Parsed::Fail { .. } => {},
                Parsed::Done { kids: fk, at: fat } => {
                    assert(s.subrange(i, at) + s.subrange(at, fat) =~= s.subrange(i, fat));
                },
            }
        },
    }
}

/// The two precedence levels of the grammar, used to dispatch the shared
/// operator-loop shape onto its operator set and operand production.
#[derive(Clone, Copy, Debug)]
pub enum Level {
    Mul,
    Add,
}

/// Whether `k` is an operator of the given level.
pub open spec fn level_op(level: Level, k: SyntaxKind) -> bool {
    match level {
        Level::Mul => is_mul_op(k),
        Level::Add => is_add_op(k),
    }
}

/// The operand production one level tighter than `level`.
pub open spec fn spec_operand(level: Level, s: Seq<char>, i: int) -> Parsed {
    match level {
        Level::Mul => spec_val(s, i),
        Level::Add => spec_mul(s, i),
    }
}

/// The operator loop of `level`.
pub open spec fn spec_level_loop(level: Level, s: Seq<char>, acc: Seq<Tree>, i: int) -> Parsed {
    match level {
        Level::Mul => spec_mul_loop(s, acc, i),
        Level::Add => spec_add_loop(s, acc, i),
    }
}

/// The whole production of `level`.
pub open spec fn spec_level(level: Level, s: Seq<char>, i: int) -> Parsed {
    match level {
        Level::Mul => spec_mul(s, i),
        Level::Add => spec_add(s, i),
    }
}

/// Rank of a level: tighter levels recurse into nothing but `val`.
pub open spec fn level_rank(level: Level) -> int {
    match level {
        Level::Mul => 0,
        Level::Add => 1,
    }
}

/// Dispatch of the operand bounds/text lemma.
proof fn lemma_spec_operand(level: Level, s: Seq<char>, i: int)
    requires
        0 <= i <= s.len(),
    ensures
        match spec_operand(level, s, i) {
            Parsed::Done { kids, at } => {
                &&& i <= at <= s.len()
                &&& forest_text(kids) == s.subrange(i, at)
            },
            Parsed::Fail { off } => i <= off < s.len(),
        },
{
    match level {
        Level::Mul => lemma_spec_val(s, i),
        Level::Add => lemma_spec_mul(s, i),
    }
}

/// Dispatch of the operator-loop bounds/text lemma.
proof fn lemma_spec_level_loop(level: Level, s: Seq<char>, acc: Seq<Tree>, i: int)
    requires
        0 <= i <= s.len(),
    ensures
        match spec_level_loop(level, s, acc, i) {
            Parsed::Done { kids, at } => {
                &&& i <= at <= s.len()
                &&& forest_text(kids) == forest_text(acc) + s.subrange(i, at)
            },
            Parsed::Fail { off } => i <= off < s.len(),
        },
{
    match level {
        Level::Mul => lemma_spec_mul_loop(s, acc, i),
        Level::Add => lemma_spec_add_loop(s, acc, i),
    }
}

/// Prepending nothing changes nothing.
proof fn lemma_peek_prepend_empty(p: Peeked)
    ensures
        peek_prepend(Seq::<Tree>::empty(), p) == p,
{
    match p {
        Peeked::Eof { ws, at } => {
            assert(Seq::<Tree>::empty() + ws =~= ws);
        },
        Peeked::Bad { .. } => {},
        Peeked::Next { ws, at, kind } => {
            assert(Seq::<Tree>::empty() + ws =~= ws);
        },
    }
}

/// Prepending leaf by leaf composes.
proof fn lemma_peek_prepend_push(w: Seq<Tree>, l: Tree, p: Peeked)
    ensures
        peek_prepend(w.push(l), p) == peek_prepend(w, peek_prepend(seq![l], p)),
{
    match p {
        Peeked::Eof { ws, at } => {
            assert(w.push(l) + ws =~= w + (seq![l] + ws));
        },
        Peeked::Bad { .. } => {},
        Peeked::Next { ws, at, kind } => {
            assert(w.push(l) + ws =~= w + (seq![l] + ws));
        },
    }
}

/// Text bookkeeping for one wrap step of an operator loop: the elements
/// gathered since the level's mark, the whitespace and operator just
/// consumed and the right operand together carry exactly the text between
/// the mark and the operand's end, both as leaf text and as token text of
/// their serialization.
proof fn lemma_step_text(
    s: Seq<char>,
    start: int,
    i: int,
    base: Seq<Ev>,
    kids: Seq<Tree>,
    ws: Seq<Tree>,
    at: int,
    kind: SyntaxKind,
    opend: int,
    rkids: Seq<Tree>,
    rat: int,
)
    requires
        0 <= start <= i <= at <= opend <= rat <= s.len(),
        forest_text(kids) == s.subrange(start, i),
        forest_text(ws) == s.subrange(i, at),
        forest_text(rkids) == s.subrange(opend, rat),
    ensures
        log_text_len(base + seq![ev_start(SyntaxKind::OPERATION)] + forest_events((kids + ws)
            + seq![Tree::Leaf { kind, text: s.subrange(at, opend) }])) == log_text_len(base) + (
        opend - start),
        log_text_len(base + seq![ev_start(SyntaxKind::OPERATION)] + forest_events((kids + ws)
            + seq![Tree::Leaf { kind, text: s.subrange(at, opend) }] + rkids)) == log_text_len(
            base,
        ) + (rat - start),
        forest_text(seq![Tree::Node { kind: SyntaxKind::OPERATION, children: (kids + ws) + seq![
            Tree::Leaf { kind, text: s.subrange(at, opend) }] + rkids }]) == s.subrange(start, rat),
{
    let op = Tree::Leaf { kind, text: s.subrange(at, opend) };
    let kids2 = kids + ws;
    let children = kids2 + seq![op] + rkids;
    let node = Tree::Node { kind: SyntaxKind::OPERATION, children };
    lemma_forest_text_concat(kids, ws);
    assert(s.subrange(start, i) + s.subrange(i, at) =~= s.subrange(start, at));
    lemma_forest_text_concat(kids2, seq![op]);
    lemma_forest_text_singleton(op);
    assert(s.subrange(start, at) + s.subrange(at, opend) =~= s.subrange(start, opend));
    lemma_forest_text_concat(kids2 + seq![op], rkids);
    assert(s.subrange(start, opend) + s.subrange(opend, rat) =~= s.subrange(start, rat));
    lemma_forest_text_singleton(node);
    lemma_log_text_len_singleton(ev_start(SyntaxKind::OPERATION));
    lemma_forest_events_text_len(kids2 + seq![op]);
    lemma_forest_events_text_len(children);
    lemma_log_text_len_concat(base, seq![ev_start(SyntaxKind::OPERATION)]);
    lemma_log_text_len_concat(base + seq![ev_start(SyntaxKind::OPERATION)],
        forest_events(kids2 + seq![op]));
    lemma_log_text_len_concat(base + seq![ev_start(SyntaxKind::OPERATION)],
        forest_events(children));
}

/// The parser: a one-token peek over the tokenizer, and the builder the
/// tree grows in.
pub struct Parser<'a> {
    pub builder: rowan::GreenNodeBuilder<'static>,
    pub tokens: Tokenizer<'a>,
    pub peeked: Option<(SyntaxKind, String)>,
}

impl<'a> Parser<'a> {
    /// The input being parsed.
    pub open spec fn src(self) -> Seq<char> {
        self.tokens.input@
    }

    /// The parser's logical position: the start of the buffered token if
    /// one is held, the tokenizer's cursor otherwise.
    pub open spec fn cur(self) -> int {
        match self.peeked {
            Some(t) => self.tokens.pos - t.1@.len(),
            None => self.tokens.pos as int,
        }
    }

    /// Room within the CST layer's size limit: the builder measures text
    /// in 32-bit sizes, so the token text already recorded plus everything
    /// the rest of the input could still add must stay below 2^32 bytes
    /// (four per character at most).
    pub open spec fn fits_text_limit(self) -> bool {
        4 * (log_text_len(builder_log(self.builder)) + self.src().len() - self.cur())
            < 0x1_0000_0000
    }

    /// The parser's invariant: the cursor is inside the input, and a
    /// buffered token is a genuine non-whitespace token read at the
    /// logical position.
    pub open spec fn wf(self) -> bool {
        &&& self.tokens.wf()
        &&& match self.peeked {
            Some(t) => {
                &&& token_at(self.src(), self.cur()) == TokenStep::Tok {
                    kind: t.0,
                    end: self.tokens.pos as int,
                }
                &&& t.1@ == self.src().subrange(self.cur(), self.tokens.pos as int)
                &&& t.0 != SyntaxKind::WHITESPACE
            },
            None => true,
        }
    }

    /// A parser over `tokens`, with an empty builder and nothing buffered.
    pub fn new(tokens: Tokenizer<'a>) -> (p: Parser<'a>)
        requires
            tokens.wf(),
        ensures
            p.wf(),
            p.tokens == tokens,
            p.peeked is None,
            builder_log(p.builder) == Seq::<Ev>::empty(),
    {
        Parser { builder: builder_new(), tokens, peeked: None }
    }

    /// Consumes whitespace tokens into the builder as leaves, then returns
    /// the kind of the next token without consuming it (buffering it), or
    /// `None` at end of input, or the offset of an unrecognized character.
    fn peek(&mut self) -> (r: Result<Option<SyntaxKind>, TokenizeError>)
        requires
            old(self).wf(),
        ensures
            final(self).tokens.input == old(self).tokens.input,
            match spec_peek(old(self).src(), old(self).cur()) {
                Peeked::Bad { off } => r == Result::<Option<SyntaxKind>, TokenizeError>::Err(
                    TokenizeError::UnrecognizedByte { offset: off as usize },
                ),
                Peeked::Eof { ws, at } => {
                    &&& final(self).wf()
                    &&& r == Result::<Option<SyntaxKind>, TokenizeError>::Ok(None)
                    &&& final(self).cur() == at
                    &&& final(self).peeked is None
                    &&& builder_log(final(self).builder) == builder_log(old(self).builder)
                        + forest_events(ws)
                },
                Peeked::Next { ws, at, kind } => {
                    &&& final(self).wf()
                    &&& r == Result::<Option<SyntaxKind>, TokenizeError>::Ok(Some(kind))
                    &&& final(self).cur() == at
                    &&& final(self).peeked is Some
                    &&& builder_log(final(self).builder) == builder_log(old(self).builder)
                        + forest_events(ws)
                },
            },
    {
        let ghost s = self.src();
        if let Some((k, _)) = &self.peeked {
            proof {
                lemma_forest_events_empty();
                assert(builder_log(self.builder) + forest_events(Seq::<Tree>::empty())
                    =~= builder_log(self.builder));
            }
            return Ok(Some(*k));
        }
        let ghost base = builder_log(self.builder);
        let ghost mut ws_acc: Seq<Tree> = Seq::<Tree>::empty();
        proof {
            lemma_peek_prepend_empty(spec_peek(s, self.cur()));
        }
        loop
            invariant
                self.wf(),
                self.peeked is None,
                self.tokens.input == old(self).tokens.input,
                self.src() == s,
                s == old(self).src(),
                base == builder_log(old(self).builder),
                spec_peek(s, old(self).cur()) == peek_prepend(ws_acc, spec_peek(s, self.cur())),
                builder_log(self.builder) == base + forest_events(ws_acc),
            decreases s.len() - self.tokens.pos,
        {
            let ghost i = self.cur();
            let ghost pre = builder_log(self.builder);
            match self.tokens.next() {
                Err(e) => {
                    return Err(e);
                },
                Ok(None) => {
                    proof {
                        assert(spec_peek(s, i) == Peeked::Eof { ws: Seq::<Tree>::empty(), at: i });
                        assert(ws_acc + Seq::<Tree>::empty() =~= ws_acc);
                    }
                    return Ok(None);
                },
                Ok(Some((k, text))) => {
                    proof {
                        lemma_token_at_bounds(s, i);
                    }
                    if k == SyntaxKind::WHITESPACE {
                        let ghost end = self.tokens.pos as int;
                        let ghost leaf = Tree::Leaf {
                            kind: SyntaxKind::WHITESPACE,
                            text: s.subrange(i, end),
                        };
                        builder_token(&mut self.builder, k, &text);
                        proof {
                            assert(spec_peek(s, i) == peek_prepend(seq![leaf], spec_peek(s, end)));
                            lemma_peek_prepend_push(ws_acc, leaf, spec_peek(s, end));
                            lemma_forest_events_push(ws_acc, leaf);
                            lemma_forest_events_singleton(leaf);
                            assert(builder_log(self.builder)
                                =~= base + forest_events(ws_acc.push(leaf)));
                            ws_acc = ws_acc.push(leaf);
                        }
                    } else {
                        proof {
                            assert(spec_peek(s, i) == Peeked::Next {
                                ws: Seq::<Tree>::empty(),
                                at: i,
                                kind: k,
                            });
                            assert(ws_acc + Seq::<Tree>::empty() =~= ws_acc);
                        }
                        self.peeked = Some((k, text));
                        return Ok(Some(k));
                    }
                },
            }
        }
    }

    /// Consumes the buffered token into the builder, or does nothing at
    /// end of input.
    fn bump(&mut self)
        requires
            old(self).wf(),
            old(self).peeked is Some || token_at(old(self).src(), old(self).cur()) is End,
        ensures
            final(self).wf(),
            final(self).peeked is None,
            final(self).tokens == old(self).tokens,
            match old(self).peeked {
                Some(t) => {
                    &&& builder_log(final(self).builder) == builder_log(old(self).builder).push(
                        ev_token(t.0, t.1@),
                    )
                    &&& final(self).cur() == old(self).tokens.pos
                },
                None => {
                    &&& builder_log(final(self).builder) == builder_log(old(self).builder)
                    &&& final(self).cur() == old(self).cur()
                },
            },
    {
        let mut taken: Option<(SyntaxKind, String)> = None;
        core::mem::swap(&mut taken, &mut self.peeked);
        match taken {
            Some((k, text)) => {
                builder_token(&mut self.builder, k, &text);
            },
            None => {},
        }
    }
}

impl<'a> Parser<'a> {
    /// The `val` production: consume a number leaf, or wrap the offending
    /// token (nothing, at end of input) in an error node.
    fn parse_val(&mut self) -> (r: Result<(), TokenizeError>)
        requires
            old(self).wf(),
            old(self).fits_text_limit(),
        ensures
            final(self).tokens.input == old(self).tokens.input,
            match spec_val(old(self).src(), old(self).cur()) {
                Parsed::Fail { off } => r == Result::<(), TokenizeError>::Err(
                    TokenizeError::UnrecognizedByte { offset: off as usize },
                ),
                Parsed::Done { kids, at } => {
                    &&& final(self).wf()
                    &&& r == Result::<(), TokenizeError>::Ok(())
                    &&& final(self).cur() == at
                    &&& builder_log(final(self).builder) == builder_log(old(self).builder)
                        + forest_events(kids)
                },
            },
    {
        let ghost s = self.src();
        let ghost start = self.cur();
        let ghost base = builder_log(self.builder);
        proof {
            lemma_spec_peek(s, start);
        }
        let pk = match self.peek() {
            Err(e) => {
                return Err(e);
            },
            Ok(p) => p,
        };
        let ghost mid = builder_log(self.builder);
        match pk {
            Some(SyntaxKind::NUMBER) => {
                let ghost at = self.cur();
                let ghost end = token_at(s, at)->end;
                let ghost leaf = Tree::Leaf { kind: SyntaxKind::NUMBER, text: s.subrange(at, end) };
                self.bump();
                proof {
                    let ws = spec_peek(s, start)->Next_ws;
                    lemma_forest_events_push(ws, leaf);
                    lemma_forest_events_singleton(leaf);
                    assert(ws.push(leaf) =~= ws + seq![leaf]);
                    assert(builder_log(self.builder) =~= base + forest_events(ws + seq![leaf]));
                }
            },
            _ => {
                let ghost at = self.cur();
                builder_start_node(&mut self.builder, SyntaxKind::ERROR);
                let ghost opened = builder_log(self.builder);
                self.bump();
                proof {
                    match spec_peek(s, start) {
                        Peeked::Eof { .. } => {
                            assert(builder_log(self.builder) == opened + forest_events(
                                Seq::<Tree>::empty())) by {
                                assert(opened + forest_events(Seq::<Tree>::empty()) =~= opened);
                            }
                            assert(builder_log(self.builder) == mid + seq![ev_start(
                                SyntaxKind::ERROR)] + forest_events(Seq::<Tree>::empty())) by {
                                assert(mid.push(ev_start(SyntaxKind::ERROR)) =~= mid + seq![
                                    ev_start(SyntaxKind::ERROR)] + forest_events(
                                    Seq::<Tree>::empty()));
                            }
                        },
                        Peeked::Next { at: tpos, kind, .. } => {
                            let end = token_at(s, tpos)->end;
                            let leaf = Tree::Leaf { kind, text: s.subrange(tpos, end) };
                            lemma_forest_events_singleton(leaf);
                            assert(builder_log(self.builder) == mid + seq![ev_start(
                                SyntaxKind::ERROR)] + forest_events(seq![leaf])) by {
                                assert(mid.push(ev_start(SyntaxKind::ERROR)).push(ev_token(kind,
                                    s.subrange(tpos, end))) =~= mid + seq![ev_start(
                                    SyntaxKind::ERROR)] + forest_events(seq![leaf]));
                            }
                        },
                        Peeked::Bad { .. } => {
                            assert(false);
                        },
                    }
                    match spec_peek(s, start) {
                        Peeked::Eof { ws, .. } => {
                            lemma_forest_events_text_len(ws);
                            lemma_log_text_len_concat(base, forest_events(ws));
                            lemma_log_text_len_singleton(ev_start(SyntaxKind::ERROR));
                            lemma_log_text_len_concat(mid, seq![ev_start(SyntaxKind::ERROR)]);
                            lemma_log_text_len_concat(mid + seq![ev_start(SyntaxKind::ERROR)],
                                forest_events(Seq::<Tree>::empty()));
                        },
                        Peeked::Next { ws, at: tpos, kind } => {
                            let end = token_at(s, tpos)->end;
                            let leaf = Tree::Leaf { kind, text: s.subrange(tpos, end) };
                            lemma_forest_events_text_len(ws);
                            lemma_forest_events_text_len(seq![leaf]);
                            lemma_forest_text_singleton(leaf);
                            lemma_log_text_len_concat(base, forest_events(ws));
                            lemma_log_text_len_singleton(ev_start(SyntaxKind::ERROR));
                            lemma_log_text_len_concat(mid, seq![ev_start(SyntaxKind::ERROR)]);
                            lemma_log_text_len_concat(mid + seq![ev_start(SyntaxKind::ERROR)],
                                forest_events(seq![leaf]));
                        },
                        Peeked::Bad { .. } => {
                            assert(false);
                        },
                    }
                    assert(4 * log_text_len(builder_log(self.builder)) < 0x1_0000_0000);
                }
                builder_finish_node(&mut self.builder);
                proof {
                    match spec_peek(s, start) {
                        Peeked::Eof { ws, .. } => {
                            let err = Tree::Node { kind: SyntaxKind::ERROR, children: seq![] };
                            lemma_forest_events_concat(ws, seq![err]);
                            lemma_forest_events_singleton(err);
                            assert(events_of(err) =~= seq![ev_start(SyntaxKind::ERROR)]
                                + forest_events(Seq::<Tree>::empty()) + seq![ev_finish()]);
                            assert(builder_log(self.builder) =~= base + forest_events(
                                ws + seq![err]));
                        },
                        Peeked::Next { ws, at: tpos, kind } => {
                            let end = token_at(s, tpos)->end;
                            let leaf = Tree::Leaf { kind, text: s.subrange(tpos, end) };
                            let err = Tree::Node { kind: SyntaxKind::ERROR, children: seq![leaf] };
                            lemma_forest_events_concat(ws, seq![err]);
                            lemma_forest_events_singleton(err);
                            assert(events_of(err) =~= seq![ev_start(SyntaxKind::ERROR)]
                                + forest_events(seq![leaf]) + seq![ev_finish()]);
                            assert(builder_log(self.builder) =~= base + forest_events(
                                ws + seq![err]));
                        },
                        Peeked::Bad { .. } => {
                            assert(false);
                        },
                    }
                }
            },
        }
        Ok(())
    }

    /// One precedence level: a mark, one operand of the tighter level,
    /// then, while the level's operators follow, retroactive wrapping at
    /// the same mark.
    fn handle_operation(&mut self, level: Level) -> (r: Result<(), TokenizeError>)
        requires
            old(self).wf(),
            old(self).fits_text_limit(),
        ensures
            final(self).tokens.input == old(self).tokens.input,
            match spec_level(level, old(self).src(), old(self).cur()) {
                Parsed::Fail { off } => r == Result::<(), TokenizeError>::Err(
                    TokenizeError::UnrecognizedByte { offset: off as usize },
                ),
                Parsed::Done { kids, at } => {
                    &&& final(self).wf()
                    &&& r == Result::<(), TokenizeError>::Ok(())
                    &&& final(self).cur() == at
                    &&& builder_log(final(self).builder) == builder_log(old(self).builder)
                        + forest_events(kids)
                },
            },
        decreases level_rank(level), 1int,
    {
        let ghost s = self.src();
        let ghost start = self.cur();
        let ghost base = builder_log(self.builder);
        let m = builder_checkpoint(&self.builder);
        let r0 = match level {
            Level::Mul => self.parse_val(),
            Level::Add => self.parse_mul(),
        };
        if let Err(e) = r0 {
            return Err(e);
        }
        let ghost mut kids: Seq<Tree> = spec_operand(level, s, start)->Done_kids;
        proof {
            lemma_spec_operand(level, s, start);
            assert(spec_level(level, s, start) == spec_level_loop(level, s, kids, self.cur()));
        }
        loop
            invariant
                self.wf(),
                self.tokens.input == old(self).tokens.input,
                self.src() == s,
                s == old(self).src(),
                start == old(self).cur(),
                base == builder_log(old(self).builder),
                0 <= start <= self.cur() <= s.len(),
                m.captured() == base,
                m.pos() == base.len(),
                4 * (log_text_len(base) + s.len() - start) < 0x1_0000_0000,
                forest_text(kids) == s.subrange(start, self.cur()),
                builder_log(self.builder) == base + forest_events(kids),
                spec_level(level, s, start) == spec_level_loop(level, s, kids, self.cur()),
            decreases s.len() - self.cur(),
        {
            let ghost i = self.cur();
            proof {
                lemma_spec_peek(s, i);
            }
            let pk = match self.peek() {
                Err(e) => {
                    return Err(e);
                },
                Ok(p) => p,
            };
            let opk: SyntaxKind;
            match pk {
                None => {
                    proof {
                        let ws = spec_peek(s, i)->Eof_ws;
                        lemma_forest_events_concat(kids, ws);
                        assert(builder_log(self.builder) =~= base + forest_events(kids + ws));
                    }
                    return Ok(());
                },
                Some(k) => {
                    let hit = match level {
                        Level::Mul => k == SyntaxKind::MUL || k == SyntaxKind::DIV,
                        Level::Add => k == SyntaxKind::ADD || k == SyntaxKind::SUB,
                    };
                    if !hit {
                        proof {
                            let ws = spec_peek(s, i)->Next_ws;
                            lemma_forest_events_concat(kids, ws);
                            assert(builder_log(self.builder) =~= base + forest_events(kids + ws));
                        }
                        return Ok(());
                    }
                    opk = k;
                },
            }
            let ghost ws = spec_peek(s, i)->Next_ws;
            let ghost at = spec_peek(s, i)->Next_at;
            let ghost opend = token_at(s, at)->end;
            let ghost op = Tree::Leaf { kind: opk, text: s.subrange(at, opend) };
            let ghost kids2 = kids + ws;
            proof {
                lemma_forest_events_concat(kids, ws);
                assert(builder_log(self.builder) =~= base + forest_events(kids2));
                assert(builder_log(self.builder).subrange(m.pos(),
                    builder_log(self.builder).len() as int) =~= forest_events(kids2));
                assert(builder_log(self.builder).subrange(0, m.pos()) =~= base);
            }
            builder_start_node_at(&mut self.builder, &m, SyntaxKind::OPERATION);
            self.bump();
            proof {
                lemma_forest_events_concat(kids2, seq![op]);
                lemma_forest_events_singleton(op);
                assert(builder_log(self.builder) =~= base + seq![ev_start(SyntaxKind::OPERATION)]
                    + forest_events(kids2 + seq![op]));
            }
            let ghost mid = builder_log(self.builder);
            proof {
                assert(self.fits_text_limit()) by {
                    assert(forest_text(Seq::<Tree>::empty()) =~= s.subrange(opend, opend));
                    lemma_step_text(s, start, i, base, kids, ws, at, opk, opend,
                        Seq::<Tree>::empty(), opend);
                    assert(log_text_len(mid) == log_text_len(base) + (opend - start));
                }
            }
            let r1 = match level {
                Level::Mul => self.parse_val(),
                Level::Add => self.parse_mul(),
            };
            proof {
                lemma_spec_operand(level, s, opend);
            }
            if let Err(e) = r1 {
                return Err(e);
            }
            let ghost rkids = spec_operand(level, s, opend)->Done_kids;
            let ghost rat = spec_operand(level, s, opend)->Done_at;
            let ghost children = kids2 + seq![op] + rkids;
            let ghost node = Tree::Node { kind: SyntaxKind::OPERATION, children };
            proof {
                lemma_forest_events_concat(kids2 + seq![op], rkids);
                assert(builder_log(self.builder) =~= base + seq![ev_start(SyntaxKind::OPERATION)]
                    + forest_events(children));
                lemma_step_text(s, start, i, base, kids, ws, at, opk, opend, rkids, rat);
                assert(4 * log_text_len(builder_log(self.builder)) < 0x1_0000_0000);
            }
            builder_finish_node(&mut self.builder);
            proof {
                lemma_forest_events_singleton(node);
                assert(events_of(node) =~= seq![ev_start(SyntaxKind::OPERATION)]
                    + forest_events(children) + seq![ev_finish()]);
                assert(builder_log(self.builder) =~= base + forest_events(seq![node]));
                assert(spec_level_loop(level, s, kids, i) == spec_level_loop(level, s, seq![node],
                    rat));
                lemma_forest_text_singleton(node);
                assert(forest_text(seq![node]) == s.subrange(start, rat));
                kids = seq![node];
            }
        }
    }

    /// The `mul` level: `val (('*'|'/') val)*`.
    fn parse_mul(&mut self) -> (r: Result<(), TokenizeError>)
        requires
            old(self).wf(),
            old(self).fits_text_limit(),
        ensures
            final(self).tokens.input == old(self).tokens.input,
            match spec_mul(old(self).src(), old(self).cur()) {
                Parsed::Fail { off } => r == Result::<(), TokenizeError>::Err(
                    TokenizeError::UnrecognizedByte { offset: off as usize },
                ),
                Parsed::Done { kids, at } => {
                    &&& final(self).wf()
                    &&& r == Result::<(), TokenizeError>::Ok(())
                    &&& final(self).cur() == at
                    &&& builder_log(final(self).builder) == builder_log(old(self).builder)
                        + forest_events(kids)
                },
            },
        decreases 0int, 2int,
    {
        self.handle_operation(Level::Mul)
    }

    /// The `add` level: `mul (('+'|'-') mul)*`.
    fn parse_add(&mut self) -> (r: Result<(), TokenizeError>)
        requires
            old(self).wf(),
            old(self).fits_text_limit(),
        ensures
            final(self).tokens.input == old(self).tokens.input,
            match spec_add(old(self).src(), old(self).cur()) {
                Parsed::Fail { off } => r == Result::<(), TokenizeError>::Err(
                    TokenizeError::UnrecognizedByte { offset: off as usize },
                ),
                Parsed::Done { kids, at } => {
                    &&& final(self).wf()
                    &&& r == Result::<(), TokenizeError>::Ok(())
                    &&& final(self).cur() == at
                    &&& builder_log(final(self).builder) == builder_log(old(self).builder)
                        + forest_events(kids)
                },
            },
        decreases 1int, 2int,
    {
        self.handle_operation(Level::Add)
    }

    /// Parses one expression under a root node and returns the finished
    /// tree, or the offset of the first unrecognized character that the
    /// parse reached. Trailing input past the expression is left unread.
    /// The input must stay below a quarter of 2^32 characters: the CST
    /// layer measures text in 32-bit byte sizes.
    pub fn parse(self) -> (r: Result<rowan::GreenNode, TokenizeError>)
        requires
            self.wf(),
            self.peeked is None,
            builder_log(self.builder) == Seq::<Ev>::empty(),
            4 * self.src().len() < 0x1_0000_0000,
        ensures
            match spec_parse_at(self.src(), self.cur()) {
                Err(off) => r == Result::<rowan::GreenNode, TokenizeError>::Err(
                    TokenizeError::UnrecognizedByte { offset: off as usize },
                ),
                Ok(t) => r matches Ok(g) && green_log(g) == events_of(t),
            },
    {
        let ghost s = self.src();
        let ghost start = self.cur();
        let mut this = self;
        builder_start_node(&mut this.builder, SyntaxKind::ROOT);
        proof {
            lemma_log_text_len_push(Seq::<Ev>::empty(), ev_start(SyntaxKind::ROOT));
            assert(this.fits_text_limit());
        }
        let r0 = this.parse_add();
        if let Err(e) = r0 {
            return Err(e);
        }
        let ghost kids = spec_add(s, start)->Done_kids;
        proof {
            assert(builder_log(this.builder) == Seq::<Ev>::empty() + seq![ev_start(
                SyntaxKind::ROOT)] + forest_events(kids)) by {
                assert(Seq::<Ev>::empty().push(ev_start(SyntaxKind::ROOT)) + forest_events(kids)
                    =~= Seq::<Ev>::empty() + seq![ev_start(SyntaxKind::ROOT)] + forest_events(
                    kids));
            }
            lemma_spec_add(s, start);
            lemma_log_text_len_concat(Seq::<Ev>::empty(), seq![ev_start(SyntaxKind::ROOT)]);
            lemma_log_text_len_concat(Seq::<Ev>::empty() + seq![ev_start(SyntaxKind::ROOT)],
                forest_events(kids));
            lemma_log_text_len_singleton(ev_start(SyntaxKind::ROOT));
            lemma_forest_events_text_len(kids);
            assert(log_text_len(Seq::<Ev>::empty()) == 0);
            assert(4 * log_text_len(builder_log(this.builder)) < 0x1_0000_0000);
        }
        builder_finish_node(&mut this.builder);
        proof {
            let root = Tree::Node { kind: SyntaxKind::ROOT, children: kids };
            assert(events_of(root) =~= seq![ev_start(SyntaxKind::ROOT)] + forest_events(kids)
                + seq![ev_finish()]);
            assert(builder_log(this.builder) =~= events_of(root));
        }
        let g = builder_finish(this.builder);
        Ok(g)
    }
}

} // verus!
