//! The laws of the parser, stated over the mathematical model and proved
//! from the spec functions that the executable functions are verified
//! against.

use vstd::prelude::*;
use crate::syntax::SyntaxKind;
use crate::tokenizer::token_at;
use crate::tree::{Tree, tree_text};
use crate::parser::{Peeked, Parsed, spec_peek, spec_val, spec_mul_loop, spec_mul, spec_add_loop,
    spec_add, spec_parse, spec_consumed, is_mul_op, is_add_op, lemma_spec_add, lemma_spec_peek,
    lemma_spec_val, lemma_spec_mul};

verus! {

/// Losslessness: the leaf lexemes of a parsed tree, concatenated in
/// left-to-right order, are exactly the consumed prefix of the input; on
/// an input the parse reads to the end, they are exactly the input. On
/// failure the offending offset lies inside the input.
pub proof fn lemma_lossless(s: Seq<char>)
    ensures
        match spec_parse(s) {
            Ok(t) => {
                &&& 0 <= spec_consumed(s) <= s.len()
                &&& tree_text(t) == s.subrange(0, spec_consumed(s))
                &&& spec_consumed(s) == s.len() ==> tree_text(t) == s
            },
            Err(off) => 0 <= off < s.len(),
        },
{
    lemma_spec_add(s, 0);
    match spec_add(s, 0) {
        Parsed::Fail { .. } => {},
        Parsed::Done { kids, at } => {
            if at == s.len() {
                assert(s.subrange(0, s.len() as int) =~= s);
            }
        },
    }
}

/// A whitespace leaf: what the grammar treats as trivia.
pub open spec fn is_ws_leaf(t: Tree) -> bool {
    t matches Tree::Leaf { kind, .. } && kind == SyntaxKind::WHITESPACE
}

/// An atom: a value as produced by the `val` production — a number leaf,
/// or an error node holding at most one leaf.
pub open spec fn is_atom(t: Tree) -> bool {
    ||| (t matches Tree::Leaf { kind, .. } && kind == SyntaxKind::NUMBER)
    ||| (t matches Tree::Node { kind, children } && kind == SyntaxKind::ERROR && children.len()
        <= 1 && (forall|j: int| 0 <= j < children.len() ==> children[j] is Leaf))
}

/// All elements of `ch` other than positions `i`, `j` and `k` are
/// whitespace leaves.
pub open spec fn ws_except3(ch: Seq<Tree>, i: int, j: int, k: int) -> bool {
    forall|l: int| 0 <= l < ch.len() && l != i && l != j && l != k ==> is_ws_leaf(ch[l])
}

/// A well-formed expression at the `mul` level: an atom, or an operation
/// node whose children are — up to interspersed whitespace leaves — a
/// `mul`-level left operand, a `*` or `/` leaf, and an atom right operand.
/// That the right operand is an atom, never an operation, is what makes
/// same-level nesting left-associative.
pub open spec fn wf_mul(t: Tree) -> bool
    decreases t, 0int,
{
    ||| is_atom(t)
    ||| (t matches Tree::Node { kind, children } && kind == SyntaxKind::OPERATION
        && exists|i: int, j: int, k: int|
            {
                &&& 0 <= i < j < k < children.len()
                &&& ws_except3(children, i, j, k)
                &&& wf_mul(children[i])
                &&& children[j] matches Tree::Leaf { kind: opk, .. } && is_mul_op(opk)
                &&& is_atom(children[k])
            })
}

/// A well-formed expression at the `add` level: a `mul`-level expression,
/// or an operation node whose children are — up to whitespace — an
/// `add`-level left operand, a `+` or `-` leaf, and a `mul`-level right
/// operand. The right operand is never an `add`-level operation (left
/// associativity), and no `add`-level operation can sit below a `mul`
/// operator (precedence): a `mul` operand is an atom or a `mul` operation
/// only.
pub open spec fn wf_add(t: Tree) -> bool
    decreases t, 1int,
{
    ||| wf_mul(t)
    ||| (t matches Tree::Node { kind, children } && kind == SyntaxKind::OPERATION
        && exists|i: int, j: int, k: int|
            {
                &&& 0 <= i < j < k < children.len()
                &&& ws_except3(children, i, j, k)
                &&& wf_add(children[i])
                &&& children[j] matches Tree::Leaf { kind: opk, .. } && is_add_op(opk)
                &&& wf_mul(children[k])
            })
}

/// A forest holding exactly one expression: every element is a whitespace
/// leaf except one, which is a well-formed `add`-level expression (or,
/// when `tight` asks for the tighter level, a `mul`-level one).
pub open spec fn one_expr(ts: Seq<Tree>, tight: bool) -> bool {
    exists|i: int|
        {
            &&& 0 <= i < ts.len()
            &&& (forall|l: int| 0 <= l < ts.len() && l != i ==> is_ws_leaf(ts[l]))
            &&& if tight {
                wf_mul(ts[i])
            } else {
                wf_add(ts[i])
            }
        }
}

/// Everything peeking consumes is a whitespace leaf.
proof fn lemma_peek_ws_shape(s: Seq<char>, i: int)
    requires
        0 <= i <= s.len(),
    ensures
        match spec_peek(s, i) {
            Peeked::Eof { ws, .. } => forall|j: int| 0 <= j < ws.len() ==> is_ws_leaf(ws[j]),
            Peeked::Bad { .. } => true,
            Peeked::Next { ws, .. } => forall|j: int| 0 <= j < ws.len() ==> is_ws_leaf(ws[j]),
        },
    decreases s.len() - i,
{
    match token_at(s, i) {
        crate::tokenizer::TokenStep::Tok { kind, end } => {
            crate::tokenizer::lemma_token_at_bounds(s, i);
            if kind == SyntaxKind::WHITESPACE {
                lemma_peek_ws_shape(s, end);
            }
        },
        _ => {},
    }
}

/// The `val` production yields exactly one expression, an atom.
proof fn lemma_val_shape(s: Seq<char>, i: int)
    requires
        0 <= i <= s.len(),
    ensures
        spec_val(s, i) matches Parsed::Done { kids, .. } ==> one_expr(kids, true) && one_expr(
            kids,
            false,
        ) && (exists|x: int|
            0 <= x < kids.len() && is_atom(kids[x]) && (forall|l: int|
                0 <= l < kids.len() && l != x ==> is_ws_leaf(kids[l]))),
{
    lemma_peek_ws_shape(s, i);
    lemma_spec_peek(s, i);
    match spec_peek(s, i) {
        Peeked::Bad { .. } => {},
        Peeked::Eof { ws, at } => {
            let err = Tree::Node { kind: SyntaxKind::ERROR, children: seq![] };
            let kids = ws + seq![err];
            assert(is_atom(kids[ws.len() as int]));
        },
        Peeked::Next { ws, at, kind } => {
            let end = token_at(s, at)->end;
            let text = s.subrange(at, end);
            if kind == SyntaxKind::NUMBER {
                let kids = ws + seq![Tree::Leaf { kind, text }];
                assert(is_atom(kids[ws.len() as int]));
            } else {
                let leaf = Tree::Leaf { kind, text };
                let err = Tree::Node { kind: SyntaxKind::ERROR, children: seq![leaf] };
                let kids = ws + seq![err];
                assert((err->children)[0] is Leaf);
                assert(is_atom(kids[ws.len() as int]));
            }
        },
    }
}

/// The `mul` operator loop preserves the one-expression shape at the
/// `mul` level.
proof fn lemma_mul_loop_shape(s: Seq<char>, acc: Seq<Tree>, i: int)
    requires
        0 <= i <= s.len(),
        one_expr(acc, true),
    ensures
        spec_mul_loop(s, acc, i) matches Parsed::Done { kids, .. } ==> one_expr(kids, true),
    decreases s.len() - i,
{
    lemma_peek_ws_shape(s, i);
    lemma_spec_peek(s, i);
    match spec_peek(s, i) {
        Peeked::Bad { .. } => {},
        Peeked::Eof { ws, .. } => {
            let x = choose|x: int|
                0 <= x < acc.len() && wf_mul(acc[x]) && (forall|l: int|
                    0 <= l < acc.len() && l != x ==> is_ws_leaf(acc[l]));
            assert((acc + ws)[x] == acc[x]);
            assert(one_expr(acc + ws, true));
        },
        Peeked::Next { ws, at, kind } => {
            if is_mul_op(kind) {
                let opend = token_at(s, at)->end;
                let op = Tree::Leaf { kind, text: s.subrange(at, opend) };
                lemma_spec_val(s, opend);
                lemma_val_shape(s, opend);
                match spec_val(s, opend) {
                    Parsed::Fail { .. } => {},
                    Parsed::Done { kids: rkids, at: rat } => {
                        let ch = acc + ws + seq![op] + rkids;
                        let node = Tree::Node { kind: SyntaxKind::OPERATION, children: ch };
                        let x = choose|x: int|
                            0 <= x < acc.len() && wf_mul(acc[x]) && (forall|l: int|
                                0 <= l < acc.len() && l != x ==> is_ws_leaf(acc[l]));
                        let y = choose|y: int|
                            0 <= y < rkids.len() && is_atom(rkids[y]) && (forall|l: int|
                                0 <= l < rkids.len() && l != y ==> is_ws_leaf(rkids[l]));
                        let j = acc.len() + ws.len() as int;
                        let k = j + 1 + y;
                        assert(ch[x] == acc[x]);
                        assert(ch[j] == op);
                        assert(ch[k] == rkids[y]);
                        assert(ws_except3(ch, x, j, k));
                        assert(wf_mul(node));
                        assert(one_expr(seq![node], true)) by {
                            assert(seq![node][0] == node);
                        }
                        lemma_mul_loop_shape(s, seq![node], rat);
                    },
                }
            } else {
                let x = choose|x: int|
                    0 <= x < acc.len() && wf_mul(acc[x]) && (forall|l: int|
                        0 <= l < acc.len() && l != x ==> is_ws_leaf(acc[l]));
                assert((acc + ws)[x] == acc[x]);
                assert(one_expr(acc + ws, true));
            }
        },
    }
}

/// The `mul` level yields exactly one expression at the `mul` level.
proof fn lemma_mul_shape(s: Seq<char>, i: int)
    requires
        0 <= i <= s.len(),
    ensures
        spec_mul(s, i) matches Parsed::Done { kids, .. } ==> one_expr(kids, true),
{
    lemma_val_shape(s, i);
    lemma_spec_val(s, i);
    match spec_val(s, i) {
        Parsed::Fail { .. } => {},
        Parsed::Done { kids, at } => {
            lemma_mul_loop_shape(s, kids, at);
        },
    }
}

/// The `add` operator loop preserves the one-expression shape at the
/// `add` level.
proof fn lemma_add_loop_shape(s: Seq<char>, acc: Seq<Tree>, i: int)
    requires
        0 <= i <= s.len(),
        one_expr(acc, false),
    ensures
        spec_add_loop(s, acc, i) matches Parsed::Done { kids, .. } ==> one_expr(kids, false),
    decreases s.len() - i,
{
    lemma_peek_ws_shape(s, i);
    lemma_spec_peek(s, i);
    match spec_peek(s, i) {
        Peeked::Bad { .. } => {},
        Peeked::Eof { ws, .. } => {
            let x = choose|x: int|
                0 <= x < acc.len() && wf_add(acc[x]) && (forall|l: int|
                    0 <= l < acc.len() && l != x ==> is_ws_leaf(acc[l]));
            assert((acc + ws)[x] == acc[x]);
            assert(one_expr(acc + ws, false));
        },
        Peeked::Next { ws, at, kind } => {
            if is_add_op(kind) {
                let opend = token_at(s, at)->end;
                let op = Tree::Leaf { kind, text: s.subrange(at, opend) };
                lemma_spec_mul(s, opend);
                lemma_mul_shape(s, opend);
                match spec_mul(s, opend) {
                    Parsed::Fail { .. } => {},
                    Parsed::Done { kids: rkids, at: rat } => {
                        let ch = acc + ws + seq![op] + rkids;
                        let node = Tree::Node { kind: SyntaxKind::OPERATION, children: ch };
                        let x = choose|x: int|
                            0 <= x < acc.len() && wf_add(acc[x]) && (forall|l: int|
                                0 <= l < acc.len() && l != x ==> is_ws_leaf(acc[l]));
                        let y = choose|y: int|
                            0 <= y < rkids.len() && wf_mul(rkids[y]) && (forall|l: int|
                                0 <= l < rkids.len() && l != y ==> is_ws_leaf(rkids[l]));
                        let j = acc.len() + ws.len() as int;
                        let k = j + 1 + y;
                        assert(ch[x] == acc[x]);
                        assert(ch[j] == op);
                        assert(ch[k] == rkids[y]);
                        assert(ws_except3(ch, x, j, k));
                        assert(wf_add(node));
                        assert(one_expr(seq![node], false)) by {
                            assert(seq![node][0] == node);
                        }
                        lemma_add_loop_shape(s, seq![node], rat);
                    },
                }
            } else {
                let x = choose|x: int|
                    0 <= x < acc.len() && wf_add(acc[x]) && (forall|l: int|
                        0 <= l < acc.len() && l != x ==> is_ws_leaf(acc[l]));
                assert((acc + ws)[x] == acc[x]);
                assert(one_expr(acc + ws, false));
            }
        },
    }
}

/// Single root and well-formed shape: a parsed tree is one root node
/// whose children are whitespace leaves around exactly one well-formed
/// `add`-level expression. Well-formedness entails left-associative
/// nesting (the right operand of an operation is always of the tighter
/// shape, so equal-precedence chains nest to the left) and precedence
/// (no `+`/`-` operation can appear as an operand of a `*`/`/` one).
pub proof fn lemma_parse_shape(s: Seq<char>)
    ensures
        spec_parse(s) matches Ok(t) ==> {
            &&& t matches Tree::Node { kind, children } && kind == SyntaxKind::ROOT && one_expr(
                children,
                false,
            )
        },
{
    lemma_mul_shape(s, 0);
    lemma_spec_mul(s, 0);
    match spec_mul(s, 0) {
        Parsed::Fail { .. } => {},
        Parsed::Done { kids, at } => {
            proof_one_expr_widen(kids);
            lemma_add_loop_shape(s, kids, at);
        },
    }
}

/// The non-whitespace elements of a forest, in order.
pub open spec fn non_ws(ts: Seq<Tree>) -> Seq<Tree> {
    ts.filter(|t: Tree| !is_ws_leaf(t))
}

/// Filtering a forest of whitespace leaves leaves nothing.
proof fn lemma_filter_all_ws(ts: Seq<Tree>)
    requires
        forall|l: int| 0 <= l < ts.len() ==> is_ws_leaf(ts[l]),
    ensures
        non_ws(ts) == Seq::<Tree>::empty(),
    decreases ts.len(),
{
    reveal(Seq::filter);
    if ts.len() > 0 {
        lemma_filter_all_ws(ts.drop_last());
    }
}

/// Filtering a forest whose one non-whitespace element sits at `x` leaves
/// exactly that element.
proof fn lemma_filter_one(ts: Seq<Tree>, x: int)
    requires
        0 <= x < ts.len(),
        !is_ws_leaf(ts[x]),
        forall|l: int| 0 <= l < ts.len() && l != x ==> is_ws_leaf(ts[l]),
    ensures
        non_ws(ts) == seq![ts[x]],
    decreases ts.len(),
{
    reveal(Seq::filter);
    if x == ts.len() - 1 {
        lemma_filter_all_ws(ts.drop_last());
        assert(non_ws(ts) =~= seq![ts[x]]);
    } else {
        lemma_filter_one(ts.drop_last(), x);
        assert(ts.drop_last()[x] == ts[x]);
    }
}

/// Single root, in the filtered form: a parsed tree is one root node with
/// exactly one non-whitespace child, a well-formed expression; everything
/// else under the root is leading or trailing whitespace.
pub proof fn lemma_single_root(s: Seq<char>)
    ensures
        spec_parse(s) matches Ok(t) ==> {
            &&& t matches Tree::Node { kind, children } && kind == SyntaxKind::ROOT && non_ws(
                children,
            ).len() == 1 && wf_add(non_ws(children)[0])
        },
{
    lemma_parse_shape(s);
    match spec_parse(s) {
        Err(..) => {},
        Ok(t) => {
            let children = t->children;
            let x = choose|x: int|
                0 <= x < children.len() && wf_add(children[x]) && (forall|l: int|
                    0 <= l < children.len() && l != x ==> is_ws_leaf(children[l]));
            assert(!is_ws_leaf(children[x]));
            lemma_filter_one(children, x);
        },
    }
}

/// A `mul`-level expression forest is also an `add`-level one.
proof fn proof_one_expr_widen(ts: Seq<Tree>)
    requires
        one_expr(ts, true),
    ensures
        one_expr(ts, false),
{
    let x = choose|x: int|
        0 <= x < ts.len() && wf_mul(ts[x]) && (forall|l: int|
            0 <= l < ts.len() && l != x ==> is_ws_leaf(ts[l]));
    assert(wf_add(ts[x]));
    assert(one_expr(ts, false));
}

/// One entry of the non-whitespace token sequence: a token, or the point
/// where the tokenizer gets stuck on an unrecognized character.
pub ghost enum TokEntry {
    Tok { kind: SyntaxKind, text: Seq<char> },
    Stuck,
}

/// The sequence of non-whitespace tokens from position `i` on, ended
/// either by end of input or by a `Stuck` marker at the first
/// unrecognized character.
pub open spec fn nws_stream(s: Seq<char>, i: int) -> Seq<TokEntry>
    decreases s.len() - i,
{
    match spec_peek(s, i) {
        Peeked::Bad { .. } => seq![TokEntry::Stuck],
        Peeked::Eof { .. } => seq![],
        Peeked::Next { at, kind, .. } => {
            let end = token_at(s, at)->end;
            if i < end <= s.len() {
                seq![TokEntry::Tok { kind, text: s.subrange(at, end) }] + nws_stream(s, end)
            } else {
                // never reached: a peeked token ends past the peek start
                seq![TokEntry::Stuck]
            }
        },
    }
}

/// A tree with its whitespace leaves removed, recursively.
pub open spec fn strip_tree(t: Tree) -> Tree
    decreases t, 0int,
{
    match t {
        Tree::Leaf { .. } => t,
        Tree::Node { kind, children } => Tree::Node {
            kind,
            children: strip_forest_from(children, 0),
        },
    }
}

/// The stripped trees of `ts[i..]`, whitespace leaves dropped.
pub open spec fn strip_forest_from(ts: Seq<Tree>, i: int) -> Seq<Tree>
    decreases ts, ts.len() - i,
{
    if 0 <= i < ts.len() {
        if is_ws_leaf(ts[i]) {
            strip_forest_from(ts, i + 1)
        } else {
            seq![strip_tree(ts[i])] + strip_forest_from(ts, i + 1)
        }
    } else {
        seq![]
    }
}

/// A whole forest, stripped.
pub open spec fn strip_forest(ts: Seq<Tree>) -> Seq<Tree> {
    strip_forest_from(ts, 0)
}

/// Stripping the tail of a concatenation that lies wholly inside `extra`.
proof fn lemma_strip_shift_only(ts: Seq<Tree>, extra: Seq<Tree>, j: int)
    requires
        0 <= j <= extra.len(),
    ensures
        strip_forest_from(ts + extra, ts.len() + j) == strip_forest_from(extra, j),
    decreases extra.len() - j,
{
    let both = ts + extra;
    if j < extra.len() {
        lemma_strip_shift_only(ts, extra, j + 1);
        assert(both[ts.len() + j] == extra[j]);
        assert(strip_forest_from(both, ts.len() + j) =~= strip_forest_from(extra, j));
    } else {
        assert(strip_forest_from(both, ts.len() + j) =~= strip_forest_from(extra, j));
    }
}

/// Stripping distributes over forest concatenation.
proof fn lemma_strip_concat(a: Seq<Tree>, b: Seq<Tree>)
    ensures
        strip_forest(a + b) == strip_forest(a) + strip_forest(b),
{
    lemma_strip_concat_from(a, b, 0);
}

proof fn lemma_strip_concat_from(a: Seq<Tree>, b: Seq<Tree>, i: int)
    requires
        0 <= i <= a.len(),
    ensures
        strip_forest_from(a + b, i) == strip_forest_from(a, i) + strip_forest(b),
    decreases a.len() - i,
{
    let both = a + b;
    if i < a.len() {
        lemma_strip_concat_from(a, b, i + 1);
        assert(both[i] == a[i]);
        assert(strip_forest_from(both, i) =~= strip_forest_from(a, i) + strip_forest(b));
    } else {
        lemma_strip_shift_only(a, b, 0);
        assert(strip_forest_from(both, i) =~= strip_forest_from(a, i) + strip_forest(b));
    }
}

/// A forest of whitespace leaves strips to nothing.
proof fn lemma_strip_all_ws(ts: Seq<Tree>, i: int)
    requires
        0 <= i <= ts.len(),
        forall|l: int| 0 <= l < ts.len() ==> is_ws_leaf(ts[l]),
    ensures
        strip_forest_from(ts, i) == Seq::<Tree>::empty(),
    decreases ts.len() - i,
{
    if i < ts.len() {
        lemma_strip_all_ws(ts, i + 1);
    }
}

/// A one-tree forest strips to the stripped tree, or to nothing if the
/// tree is a whitespace leaf.
proof fn lemma_strip_singleton(t: Tree)
    ensures
        !is_ws_leaf(t) ==> strip_forest(seq![t]) == seq![strip_tree(t)],
        is_ws_leaf(t) ==> strip_forest(seq![t]) == Seq::<Tree>::empty(),
{
    assert(strip_forest_from(seq![t], 1) == Seq::<Tree>::empty());
    if !is_ws_leaf(t) {
        assert(strip_forest(seq![t]) =~= seq![strip_tree(t)]);
    }
}

/// Peeking lands on the head of the non-whitespace token stream, so the
/// stream does not change between a position and its peek target.
proof fn lemma_stream_at(s: Seq<char>, i: int)
    requires
        0 <= i <= s.len(),
    ensures
        match spec_peek(s, i) {
            Peeked::Eof { at, .. } => nws_stream(s, at) == nws_stream(s, i),
            Peeked::Bad { .. } => true,
            Peeked::Next { at, .. } => nws_stream(s, at) == nws_stream(s, i),
        },
{
    lemma_spec_peek(s, i);
    match spec_peek(s, i) {
        Peeked::Bad { .. } => {},
        Peeked::Eof { at, .. } => {
            assert(spec_peek(s, at) == Peeked::Eof { ws: Seq::<Tree>::empty(), at });
        },
        Peeked::Next { at, kind, .. } => {
            assert(spec_peek(s, at) == Peeked::Next { ws: Seq::<Tree>::empty(), at, kind });
        },
    }
}

/// Equal non-whitespace token streams peek alike: the same outcome shape,
/// the same token kind and text, and equal streams past the token.
proof fn lemma_peek_align(s: Seq<char>, i: int, s2: Seq<char>, i2: int)
    requires
        0 <= i <= s.len(),
        0 <= i2 <= s2.len(),
        nws_stream(s, i) == nws_stream(s2, i2),
    ensures
        match (spec_peek(s, i), spec_peek(s2, i2)) {
            (Peeked::Bad { .. }, Peeked::Bad { .. }) => true,
            (Peeked::Eof { .. }, Peeked::Eof { .. }) => true,
            (Peeked::Next { at, kind, .. }, Peeked::Next { at: at2, kind: kind2, .. }) => {
                &&& kind2 == kind
                &&& s2.subrange(at2, token_at(s2, at2)->end) == s.subrange(at, token_at(s, at)->end)
                &&& nws_stream(s, token_at(s, at)->end) == nws_stream(s2, token_at(s2, at2)->end)
            },
            _ => false,
        },
{
    lemma_spec_peek(s, i);
    lemma_spec_peek(s2, i2);
    match (spec_peek(s, i), spec_peek(s2, i2)) {
        (Peeked::Next { at, kind, .. }, Peeked::Next { at: at2, kind: kind2, .. }) => {
            let end = token_at(s, at)->end;
            let end2 = token_at(s2, at2)->end;
            let head = TokEntry::Tok { kind, text: s.subrange(at, end) };
            let head2 = TokEntry::Tok { kind: kind2, text: s2.subrange(at2, end2) };
            assert(nws_stream(s, i) == seq![head] + nws_stream(s, end));
            assert(nws_stream(s2, i2) == seq![head2] + nws_stream(s2, end2));
            assert((seq![head] + nws_stream(s, end))[0] == head);
            assert((seq![head2] + nws_stream(s2, end2))[0] == head2);
            assert(nws_stream(s, end) =~= nws_stream(s, i).subrange(1,
                nws_stream(s, i).len() as int));
            assert(nws_stream(s2, end2) =~= nws_stream(s2, i2).subrange(1,
                nws_stream(s2, i2).len() as int));
        },
        (Peeked::Next { at, kind, .. }, _) => {
            let end = token_at(s, at)->end;
            let head = TokEntry::Tok { kind, text: s.subrange(at, end) };
            assert(nws_stream(s, i) == seq![head] + nws_stream(s, end));
            assert((seq![head] + nws_stream(s, end))[0] == head);
        },
        (_, Peeked::Next { at: at2, kind: kind2, .. }) => {
            let end2 = token_at(s2, at2)->end;
            let head2 = TokEntry::Tok { kind: kind2, text: s2.subrange(at2, end2) };
            assert(nws_stream(s2, i2) == seq![head2] + nws_stream(s2, end2));
            assert((seq![head2] + nws_stream(s2, end2))[0] == head2);
        },
        _ => {},
    }
}

/// Equal streams give `val` productions with the same stripped shape and
/// equal streams afterwards.
proof fn lemma_val_align(s: Seq<char>, i: int, s2: Seq<char>, i2: int)
    requires
        0 <= i <= s.len(),
        0 <= i2 <= s2.len(),
        nws_stream(s, i) == nws_stream(s2, i2),
    ensures
        match (spec_val(s, i), spec_val(s2, i2)) {
            (Parsed::Done { kids, at }, Parsed::Done { kids: kids2, at: at2 }) => {
                &&& strip_forest(kids) == strip_forest(kids2)
                &&& 0 <= at <= s.len() && 0 <= at2 <= s2.len()
                &&& nws_stream(s, at) == nws_stream(s2, at2)
            },
            (Parsed::Fail { .. }, Parsed::Fail { .. }) => true,
            _ => false,
        },
{
    lemma_peek_align(s, i, s2, i2);
    lemma_spec_peek(s, i);
    lemma_spec_peek(s2, i2);
    lemma_peek_ws_shape(s, i);
    lemma_peek_ws_shape(s2, i2);
    lemma_stream_at(s, i);
    lemma_stream_at(s2, i2);
    match (spec_peek(s, i), spec_peek(s2, i2)) {
        (Peeked::Eof { ws, at }, Peeked::Eof { ws: w2, at: at2 }) => {
            let err = Tree::Node { kind: SyntaxKind::ERROR, children: seq![] };
            lemma_strip_concat(ws, seq![err]);
            lemma_strip_concat(w2, seq![err]);
            lemma_strip_all_ws(ws, 0);
            lemma_strip_all_ws(w2, 0);
            lemma_strip_singleton(err);
            assert(strip_forest(ws + seq![err]) =~= strip_forest(w2 + seq![err]));
        },
        (Peeked::Next { ws, at, kind }, Peeked::Next { ws: w2, at: at2, kind: kind2 }) => {
            let end = token_at(s, at)->end;
            let end2 = token_at(s2, at2)->end;
            let leaf = Tree::Leaf { kind, text: s.subrange(at, end) };
            let leaf2 = Tree::Leaf { kind: kind2, text: s2.subrange(at2, end2) };
            assert(leaf2 == leaf);
            lemma_strip_all_ws(ws, 0);
            lemma_strip_all_ws(w2, 0);
            if kind == SyntaxKind::NUMBER {
                lemma_strip_concat(ws, seq![leaf]);
                lemma_strip_concat(w2, seq![leaf2]);
                lemma_strip_singleton(leaf);
                assert(strip_forest(ws + seq![leaf]) =~= strip_forest(w2 + seq![leaf2]));
            } else {
                let err = Tree::Node { kind: SyntaxKind::ERROR, children: seq![leaf] };
                let err2 = Tree::Node { kind: SyntaxKind::ERROR, children: seq![leaf2] };
                lemma_strip_concat(ws, seq![err]);
                lemma_strip_concat(w2, seq![err2]);
                lemma_strip_singleton(err);
                lemma_strip_singleton(err2);
                lemma_strip_singleton(leaf);
                assert(strip_tree(err) == strip_tree(err2));
                assert(strip_forest(ws + seq![err]) =~= strip_forest(w2 + seq![err2]));
            }
        },
        _ => {},
    }
}

/// Equal streams and equally stripped accumulators give `mul` loops with
/// the same stripped result and equal streams afterwards.
proof fn lemma_mul_loop_align(
    s: Seq<char>,
    acc: Seq<Tree>,
    i: int,
    s2: Seq<char>,
    acc2: Seq<Tree>,
    i2: int,
)
    requires
        0 <= i <= s.len(),
        0 <= i2 <= s2.len(),
        nws_stream(s, i) == nws_stream(s2, i2),
        strip_forest(acc) == strip_forest(acc2),
    ensures
        match (spec_mul_loop(s, acc, i), spec_mul_loop(s2, acc2, i2)) {
            (Parsed::Done { kids, at }, Parsed::Done { kids: kids2, at: at2 }) => {
                &&& strip_forest(kids) == strip_forest(kids2)
                &&& 0 <= at <= s.len() && 0 <= at2 <= s2.len()
                &&& nws_stream(s, at) == nws_stream(s2, at2)
            },
            (Parsed::Fail { .. }, Parsed::Fail { .. }) => true,
            _ => false,
        },
    decreases s.len() - i,
{
    lemma_peek_align(s, i, s2, i2);
    lemma_spec_peek(s, i);
    lemma_spec_peek(s2, i2);
    lemma_peek_ws_shape(s, i);
    lemma_peek_ws_shape(s2, i2);
    lemma_stream_at(s, i);
    lemma_stream_at(s2, i2);
    match (spec_peek(s, i), spec_peek(s2, i2)) {
        (Peeked::Eof { ws, .. }, Peeked::Eof { ws: w2, .. }) => {
            lemma_strip_concat(acc, ws);
            lemma_strip_concat(acc2, w2);
            lemma_strip_all_ws(ws, 0);
            lemma_strip_all_ws(w2, 0);
            assert(strip_forest(acc + ws) =~= strip_forest(acc2 + w2));
        },
        (Peeked::Next { ws, at, kind }, Peeked::Next { ws: w2, at: at2, kind: kind2 }) => {
            if is_mul_op(kind) {
                let end = token_at(s, at)->end;
                let end2 = token_at(s2, at2)->end;
                let op = Tree::Leaf { kind, text: s.subrange(at, end) };
                let op2 = Tree::Leaf { kind: kind2, text: s2.subrange(at2, end2) };
                assert(op2 == op);
                lemma_val_align(s, end, s2, end2);
                lemma_spec_val(s, end);
                lemma_spec_val(s2, end2);
                match (spec_val(s, end), spec_val(s2, end2)) {
                    (
                        Parsed::Done { kids: rkids, at: rat },
                        Parsed::Done { kids: rkids2, at: rat2 },
                    ) => {
                        let ch = acc + ws + seq![op] + rkids;
                        let ch2 = acc2 + w2 + seq![op2] + rkids2;
                        let node = Tree::Node { kind: SyntaxKind::OPERATION, children: ch };
                        let node2 = Tree::Node { kind: SyntaxKind::OPERATION, children: ch2 };
                        lemma_strip_concat(acc + ws + seq![op], rkids);
                        lemma_strip_concat(acc + ws, seq![op]);
                        lemma_strip_concat(acc, ws);
                        lemma_strip_concat(acc2 + w2 + seq![op2], rkids2);
                        lemma_strip_concat(acc2 + w2, seq![op2]);
                        lemma_strip_concat(acc2, w2);
                        lemma_strip_all_ws(ws, 0);
                        lemma_strip_all_ws(w2, 0);
                        lemma_strip_singleton(op);
                        assert(strip_forest(ch) =~= strip_forest(ch2));
                        assert(strip_tree(node) == strip_tree(node2));
                        lemma_strip_singleton(node);
                        lemma_strip_singleton(node2);
                        assert(strip_forest(seq![node]) =~= strip_forest(seq![node2]));
                        lemma_mul_loop_align(s, seq![node], rat, s2, seq![node2], rat2);
                    },
                    _ => {},
                }
            } else {
                lemma_strip_concat(acc, ws);
                lemma_strip_concat(acc2, w2);
                lemma_strip_all_ws(ws, 0);
                lemma_strip_all_ws(w2, 0);
                assert(strip_forest(acc + ws) =~= strip_forest(acc2 + w2));
            }
        },
        _ => {},
    }
}

/// Equal streams give `mul` productions with the same stripped shape.
proof fn lemma_mul_align(s: Seq<char>, i: int, s2: Seq<char>, i2: int)
    requires
        0 <= i <= s.len(),
        0 <= i2 <= s2.len(),
        nws_stream(s, i) == nws_stream(s2, i2),
    ensures
        match (spec_mul(s, i), spec_mul(s2, i2)) {
            (Parsed::Done { kids, at }, Parsed::Done { kids: kids2, at: at2 }) => {
                &&& strip_forest(kids) == strip_forest(kids2)
                &&& 0 <= at <= s.len() && 0 <= at2 <= s2.len()
                &&& nws_stream(s, at) == nws_stream(s2, at2)
            },
            (Parsed::Fail { .. }, Parsed::Fail { .. }) => true,
            _ => false,
        },
{
    lemma_val_align(s, i, s2, i2);
    match (spec_val(s, i), spec_val(s2, i2)) {
        (Parsed::Done { kids, at }, Parsed::Done { kids: kids2, at: at2 }) => {
            lemma_mul_loop_align(s, kids, at, s2, kids2, at2);
        },
        _ => {},
    }
}

/// Equal streams and equally stripped accumulators give `add` loops with
/// the same stripped result.
proof fn lemma_add_loop_align(
    s: Seq<char>,
    acc: Seq<Tree>,
    i: int,
    s2: Seq<char>,
    acc2: Seq<Tree>,
    i2: int,
)
    requires
        0 <= i <= s.len(),
        0 <= i2 <= s2.len(),
        nws_stream(s, i) == nws_stream(s2, i2),
        strip_forest(acc) == strip_forest(acc2),
    ensures
        match (spec_add_loop(s, acc, i), spec_add_loop(s2, acc2, i2)) {
            (Parsed::Done { kids, at }, Parsed::Done { kids: kids2, at: at2 }) => {
                &&& strip_forest(kids) == strip_forest(kids2)
                &&& 0 <= at <= s.len() && 0 <= at2 <= s2.len()
                &&& nws_stream(s, at) == nws_stream(s2, at2)
            },
            (Parsed::Fail { .. }, Parsed::Fail { .. }) => true,
            _ => false,
        },
    decreases s.len() - i,
{
    lemma_peek_align(s, i, s2, i2);
    lemma_spec_peek(s, i);
    lemma_spec_peek(s2, i2);
    lemma_peek_ws_shape(s, i);
    lemma_peek_ws_shape(s2, i2);
    lemma_stream_at(s, i);
    lemma_stream_at(s2, i2);
    match (spec_peek(s, i), spec_peek(s2, i2)) {
        (Peeked::Eof { ws, .. }, Peeked::Eof { ws: w2, .. }) => {
            lemma_strip_concat(acc, ws);
            lemma_strip_concat(acc2, w2);
            lemma_strip_all_ws(ws, 0);
            lemma_strip_all_ws(w2, 0);
            assert(strip_forest(acc + ws) =~= strip_forest(acc2 + w2));
        },
        (Peeked::Next { ws, at, kind }, Peeked::Next { ws: w2, at: at2, kind: kind2 }) => {
            if is_add_op(kind) {
                let end = token_at(s, at)->end;
                let end2 = token_at(s2, at2)->end;
                let op = Tree::Leaf { kind, text: s.subrange(at, end) };
                let op2 = Tree::Leaf { kind: kind2, text: s2.subrange(at2, end2) };
                assert(op2 == op);
                lemma_mul_align(s, end, s2, end2);
                lemma_spec_mul(s, end);
                lemma_spec_mul(s2, end2);
                match (spec_mul(s, end), spec_mul(s2, end2)) {
                    (
                        Parsed::Done { kids: rkids, at: rat },
                        Parsed::Done { kids: rkids2, at: rat2 },
                    ) => {
                        let ch = acc + ws + seq![op] + rkids;
                        let ch2 = acc2 + w2 + seq![op2] + rkids2;
                        let node = Tree::Node { kind: SyntaxKind::OPERATION, children: ch };
                        let node2 = Tree::Node { kind: SyntaxKind::OPERATION, children: ch2 };
                        lemma_strip_concat(acc + ws + seq![op], rkids);
                        lemma_strip_concat(acc + ws, seq![op]);
                        lemma_strip_concat(acc, ws);
                        lemma_strip_concat(acc2 + w2 + seq![op2], rkids2);
                        lemma_strip_concat(acc2 + w2, seq![op2]);
                        lemma_strip_concat(acc2, w2);
                        lemma_strip_all_ws(ws, 0);
                        lemma_strip_all_ws(w2, 0);
                        lemma_strip_singleton(op);
                        assert(strip_forest(ch) =~= strip_forest(ch2));
                        assert(strip_tree(node) == strip_tree(node2));
                        lemma_strip_singleton(node);
                        lemma_strip_singleton(node2);
                        assert(strip_forest(seq![node]) =~= strip_forest(seq![node2]));
                        lemma_add_loop_align(s, seq![node], rat, s2, seq![node2], rat2);
                    },
                    _ => {},
                }
            } else {
                lemma_strip_concat(acc, ws);
                lemma_strip_concat(acc2, w2);
                lemma_strip_all_ws(ws, 0);
                lemma_strip_all_ws(w2, 0);
                assert(strip_forest(acc + ws) =~= strip_forest(acc2 + w2));
            }
        },
        _ => {},
    }
}

/// Whitespace insensitivity: two inputs that tokenize to the same
/// sequence of non-whitespace tokens parse to trees with the same
/// non-whitespace structure, and the one parse fails exactly when the
/// other does. Changing only the whitespace of an input — in a way that
/// does not fuse or split its tokens — leaves the stream unchanged, so
/// the stripped tree stays the same.
pub proof fn lemma_ws_insensitive(s: Seq<char>, s2: Seq<char>)
    requires
        nws_stream(s, 0) == nws_stream(s2, 0),
    ensures
        match (spec_parse(s), spec_parse(s2)) {
            (Ok(t), Ok(t2)) => strip_tree(t) == strip_tree(t2),
            (Err(..), Err(..)) => true,
            _ => false,
        },
{
    lemma_mul_align(s, 0, s2, 0);
    match (spec_mul(s, 0), spec_mul(s2, 0)) {
        (Parsed::Done { kids, at }, Parsed::Done { kids: kids2, at: at2 }) => {
            lemma_add_loop_align(s, kids, at, s2, kids2, at2);
        },
        _ => {},
    }
}

} // verus!
