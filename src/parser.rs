//! Source text to program tree, and what a source text means.

use vstd::prelude::*;

use crate::optimize::{
    lemma_series_ignores_comments,
    loops,
    optimized,
    series_of,
    strip,
    strip_all,
};
use crate::tree::{Node, Tree, lemma_trees_of_push, tree_of, trees_of};

verus! {

/// What a source character means to the parser.
pub enum Symbol {
    Plus,
    Minus,
    Right,
    Left,
    Dot,
    Comma,
    Open,
    Close,
    Filler,
}

pub open spec fn symbol_of(c: char) -> Symbol {
    if c == '+' {
        Symbol::Plus
    } else if c == '-' {
        Symbol::Minus
    } else if c == '>' {
        Symbol::Right
    } else if c == '<' {
        Symbol::Left
    } else if c == '.' {
        Symbol::Dot
    } else if c == ',' {
        Symbol::Comma
    } else if c == '[' {
        Symbol::Open
    } else if c == ']' {
        Symbol::Close
    } else {
        Symbol::Filler
    }
}

pub open spec fn symbols(s: Seq<char>) -> Seq<Symbol> {
    s.map_values(|c: char| symbol_of(c))
}

/// Open brackets minus close brackets in `s`.
pub open spec fn depth(s: Seq<Symbol>) -> int
    decreases s.len(),
{
    if s.len() == 0 {
        0
    } else {
        depth(s.drop_last()) + delta(s.last())
    }
}

/// How a symbol changes the bracket depth.
pub open spec fn delta(x: Symbol) -> int {
    match x {
        Symbol::Open => 1,
        Symbol::Close => -1,
        _ => 0,
    }
}

/// Every `]` closes an earlier `[`, and every `[` is closed.
pub open spec fn balanced(s: Seq<Symbol>) -> bool {
    &&& forall|i: int| 0 <= i <= s.len() ==> depth(#[trigger] s.take(i)) >= 0
    &&& depth(s) == 0
}

/// The first `]` of `s` that closes no `[`.
pub open spec fn is_first_unmatched_close(s: Seq<Symbol>, i: int) -> bool {
    &&& 0 <= i < s.len()
    &&& depth(s.take(i + 1)) < 0
    &&& forall|j: int| 0 <= j <= i ==> depth(#[trigger] s.take(j)) >= 0
}

/// A tree as the parser makes it: unit amounts, and comments for filler.
pub open spec fn is_raw(t: Tree) -> bool
    decreases t,
{
    match t {
        Tree::Inc(a) => a == 1,
        Tree::Dec(a) => a == 1,
        Tree::IncTapePos(a) => a == 1,
        Tree::DecTapePos(a) => a == 1,
        Tree::PutChar => true,
        Tree::GetChar => true,
        Tree::Comment => true,
        Tree::Loop(b) => all_raw(b),
        _ => false,
    }
}

pub open spec fn all_raw(ts: Seq<Tree>) -> bool
    decreases ts,
{
    ts.len() == 0 || (all_raw(ts.drop_last()) && is_raw(ts.last()))
}

/// The symbols that a raw tree is written with.
pub open spec fn tree_symbols(t: Tree) -> Seq<Symbol>
    decreases t,
{
    match t {
        Tree::Inc(_) => seq![Symbol::Plus],
        Tree::Dec(_) => seq![Symbol::Minus],
        Tree::IncTapePos(_) => seq![Symbol::Right],
        Tree::DecTapePos(_) => seq![Symbol::Left],
        Tree::PutChar => seq![Symbol::Dot],
        Tree::GetChar => seq![Symbol::Comma],
        Tree::Loop(b) => seq![Symbol::Open] + forest_symbols(b) + seq![Symbol::Close],
        _ => seq![Symbol::Filler],
    }
}

pub open spec fn forest_symbols(ts: Seq<Tree>) -> Seq<Symbol>
    decreases ts,
{
    if ts.len() == 0 {
        Seq::empty()
    } else {
        forest_symbols(ts.drop_last()) + tree_symbols(ts.last())
    }
}

/// Some raw tree is written with the symbols of `s`.
pub open spec fn parses(s: Seq<char>) -> bool {
    exists|ts: Seq<Tree>| all_raw(ts) && forest_symbols(ts) == symbols(s)
}

/// The tree of source text `s`: the root of the raw forest written with its
/// symbols (there is at most one, see [`lemma_parse_unique`]).
pub open spec fn source_tree(s: Seq<char>) -> Tree {
    Tree::Root(choose|ts: Seq<Tree>| all_raw(ts) && forest_symbols(ts) == symbols(s))
}

/// Why a source text has no tree.
#[derive(PartialEq, Eq, Debug, Clone, Copy)]
pub enum ParseError {
    /// The `]` at this character position closes no `[`.
    UnmatchedClose(usize),
    /// A `[` is never closed.
    UnmatchedOpen,
}

fn chars_of(source: &str) -> (r: Vec<char>)
    ensures
        r@ == source@,
{
    let mut r: Vec<char> = Vec::new();
    for c in it: source.chars()
        invariant
            r@ == it.seq().take(it.index() as int),
            it.seq() == source@,
    {
        r.push(c);
    }
    r
}

fn leaf_of(c: char) -> (r: Node)
    requires
        c != '[',
        c != ']',
    ensures
        is_raw(r@),
        tree_symbols(r@) == seq![symbol_of(c)],
        r@ !is Loop,
{
    if c == '+' {
        Node::Inc(1)
    } else if c == '-' {
        Node::Dec(1)
    } else if c == '>' {
        Node::IncTapePos(1)
    } else if c == '<' {
        Node::DecTapePos(1)
    } else if c == '.' {
        Node::PutChar
    } else if c == ',' {
        Node::GetChar
    } else {
        Node::Comment
    }
}

/// Every prefix of `s` closes no more brackets than it opened, and some stay open.
pub open spec fn unclosed(s: Seq<Symbol>) -> bool {
    &&& forall|i: int| 0 <= i <= s.len() ==> depth(#[trigger] s.take(i)) >= 0
    &&& depth(s) > 0
}

spec fn frames(stack: Seq<Vec<Node>>) -> Seq<Seq<Tree>> {
    stack.map_values(|v: Vec<Node>| trees_of(v@))
}

/// The symbols of the open loops' bodies read so far, outermost first.
spec fn frames_symbols(fs: Seq<Seq<Tree>>) -> Seq<Symbol>
    decreases fs.len(),
{
    if fs.len() == 0 {
        Seq::empty()
    } else if fs.len() == 1 {
        forest_symbols(fs[0])
    } else {
        frames_symbols(fs.drop_last()) + seq![Symbol::Open] + forest_symbols(fs.last())
    }
}

proof fn lemma_forest_push(ts: Seq<Tree>, t: Tree)
    ensures
        forest_symbols(ts.push(t)) == forest_symbols(ts) + tree_symbols(t),
        all_raw(ts.push(t)) == (all_raw(ts) && is_raw(t)),
{
    assert(ts.push(t).drop_last() =~= ts);
}

proof fn lemma_depth_push(s: Seq<Symbol>, i: int)
    requires
        0 <= i < s.len(),
    ensures
        depth(s.take(i + 1)) == depth(s.take(i)) + delta(s[i]),
{
    assert(s.take(i + 1).drop_last() =~= s.take(i));
}

/// Replacing the innermost frame by one whose symbols extend it by `x`
/// extends the whole by `x`.
proof fn lemma_frames_extend(fs: Seq<Seq<Tree>>, g: Seq<Tree>, x: Seq<Symbol>)
    requires
        fs.len() >= 1,
        forest_symbols(g) == forest_symbols(fs.last()) + x,
    ensures
        frames_symbols(fs.drop_last().push(g)) == frames_symbols(fs) + x,
{
    let h = fs.drop_last().push(g);
    assert(h.drop_last() =~= fs.drop_last());
    if fs.len() == 1 {
        assert(h[0] == g);
    } else {
        assert(frames_symbols(h) == frames_symbols(fs.drop_last()) + seq![Symbol::Open]
            + forest_symbols(g));
        assert(frames_symbols(h) =~= frames_symbols(fs) + x);
    }
}

/// Parses source text into a `Root` tree, one node per character, without
/// optimizing it.
pub fn parse(source: &str) -> (r: Result<Node, ParseError>)
    ensures
        r is Ok <==> balanced(symbols(source@)),
        forall|i: usize|
            r == Err::<Node, ParseError>(ParseError::UnmatchedClose(i)) <==> is_first_unmatched_close(
                symbols(source@),
                i as int,
            ),
        r == Err::<Node, ParseError>(ParseError::UnmatchedOpen) <==> unclosed(symbols(source@)),
        r matches Ok(n) ==> n@ matches Tree::Root(ts) && all_raw(ts) && forest_symbols(ts)
            == symbols(source@),
        r matches Ok(n) ==> parses(source@) && n@ == source_tree(source@),
{
    let chars = chars_of(source);
    let ghost sym = symbols(source@);
    let mut stack: Vec<Vec<Node>> = Vec::new();
    stack.push(Vec::new());
    assert(sym.take(0) =~= Seq::<Symbol>::empty());
    assert(frames(stack@) =~= seq![Seq::<Tree>::empty()]);
    let mut i: usize = 0;
    while i < chars.len()
        invariant
            chars@ == source@,
            sym == symbols(source@),
            i <= chars.len(),
            1 <= stack.len(),
            stack.len() - 1 == depth(sym.take(i as int)),
            forall|j: int| 0 <= j <= i ==> depth(#[trigger] sym.take(j)) >= 0,
            forall|k: int| 0 <= k < stack.len() ==> all_raw(#[trigger] frames(stack@)[k]),
            frames_symbols(frames(stack@)) == sym.take(i as int),
        decreases chars.len() - i,
    {
        let c = chars[i];
        proof {
            lemma_depth_push(sym, i as int);
            assert(sym[i as int] == symbol_of(c));
        }
        let ghost fs = frames(stack@);
        if c == '[' {
            stack.push(Vec::new());
            proof {
                assert(frames(stack@) =~= fs.push(Seq::empty()));
                assert(frames(stack@).drop_last() =~= fs);
                assert(sym.take(i + 1) =~= sym.take(i as int) + seq![Symbol::Open]);
                assert(forest_symbols(Seq::<Tree>::empty()) =~= Seq::<Symbol>::empty());
            }
        } else if c == ']' {
            if stack.len() == 1 {
                proof {
                    assert forall|j: usize| is_first_unmatched_close(sym, j as int) implies j == i by {
                        if j < i {
                            assert(depth(sym.take(j + 1)) >= 0);
                        } else if j > i {
                            assert(depth(sym.take(i + 1)) >= 0);
                        }
                    }
                    assert(depth(sym.take(i + 1)) < 0);
                }
                return Err(ParseError::UnmatchedClose(i));
            }
            let body = stack.pop().unwrap();
            let mut parent = stack.pop().unwrap();
            let ghost pre = fs.drop_last().drop_last();
            proof {
                assert(fs.drop_last().last() == trees_of(parent@));
                assert(fs.last() == trees_of(body@));
                assert(all_raw(fs[fs.len() - 1]));
                assert(all_raw(fs[fs.len() - 2]));
            }
            let ghost old_parent = parent@;
            let lp = Node::Loop(body);
            parent.push(lp);
            stack.push(parent);
            proof {
                lemma_trees_of_push(old_parent, lp);
                let pt = trees_of(old_parent);
                let bt = trees_of(body@);
                lemma_forest_push(pt, Tree::Loop(bt));
                assert(frames(stack@) =~= pre.push(pt.push(Tree::Loop(bt))));
                let f1 = fs.drop_last();
                assert(f1.drop_last() =~= pre);
                assert(frames_symbols(fs) == frames_symbols(f1) + seq![Symbol::Open]
                    + forest_symbols(bt));
                lemma_frames_extend(
                    f1,
                    pt.push(Tree::Loop(bt)),
                    seq![Symbol::Open] + forest_symbols(bt) + seq![Symbol::Close],
                );
                assert(sym.take(i + 1) =~= sym.take(i as int) + seq![Symbol::Close]);
                assert(frames_symbols(frames(stack@)) =~= sym.take(i + 1));
                assert forall|k: int| 0 <= k < stack.len() implies all_raw(
                    #[trigger] frames(stack@)[k],
                ) by {
                    if k < stack.len() - 1 {
                        assert(frames(stack@)[k] == fs[k]);
                    }
                }
            }
        } else {
            let mut top = stack.pop().unwrap();
            let ghost old_top = top@;
            let leaf = leaf_of(c);
            top.push(leaf);
            stack.push(top);
            proof {
                lemma_trees_of_push(old_top, leaf);
                lemma_forest_push(trees_of(old_top), tree_of(leaf));
                assert(frames(stack@) =~= fs.drop_last().push(trees_of(old_top).push(tree_of(leaf))));
                lemma_frames_extend(fs, trees_of(old_top).push(tree_of(leaf)), seq![symbol_of(c)]);
                assert(sym.take(i + 1) =~= sym.take(i as int) + seq![symbol_of(c)]);
                assert(all_raw(fs[fs.len() - 1]));
                assert forall|k: int| 0 <= k < stack.len() implies all_raw(
                    #[trigger] frames(stack@)[k],
                ) by {
                    if k < stack.len() - 1 {
                        assert(frames(stack@)[k] == fs[k]);
                    }
                }
            }
        }
        i += 1;
    }
    assert(sym.take(i as int) =~= sym);
    if stack.len() != 1 {
        proof {
            assert forall|j: usize| !is_first_unmatched_close(sym, j as int) by {
                if 0 <= j < sym.len() {
                    assert(depth(sym.take(j + 1)) >= 0);
                }
            }
        }
        return Err(ParseError::UnmatchedOpen);
    }
    let top = stack.pop().unwrap();
    proof {
        let ts = trees_of(top@);
        assert(all_raw(ts) && forest_symbols(ts) == symbols(source@));
        let c = choose|ts: Seq<Tree>| all_raw(ts) && forest_symbols(ts) == symbols(source@);
        lemma_parse_unique(ts, c);
        assert(frames(stack@.push(top)) =~= seq![trees_of(top@)]);
        assert forall|j: usize| !is_first_unmatched_close(sym, j as int) by {
            if 0 <= j < sym.len() {
                assert(depth(sym.take(j + 1)) >= 0);
            }
        }
    }
    Ok(Node::Root(top))
}

/// Parses source text and runs both optimization passes over the tree.
pub fn parse_bf(bf_string: &str) -> (r: Node)
    requires
        balanced(symbols(bf_string@)),
    ensures
        r@ == optimized(source_tree(bf_string@)),
{
    match parse(bf_string) {
        Ok(tree) => tree.optimize_series().optimize_loops(),
        Err(_) => Node::Root(Vec::new()),
    }
}

proof fn lemma_depth_concat(p: Seq<Symbol>, q: Seq<Symbol>)
    ensures
        depth(p + q) == depth(p) + depth(q),
    decreases q.len(),
{
    if q.len() > 0 {
        lemma_depth_concat(p, q.drop_last());
        assert((p + q).drop_last() =~= p + q.drop_last());
    } else {
        assert(p + q =~= p);
    }
}

proof fn lemma_depth_single(x: Symbol)
    ensures
        depth(seq![x]) == delta(x),
{
    let s = seq![x];
    assert(s.drop_last() =~= Seq::<Symbol>::empty());
    assert(depth(Seq::<Symbol>::empty()) == 0);
    assert(s.last() == x);
    assert(depth(s) == depth(s.drop_last()) + delta(s.last()));
}

/// A raw leaf is written with one symbol, which is no bracket.
proof fn lemma_raw_leaf(t: Tree)
    requires
        is_raw(t),
        t !is Loop,
    ensures
        tree_symbols(t).len() == 1,
        tree_symbols(t)[0] != Symbol::Open,
        tree_symbols(t)[0] != Symbol::Close,
{
}

/// Two raw leaves with the same symbol are the same leaf.
proof fn lemma_raw_leaf_unique(t1: Tree, t2: Tree)
    requires
        is_raw(t1),
        is_raw(t2),
        t1 !is Loop,
        t2 !is Loop,
        tree_symbols(t1) == tree_symbols(t2),
    ensures
        t1 == t2,
{
    let x = tree_symbols(t1)[0];
    assert(x == tree_symbols(t2)[0]);
    match t1 {
        Tree::Inc(_) => assert(t2 is Inc),
        Tree::Dec(_) => assert(t2 is Dec),
        Tree::IncTapePos(_) => assert(t2 is IncTapePos),
        Tree::DecTapePos(_) => assert(t2 is DecTapePos),
        Tree::PutChar => assert(t2 is PutChar),
        Tree::GetChar => assert(t2 is GetChar),
        _ => assert(t2 is Comment),
    }
}

/// The symbols of a raw tree are balanced.
proof fn lemma_raw_tree_balanced(t: Tree)
    requires
        is_raw(t),
    ensures
        balanced(tree_symbols(t)),
        tree_symbols(t).len() >= 1,
    decreases t,
{
    let s = tree_symbols(t);
    if let Tree::Loop(b) = t {
        let bs = forest_symbols(b);
        lemma_raw_forest_balanced(b);
        lemma_depth_single(Symbol::Open);
        lemma_depth_single(Symbol::Close);
        lemma_depth_concat(seq![Symbol::Open] + bs, seq![Symbol::Close]);
        lemma_depth_concat(seq![Symbol::Open], bs);
        assert forall|i: int| 0 <= i <= s.len() implies depth(#[trigger] s.take(i)) >= 0 by {
            if i == 0 {
                assert(s.take(i) =~= Seq::<Symbol>::empty());
            } else if i <= bs.len() + 1 {
                assert(s.take(i) =~= seq![Symbol::Open] + bs.take(i - 1));
                lemma_depth_concat(seq![Symbol::Open], bs.take(i - 1));
            } else {
                assert(s.take(i) =~= s);
            }
        }
    } else {
        lemma_raw_leaf(t);
        lemma_depth_single(s[0]);
        assert(s =~= seq![s[0]]);
        assert forall|i: int| 0 <= i <= s.len() implies depth(#[trigger] s.take(i)) >= 0 by {
            if i == 0 {
                assert(s.take(i) =~= Seq::<Symbol>::empty());
            } else {
                assert(s.take(i) =~= s);
            }
        }
    }
}

/// The symbols of a raw forest are balanced.
proof fn lemma_raw_forest_balanced(ts: Seq<Tree>)
    requires
        all_raw(ts),
    ensures
        balanced(forest_symbols(ts)),
    decreases ts,
{
    let s = forest_symbols(ts);
    if ts.len() == 0 {
        assert forall|i: int| 0 <= i <= s.len() implies depth(#[trigger] s.take(i)) >= 0 by {
            assert(s.take(i) =~= Seq::<Symbol>::empty());
        }
    } else {
        let p = forest_symbols(ts.drop_last());
        let q = tree_symbols(ts.last());
        lemma_raw_forest_balanced(ts.drop_last());
        lemma_raw_tree_balanced(ts.last());
        lemma_depth_concat(p, q);
        assert forall|i: int| 0 <= i <= s.len() implies depth(#[trigger] s.take(i)) >= 0 by {
            if i <= p.len() {
                assert(s.take(i) =~= p.take(i));
            } else {
                assert(s.take(i) =~= p + q.take(i - p.len()));
                lemma_depth_concat(p, q.take(i - p.len()));
            }
        }
    }
}

/// No balanced `y` ends with `[` followed by a balanced `x`.
proof fn lemma_no_inner_open(x: Seq<Symbol>, y: Seq<Symbol>)
    requires
        balanced(x),
        balanced(y),
        y.len() > x.len(),
    ensures
        y.subrange(y.len() - x.len() - 1, y.len() as int) != seq![Symbol::Open] + x,
{
    if y.subrange(y.len() - x.len() - 1, y.len() as int) == seq![Symbol::Open] + x {
    let k = y.len() - x.len() - 1;
    let z = y.take(k);
    assert(y =~= z + (seq![Symbol::Open] + x));
    lemma_depth_concat(z, seq![Symbol::Open] + x);
    lemma_depth_concat(seq![Symbol::Open], x);
    lemma_depth_single(Symbol::Open);
    assert(depth(y.take(k)) >= 0);
    }
}

/// Where two sequences that end in balanced loop bodies agree, so do the
/// bodies and what stands before them.
proof fn lemma_loop_bodies_match(p: Seq<Symbol>, xs: Seq<Symbol>, q: Seq<Symbol>, ys: Seq<Symbol>)
    requires
        balanced(xs),
        balanced(ys),
        p + (seq![Symbol::Open] + xs) == q + (seq![Symbol::Open] + ys),
    ensures
        xs == ys,
        p == q,
{
    let r = p + (seq![Symbol::Open] + xs);
    if xs.len() < ys.len() {
        assert(ys.subrange(ys.len() - xs.len() - 1, ys.len() as int) =~= seq![Symbol::Open] + xs) by {
            assert forall|j: int| 0 <= j < xs.len() + 1 implies #[trigger] ys.subrange(
                ys.len() - xs.len() - 1,
                ys.len() as int,
            )[j] == (seq![Symbol::Open] + xs)[j] by {
                assert(r[r.len() - xs.len() - 1 + j] == (seq![Symbol::Open] + xs)[j]);
                assert(r[r.len() - xs.len() - 1 + j] == (seq![Symbol::Open] + ys)[ys.len() - xs.len() + j]);
            }
        }
        lemma_no_inner_open(xs, ys);
    } else if ys.len() < xs.len() {
        assert(xs.subrange(xs.len() - ys.len() - 1, xs.len() as int) =~= seq![Symbol::Open] + ys) by {
            assert forall|j: int| 0 <= j < ys.len() + 1 implies #[trigger] xs.subrange(
                xs.len() - ys.len() - 1,
                xs.len() as int,
            )[j] == (seq![Symbol::Open] + ys)[j] by {
                assert(r[r.len() - ys.len() - 1 + j] == (seq![Symbol::Open] + ys)[j]);
                assert(r[r.len() - ys.len() - 1 + j] == (seq![Symbol::Open] + xs)[xs.len() - ys.len() + j]);
            }
        }
        lemma_no_inner_open(ys, xs);
    }
    assert(xs =~= ys) by {
        assert forall|j: int| 0 <= j < xs.len() implies xs[j] == ys[j] by {
            assert(r[r.len() - xs.len() + j] == xs[j]);
            assert(r[r.len() - ys.len() + j] == ys[j]);
        }
    }
    assert(p =~= q) by {
        assert forall|j: int| 0 <= j < p.len() implies p[j] == q[j] by {
            assert(r[j] == p[j]);
            assert(r[j] == q[j]);
        }
    }
}

/// A source text has at most one raw tree: the tree is fixed by its symbols.
pub proof fn lemma_parse_unique(a: Seq<Tree>, b: Seq<Tree>)
    requires
        all_raw(a),
        all_raw(b),
        forest_symbols(a) == forest_symbols(b),
    ensures
        a == b,
    decreases forest_symbols(a).len(),
{
    let s = forest_symbols(a);
    if a.len() == 0 || b.len() == 0 {
        if a.len() > 0 {
            lemma_raw_tree_balanced(a.last());
        }
        if b.len() > 0 {
            lemma_raw_tree_balanced(b.last());
        }
        assert(a =~= b);
    } else {
        let a1 = a.drop_last();
        let b1 = b.drop_last();
        let ta = a.last();
        let tb = b.last();
        let p = forest_symbols(a1);
        let q = forest_symbols(b1);
        lemma_raw_tree_balanced(ta);
        lemma_raw_tree_balanced(tb);
        assert(s == p + tree_symbols(ta));
        assert(s == q + tree_symbols(tb));
        if ta is Loop && tb is Loop {
            let x = ta->Loop_0;
            let y = tb->Loop_0;
            let xs = forest_symbols(x);
            let ys = forest_symbols(y);
            assert(is_raw(ta) && is_raw(tb));
            assert(all_raw(x) && all_raw(y));
            lemma_raw_forest_balanced(x);
            lemma_raw_forest_balanced(y);
            let r = s.drop_last();
            assert(r =~= p + (seq![Symbol::Open] + xs));
            assert(r =~= q + (seq![Symbol::Open] + ys));
            lemma_loop_bodies_match(p, xs, q, ys);
            lemma_parse_unique(x, y);
            lemma_parse_unique(a1, b1);
            assert(a =~= b1.push(tb));
            assert(b =~= b1.push(tb));
        } else if ta is Loop || tb is Loop {
            if ta is Loop {
                lemma_raw_leaf(tb);
                assert(s.last() == Symbol::Close);
                assert(s.last() == tree_symbols(tb)[0]);
            } else {
                lemma_raw_leaf(ta);
                assert(s.last() == Symbol::Close);
                assert(s.last() == tree_symbols(ta)[0]);
            }
        } else {
            lemma_raw_leaf(ta);
            lemma_raw_leaf(tb);
            assert(tree_symbols(ta) =~= seq![s.last()]);
            assert(tree_symbols(tb) =~= seq![s.last()]);
            lemma_raw_leaf_unique(ta, tb);
            assert(p =~= s.drop_last());
            assert(q =~= s.drop_last());
            lemma_parse_unique(a1, b1);
            assert(a =~= b1.push(tb));
            assert(b =~= b1.push(tb));
        }
    }
}

/// The raw leaf written with symbol `x`, which is no bracket.
spec fn leaf_for(x: Symbol) -> Tree {
    match x {
        Symbol::Plus => Tree::Inc(1),
        Symbol::Minus => Tree::Dec(1),
        Symbol::Right => Tree::IncTapePos(1),
        Symbol::Left => Tree::DecTapePos(1),
        Symbol::Dot => Tree::PutChar,
        Symbol::Comma => Tree::GetChar,
        _ => Tree::Comment,
    }
}

/// The last prefix length, at most `i`, at which `s` is back at depth 0.
spec fn last_level(s: Seq<Symbol>, i: int) -> int
    decreases i,
{
    if i <= 0 {
        0
    } else if depth(s.take(i)) == 0 {
        i
    } else {
        last_level(s, i - 1)
    }
}

proof fn lemma_last_level(s: Seq<Symbol>, i: int)
    requires
        0 <= i <= s.len(),
    ensures
        0 <= last_level(s, i) <= i,
        depth(s.take(last_level(s, i))) == 0,
        forall|k: int| last_level(s, i) < k <= i ==> depth(#[trigger] s.take(k)) != 0,
    decreases i,
{
    if i <= 0 {
        assert(s.take(0) =~= Seq::<Symbol>::empty());
    } else if depth(s.take(i)) != 0 {
        lemma_last_level(s, i - 1);
    }
}

/// Every balanced symbol sequence is written by some raw forest.
pub proof fn lemma_balanced_parses(s: Seq<Symbol>)
    requires
        balanced(s),
    ensures
        exists|ts: Seq<Tree>| all_raw(ts) && forest_symbols(ts) == s,
    decreases s.len(),
{
    let n = s.len() as int;
    if n == 0 {
        assert(all_raw(Seq::<Tree>::empty()) && forest_symbols(Seq::<Tree>::empty()) =~= s);
    } else {
        let x = s.last();
        let s2 = s.drop_last();
        assert(s.take(n - 1) =~= s2);
        assert(depth(s) == depth(s2) + delta(x));
        assert(depth(s.take(n - 1)) >= 0);
        if x == Symbol::Close {
            let j = last_level(s, n - 1);
            lemma_last_level(s, n - 1);
            assert(j < n - 1);
            lemma_depth_push(s, j);
            assert(depth(s.take(j + 1)) >= 0);
            assert(s[j] == Symbol::Open);
            let a = s.take(j);
            let b = s.subrange(j + 1, n - 1);
            assert forall|i: int| 0 <= i <= a.len() implies depth(#[trigger] a.take(i)) >= 0 by {
                assert(a.take(i) =~= s.take(i));
            }
            let head = s.take(j + 1);
            assert(head =~= a.push(Symbol::Open));
            assert(head.drop_last() =~= a);
            assert(depth(head) == 1);
            assert forall|k: int| 0 <= k <= b.len() implies depth(#[trigger] b.take(k)) >= 0 by {
                assert(s.take(j + 1 + k) =~= head + b.take(k));
                lemma_depth_concat(head, b.take(k));
                assert(depth(s.take(j + 1 + k)) >= 0);
            }
            assert(s.take(n - 1) =~= head + b);
            lemma_depth_concat(head, b);
            lemma_balanced_parses(a);
            lemma_balanced_parses(b);
            let ta = choose|ts: Seq<Tree>| all_raw(ts) && forest_symbols(ts) == a;
            let tb = choose|ts: Seq<Tree>| all_raw(ts) && forest_symbols(ts) == b;
            let l = Tree::Loop(tb);
            lemma_forest_push(ta, l);
            assert(forest_symbols(ta.push(l)) =~= s);
        } else {
            assert(x != Symbol::Open);
            assert forall|i: int| 0 <= i <= s2.len() implies depth(#[trigger] s2.take(i)) >= 0 by {
                assert(s2.take(i) =~= s.take(i));
            }
            lemma_balanced_parses(s2);
            let t2 = choose|ts: Seq<Tree>| all_raw(ts) && forest_symbols(ts) == s2;
            let l = leaf_for(x);
            lemma_forest_push(t2, l);
            assert(tree_symbols(l) =~= seq![x]);
            assert(forest_symbols(t2.push(l)) =~= s);
        }
    }
}

/// `s` without its filler characters.
pub open spec fn control_only(s: Seq<char>) -> Seq<char>
    decreases s.len(),
{
    if s.len() == 0 {
        s
    } else if symbol_of(s.last()) == Symbol::Filler {
        control_only(s.drop_last())
    } else {
        control_only(s.drop_last()).push(s.last())
    }
}

/// `x` without its filler symbols.
pub open spec fn without_filler(x: Seq<Symbol>) -> Seq<Symbol>
    decreases x.len(),
{
    if x.len() == 0 {
        x
    } else if x.last() == Symbol::Filler {
        without_filler(x.drop_last())
    } else {
        without_filler(x.drop_last()).push(x.last())
    }
}

proof fn lemma_without_filler_concat(x: Seq<Symbol>, y: Seq<Symbol>)
    ensures
        without_filler(x + y) == without_filler(x) + without_filler(y),
    decreases y.len(),
{
    if y.len() == 0 {
        assert(x + y =~= x);
        assert(without_filler(x) + without_filler(y) =~= without_filler(x));
    } else {
        lemma_without_filler_concat(x, y.drop_last());
        assert((x + y).drop_last() =~= x + y.drop_last());
        assert((without_filler(x) + without_filler(y.drop_last())).push(y.last()) =~= without_filler(x)
            + without_filler(y.drop_last()).push(y.last()));
    }
}

proof fn lemma_symbols_control_only(s: Seq<char>)
    ensures
        symbols(control_only(s)) == without_filler(symbols(s)),
    decreases s.len(),
{
    if s.len() > 0 {
        lemma_symbols_control_only(s.drop_last());
        assert(symbols(s).drop_last() =~= symbols(s.drop_last()));
        assert(symbols(control_only(s.drop_last()).push(s.last())) =~= symbols(
            control_only(s.drop_last()),
        ).push(symbol_of(s.last())));
    } else {
        assert(symbols(s) =~= Seq::<Symbol>::empty());
    }
}

/// Removing the comments of a raw forest leaves a raw forest written with the
/// same symbols less the filler.
proof fn lemma_strip_symbols(ts: Seq<Tree>)
    requires
        all_raw(ts),
    ensures
        all_raw(strip_all(ts)),
        forest_symbols(strip_all(ts)) == without_filler(forest_symbols(ts)),
    decreases ts,
{
    if ts.len() == 0 {
        assert(forest_symbols(ts) =~= Seq::<Symbol>::empty());
    } else {
        let g = ts.drop_last();
        let t = ts.last();
        lemma_strip_symbols(g);
        lemma_without_filler_concat(forest_symbols(g), tree_symbols(t));
        assert(strip_all(ts) == strip_all(g) + strip(t));
        assert(is_raw(t));
        if let Tree::Loop(b) = t {
            lemma_strip_symbols(b);
            let sb = Tree::Loop(strip_all(b));
            assert(strip(t) == seq![sb]);
            assert(strip_all(ts) =~= strip_all(g).push(sb));
            lemma_forest_push(strip_all(g), sb);
            let o = seq![Symbol::Open];
            let c = seq![Symbol::Close];
            lemma_without_filler_concat(o + forest_symbols(b), c);
            lemma_without_filler_concat(o, forest_symbols(b));
            assert(without_filler(o) =~= o) by {
                assert(o.drop_last() =~= Seq::<Symbol>::empty());
                assert(without_filler(o.drop_last()) =~= Seq::<Symbol>::empty());
                assert(o.last() == o[0]);
            }
            assert(without_filler(c) =~= c) by {
                assert(c.drop_last() =~= Seq::<Symbol>::empty());
                assert(without_filler(c.drop_last()) =~= Seq::<Symbol>::empty());
                assert(c.last() == c[0]);
            }
        } else if t is Comment {
            assert(strip(t) =~= Seq::<Tree>::empty());
            assert(strip_all(ts) =~= strip_all(g));
            let f = seq![Symbol::Filler];
            assert(without_filler(f) =~= Seq::<Symbol>::empty()) by {
                assert(f.drop_last() =~= Seq::<Symbol>::empty());
                assert(without_filler(f.drop_last()) =~= Seq::<Symbol>::empty());
                assert(f.last() == Symbol::Filler);
            }
            assert(forest_symbols(ts) == forest_symbols(g) + tree_symbols(t));
            assert(without_filler(forest_symbols(g)) + Seq::<Symbol>::empty() =~= without_filler(forest_symbols(g)));
        } else {
            assert(strip(t) == seq![t]);
            assert(strip_all(ts) =~= strip_all(g).push(t));
            lemma_forest_push(strip_all(g), t);
            lemma_raw_leaf(t);
            let x = tree_symbols(t);
            assert(x =~= seq![x[0]]);
            assert(x[0] != Symbol::Filler);
            assert(without_filler(x) =~= x) by {
                assert(x.drop_last() =~= Seq::<Symbol>::empty());
                assert(without_filler(x.drop_last()) =~= Seq::<Symbol>::empty());
                assert(x.last() == x[0]);
            }
        }
    }
}

/// Filler characters do not matter: a source text with balanced brackets,
/// and the same text with its filler removed, give the same optimized tree.
pub proof fn lemma_filler_insensitive(s: Seq<char>)
    requires
        balanced(symbols(s)),
    ensures
        balanced(symbols(control_only(s))),
        optimized(source_tree(s)) == optimized(source_tree(control_only(s))),
{
    lemma_balanced_parses(symbols(s));
    let ts = choose|ts: Seq<Tree>| all_raw(ts) && forest_symbols(ts) == symbols(s);
    lemma_strip_symbols(ts);
    lemma_symbols_control_only(s);
    let us = strip_all(ts);
    assert(all_raw(us) && forest_symbols(us) == symbols(control_only(s)));
    let c = choose|us: Seq<Tree>| all_raw(us) && forest_symbols(us) == symbols(control_only(s));
    lemma_parse_unique(us, c);
    lemma_series_ignores_comments(ts);
    lemma_raw_forest_balanced(us);
}

} // verus!
