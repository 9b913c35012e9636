//! Grammars as rule tables, their derivation trees, and the generation,
//! rendering and local mutation of derivations.
use vstd::prelude::*;
use crate::entropy::Entropy;

verus! {

/// A node of a context-free grammar. `Recurse` names a rule of the
/// enclosing rule table by its index.
#[derive(Debug)]
pub enum Grammar {
    Literal(char),
    CharClass(Vec<char>),
    Concatenation(Vec<Grammar>),
    Alternation(Vec<Grammar>),
    Repetition(Box<Grammar>, usize, usize),
    Recurse(usize),
}

/// A derivation tree: the text a terminal matched, the children of a
/// concatenation or repetition, the branch an alternation took, or the
/// derivation of a referenced rule.
#[derive(Debug)]
pub enum Ast {
    Token(char),
    Sequence(Vec<Ast>),
    Choice(usize, Box<Ast>),
    Rule(Box<Ast>),
}

/// `g` derives some text without going through a rule reference.
pub open spec fn finite(g: Grammar) -> bool
    decreases g,
{
    match g {
        Grammar::Literal(_) => true,
        Grammar::CharClass(_) => true,
        Grammar::Concatenation(gs) => forall|i: int| 0 <= i < gs@.len() ==> finite(#[trigger] gs@[i]),
        Grammar::Alternation(gs) => exists|i: int| 0 <= i < gs@.len() && finite(#[trigger] gs@[i]),
        Grammar::Repetition(h, lo, _) => lo == 0 || finite(*h),
        Grammar::Recurse(_) => false,
    }
}


/// Every rule reference in `g` is below `n`, every alternation and class
/// offers at least one choice, and repetition bounds are ordered.
pub open spec fn well_formed_node(g: Grammar, n: nat) -> bool
    decreases g,
{
    match g {
        Grammar::Literal(_) => true,
        Grammar::CharClass(cs) => cs@.len() > 0,
        Grammar::Concatenation(gs) => forall|i: int|
            0 <= i < gs@.len() ==> well_formed_node(#[trigger] gs@[i], n),
        Grammar::Alternation(gs) => gs@.len() > 0 && forall|i: int|
            0 <= i < gs@.len() ==> well_formed_node(#[trigger] gs@[i], n),
        Grammar::Repetition(h, lo, hi) => lo <= hi && well_formed_node(*h, n),
        Grammar::Recurse(r) => r < n,
    }
}

/// A rule table whose rules are well formed and each derive some text
/// without recursion, so that generation under any budget terminates.
pub open spec fn well_formed(rules: Seq<Grammar>) -> bool {
    forall|h: int|
        0 <= h < rules.len() ==> well_formed_node(#[trigger] rules[h], rules.len()) && finite(
            rules[h],
        )
}

/// `g` is a terminal that matches `c`.
pub open spec fn matches_char(g: Grammar, c: char) -> bool {
    match g {
        Grammar::Literal(d) => c == d,
        Grammar::CharClass(cs) => cs@.contains(c),
        _ => false,
    }
}

proof fn lemma_token(rules: Seq<Grammar>, g: Grammar, c: char, b: int)
    requires
        matches_char(g, c),
    ensures
        derives(rules, g, Ast::Token(c)),
        within_budget(rules, g, Ast::Token(c), b),
{
}

/// `t` is a derivation of `g`, rule references resolved through `rules`.
pub open spec fn derives(rules: Seq<Grammar>, g: Grammar, t: Ast) -> bool
    decreases t,
{
    match t {
        Ast::Token(c) => matches_char(g, c),
        Ast::Sequence(ts) => match g {
            Grammar::Concatenation(gs) => ts@.len() == gs@.len() && forall|i: int|
                0 <= i < ts@.len() ==> derives(rules, gs@[i], #[trigger] ts@[i]),
            Grammar::Repetition(h, lo, hi) => lo <= ts@.len() <= hi && forall|i: int|
                0 <= i < ts@.len() ==> derives(rules, *h, #[trigger] ts@[i]),
            _ => false,
        },
        Ast::Choice(k, sub) => g matches Grammar::Alternation(gs) && k < gs@.len() && derives(
            rules,
            gs@[k as int],
            *sub,
        ),
        Ast::Rule(sub) => g matches Grammar::Recurse(h) && h < rules.len() && derives(
            rules,
            rules[h as int],
            *sub,
        ),
    }
}

/// The text a derivation spells: its tokens in order.
pub open spec fn text_of(t: Ast) -> Seq<char>
    decreases t,
{
    match t {
        Ast::Token(c) => seq![c],
        Ast::Sequence(ts) => texts_of(ts@),
        Ast::Choice(_, sub) => text_of(*sub),
        Ast::Rule(sub) => text_of(*sub),
    }
}

pub open spec fn texts_of(ts: Seq<Ast>) -> Seq<char>
    decreases ts,
{
    if ts.len() == 0 {
        Seq::empty()
    } else {
        texts_of(ts.subrange(0, ts.len() - 1)) + text_of(ts[ts.len() - 1])
    }
}

/// `s` belongs to the language of `g`.
pub open spec fn accepts(rules: Seq<Grammar>, g: Grammar, s: Seq<char>) -> bool {
    exists|t: Ast| derives(rules, g, t) && text_of(t) == s
}

/// The text of any derivation of `g` belongs to the language of `g`.
pub proof fn lemma_derivation_accepted(rules: Seq<Grammar>, g: Grammar, t: Ast)
    requires
        derives(rules, g, t),
    ensures
        accepts(rules, g, text_of(t)),
{
}

/// `k` is the first branch of `gs` that derives text without recursion.
pub open spec fn first_finite_at(gs: Seq<Grammar>, k: int) -> bool {
    0 <= k < gs.len() && finite(gs[k]) && forall|j: int| 0 <= j < k ==> !finite(#[trigger] gs[j])
}

/// The budget each item of a repetition of `count` items gets out of `b`.
pub open spec fn share_of(b: int, count: int) -> int {
    if b == 0 {
        0
    } else if count <= 1 {
        b
    } else if b / count == 0 {
        1
    } else {
        b / count
    }
}

/// `t` was derived from `g` under budget `b`: a rule reference needs a
/// positive budget and passes on one less; a repetition has at most `b`
/// items beyond its minimum, each under its share of `b`; under a zero
/// budget an alternation takes its first branch that needs no recursion.
pub open spec fn within_budget(rules: Seq<Grammar>, g: Grammar, t: Ast, b: int) -> bool
    decreases t,
{
    match t {
        Ast::Token(_) => true,
        Ast::Sequence(ts) => match g {
            Grammar::Concatenation(gs) => forall|i: int|
                0 <= i < ts@.len() ==> within_budget(rules, gs@[i], #[trigger] ts@[i], b),
            Grammar::Repetition(h, lo, _) => ts@.len() <= lo + b && forall|i: int|
                0 <= i < ts@.len() ==> within_budget(
                    rules,
                    *h,
                    #[trigger] ts@[i],
                    share_of(b, ts@.len() as int),
                ),
            _ => true,
        },
        Ast::Choice(k, sub) => match g {
            Grammar::Alternation(gs) => (b == 0 ==> first_finite_at(gs@, k as int))
                && within_budget(rules, gs@[k as int], *sub, b),
            _ => true,
        },
        Ast::Rule(sub) => match g {
            Grammar::Recurse(h) => b > 0 && within_budget(rules, rules[h as int], *sub, b - 1),
            _ => true,
        },
    }
}

/// The grammar node that child `i` of `t`, a derivation of `g`, derives.
pub open spec fn child_grammar(rules: Seq<Grammar>, g: Grammar, t: Ast, i: int) -> Grammar {
    match t {
        Ast::Sequence(_) => match g {
            Grammar::Concatenation(gs) => gs@[i],
            Grammar::Repetition(h, _, _) => *h,
            _ => g,
        },
        Ast::Choice(k, _) => match g {
            Grammar::Alternation(gs) => gs@[k as int],
            _ => g,
        },
        Ast::Rule(_) => match g {
            Grammar::Recurse(h) => rules[h as int],
            _ => g,
        },
        Ast::Token(_) => g,
    }
}

/// `r` equals `t` everywhere but at the subtree reached by the child
/// indices `p`, where it holds a derivation of that position's grammar node.
pub open spec fn replaced_at(rules: Seq<Grammar>, g: Grammar, t: Ast, r: Ast, p: Seq<int>) -> bool
    decreases p.len(),
{
    if p.len() == 0 {
        derives(rules, g, r)
    } else {
        let i = p[0];
        let rest = p.subrange(1, p.len() as int);
        match t {
            Ast::Sequence(ts) => r matches Ast::Sequence(rs) && rs@.len() == ts@.len() && 0 <= i
                < ts@.len() && (forall|j: int|
                0 <= j < ts@.len() && j != i ==> rs@[j] == ts@[j]) && replaced_at(
                rules,
                child_grammar(rules, g, t, i),
                ts@[i],
                rs@[i],
                rest,
            ),
            Ast::Choice(k, sub) => r matches Ast::Choice(k2, rsub) && k2 == k && i == 0
                && replaced_at(rules, child_grammar(rules, g, t, 0), *sub, *rsub, rest),
            Ast::Rule(sub) => r matches Ast::Rule(rsub) && i == 0 && replaced_at(
                rules,
                child_grammar(rules, g, t, 0),
                *sub,
                *rsub,
                rest,
            ),
            Ast::Token(_) => false,
        }
    }
}

/// Decides whether `g` derives some text without a rule reference.
pub fn is_finite(g: &Grammar) -> (r: bool)
    ensures
        r == finite(*g),
    decreases g,
{
    match g {
        Grammar::Literal(_) => true,
        Grammar::CharClass(_) => true,
        Grammar::Concatenation(gs) => {
            let mut k: usize = 0;
            while k < gs.len()
                invariant
                    *g == Grammar::Concatenation(*gs),
                    k <= gs@.len(),
                    forall|i: int| 0 <= i < k ==> finite(#[trigger] gs@[i]),
                decreases gs@.len() - k,
            {
                proof {
                    assert(decreases_to!(*g => g->Concatenation_0));
                    assert(decreases_to!(*gs => gs@));
                    assert(decreases_to!(gs@ => gs@[k as int]));
                }
                if !is_finite(&gs[k]) {
                    return false;
                }
                k = k + 1;
            }
            true
        },
        Grammar::Alternation(gs) => {
            let mut k: usize = 0;
            while k < gs.len()
                invariant
                    *g == Grammar::Alternation(*gs),
                    k <= gs@.len(),
                    forall|i: int| 0 <= i < k ==> !finite(#[trigger] gs@[i]),
                decreases gs@.len() - k,
            {
                proof {
                    assert(decreases_to!(*g => g->Alternation_0));
                    assert(decreases_to!(*gs => gs@));
                    assert(decreases_to!(gs@ => gs@[k as int]));
                }
                if is_finite(&gs[k]) {
                    return true;
                }
                k = k + 1;
            }
            false
        },
        Grammar::Repetition(h, lo, _) => {
            if *lo == 0 {
                true
            } else {
                proof {
                    assert(decreases_to!(*g => g->Repetition_0));
                }
                is_finite(h)
            }
        },
        Grammar::Recurse(_) => false,
    }
}

/// Relies on String::push: appends one char.
#[verifier::external_body]
pub(crate) fn push_char(s: &mut String, c: char)
    ensures
        final(s)@ == old(s)@.push(c),
{
    s.push(c)
}

/// Appends the text of `t` to `out`.
fn render_into(t: &Ast, out: &mut String)
    ensures
        final(out)@ == old(out)@ + text_of(*t),
    decreases t,
{
    match t {
        Ast::Token(c) => {
            push_char(out, *c);
        },
        Ast::Sequence(ts) => {
            let ghost start = out@;
            let mut k: usize = 0;
            while k < ts.len()
                invariant
                    *t == Ast::Sequence(*ts),
                    k <= ts@.len(),
                    out@ == start + texts_of(ts@.subrange(0, k as int)),
                decreases ts@.len() - k,
            {
                proof {
                    assert(decreases_to!(*t => t->Sequence_0));
                    assert(decreases_to!(*ts => ts@));
                    assert(decreases_to!(ts@ => ts@[k as int]));
                }
                render_into(&ts[k], out);
                proof {
                    assert(ts@.subrange(0, k + 1).subrange(0, k as int) =~= ts@.subrange(0, k as int));
                    assert(out@ =~= start + texts_of(ts@.subrange(0, k + 1)));
                }
                k = k + 1;
            }
            proof {
                assert(ts@.subrange(0, k as int) =~= ts@);
            }
        },
        Ast::Choice(_, sub) => {
            proof {
                assert(decreases_to!(*t => t->Choice_1));
            }
            render_into(sub, out);
        },
        Ast::Rule(sub) => {
            proof {
                assert(decreases_to!(*t => t->Rule_0));
            }
            render_into(sub, out);
        },
    }
}

/// The text a derivation spells.
pub fn render(t: &Ast) -> (s: String)
    ensures
        s@ == text_of(*t),
{
    let mut s = String::new();
    render_into(t, &mut s);
    proof {
        assert(s@ =~= text_of(*t));
    }
    s
}


/// Derives a tree from `g`. An alternation takes a random branch, or under
/// an exhausted budget the first branch that needs no recursion; a
/// repetition takes a count between its bounds that grows with the budget,
/// and shares the budget among its items; a rule reference spends one unit.
pub fn generate(rules: &Vec<Grammar>, g: &Grammar, budget: usize, rng: &mut Entropy) -> (t: Ast)
    requires
        well_formed(rules@),
        well_formed_node(*g, rules@.len()),
        budget > 0 || finite(*g),
    ensures
        derives(rules@, *g, t),
        within_budget(rules@, *g, t, budget as int),
        final(rng).draws@ >= old(rng).draws@,
    decreases budget, g,
{
    match g {
        Grammar::Literal(c) => {
            proof {
                lemma_token(rules@, *g, *c, budget as int);
            }
            Ast::Token(*c)
        },
        Grammar::CharClass(cs) => {
            let i = rng.index_below(cs.len());
            let c = cs[i];
            proof {
                assert(cs@[i as int] == c);
            }
            proof {
                lemma_token(rules@, *g, c, budget as int);
            }
            Ast::Token(c)
        },
        Grammar::Concatenation(gs) => {
            let mut ts: Vec<Ast> = Vec::new();
            let mut k: usize = 0;
            while k < gs.len()
                invariant
                    *g == Grammar::Concatenation(*gs),
                    well_formed(rules@),
                    well_formed_node(*g, rules@.len()),
                    budget > 0 || finite(*g),
                    k <= gs@.len(),
                    ts@.len() == k,
                    forall|i: int| 0 <= i < k ==> derives(rules@, gs@[i], #[trigger] ts@[i]),
                    forall|i: int|
                        0 <= i < k ==> within_budget(rules@, gs@[i], #[trigger] ts@[i], budget as int),
                    rng.draws@ >= old(rng).draws@,
                decreases gs@.len() - k,
            {
                proof {
                    assert(decreases_to!(*g => g->Concatenation_0));
                    assert(decreases_to!(*gs => gs@));
                    assert(decreases_to!(gs@ => gs@[k as int]));
                }
                let t = generate(rules, &gs[k], budget, rng);
                ts.push(t);
                k = k + 1;
            }
            Ast::Sequence(ts)
        },
        Grammar::Alternation(gs) => {
            let k: usize = if budget == 0 {
                first_finite(gs)
            } else {
                rng.index_below(gs.len())
            };
            proof {
                assert(decreases_to!(*g => g->Alternation_0));
                assert(decreases_to!(*gs => gs@));
                assert(decreases_to!(gs@ => gs@[k as int]));
            }
            let sub = generate(rules, &gs[k], budget, rng);
            Ast::Choice(k, Box::new(sub))
        },
        Grammar::Repetition(h, lo, hi) => {
            let span: usize = *hi - *lo;
            let room: usize = if span < budget {
                span
            } else {
                budget
            };
            let mut count: usize = *lo;
            if room > 0 {
                count = count + rng.index_below(room);
                if rng.coin() {
                    count = count + 1;
                }
            }
            let share: usize = if budget == 0 {
                0
            } else if count <= 1 {
                budget
            } else if budget / count == 0 {
                1
            } else {
                budget / count
            };
            let mut ts: Vec<Ast> = Vec::new();
            let mut k: usize = 0;
            while k < count
                invariant
                    *g == Grammar::Repetition(*h, *lo, *hi),
                    well_formed(rules@),
                    well_formed_node(*g, rules@.len()),
                    count == 0 || share > 0 || finite(**h),
                    share <= budget,
                    *lo <= count <= *hi,
                    k <= count,
                    ts@.len() == k,
                    forall|i: int| 0 <= i < k ==> derives(rules@, **h, #[trigger] ts@[i]),
                    share == share_of(budget as int, count as int),
                    count <= *lo + budget,
                    forall|i: int|
                        0 <= i < k ==> within_budget(rules@, **h, #[trigger] ts@[i], share as int),
                    rng.draws@ >= old(rng).draws@,
                decreases count - k,
            {
                proof {
                    assert(decreases_to!(*g => g->Repetition_0));
                }
                let t = generate(rules, h, share, rng);
                ts.push(t);
                k = k + 1;
            }
            Ast::Sequence(ts)
        },
        Grammar::Recurse(r) => {
            let sub = generate(rules, &rules[*r], budget - 1, rng);
            Ast::Rule(Box::new(sub))
        },
    }
}

/// The index of the first branch that derives text without recursion.
fn first_finite(gs: &Vec<Grammar>) -> (k: usize)
    requires
        exists|i: int| 0 <= i < gs@.len() && finite(#[trigger] gs@[i]),
    ensures
        first_finite_at(gs@, k as int),
{
    let mut k: usize = 0;
    while k < gs.len()
        invariant
            k <= gs@.len(),
            forall|i: int| 0 <= i < k ==> !finite(#[trigger] gs@[i]),
            exists|i: int| 0 <= i < gs@.len() && finite(#[trigger] gs@[i]),
        decreases gs@.len() - k,
    {
        if is_finite(&gs[k]) {
            return k;
        }
        k = k + 1;
    }
    k
}


/// Re-derives one subtree of `t`, a derivation of `g`, leaving everything
/// around it as it was. The walk descends into one random child at a time
/// and, at a random depth (or at a terminal), regenerates that node from
/// its own grammar node under `budget`.
pub fn mutate(rules: &Vec<Grammar>, g: &Grammar, t: Ast, budget: usize, rng: &mut Entropy) -> (r: Ast)
    requires
        well_formed(rules@),
        well_formed_node(*g, rules@.len()),
        derives(rules@, *g, t),
    ensures
        derives(rules@, *g, r),
        exists|p: Seq<int>| replaced_at(rules@, *g, t, r, p),
        final(rng).draws@ > old(rng).draws@,
    decreases t,
{
    let ghost t0 = t;
    let leaf = match &t {
        Ast::Token(_) => true,
        Ast::Sequence(ts) => ts.len() == 0,
        _ => false,
    };
    let here = rng.below(4) == 0;
    if (leaf || here) && (budget > 0 || is_finite(g)) {
        let r = generate(rules, g, budget, rng);
        assert(replaced_at(rules@, *g, t0, r, Seq::empty()));
        return r;
    }
    match t {
        Ast::Token(c) => {
            let r = Ast::Token(c);
            assert(replaced_at(rules@, *g, t0, r, Seq::empty()));
            r
        },
        Ast::Sequence(ts) => {
            let mut ts = ts;
            if ts.len() == 0 {
                let r = Ast::Sequence(ts);
                assert(replaced_at(rules@, *g, t0, r, Seq::empty()));
                return r;
            }
            let i = rng.index_below(ts.len());
            let ghost before = ts@;
            let child = ts.remove(i);
            proof {
                assert(decreases_to!(t0 => t0->Sequence_0));
                assert(decreases_to!(t0->Sequence_0 => t0->Sequence_0@));
                assert(decreases_to!(t0->Sequence_0@ => before[i as int]));
            }
            let ghost mut path: Seq<int> = Seq::empty();
            let fresh = match g {
                Grammar::Concatenation(gs) => {
                    let f = mutate(rules, &gs[i], child, budget, rng);
                    proof {
                        path = choose|p: Seq<int>| replaced_at(rules@, gs@[i as int], child, f, p);
                    }
                    f
                },
                Grammar::Repetition(h, _, _) => {
                    let f = mutate(rules, h, child, budget, rng);
                    proof {
                        path = choose|p: Seq<int>| replaced_at(rules@, **h, child, f, p);
                    }
                    f
                },
                _ => child,
            };
            ts.insert(i, fresh);
            let r = Ast::Sequence(ts);
            proof {
                assert(ts@ =~= before.update(i as int, fresh));
                let q = seq![i as int] + path;
                assert(q.subrange(1, q.len() as int) =~= path);
                assert(replaced_at(rules@, *g, t0, r, q));
            }
            r
        },
        Ast::Choice(k, sub) => {
            proof {
                assert(decreases_to!(t0 => t0->Choice_1));
            }
            let ghost mut path: Seq<int> = Seq::empty();
            let fresh = match g {
                Grammar::Alternation(gs) => {
                    let f = mutate(rules, &gs[k], *sub, budget, rng);
                    proof {
                        path = choose|p: Seq<int>| replaced_at(rules@, gs@[k as int], *sub, f, p);
                    }
                    f
                },
                _ => *sub,
            };
            let r = Ast::Choice(k, Box::new(fresh));
            proof {
                let q = seq![0int] + path;
                assert(q.subrange(1, q.len() as int) =~= path);
                assert(replaced_at(rules@, *g, t0, r, q));
            }
            r
        },
        Ast::Rule(sub) => {
            proof {
                assert(decreases_to!(t0 => t0->Rule_0));
            }
            let ghost mut path: Seq<int> = Seq::empty();
            let fresh = match g {
                Grammar::Recurse(h) => {
                    let f = mutate(rules, &rules[*h], *sub, budget, rng);
                    proof {
                        path = choose|p: Seq<int>| replaced_at(rules@, rules@[*h as int], *sub, f, p);
                    }
                    f
                },
                _ => *sub,
            };
            let r = Ast::Rule(Box::new(fresh));
            proof {
                let q = seq![0int] + path;
                assert(q.subrange(1, q.len() as int) =~= path);
                assert(replaced_at(rules@, *g, t0, r, q));
            }
            r
        },
    }
}

/// A concatenation or alternation is well formed when each of its parts is
/// (an alternation needs at least one).
pub proof fn lemma_parts_well_formed(g: Grammar, n: nat)
    requires
        g is Concatenation || g is Alternation,
        g is Alternation ==> g->Alternation_0@.len() > 0,
        g is Concatenation ==> forall|i: int|
            0 <= i < g->Concatenation_0@.len() ==> well_formed_node(
                #[trigger] g->Concatenation_0@[i],
                n,
            ),
        g is Alternation ==> forall|i: int|
            0 <= i < g->Alternation_0@.len() ==> well_formed_node(
                #[trigger] g->Alternation_0@[i],
                n,
            ),
    ensures
        well_formed_node(g, n),
{
    match g {
        Grammar::Concatenation(gs) => {
            assert forall|i: int| 0 <= i < gs@.len() implies well_formed_node(
                #[trigger] gs@[i],
                n,
            ) by {
                assert(decreases_to!(g => g->Concatenation_0));
                assert(decreases_to!(gs => gs@));
                assert(decreases_to!(gs@ => gs@[i]));
            }
        },
        Grammar::Alternation(gs) => {
            assert forall|i: int| 0 <= i < gs@.len() implies well_formed_node(
                #[trigger] gs@[i],
                n,
            ) by {
                assert(decreases_to!(g => g->Alternation_0));
                assert(decreases_to!(gs => gs@));
                assert(decreases_to!(gs@ => gs@[i]));
            }
        },
        _ => {},
    }
}


/// Decides whether `g` is well formed in a table of `n` rules.
pub fn node_well_formed(g: &Grammar, n: usize) -> (r: bool)
    ensures
        r == well_formed_node(*g, n as nat),
    decreases g,
{
    match g {
        Grammar::Literal(_) => true,
        Grammar::CharClass(cs) => cs.len() > 0,
        Grammar::Concatenation(gs) => {
            let mut k: usize = 0;
            while k < gs.len()
                invariant
                    *g == Grammar::Concatenation(*gs),
                    k <= gs@.len(),
                    forall|i: int| 0 <= i < k ==> well_formed_node(#[trigger] gs@[i], n as nat),
                decreases gs@.len() - k,
            {
                proof {
                    assert(decreases_to!(*g => g->Concatenation_0));
                    assert(decreases_to!(*gs => gs@));
                    assert(decreases_to!(gs@ => gs@[k as int]));
                }
                if !node_well_formed(&gs[k], n) {
                    return false;
                }
                k = k + 1;
            }
            true
        },
        Grammar::Alternation(gs) => {
            if gs.len() == 0 {
                return false;
            }
            let mut k: usize = 0;
            while k < gs.len()
                invariant
                    *g == Grammar::Alternation(*gs),
                    gs@.len() > 0,
                    k <= gs@.len(),
                    forall|i: int| 0 <= i < k ==> well_formed_node(#[trigger] gs@[i], n as nat),
                decreases gs@.len() - k,
            {
                proof {
                    assert(decreases_to!(*g => g->Alternation_0));
                    assert(decreases_to!(*gs => gs@));
                    assert(decreases_to!(gs@ => gs@[k as int]));
                }
                if !node_well_formed(&gs[k], n) {
                    return false;
                }
                k = k + 1;
            }
            true
        },
        Grammar::Repetition(h, lo, hi) => {
            proof {
                assert(decreases_to!(*g => g->Repetition_0));
            }
            *lo <= *hi && node_well_formed(h, n)
        },
        Grammar::Recurse(r) => *r < n,
    }
}

/// Decides whether a rule table is well formed, so that generation and
/// mutation may run on it: an ill-formed table is refused when it is built.
pub fn rules_well_formed(rules: &Vec<Grammar>) -> (r: bool)
    ensures
        r == well_formed(rules@),
{
    let mut k: usize = 0;
    while k < rules.len()
        invariant
            k <= rules@.len(),
            forall|h: int|
                0 <= h < k ==> well_formed_node(#[trigger] rules@[h], rules@.len()) && finite(
                    rules@[h],
                ),
        decreases rules@.len() - k,
    {
        if !node_well_formed(&rules[k], rules.len()) || !is_finite(&rules[k]) {
            return false;
        }
        k = k + 1;
    }
    true
}

} // verus!
