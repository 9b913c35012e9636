//! A grammar for a conservative subset of JSON text, and the generator and
//! mutator of (text, derivation) pairs built on it.
use vstd::prelude::*;
use vstd::string::*;
use crate::entropy::Entropy;
use crate::grammar::{
    accepts, derives, generate, lemma_derivation_accepted, mutate, render, text_of, finite,
    well_formed, well_formed_node, lemma_parts_well_formed, within_budget, replaced_at,
    first_finite_at, texts_of, Ast, Grammar,
};

verus! {

/// A node that derives text on its own: no rule reference is reached and
/// it is well formed in any rule table.
pub open spec fn standalone(g: Grammar) -> bool {
    finite(g) && forall|n: nat| #[trigger] well_formed_node(g, n)
}

/// The empty text: no repetition of a space.
pub open spec fn is_blank(g: Grammar) -> bool {
    g == Grammar::Repetition(Box::new(Grammar::Literal(' ')), 0, 0)
}

/// A class of exactly the characters of `chars`.
pub open spec fn is_class(g: Grammar, chars: Seq<char>) -> bool {
    g matches Grammar::CharClass(cs) && cs@ == chars
}

/// The literal characters of `w`, in order.
pub open spec fn is_keyword(g: Grammar, w: Seq<char>) -> bool {
    g matches Grammar::Concatenation(gs) && gs@.len() == w.len() && forall|i: int|
        0 <= i < gs@.len() ==> gs@[i] == Grammar::Literal(w[i])
}

/// `[1-9]` followed by zero to 32 of `[0-9]`.
pub open spec fn is_digits(g: Grammar) -> bool {
    g matches Grammar::Concatenation(gs) && gs@.len() == 2 && is_class(gs@[0], "123456789"@) && (
    gs@[1] matches Grammar::Repetition(d, lo, hi) && lo == 0 && hi == 32 && is_class(
        *d,
        "0123456789"@,
    ))
}

/// Nothing, or `.` followed by digits.
pub open spec fn is_fraction(g: Grammar) -> bool {
    g matches Grammar::Alternation(gs) && gs@.len() == 2 && is_blank(gs@[0]) && (
    gs@[1] matches Grammar::Concatenation(ps) && ps@.len() == 2 && ps@[0] == Grammar::Literal('.')
        && is_digits(ps@[1]))
}

/// Nothing, `+` or `-`.
pub open spec fn is_sign(g: Grammar) -> bool {
    g matches Grammar::Alternation(gs) && gs@.len() == 3 && is_blank(gs@[0]) && gs@[1]
        == Grammar::Literal('+') && gs@[2] == Grammar::Literal('-')
}

/// `marker`, a sign, `[1-9]` and at most one more `[0-9]`.
pub open spec fn is_exponent_part(g: Grammar, marker: char) -> bool {
    g matches Grammar::Concatenation(gs) && gs@.len() == 4 && gs@[0] == Grammar::Literal(marker)
        && is_sign(gs@[1]) && is_class(gs@[2], "123456789"@) && (
    gs@[3] matches Grammar::Repetition(d, lo, hi) && lo == 0 && hi == 1 && is_class(
        *d,
        "0123456789"@,
    ))
}

/// Nothing, or an exponent marked `E` or `e`.
pub open spec fn is_exponent(g: Grammar) -> bool {
    g matches Grammar::Alternation(gs) && gs@.len() == 3 && is_blank(gs@[0]) && is_exponent_part(
        gs@[1],
        'E',
    ) && is_exponent_part(gs@[2], 'e')
}

/// Digits, then a fraction, then an exponent.
pub open spec fn is_number(g: Grammar) -> bool {
    g matches Grammar::Concatenation(gs) && gs@.len() == 3 && is_digits(gs@[0]) && is_fraction(
        gs@[1],
    ) && is_exponent(gs@[2])
}

/// Any number of `[a-zA-Z0-9_]`.
pub open spec fn is_plain_text(g: Grammar) -> bool {
    g matches Grammar::Repetition(c, lo, hi) && lo == 0 && hi == usize::MAX && is_class(
        *c,
        "abcdefghijklmnopqrstuvwxyzABCDEFGHIJKLMNOPQRSTUVWXYZ0123456789_"@,
    )
}

/// A quote, plain text and a quote.
pub open spec fn is_quoted_text(g: Grammar) -> bool {
    g matches Grammar::Concatenation(gs) && gs@.len() == 3 && gs@[0] == Grammar::Literal('"')
        && is_plain_text(gs@[1]) && gs@[2] == Grammar::Literal('"')
}

/// `"key":value`, with a trailing comma when `comma` holds; the value is
/// rule 0.
pub open spec fn is_entry(g: Grammar, comma: bool) -> bool {
    g matches Grammar::Concatenation(gs) && gs@.len() == (if comma {
        6int
    } else {
        5int
    }) && gs@[0] == Grammar::Literal('"') && is_plain_text(gs@[1]) && gs@[2] == Grammar::Literal(
        '"',
    ) && gs@[3] == Grammar::Literal(':') && gs@[4] == Grammar::Recurse(0) && (comma ==> gs@[5]
        == Grammar::Literal(','))
}

/// `[`, any number of `value,`, a last value and `]`; values are rule 0.
pub open spec fn is_array(g: Grammar) -> bool {
    g matches Grammar::Concatenation(gs) && gs@.len() == 4 && gs@[0] == Grammar::Literal('[') && (
    gs@[1] matches Grammar::Repetition(item, lo, hi) && lo == 0 && hi == usize::MAX && (
    *item matches Grammar::Concatenation(ps) && ps@.len() == 2 && ps@[0] == Grammar::Recurse(0)
        && ps@[1] == Grammar::Literal(','))) && gs@[2] == Grammar::Recurse(0) && gs@[3]
        == Grammar::Literal(']')
}

/// `{`, any number of entries with a comma, a last entry and `}`.
pub open spec fn is_object(g: Grammar) -> bool {
    g matches Grammar::Concatenation(gs) && gs@.len() == 4 && gs@[0] == Grammar::Literal('{') && (
    gs@[1] matches Grammar::Repetition(e, lo, hi) && lo == 0 && hi == usize::MAX && is_entry(
        *e,
        true,
    )) && is_entry(gs@[2], false) && gs@[3] == Grammar::Literal('}')
}

/// The JSON value rule: `null`, `true` or `false`, a number, quoted text,
/// an array or an object, in this order.
pub open spec fn is_json_value_rule(g: Grammar) -> bool {
    g matches Grammar::Alternation(bs) && bs@.len() == 6 && is_keyword(bs@[0], "null"@) && (
    bs@[1] matches Grammar::Alternation(ks) && ks@.len() == 2 && is_keyword(ks@[0], "true"@)
        && is_keyword(ks@[1], "false"@)) && is_number(bs@[2]) && is_quoted_text(bs@[3])
        && is_array(bs@[4]) && is_object(bs@[5])
}

/// The literal characters of `word`, in order.
pub fn keyword(word: &str) -> (r: Grammar)
    ensures
        standalone(r),
        is_keyword(r, word@),
{
    let mut gs: Vec<Grammar> = Vec::new();
    let len = word.unicode_len();
    let mut k: usize = 0;
    while k < len
        invariant
            len == word@.len(),
            k <= len,
            gs@.len() == k,
            forall|i: int| 0 <= i < k ==> gs@[i] == Grammar::Literal(word@[i]),
        decreases len - k,
    {
        gs.push(Grammar::Literal(word.get_char(k)));
        k = k + 1;
    }
    let r = Grammar::Concatenation(gs);
    assert forall|n: nat| #[trigger] well_formed_node(r, n) by {
        assert forall|i: int| 0 <= i < gs@.len() implies well_formed_node(#[trigger] gs@[i], n) by {
        }
    }
    assert forall|i: int| 0 <= i < gs@.len() implies finite(#[trigger] gs@[i]) by {}
    r
}

/// A terminal matching any one of the characters of `chars`.
pub fn char_class(chars: &str) -> (r: Grammar)
    requires
        chars@.len() > 0,
    ensures
        standalone(r),
        r matches Grammar::CharClass(cs) && cs@ == chars@,
{
    let mut cs: Vec<char> = Vec::new();
    let len = chars.unicode_len();
    let mut k: usize = 0;
    while k < len
        invariant
            len == chars@.len(),
            k <= len,
            cs@ == chars@.subrange(0, k as int),
        decreases len - k,
    {
        cs.push(chars.get_char(k));
        k = k + 1;
        proof {
            assert(cs@ =~= chars@.subrange(0, k as int));
        }
    }
    proof {
        assert(cs@ =~= chars@);
    }
    Grammar::CharClass(cs)
}


/// The concatenation of standalone parts.
pub fn concatenation(parts: Vec<Grammar>) -> (r: Grammar)
    requires
        forall|i: int| 0 <= i < parts@.len() ==> standalone(#[trigger] parts@[i]),
    ensures
        standalone(r),
        r == Grammar::Concatenation(parts),
{
    let r = Grammar::Concatenation(parts);
    assert forall|n: nat| #[trigger] well_formed_node(r, n) by {
        assert forall|i: int| 0 <= i < parts@.len() implies well_formed_node(
            #[trigger] parts@[i],
            n,
        ) by {
            assert(standalone(parts@[i]));
        }
    }
    r
}

proof fn lemma_alternation_finite(gs: Vec<Grammar>, i: int)
    requires
        0 <= i < gs@.len(),
        finite(gs@[i]),
    ensures
        finite(Grammar::Alternation(gs)),
{
    let g = Grammar::Alternation(gs);
    assert(decreases_to!(g => g->Alternation_0));
    assert(decreases_to!(gs => gs@));
    assert(decreases_to!(gs@ => gs@[i]));
    assert(decreases_to!(g => gs@[i]));
}

/// The alternation of standalone branches, of which there is at least one.
pub fn alternation(branches: Vec<Grammar>) -> (r: Grammar)
    requires
        branches@.len() > 0,
        forall|i: int| 0 <= i < branches@.len() ==> standalone(#[trigger] branches@[i]),
    ensures
        standalone(r),
        r == Grammar::Alternation(branches),
{
    let r = Grammar::Alternation(branches);
    proof {
        assert(standalone(branches@[0]));
        lemma_alternation_finite(branches, 0);
    }
    assert forall|n: nat| #[trigger] well_formed_node(r, n) by {
        assert forall|i: int| 0 <= i < branches@.len() implies well_formed_node(
            #[trigger] branches@[i],
            n,
        ) by {
            assert(standalone(branches@[i]));
        }
    }
    r
}

/// Between `lo` and `hi` repetitions of a standalone node.
pub fn repetition(item: Grammar, lo: usize, hi: usize) -> (r: Grammar)
    requires
        standalone(item),
        lo <= hi,
    ensures
        standalone(r),
        r == Grammar::Repetition(Box::new(item), lo, hi),
{
    let r = Grammar::Repetition(Box::new(item), lo, hi);
    assert forall|n: nat| #[trigger] well_formed_node(r, n) by {
        assert(well_formed_node(item, n));
    }
    r
}

/// One character.
pub fn literal(c: char) -> (r: Grammar)
    ensures
        standalone(r),
        r == Grammar::Literal(c),
{
    let r = Grammar::Literal(c);
    assert forall|n: nat| #[trigger] well_formed_node(r, n) by {}
    r
}

/// A double quote.
pub fn quote() -> (r: Grammar)
    ensures
        standalone(r),
        r == Grammar::Literal('"'),
{
    literal('"')
}

/// The empty text.
pub fn blank() -> (r: Grammar)
    ensures
        standalone(r),
        is_blank(r),
{
    repetition(literal(' '), 0, 0)
}

/// One decimal digit.
pub fn digit() -> (r: Grammar)
    ensures
        standalone(r),
        is_class(r, "0123456789"@),
{
    proof {
        reveal_strlit("0123456789");
    }
    char_class("0123456789")
}

/// A digit from one to nine followed by at most 32 digits: small enough
/// that parsers do not refuse the number as out of range.
pub fn digits() -> (r: Grammar)
    ensures
        standalone(r),
        is_digits(r),
{
    proof {
        reveal_strlit("123456789");
    }
    concatenation(vec![char_class("123456789"), repetition(digit(), 0, 32)])
}

/// Nothing, or a point followed by digits.
pub fn fraction() -> (r: Grammar)
    ensures
        standalone(r),
        is_fraction(r),
{
    alternation(vec![blank(), concatenation(vec![literal('.'), digits()])])
}

/// No sign, a plus or a minus.
pub fn sign() -> (r: Grammar)
    ensures
        standalone(r),
        is_sign(r),
{
    alternation(vec![blank(), literal('+'), literal('-')])
}

/// An exponent marker, a sign and one or two digits.
fn exponent_part(marker: char) -> (r: Grammar)
    ensures
        standalone(r),
        is_exponent_part(r, marker),
{
    proof {
        reveal_strlit("123456789");
        reveal_strlit("0123456789");
    }
    concatenation(
        vec![
            literal(marker),
            sign(),
            char_class("123456789"),
            repetition(char_class("0123456789"), 0, 1),
        ],
    )
}

/// Nothing, or an exponent of at most two digits, which parsers accept
/// whatever the mantissa.
pub fn exponent() -> (r: Grammar)
    ensures
        standalone(r),
        is_exponent(r),
{
    alternation(vec![blank(), exponent_part('E'), exponent_part('e')])
}

/// A number: digits, an optional fraction and an optional exponent.
pub fn number() -> (r: Grammar)
    ensures
        standalone(r),
        is_number(r),
{
    concatenation(vec![digits(), fraction(), exponent()])
}

/// Text made of letters, digits and underscores only, so that it never
/// needs an escape inside quotes.
pub fn valid_possibly_empty_string() -> (r: Grammar)
    ensures
        standalone(r),
        is_plain_text(r),
{
    proof {
        reveal_strlit("abcdefghijklmnopqrstuvwxyzABCDEFGHIJKLMNOPQRSTUVWXYZ0123456789_");
    }
    repetition(
        char_class("abcdefghijklmnopqrstuvwxyzABCDEFGHIJKLMNOPQRSTUVWXYZ0123456789_"),
        0,
        usize::MAX,
    )
}


/// A quoted string of letters, digits and underscores.
fn quoted_text() -> (r: Grammar)
    ensures
        standalone(r),
        is_quoted_text(r),
{
    concatenation(vec![quote(), valid_possibly_empty_string(), quote()])
}

/// An array: `[`, any number of values each followed by a comma, a last
/// value and `]`.
fn array_of_values() -> (r: Grammar)
    ensures
        well_formed_node(r, 1),
        is_array(r),
{
    let item = Grammar::Concatenation(vec![Grammar::Recurse(0), literal(',')]);
    let r = Grammar::Concatenation(
        vec![
            literal('['),
            Grammar::Repetition(Box::new(item), 0, usize::MAX),
            Grammar::Recurse(0),
            literal(']'),
        ],
    );
    proof {
        lemma_parts_well_formed(item, 1);
        assert(well_formed_node(r->Concatenation_0@[1], 1));
        lemma_parts_well_formed(r, 1);
    }
    r
}

/// An object: `{`, any number of `"key":value,` entries, a last
/// `"key":value` entry and `}`.
fn object_of_entries() -> (r: Grammar)
    ensures
        well_formed_node(r, 1),
        is_object(r),
{
    let entry = Grammar::Concatenation(
        vec![
            quote(),
            valid_possibly_empty_string(),
            quote(),
            literal(':'),
            Grammar::Recurse(0),
            literal(','),
        ],
    );
    let last = Grammar::Concatenation(
        vec![quote(), valid_possibly_empty_string(), quote(), literal(':'), Grammar::Recurse(0)],
    );
    proof {
        lemma_parts_well_formed(entry, 1);
        lemma_parts_well_formed(last, 1);
    }
    let r = Grammar::Concatenation(
        vec![literal('{'), Grammar::Repetition(Box::new(entry), 0, usize::MAX), last, literal('}')],
    );
    proof {
        assert(well_formed_node(r->Concatenation_0@[1], 1));
        lemma_parts_well_formed(r, 1);
    }
    r
}

/// The rule table of JSON text: its one rule derives a value, which is
/// `null`, a boolean, a number, a string, an array or an object.
pub fn json_rules() -> (r: Vec<Grammar>)
    ensures
        r@.len() == 1,
        well_formed(r@),
        is_json_value_rule(r@[0]),
{
    let branches = vec![
        keyword("null"),
        alternation(vec![keyword("true"), keyword("false")]),
        number(),
        quoted_text(),
        array_of_values(),
        object_of_entries(),
    ];
    proof {
        assert(standalone(branches@[0]));
        lemma_alternation_finite(branches, 0);
        assert(well_formed_node(branches@[0], 1));
        assert(well_formed_node(branches@[1], 1));
        assert(well_formed_node(branches@[2], 1));
        assert(well_formed_node(branches@[3], 1));
    }
    let rule = Grammar::Alternation(branches);
    proof {
        lemma_parts_well_formed(rule, 1);
    }
    let r = vec![rule];
    r
}

/// Generates and mutates JSON text together with its derivation.
pub struct GrammarMutator {
    pub rules: Vec<Grammar>,
}

impl GrammarMutator {
    /// A non-empty, well-formed rule table; rule 0 is the start.
    pub open spec fn wf(&self) -> bool {
        self.rules@.len() > 0 && well_formed(self.rules@)
    }

    /// A fresh derivation of the start rule under `budget`, and its text,
    /// which the grammar accepts.
    pub fn generate(&self, budget: usize, rng: &mut Entropy) -> (r: (String, Ast))
        requires
            self.wf(),
        ensures
            derives(self.rules@, self.rules@[0], r.1),
            within_budget(self.rules@, self.rules@[0], r.1, budget as int),
            r.0@ == text_of(r.1),
            accepts(self.rules@, self.rules@[0], r.0@),
    {
        let t = generate(&self.rules, &self.rules[0], budget, rng);
        let s = render(&t);
        proof {
            lemma_derivation_accepted(self.rules@, self.rules@[0], t);
        }
        (s, t)
    }

    /// `input` with one subtree of its derivation re-derived, and the new
    /// text, which the grammar still accepts.
    pub fn mutate(&self, input: (String, Ast), budget: usize, rng: &mut Entropy) -> (r: (
        String,
        Ast,
    ))
        requires
            self.wf(),
            derives(self.rules@, self.rules@[0], input.1),
        ensures
            derives(self.rules@, self.rules@[0], r.1),
            exists|p: Seq<int>| replaced_at(self.rules@, self.rules@[0], input.1, r.1, p),
            final(rng).draws@ > old(rng).draws@,
            r.0@ == text_of(r.1),
            accepts(self.rules@, self.rules@[0], r.0@),
    {
        let t = mutate(&self.rules, &self.rules[0], input.1, budget, rng);
        let s = render(&t);
        proof {
            lemma_derivation_accepted(self.rules@, self.rules@[0], t);
        }
        (s, t)
    }
}

/// The generator and mutator of JSON text.
pub fn json_grammar_mutator() -> (r: GrammarMutator)
    ensures
        r.wf(),
        r.rules@.len() == 1,
        is_json_value_rule(r.rules@[0]),
{
    GrammarMutator { rules: json_rules() }
}


proof fn lemma_tokens_text(ts: Seq<Ast>, w: Seq<char>)
    requires
        ts.len() == w.len(),
        forall|i: int| 0 <= i < ts.len() ==> ts[i] == Ast::Token(w[i]),
    ensures
        texts_of(ts) == w,
    decreases ts.len(),
{
    if ts.len() > 0 {
        let n = ts.len() - 1;
        lemma_tokens_text(ts.subrange(0, n), w.subrange(0, n));
        assert(text_of(ts[n]) == seq![w[n]]);
        assert(w =~= w.subrange(0, n) + seq![w[n]]);
    }
}

/// Under a zero budget the JSON value rule derives exactly `null`, its
/// smallest derivation.
pub proof fn lemma_zero_budget_gives_null(rules: Seq<Grammar>, t: Ast)
    requires
        rules.len() > 0,
        is_json_value_rule(rules[0]),
        derives(rules, rules[0], t),
        within_budget(rules, rules[0], t, 0),
    ensures
        text_of(t) == "null"@,
{
    reveal_strlit("null");
    let bs = rules[0]->Alternation_0@;
    let kw = bs[0];
    let gs = kw->Concatenation_0;
    assert forall|i: int| 0 <= i < gs@.len() implies finite(#[trigger] gs@[i]) by {
        assert(decreases_to!(kw => kw->Concatenation_0));
        assert(decreases_to!(gs => gs@));
        assert(decreases_to!(gs@ => gs@[i]));
    }
    assert(finite(kw));
    assert(t is Choice);
    let k = t->Choice_0 as int;
    assert(first_finite_at(bs, k));
    assert(k == 0);
    let sub = *t->Choice_1;
    assert(derives(rules, kw, sub));
    assert(sub is Sequence);
    let ts = sub->Sequence_0@;
    assert(ts.len() == gs@.len());
    assert(ts.len() == 4);
    assert forall|i: int| 0 <= i < ts.len() implies ts[i] == Ast::Token("null"@[i]) by {
        assert(derives(rules, gs@[i], ts[i]));
        assert(gs@[i] == Grammar::Literal("null"@[i]));
        assert(ts[i] is Token);
    }
    lemma_tokens_text(ts, "null"@);
    assert(text_of(sub) == texts_of(ts));
    assert(text_of(t) == text_of(sub));
}

} // verus!
