//! The structural mutator over internal values, bounded by a complexity
//! budget, and the mutator of native values built on it.
use vstd::prelude::*;
use vstd::string::*;
use crate::entropy::Entropy;
use crate::grammar::push_char;
use crate::value::{
    calculate_output_cplx, capped, cost, lemma_image_cost, cost_of_entries, cost_of_items, image,
    map_internal_jv_to_serde, map_serde_json_to_internal, native_cost, representable,
    InternalJsonValue, NativeValue,
};

verus! {

/// Both values carry the same tag.
pub open spec fn same_kind(a: InternalJsonValue, b: InternalJsonValue) -> bool {
    match a {
        InternalJsonValue::Null => b is Null,
        InternalJsonValue::Bool { .. } => b is Bool,
        InternalJsonValue::Number { .. } => b is Number,
        InternalJsonValue::String { .. } => b is String,
        InternalJsonValue::Array { .. } => b is Array,
        InternalJsonValue::Object { .. } => b is Object,
    }
}

/// A character for inserted or replaced text; quotes and backslashes are
/// among the choices, to exercise sanitization.
fn random_char(rng: &mut Entropy) -> char {
    let alphabet = "abcdefghijklmnopqrstuvwxyzABCDEFGHIJKLMNOPQRSTUVWXYZ0123456789_ \"\\";
    proof {
        reveal_strlit("abcdefghijklmnopqrstuvwxyzABCDEFGHIJKLMNOPQRSTUVWXYZ0123456789_ \"\\");
    }
    let n = alphabet.unicode_len();
    alphabet.get_char(rng.index_below(n))
}

/// One edit of `s`: a character inserted (only when `budget` allows
/// growth), removed or replaced. Empty text under a zero budget stays empty.
pub open spec fn text_edit(s: Seq<char>, r: Seq<char>, budget: int) -> bool {
    (budget == 0 && s.len() == 0 && r == s) || exists|k: int, c: char|
        (budget > 0 && 0 <= k <= s.len() && r == s.insert(k, c)) || (0 <= k < s.len() && (r
            == s.remove(k) || r == s.update(k, c)))
}

/// `s` with one character inserted (when the budget allows), removed or
/// replaced.
pub fn mutate_text(s: &String, budget: usize, rng: &mut Entropy) -> (r: String)
    ensures
        text_edit(s@, r@, budget as int),
        budget > 0 && s@.len() == 0 ==> r@.len() == 1,
{
    let text = s.as_str();
    let len = text.unicode_len();
    let op = rng.below(3);
    let mut r = String::new();
    if len == 0 || (op == 0 && budget > 0) {
        if budget == 0 {
            return s.clone();
        }
        let at = if len < usize::MAX {
            rng.index_below(len + 1)
        } else {
            rng.index_below(len)
        };
        let c = random_char(rng);
        let mut k: usize = 0;
        while k < len
            invariant
                len == text@.len(),
                text@ == s@,
                at <= len,
                k <= len,
                r@ == (if k <= at {
                    s@.subrange(0, k as int)
                } else {
                    s@.subrange(0, at as int).push(c) + s@.subrange(at as int, k as int)
                }),
            decreases len - k,
        {
            if k == at {
                push_char(&mut r, c);
            }
            push_char(&mut r, text.get_char(k));
            proof {
                if k + 1 <= at {
                    assert(r@ =~= s@.subrange(0, k + 1));
                } else {
                    assert(r@ =~= s@.subrange(0, at as int).push(c) + s@.subrange(at as int, k + 1));
                }
            }
            k = k + 1;
        }
        if at == len {
            push_char(&mut r, c);
        }
        proof {
            assert(r@ =~= s@.insert(at as int, c));
        }
        r
    } else {
        let at = rng.index_below(len);
        let remove = op == 1;
        let c = random_char(rng);
        let mut k: usize = 0;
        while k < len
            invariant
                len == text@.len(),
                text@ == s@,
                at < len,
                k <= len,
                r@ == (if k <= at {
                    s@.subrange(0, k as int)
                } else {
                    s@.subrange(0, at as int) + (if remove {
                        Seq::empty()
                    } else {
                        seq![c]
                    }) + s@.subrange(at + 1, k as int)
                }),
            decreases len - k,
        {
            if k != at {
                push_char(&mut r, text.get_char(k));
            } else if !remove {
                push_char(&mut r, c);
            }
            proof {
                if k + 1 <= at {
                    assert(r@ =~= s@.subrange(0, k + 1));
                } else {
                    assert(r@ =~= s@.subrange(0, at as int) + (if remove {
                        Seq::empty()
                    } else {
                        seq![c]
                    }) + s@.subrange(at + 1, k + 1));
                }
            }
            k = k + 1;
        }
        proof {
            if remove {
                assert(r@ =~= s@.remove(at as int));
            } else {
                assert(r@ =~= s@.update(at as int, c));
            }
        }
        r
    }
}

proof fn lemma_cost_positive(v: InternalJsonValue)
    ensures
        cost(v) >= 1,
    decreases v,
{
    match v {
        InternalJsonValue::Array { inner } => lemma_items_cost_nonneg(inner@),
        InternalJsonValue::Object { inner } => lemma_entries_cost_nonneg(inner@),
        _ => {},
    }
}

proof fn lemma_items_cost_nonneg(s: Seq<InternalJsonValue>)
    ensures
        cost_of_items(s) >= 0,
    decreases s,
{
    if s.len() > 0 {
        lemma_items_cost_nonneg(s.subrange(0, s.len() - 1));
        lemma_cost_positive(s[s.len() - 1]);
    }
}

proof fn lemma_entries_cost_nonneg(s: Seq<(String, InternalJsonValue)>)
    ensures
        cost_of_entries(s) >= 0,
    decreases s,
{
    if s.len() > 0 {
        lemma_entries_cost_nonneg(s.subrange(0, s.len() - 1));
        lemma_cost_positive(s[s.len() - 1].1);
    }
}

proof fn lemma_items_insert(s: Seq<InternalJsonValue>, k: int, x: InternalJsonValue)
    requires
        0 <= k <= s.len(),
    ensures
        cost_of_items(s.insert(k, x)) == cost_of_items(s) + cost(x),
    decreases s.len(),
{
    let t = s.insert(k, x);
    if k == s.len() {
        assert(t.subrange(0, t.len() - 1) =~= s);
    } else {
        let d = s.subrange(0, s.len() - 1);
        lemma_items_insert(d, k, x);
        assert(t.subrange(0, t.len() - 1) =~= d.insert(k, x));
    }
}

proof fn lemma_entries_insert(s: Seq<(String, InternalJsonValue)>, k: int, x: (String, InternalJsonValue))
    requires
        0 <= k <= s.len(),
    ensures
        cost_of_entries(s.insert(k, x)) == cost_of_entries(s) + x.0@.len() + cost(x.1),
    decreases s.len(),
{
    let t = s.insert(k, x);
    if k == s.len() {
        assert(t.subrange(0, t.len() - 1) =~= s);
    } else {
        let d = s.subrange(0, s.len() - 1);
        lemma_entries_insert(d, k, x);
        assert(t.subrange(0, t.len() - 1) =~= d.insert(k, x));
    }
}

/// `r` is one mutation step from `v` under `budget`: a boolean flipped, a
/// number changed, text edited once, or one array element (object entry)
/// inserted, removed or replaced by a mutation of itself. An empty container
/// stays as it is only under a zero budget.
pub open spec fn one_step(v: InternalJsonValue, r: InternalJsonValue, budget: int) -> bool {
    match v {
        InternalJsonValue::Null => r is Null,
        InternalJsonValue::Bool { inner } => r == (InternalJsonValue::Bool { inner: !inner }),
        InternalJsonValue::Number { inner } => r is Number && r->Number_inner != inner,
        InternalJsonValue::String { inner } => r is String && text_edit(
            inner@,
            r->String_inner@,
            budget,
        ),
        InternalJsonValue::Array { inner } => r is Array && {
            let s = inner@;
            let t = r->Array_inner@;
            (budget == 0 && s.len() == 0 && t == s) || (exists|k: int, x: InternalJsonValue|
                budget > 0 && 0 <= k <= s.len() && t == s.insert(k, x) && cost(x) <= budget) || (
            exists|k: int| 0 <= k < s.len() && t == s.remove(k)) || (exists|
                k: int,
                x: InternalJsonValue,
            | 0 <= k < s.len() && t == s.update(k, x) && same_kind(s[k], x) && cost(x) <= cost(s[k])
                + budget)
        },
        InternalJsonValue::Object { inner } => r is Object && {
            let s = inner@;
            let t = r->Object_inner@;
            (budget == 0 && s.len() == 0 && t == s) || (exists|
                k: int,
                x: (String, InternalJsonValue),
            |
                budget > 0 && 0 <= k <= s.len() && t == s.insert(k, x) && x.0@.len() == 0 && cost(
                    x.1,
                ) <= budget) || (exists|k: int| 0 <= k < s.len() && t == s.remove(k)) || (exists|
                k: int,
                x: (String, InternalJsonValue),
            |
                0 <= k < s.len() && t == s.update(k, x) && ((x.1 == s[k].1 && text_edit(
                    s[k].0@,
                    x.0@,
                    budget,
                )) || (x.0 == s[k].0 && same_kind(s[k].1, x.1) && cost(x.1) <= cost(s[k].1)
                    + budget)))
        },
    }
}

/// A small value of any leaf kind whose cost fits in `budget`.
pub fn fresh_leaf(budget: usize, rng: &mut Entropy) -> (r: InternalJsonValue)
    requires
        budget >= 1,
    ensures
        cost(r) <= budget,
        !(r is Array || r is Object),
{
    let pick = rng.below(4);
    if pick == 0 {
        InternalJsonValue::Null
    } else if pick == 1 {
        InternalJsonValue::Bool { inner: rng.coin() }
    } else if pick == 2 && budget >= 9 {
        InternalJsonValue::Number { inner: rng.below(u64::MAX) }
    } else {
        InternalJsonValue::String { inner: String::new() }
    }
}

/// Mutates a value by its tag: a boolean flips, a number is perturbed,
/// text is edited by one character, and an array or object gains a small
/// element or entry, loses one, or has one mutated in turn by this same
/// mutator. The tag is kept, and the cost grows by at most `budget`.
pub fn mutate_value(v: InternalJsonValue, budget: usize, rng: &mut Entropy) -> (r: InternalJsonValue)
    ensures
        same_kind(v, r),
        cost(r) <= cost(v) + budget,
        one_step(v, r, budget as int),
    decreases v,
{
    let ghost v0 = v;
    match v {
        InternalJsonValue::Null => InternalJsonValue::Null,
        InternalJsonValue::Bool { inner } => InternalJsonValue::Bool { inner: !inner },
        InternalJsonValue::Number { inner } => {
            let op = rng.below(3);
            let n = if op == 0 {
                inner.wrapping_add(1)
            } else if op == 1 {
                inner.wrapping_sub(1)
            } else {
                let bit = rng.below(64);
                let n = inner ^ (1u64 << bit);
                assert(n != inner) by (bit_vector)
                    requires
                        n == inner ^ (1u64 << bit),
                        bit < 64,
                ;
                n
            };
            InternalJsonValue::Number { inner: n }
        },
        InternalJsonValue::String { inner } => InternalJsonValue::String {
            inner: mutate_text(&inner, budget, rng),
        },
        InternalJsonValue::Array { inner } => {
            let mut items = inner;
            let ghost before = items@;
            let op = rng.below(3);
            if (op == 0 || items.len() == 0) && budget >= 1 && items.len() < usize::MAX {
                let at = rng.index_below(items.len() + 1);
                let leaf = fresh_leaf(budget, rng);
                items.insert(at, leaf);
                proof {
                    lemma_items_insert(before, at as int, leaf);
                    assert(items@ == before.insert(at as int, leaf));
                }
            } else if items.len() > 0 {
                let at = rng.index_below(items.len());
                let child = items.remove(at);
                let ghost rest = items@;
                proof {
                    assert(before =~= rest.insert(at as int, child));
                    lemma_items_insert(rest, at as int, child);
                    lemma_cost_positive(child);
                }
                if op == 1 {
                    assert(items@ == before.remove(at as int));
                } else {
                    proof {
                        assert(decreases_to!(v0 => v0->Array_inner));
                        assert(decreases_to!(v0->Array_inner => v0->Array_inner@));
                        assert(decreases_to!(v0->Array_inner@ => before[at as int]));
                    }
                    let fresh = mutate_value(child, budget, rng);
                    items.insert(at, fresh);
                    proof {
                        lemma_items_insert(rest, at as int, fresh);
                        assert(items@ =~= before.update(at as int, fresh));
                    }
                }
            }
            InternalJsonValue::Array { inner: items }
        },
        InternalJsonValue::Object { inner } => {
            let mut entries = inner;
            let ghost before = entries@;
            let op = rng.below(4);
            if (op == 0 || entries.len() == 0) && budget >= 1 && entries.len() < usize::MAX {
                let at = rng.index_below(entries.len() + 1);
                let leaf = fresh_leaf(budget, rng);
                let entry = (String::new(), leaf);
                entries.insert(at, entry);
                proof {
                    lemma_entries_insert(before, at as int, entry);
                    assert(entries@ == before.insert(at as int, entry));
                }
            } else if entries.len() > 0 {
                let at = rng.index_below(entries.len());
                let child = entries.remove(at);
                let ghost rest = entries@;
                proof {
                    assert(before =~= rest.insert(at as int, child));
                    lemma_entries_insert(rest, at as int, child);
                    lemma_cost_positive(child.1);
                }
                if op == 1 {
                    assert(entries@ == before.remove(at as int));
                } else if op == 2 {
                    let key = mutate_text(&child.0, budget, rng);
                    let entry = (key, child.1);
                    entries.insert(at, entry);
                    proof {
                        lemma_entries_insert(rest, at as int, entry);
                        assert(entries@ =~= before.update(at as int, entry));
                    }
                } else {
                    proof {
                        assert(decreases_to!(v0 => v0->Object_inner));
                        assert(decreases_to!(v0->Object_inner => v0->Object_inner@));
                        assert(decreases_to!(v0->Object_inner@ => before[at as int]));
                        assert(decreases_to!(before[at as int] => before[at as int].1));
                    }
                    let (key, value) = child;
                    let fresh = mutate_value(value, budget, rng);
                    let entry = (key, fresh);
                    entries.insert(at, entry);
                    proof {
                        lemma_entries_insert(rest, at as int, entry);
                        assert(entries@ =~= before.update(at as int, entry));
                    }
                }
            }
            InternalJsonValue::Object { inner: entries }
        },
    }
}


/// Mutates native values by way of the internal domain, and scores them.
pub struct ValueMutator {}

/// The mutator of native values.
pub fn json_value_mutator() -> ValueMutator {
    ValueMutator {}
}

/// The growth a mutation of `v` may use under the complexity bound `max`:
/// what is left below `max`, at most `usize::MAX`.
pub open spec fn room(v: NativeValue, max: u64) -> int {
    if native_cost(v) < max {
        if max - native_cost(v) <= usize::MAX {
            max - native_cost(v)
        } else {
            usize::MAX as int
        }
    } else {
        0
    }
}

/// `usize` budget for a complexity allowance.
fn budget_of(d: u64) -> (r: usize)
    ensures
        r == (if d <= usize::MAX {
            d as int
        } else {
            usize::MAX as int
        }),
{
    if d > usize::MAX as u64 {
        usize::MAX
    } else {
        d as usize
    }
}

impl ValueMutator {
    /// Maps `value` forward, takes one mutation step whose growth keeps it
    /// within `max_cplx`, and maps it back; `None` where `value` holds a
    /// number that is negative or not an integer.
    pub fn mutate(&self, value: &NativeValue, max_cplx: u64, rng: &mut Entropy) -> (r: Option<
        NativeValue,
    >)
        ensures
            r is Some <==> representable(*value),
            r matches Some(n) ==> exists|w: InternalJsonValue, i: InternalJsonValue|
                image(w, *value, false) && image(i, n, true) && one_step(
                    w,
                    i,
                    room(*value, max_cplx),
                ),
            r matches Some(n) ==> native_cost(*value) <= max_cplx ==> native_cost(n) <= max_cplx,
    {
        let c = calculate_output_cplx(value);
        match map_serde_json_to_internal(value) {
            None => None,
            Some(w) => {
                let ghost w0 = w;
                let budget: usize = if c < max_cplx {
                    budget_of(max_cplx - c)
                } else {
                    0
                };
                proof {
                    lemma_image_cost(w0, *value, false);
                    assert(budget == room(*value, max_cplx));
                }
                let i = mutate_value(w, budget, rng);
                let n = map_internal_jv_to_serde(&i);
                proof {
                    lemma_image_cost(i, n, true);
                }
                assert(image(w0, *value, false) && image(i, n, true) && one_step(
                    w0,
                    i,
                    room(*value, max_cplx),
                ));
                Some(n)
            },
        }
    }

    /// A fresh leaf value whose complexity is at most `max_cplx`.
    pub fn generate(&self, max_cplx: u64, rng: &mut Entropy) -> (r: NativeValue)
        requires
            max_cplx >= 1,
        ensures
            representable(r),
            native_cost(r) <= max_cplx,
    {
        let leaf = fresh_leaf(budget_of(max_cplx), rng);
        let n = map_internal_jv_to_serde(&leaf);
        proof {
            lemma_image_cost(leaf, n, true);
        }
        n
    }

    /// The complexity of `value`, saturating at the largest `u64`.
    pub fn complexity(&self, value: &NativeValue) -> (r: u64)
        ensures
            r == capped(native_cost(*value)),
    {
        calculate_output_cplx(value)
    }
}

} // verus!
