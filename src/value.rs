//! The internal tree value, the native tree value it maps to and from, and
//! the complexity score of a native value.
use vstd::prelude::*;
use vstd::string::*;
use crate::grammar::push_char;

verus! {

/// The tree value on which the structural mutator works. Numbers are kept
/// to what a deserializer always accepts: unsigned 64-bit integers.
#[derive(Debug)]
pub enum InternalJsonValue {
    Null,
    Bool { inner: bool },
    Number { inner: u64 },
    String { inner: String },
    Array { inner: Vec<InternalJsonValue> },
    Object { inner: Vec<(String, InternalJsonValue)> },
}

/// A number of the consumer's native value type.
#[derive(Clone, Copy, Debug)]
pub enum NativeNumber {
    /// A non-negative integer.
    PosInt { value: u64 },
    /// A negative integer.
    NegInt { value: i64 },
    /// A finite floating-point number, held as its IEEE-754 bit pattern.
    Float { bits: u64 },
}

/// The consumer's native tree value.
#[derive(Debug)]
pub enum NativeValue {
    Null,
    Bool(bool),
    Number(NativeNumber),
    String(String),
    Array(Vec<NativeValue>),
    Object(Vec<(String, NativeValue)>),
}

/// A character that the backward mapping removes from text payloads.
pub open spec fn is_special(c: char) -> bool {
    c == '"' || c == '\\'
}

/// Text with every quote and backslash removed.
pub open spec fn sanitized(s: Seq<char>) -> Seq<char> {
    s.filter(|c: char| !is_special(c))
}

/// Removes every quote and backslash character from `string`.
pub fn remove_special_characters(string: String) -> (r: String)
    ensures
        r@ == sanitized(string@),
{
    let text = string.as_str();
    let len = text.unicode_len();
    let mut r = String::new();
    let mut k: usize = 0;
    while k < len
        invariant
            len == text@.len(),
            text@ == string@,
            k <= len,
            r@ == sanitized(text@.subrange(0, k as int)),
        decreases len - k,
    {
        let c = text.get_char(k);
        let ghost prefix = text@.subrange(0, k as int);
        if c != '"' && c != '\\' {
            push_char(&mut r, c);
        }
        proof {
            let next = text@.subrange(0, k + 1);
            assert(next.drop_last() =~= prefix);
            assert(next.last() == c);
            reveal(Seq::filter);
            assert(sanitized(next) == (if is_special(c) {
                sanitized(prefix)
            } else {
                sanitized(prefix).push(c)
            }));
        }
        k = k + 1;
    }
    proof {
        assert(text@.subrange(0, len as int) =~= string@);
    }
    r
}


/// Complexity of an internal value: one for the node itself, eight for a
/// number's payload, one per character of text, and for containers the
/// costs of what they hold (an object entry adds its key's length).
pub open spec fn cost(v: InternalJsonValue) -> int
    decreases v,
{
    match v {
        InternalJsonValue::Null => 1,
        InternalJsonValue::Bool { .. } => 1,
        InternalJsonValue::Number { .. } => 1 + 8int,
        InternalJsonValue::String { inner } => 1 + inner@.len() as int,
        InternalJsonValue::Array { inner } => 1 + cost_of_items(inner@),
        InternalJsonValue::Object { inner } => 1 + cost_of_entries(inner@),
    }
}

/// Sum of the costs of a list of internal values.
pub open spec fn cost_of_items(s: Seq<InternalJsonValue>) -> int
    decreases s,
{
    if s.len() == 0 {
        0
    } else {
        cost_of_items(s.subrange(0, s.len() - 1)) + cost(s[s.len() - 1])
    }
}

/// Sum over the entries of an internal object of key length plus value cost.
pub open spec fn cost_of_entries(s: Seq<(String, InternalJsonValue)>) -> int
    decreases s,
{
    if s.len() == 0 {
        0
    } else {
        cost_of_entries(s.subrange(0, s.len() - 1)) + s[s.len() - 1].0@.len() + cost(
            s[s.len() - 1].1,
        )
    }
}

/// Complexity of a native value, by the same rules as `cost`.
pub open spec fn native_cost(v: NativeValue) -> int
    decreases v,
{
    match v {
        NativeValue::Null => 1,
        NativeValue::Bool(_) => 1,
        NativeValue::Number(_) => 1 + 8int,
        NativeValue::String(s) => 1 + s@.len() as int,
        NativeValue::Array(items) => 1 + native_cost_of_items(items@),
        NativeValue::Object(entries) => 1 + native_cost_of_entries(entries@),
    }
}

pub open spec fn native_cost_of_items(s: Seq<NativeValue>) -> int
    decreases s,
{
    if s.len() == 0 {
        0
    } else {
        native_cost_of_items(s.subrange(0, s.len() - 1)) + native_cost(s[s.len() - 1])
    }
}

pub open spec fn native_cost_of_entries(s: Seq<(String, NativeValue)>) -> int
    decreases s,
{
    if s.len() == 0 {
        0
    } else {
        native_cost_of_entries(s.subrange(0, s.len() - 1)) + s[s.len() - 1].0@.len()
            + native_cost(s[s.len() - 1].1)
    }
}

/// Text as the native value carries it: sanitized or as it is.
pub open spec fn text_image(s: Seq<char>, strip: bool) -> Seq<char> {
    if strip {
        sanitized(s)
    } else {
        s
    }
}

/// `n` has the shape and content of `i`; when `strip` holds, every text
/// payload and key of `n` is that of `i` sanitized.
pub open spec fn image(i: InternalJsonValue, n: NativeValue, strip: bool) -> bool
    decreases i,
{
    match i {
        InternalJsonValue::Null => n is Null,
        InternalJsonValue::Bool { inner } => n matches NativeValue::Bool(b) && b == inner,
        InternalJsonValue::Number { inner } => n matches NativeValue::Number(
            NativeNumber::PosInt { value },
        ) && value == inner,
        InternalJsonValue::String { inner } => n matches NativeValue::String(t) && t@
            == text_image(inner@, strip),
        InternalJsonValue::Array { inner } => n matches NativeValue::Array(items)
            && items_image(inner@, items@, strip),
        InternalJsonValue::Object { inner } => n matches NativeValue::Object(entries)
            && entries_image(inner@, entries@, strip),
    }
}

pub open spec fn items_image(s: Seq<InternalJsonValue>, t: Seq<NativeValue>, strip: bool) -> bool
    decreases s,
{
    s.len() == t.len() && (s.len() == 0 || (items_image(
        s.subrange(0, s.len() - 1),
        t.subrange(0, t.len() - 1),
        strip,
    ) && image(s[s.len() - 1], t[t.len() - 1], strip)))
}

pub open spec fn entries_image(
    s: Seq<(String, InternalJsonValue)>,
    t: Seq<(String, NativeValue)>,
    strip: bool,
) -> bool
    decreases s,
{
    s.len() == t.len() && (s.len() == 0 || (entries_image(
        s.subrange(0, s.len() - 1),
        t.subrange(0, t.len() - 1),
        strip,
    ) && t[t.len() - 1].0@ == text_image(s[s.len() - 1].0@, strip) && image(
        s[s.len() - 1].1,
        t[t.len() - 1].1,
        strip,
    )))
}

/// Every number in `n` is a non-negative integer; when `plain` holds, no
/// text payload or key of `n` holds a quote or a backslash either.
pub open spec fn admissible(n: NativeValue, plain: bool) -> bool
    decreases n,
{
    match n {
        NativeValue::Number(num) => num is PosInt,
        NativeValue::String(s) => plain ==> sanitized(s@) == s@,
        NativeValue::Array(items) => items_admissible(items@, plain),
        NativeValue::Object(entries) => entries_admissible(entries@, plain),
        _ => true,
    }
}

pub open spec fn items_admissible(s: Seq<NativeValue>, plain: bool) -> bool
    decreases s,
{
    s.len() == 0 || (items_admissible(s.subrange(0, s.len() - 1), plain) && admissible(
        s[s.len() - 1],
        plain,
    ))
}

pub open spec fn entries_admissible(s: Seq<(String, NativeValue)>, plain: bool) -> bool
    decreases s,
{
    s.len() == 0 || (entries_admissible(s.subrange(0, s.len() - 1), plain) && (plain
        ==> sanitized(s[s.len() - 1].0@) == s[s.len() - 1].0@) && admissible(
        s[s.len() - 1].1,
        plain,
    ))
}

/// Two native values hold the same document: same shape and order, equal
/// booleans, numbers, text and keys.
pub open spec fn same_content(a: NativeValue, b: NativeValue) -> bool
    decreases a,
{
    match a {
        NativeValue::Null => b is Null,
        NativeValue::Bool(x) => b matches NativeValue::Bool(y) && x == y,
        NativeValue::Number(x) => b matches NativeValue::Number(y) && x == y,
        NativeValue::String(x) => b matches NativeValue::String(y) && x@ == y@,
        NativeValue::Array(xs) => b matches NativeValue::Array(ys) && same_items(xs@, ys@),
        NativeValue::Object(xs) => b matches NativeValue::Object(ys) && same_entries(xs@, ys@),
    }
}

pub open spec fn same_items(s: Seq<NativeValue>, t: Seq<NativeValue>) -> bool
    decreases s,
{
    s.len() == t.len() && (s.len() == 0 || (same_items(
        s.subrange(0, s.len() - 1),
        t.subrange(0, t.len() - 1),
    ) && same_content(s[s.len() - 1], t[t.len() - 1])))
}

pub open spec fn same_entries(s: Seq<(String, NativeValue)>, t: Seq<(String, NativeValue)>) -> bool
    decreases s,
{
    s.len() == t.len() && (s.len() == 0 || (same_entries(
        s.subrange(0, s.len() - 1),
        t.subrange(0, t.len() - 1),
    ) && s[s.len() - 1].0@ == t[t.len() - 1].0@ && same_content(
        s[s.len() - 1].1,
        t[t.len() - 1].1,
    )))
}

/// A native value that the internal domain can hold.
pub open spec fn representable(n: NativeValue) -> bool {
    admissible(n, false)
}


/// Maps a native value into the internal domain, or gives `None` when some
/// number in it is negative or not an integer.
pub fn map_serde_json_to_internal(value: &NativeValue) -> (r: Option<InternalJsonValue>)
    ensures
        r is Some <==> representable(*value),
        r matches Some(i) ==> image(i, *value, false),
    decreases value,
{
    match value {
        NativeValue::Null => Some(InternalJsonValue::Null),
        NativeValue::Bool(b) => Some(InternalJsonValue::Bool { inner: *b }),
        NativeValue::Number(n) => match n {
            NativeNumber::PosInt { value } => Some(InternalJsonValue::Number { inner: *value }),
            _ => None,
        },
        NativeValue::String(s) => Some(InternalJsonValue::String { inner: s.clone() }),
        NativeValue::Array(items) => {
            let mut out: Vec<InternalJsonValue> = Vec::new();
            let mut k: usize = 0;
            while k < items.len()
                invariant
                    *value == NativeValue::Array(*items),
                    k <= items@.len(),
                    out@.len() == k,
                    items_image(out@, items@.subrange(0, k as int), false),
                    items_admissible(items@.subrange(0, k as int), false),
                decreases items@.len() - k,
            {
                proof {
                    assert(decreases_to!(*value => value->Array_0));
                    assert(decreases_to!(*items => items@));
                    assert(decreases_to!(items@ => items@[k as int]));
                    assert(decreases_to!(*value => items@[k as int]));
                }
                let m = map_serde_json_to_internal(&items[k]);
                match m {
                    Some(i) => {
                        let ghost prev = out@;
                        out.push(i);
                        proof {
                            assert(out@.subrange(0, k as int) =~= prev);
                            assert(items@.subrange(0, k + 1).subrange(0, k as int) =~= items@.subrange(0, k as int));
                        }
                        k = k + 1;
                    },
                    None => {
                        proof {
                            lemma_items_admissible_index(items@, k as int, false);
                            assert(!items_admissible(items@, false));
                        }
                        return None;
                    },
                }
            }
            proof {
                assert(items@.subrange(0, k as int) =~= items@);
            }
            Some(InternalJsonValue::Array { inner: out })
        },
        NativeValue::Object(entries) => {
            let mut out: Vec<(String, InternalJsonValue)> = Vec::new();
            let mut k: usize = 0;
            while k < entries.len()
                invariant
                    *value == NativeValue::Object(*entries),
                    k <= entries@.len(),
                    out@.len() == k,
                    entries_image(out@, entries@.subrange(0, k as int), false),
                    entries_admissible(entries@.subrange(0, k as int), false),
                decreases entries@.len() - k,
            {
                let entry = &entries[k];
                proof {
                    assert(decreases_to!(*value => value->Object_0));
                    assert(decreases_to!(*entries => entries@));
                    assert(decreases_to!(entries@ => entries@[k as int]));
                    assert(decreases_to!(entries@[k as int] => entries@[k as int].1));
                    assert(decreases_to!(*value => entries@[k as int].1));
                }
                let m = map_serde_json_to_internal(&entry.1);
                match m {
                    Some(i) => {
                        let ghost prev = out@;
                        out.push((entry.0.clone(), i));
                        proof {
                            assert(out@.subrange(0, k as int) =~= prev);
                            assert(entries@.subrange(0, k + 1).subrange(0, k as int) =~= entries@.subrange(0, k as int));
                        }
                        k = k + 1;
                    },
                    None => {
                        proof {
                            lemma_entries_admissible_index(entries@, k as int, false);
                            assert(!entries_admissible(entries@, false));
                        }
                        return None;
                    },
                }
            }
            proof {
                assert(entries@.subrange(0, k as int) =~= entries@);
            }
            Some(InternalJsonValue::Object { inner: out })
        },
    }
}

/// An element of an admissible list is admissible.
proof fn lemma_items_admissible_index(s: Seq<NativeValue>, k: int, plain: bool)
    requires
        0 <= k < s.len(),
    ensures
        items_admissible(s, plain) ==> admissible(s[k], plain),
    decreases s.len(),
{
    if k < s.len() - 1 {
        lemma_items_admissible_index(s.subrange(0, s.len() - 1), k, plain);
    }
}

/// The value of an entry of an admissible entry list is admissible.
proof fn lemma_entries_admissible_index(s: Seq<(String, NativeValue)>, k: int, plain: bool)
    requires
        0 <= k < s.len(),
    ensures
        entries_admissible(s, plain) ==> admissible(s[k].1, plain),
    decreases s.len(),
{
    if k < s.len() - 1 {
        lemma_entries_admissible_index(s.subrange(0, s.len() - 1), k, plain);
    }
}

/// Maps an internal value to a native one, removing quotes and backslashes
/// from every text payload and key.
pub fn map_internal_jv_to_serde(internal: &InternalJsonValue) -> (r: NativeValue)
    ensures
        image(*internal, r, true),
    decreases internal,
{
    match internal {
        InternalJsonValue::Null => NativeValue::Null,
        InternalJsonValue::Bool { inner } => NativeValue::Bool(*inner),
        InternalJsonValue::Number { inner } => NativeValue::Number(
            NativeNumber::PosInt { value: *inner },
        ),
        InternalJsonValue::String { inner } => NativeValue::String(
            remove_special_characters(inner.clone()),
        ),
        InternalJsonValue::Array { inner } => {
            let mut out: Vec<NativeValue> = Vec::new();
            let mut k: usize = 0;
            while k < inner.len()
                invariant
                    *internal == (InternalJsonValue::Array { inner: *inner }),
                    k <= inner@.len(),
                    out@.len() == k,
                    items_image(inner@.subrange(0, k as int), out@, true),
                decreases inner@.len() - k,
            {
                proof {
                    assert(decreases_to!(*internal => internal->Array_inner));
                    assert(decreases_to!(*inner => inner@));
                    assert(decreases_to!(inner@ => inner@[k as int]));
                    assert(decreases_to!(*internal => inner@[k as int]));
                }
                let n = map_internal_jv_to_serde(&inner[k]);
                let ghost prev = out@;
                out.push(n);
                proof {
                    assert(out@.subrange(0, k as int) =~= prev);
                    assert(inner@.subrange(0, k + 1).subrange(0, k as int) =~= inner@.subrange(0, k as int));
                }
                k = k + 1;
            }
            proof {
                assert(inner@.subrange(0, k as int) =~= inner@);
            }
            NativeValue::Array(out)
        },
        InternalJsonValue::Object { inner } => {
            let mut out: Vec<(String, NativeValue)> = Vec::new();
            let mut k: usize = 0;
            while k < inner.len()
                invariant
                    *internal == (InternalJsonValue::Object { inner: *inner }),
                    k <= inner@.len(),
                    out@.len() == k,
                    entries_image(inner@.subrange(0, k as int), out@, true),
                decreases inner@.len() - k,
            {
                let entry = &inner[k];
                proof {
                    assert(decreases_to!(*internal => internal->Object_inner));
                    assert(decreases_to!(*inner => inner@));
                    assert(decreases_to!(inner@ => inner@[k as int]));
                    assert(decreases_to!(inner@[k as int] => inner@[k as int].1));
                    assert(decreases_to!(*internal => inner@[k as int].1));
                }
                let n = map_internal_jv_to_serde(&entry.1);
                let key = remove_special_characters(entry.0.clone());
                let ghost prev = out@;
                out.push((key, n));
                proof {
                    assert(out@.subrange(0, k as int) =~= prev);
                    assert(inner@.subrange(0, k + 1).subrange(0, k as int) =~= inner@.subrange(0, k as int));
                }
                k = k + 1;
            }
            proof {
                assert(inner@.subrange(0, k as int) =~= inner@);
            }
            NativeValue::Object(out)
        },
    }
}


/// `c` capped at the largest `u64`.
pub open spec fn capped(c: int) -> int {
    if c <= u64::MAX {
        c
    } else {
        u64::MAX as int
    }
}

/// The complexity of a native value, saturating at the largest `u64`.
pub fn calculate_output_cplx(input: &NativeValue) -> (r: u64)
    ensures
        r == capped(native_cost(*input)),
        native_cost(*input) >= 1,
    decreases input,
{
    match input {
        NativeValue::Null => 1,
        NativeValue::Bool(_) => 1,
        NativeValue::Number(_) => 1 + 8,
        NativeValue::String(s) => (s.as_str().unicode_len() as u64).saturating_add(1),
        NativeValue::Array(items) => {
            let mut acc: u64 = 1;
            let mut k: usize = 0;
            while k < items.len()
                invariant
                    *input == NativeValue::Array(*items),
                    k <= items@.len(),
                    native_cost_of_items(items@.subrange(0, k as int)) >= 0,
                    acc == capped(1 + native_cost_of_items(items@.subrange(0, k as int))),
                decreases items@.len() - k,
            {
                proof {
                    assert(decreases_to!(*input => input->Array_0));
                    assert(decreases_to!(*items => items@));
                    assert(decreases_to!(items@ => items@[k as int]));
                    assert(decreases_to!(*input => items@[k as int]));
                }
                let c = calculate_output_cplx(&items[k]);
                acc = acc.saturating_add(c);
                proof {
                    assert(items@.subrange(0, k + 1).subrange(0, k as int) =~= items@.subrange(0, k as int));
                }
                k = k + 1;
            }
            proof {
                assert(items@.subrange(0, k as int) =~= items@);
            }
            acc
        },
        NativeValue::Object(entries) => {
            let mut acc: u64 = 1;
            let mut k: usize = 0;
            while k < entries.len()
                invariant
                    *input == NativeValue::Object(*entries),
                    k <= entries@.len(),
                    native_cost_of_entries(entries@.subrange(0, k as int)) >= 0,
                    acc == capped(1 + native_cost_of_entries(entries@.subrange(0, k as int))),
                decreases entries@.len() - k,
            {
                proof {
                    assert(decreases_to!(*input => input->Object_0));
                    assert(decreases_to!(*entries => entries@));
                    assert(decreases_to!(entries@ => entries@[k as int]));
                    assert(decreases_to!(entries@[k as int] => entries@[k as int].1));
                    assert(decreases_to!(*input => entries@[k as int].1));
                }
                let entry = &entries[k];
                let c = calculate_output_cplx(&entry.1);
                let key_len = entry.0.as_str().unicode_len() as u64;
                acc = acc.saturating_add(key_len).saturating_add(c);
                proof {
                    assert(entries@.subrange(0, k + 1).subrange(0, k as int) =~= entries@.subrange(0, k as int));
                }
                k = k + 1;
            }
            proof {
                assert(entries@.subrange(0, k as int) =~= entries@);
            }
            acc
        },
    }
}


proof fn lemma_sanitized_len(s: Seq<char>)
    ensures
        sanitized(s).len() <= s.len(),
{
    broadcast use Seq::lemma_filter_len;

}

/// A native image of `v` is representable, and costs no more than `v`;
/// exactly as much where no text was sanitized.
pub(crate) proof fn lemma_image_cost(v: InternalJsonValue, n: NativeValue, strip: bool)
    requires
        image(v, n, strip),
    ensures
        representable(n),
        native_cost(n) <= cost(v),
        !strip ==> native_cost(n) == cost(v),
    decreases v,
{
    match v {
        InternalJsonValue::String { inner } => {
            lemma_sanitized_len(inner@);
        },
        InternalJsonValue::Array { inner } => {
            lemma_items_image_cost(inner@, n->Array_0@, strip);
        },
        InternalJsonValue::Object { inner } => {
            lemma_entries_image_cost(inner@, n->Object_0@, strip);
        },
        _ => {},
    }
}

proof fn lemma_items_image_cost(s: Seq<InternalJsonValue>, t: Seq<NativeValue>, strip: bool)
    requires
        items_image(s, t, strip),
    ensures
        items_admissible(t, false),
        native_cost_of_items(t) <= cost_of_items(s),
        !strip ==> native_cost_of_items(t) == cost_of_items(s),
    decreases s,
{
    if s.len() > 0 {
        lemma_items_image_cost(s.subrange(0, s.len() - 1), t.subrange(0, t.len() - 1), strip);
        lemma_image_cost(s[s.len() - 1], t[t.len() - 1], strip);
    }
}

proof fn lemma_entries_image_cost(
    s: Seq<(String, InternalJsonValue)>,
    t: Seq<(String, NativeValue)>,
    strip: bool,
)
    requires
        entries_image(s, t, strip),
    ensures
        entries_admissible(t, false),
        native_cost_of_entries(t) <= cost_of_entries(s),
        !strip ==> native_cost_of_entries(t) == cost_of_entries(s),
    decreases s,
{
    if s.len() > 0 {
        lemma_entries_image_cost(s.subrange(0, s.len() - 1), t.subrange(0, t.len() - 1), strip);
        lemma_image_cost(s[s.len() - 1].1, t[t.len() - 1].1, strip);
        lemma_sanitized_len(s[s.len() - 1].0@);
    }
}

/// Mapping an internal value `v` backward to `n` and then forward again
/// always succeeds, and what comes back costs no more than `v`:
/// sanitization never adds content.
pub proof fn lemma_backward_then_forward(v: InternalJsonValue, n: NativeValue, w: InternalJsonValue)
    requires
        image(v, n, true),
    ensures
        representable(n),
        image(w, n, false) ==> cost(w) <= cost(v),
{
    lemma_image_cost(v, n, true);
    if image(w, n, false) {
        lemma_image_cost(w, n, false);
    }
}

/// Text without quotes or backslashes is its own sanitized form, so the
/// backward image of an internal value read from a plain native value
/// carries the same text as that native value.
proof fn lemma_plain_image(i: InternalJsonValue, n: NativeValue, m: NativeValue)
    requires
        image(i, n, false),
        admissible(n, true),
        image(i, m, true),
    ensures
        image(i, m, false),
    decreases i,
{
    match i {
        InternalJsonValue::Array { inner } => {
            lemma_items_plain_image(inner@, n->Array_0@, m->Array_0@);
        },
        InternalJsonValue::Object { inner } => {
            lemma_entries_plain_image(inner@, n->Object_0@, m->Object_0@);
        },
        _ => {},
    }
}

proof fn lemma_items_plain_image(s: Seq<InternalJsonValue>, t: Seq<NativeValue>, u: Seq<NativeValue>)
    requires
        items_image(s, t, false),
        items_admissible(t, true),
        items_image(s, u, true),
    ensures
        items_image(s, u, false),
    decreases s,
{
    if s.len() > 0 {
        lemma_items_plain_image(
            s.subrange(0, s.len() - 1),
            t.subrange(0, t.len() - 1),
            u.subrange(0, u.len() - 1),
        );
        lemma_plain_image(s[s.len() - 1], t[t.len() - 1], u[u.len() - 1]);
    }
}

proof fn lemma_entries_plain_image(
    s: Seq<(String, InternalJsonValue)>,
    t: Seq<(String, NativeValue)>,
    u: Seq<(String, NativeValue)>,
)
    requires
        entries_image(s, t, false),
        entries_admissible(t, true),
        entries_image(s, u, true),
    ensures
        entries_image(s, u, false),
    decreases s,
{
    if s.len() > 0 {
        lemma_entries_plain_image(
            s.subrange(0, s.len() - 1),
            t.subrange(0, t.len() - 1),
            u.subrange(0, u.len() - 1),
        );
        lemma_plain_image(s[s.len() - 1].1, t[t.len() - 1].1, u[u.len() - 1].1);
    }
}

/// A native value `n` whose numbers are non-negative integers and whose
/// text holds no quote or backslash survives forward-then-backward mapping:
/// where `i` is its forward image and `m` the backward image of `i`, `m`
/// holds the same document as `n`, so both serialize alike.
pub proof fn lemma_forward_then_backward(n: NativeValue, i: InternalJsonValue, m: NativeValue)
    requires
        admissible(n, true),
        image(i, n, false),
        image(i, m, true),
    ensures
        representable(n),
        same_content(m, n),
{
    lemma_admissible_plain(n);
    lemma_plain_image(i, n, m);
    lemma_images_same(i, m, n);
}

/// Two exact images of one internal value hold the same document.
proof fn lemma_images_same(i: InternalJsonValue, a: NativeValue, b: NativeValue)
    requires
        image(i, a, false),
        image(i, b, false),
    ensures
        same_content(a, b),
    decreases i,
{
    match i {
        InternalJsonValue::Array { inner } => {
            lemma_items_images_same(inner@, a->Array_0@, b->Array_0@);
        },
        InternalJsonValue::Object { inner } => {
            lemma_entries_images_same(inner@, a->Object_0@, b->Object_0@);
        },
        _ => {},
    }
}

proof fn lemma_items_images_same(s: Seq<InternalJsonValue>, t: Seq<NativeValue>, u: Seq<NativeValue>)
    requires
        items_image(s, t, false),
        items_image(s, u, false),
    ensures
        same_items(t, u),
    decreases s,
{
    if s.len() > 0 {
        lemma_items_images_same(
            s.subrange(0, s.len() - 1),
            t.subrange(0, t.len() - 1),
            u.subrange(0, u.len() - 1),
        );
        lemma_images_same(s[s.len() - 1], t[t.len() - 1], u[u.len() - 1]);
    }
}

proof fn lemma_entries_images_same(
    s: Seq<(String, InternalJsonValue)>,
    t: Seq<(String, NativeValue)>,
    u: Seq<(String, NativeValue)>,
)
    requires
        entries_image(s, t, false),
        entries_image(s, u, false),
    ensures
        same_entries(t, u),
    decreases s,
{
    if s.len() > 0 {
        lemma_entries_images_same(
            s.subrange(0, s.len() - 1),
            t.subrange(0, t.len() - 1),
            u.subrange(0, u.len() - 1),
        );
        lemma_images_same(s[s.len() - 1].1, t[t.len() - 1].1, u[u.len() - 1].1);
    }
}

proof fn lemma_admissible_plain(n: NativeValue)
    requires
        admissible(n, true),
    ensures
        admissible(n, false),
    decreases n,
{
    match n {
        NativeValue::Array(items) => lemma_items_admissible_plain(items@),
        NativeValue::Object(entries) => lemma_entries_admissible_plain(entries@),
        _ => {},
    }
}

proof fn lemma_items_admissible_plain(s: Seq<NativeValue>)
    requires
        items_admissible(s, true),
    ensures
        items_admissible(s, false),
    decreases s,
{
    if s.len() > 0 {
        lemma_items_admissible_plain(s.subrange(0, s.len() - 1));
        lemma_admissible_plain(s[s.len() - 1]);
    }
}

proof fn lemma_entries_admissible_plain(s: Seq<(String, NativeValue)>)
    requires
        entries_admissible(s, true),
    ensures
        entries_admissible(s, false),
    decreases s,
{
    if s.len() > 0 {
        lemma_entries_admissible_plain(s.subrange(0, s.len() - 1));
        lemma_admissible_plain(s[s.len() - 1].1);
    }
}

proof fn lemma_native_cost_positive(n: NativeValue)
    ensures
        native_cost(n) >= 1,
    decreases n,
{
    match n {
        NativeValue::Array(items) => lemma_native_items_cost_nonneg(items@),
        NativeValue::Object(entries) => lemma_native_entries_cost_nonneg(entries@),
        _ => {},
    }
}

proof fn lemma_native_items_cost_nonneg(s: Seq<NativeValue>)
    ensures
        native_cost_of_items(s) >= 0,
    decreases s,
{
    if s.len() > 0 {
        lemma_native_items_cost_nonneg(s.subrange(0, s.len() - 1));
        lemma_native_cost_positive(s[s.len() - 1]);
    }
}

proof fn lemma_native_entries_cost_nonneg(s: Seq<(String, NativeValue)>)
    ensures
        native_cost_of_entries(s) >= 0,
    decreases s,
{
    if s.len() > 0 {
        lemma_native_entries_cost_nonneg(s.subrange(0, s.len() - 1));
        lemma_native_cost_positive(s[s.len() - 1].1);
    }
}

proof fn lemma_items_insert_cost(s: Seq<NativeValue>, k: int, x: NativeValue)
    requires
        0 <= k <= s.len(),
    ensures
        native_cost_of_items(s.insert(k, x)) == native_cost_of_items(s) + native_cost(x),
    decreases s.len(),
{
    let t = s.insert(k, x);
    if k == s.len() {
        assert(t.subrange(0, t.len() - 1) =~= s);
    } else {
        let d = s.subrange(0, s.len() - 1);
        lemma_items_insert_cost(d, k, x);
        assert(t.subrange(0, t.len() - 1) =~= d.insert(k, x));
    }
}

proof fn lemma_entries_insert_cost(s: Seq<(String, NativeValue)>, k: int, x: (String, NativeValue))
    requires
        0 <= k <= s.len(),
    ensures
        native_cost_of_entries(s.insert(k, x)) == native_cost_of_entries(s) + x.0@.len()
            + native_cost(x.1),
    decreases s.len(),
{
    let t = s.insert(k, x);
    if k == s.len() {
        assert(t.subrange(0, t.len() - 1) =~= s);
    } else {
        let d = s.subrange(0, s.len() - 1);
        lemma_entries_insert_cost(d, k, x);
        assert(t.subrange(0, t.len() - 1) =~= d.insert(k, x));
    }
}

/// Inserting one element anywhere in an array strictly raises its cost.
pub proof fn lemma_array_insert_raises_cost(a: NativeValue, b: NativeValue, k: int, x: NativeValue)
    requires
        a is Array,
        b is Array,
        0 <= k <= a->Array_0@.len(),
        b->Array_0@ == a->Array_0@.insert(k, x),
    ensures
        native_cost(b) > native_cost(a),
{
    lemma_items_insert_cost(a->Array_0@, k, x);
    lemma_native_cost_positive(x);
}

/// Inserting one entry anywhere in an object strictly raises its cost.
pub proof fn lemma_object_insert_raises_cost(
    a: NativeValue,
    b: NativeValue,
    k: int,
    x: (String, NativeValue),
)
    requires
        a is Object,
        b is Object,
        0 <= k <= a->Object_0@.len(),
        b->Object_0@ == a->Object_0@.insert(k, x),
    ensures
        native_cost(b) > native_cost(a),
{
    lemma_entries_insert_cost(a->Object_0@, k, x);
    lemma_native_cost_positive(x.1);
}

} // verus!
