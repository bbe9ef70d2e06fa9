use vstd::prelude::*;
use crate::distinct::{lemma_paths_distinct, plain_keys};
use vstd::string::StringExecFns;

verus! {

broadcast use vstd::std_specs::vec::group_vec_axioms;

/// A parsed, nested document.
#[derive(Debug, PartialEq, Eq)]
pub enum Document {
    Null,
    Bool(bool),
    /// A number, kept as the text it was written with.
    Number(String),
    String(String),
    Sequence(Vec<Document>),
    /// Key/value pairs in the order they were written.
    Mapping(Vec<(String, Document)>),
}

/// A terminal (non-container) value.
#[derive(Debug, PartialEq, Eq)]
pub enum Primitive {
    Null,
    Bool(bool),
    Number(String),
    String(String),
}

/// One terminal value with the address it has in its document.
#[derive(Debug, PartialEq, Eq)]
pub struct Leaf {
    pub path: String,
    pub value: Primitive,
}

pub open spec fn digit_char(d: nat) -> char {
    if d == 0 {
        '0'
    } else if d == 1 {
        '1'
    } else if d == 2 {
        '2'
    } else if d == 3 {
        '3'
    } else if d == 4 {
        '4'
    } else if d == 5 {
        '5'
    } else if d == 6 {
        '6'
    } else if d == 7 {
        '7'
    } else if d == 8 {
        '8'
    } else {
        '9'
    }
}

/// The decimal digits of `n`, most significant first, without leading zeros.
pub open spec fn decimal(n: nat) -> Seq<char>
    decreases n,
{
    if n < 10 {
        seq![digit_char(n)]
    } else {
        decimal(n / 10) + seq![digit_char(n % 10)]
    }
}

/// The path segment that addresses element `i` of a sequence: `[i]`.
pub open spec fn index_segment(i: nat) -> Seq<char> {
    seq!['['] + decimal(i) + seq![']']
}

/// The path segment that addresses key `k` of a mapping: `.k`.
pub open spec fn key_segment(k: Seq<char>) -> Seq<char> {
    seq!['.'] + k
}

/// The leaves of `d`, in document order, each path starting with `prefix`.
pub open spec fn flat(prefix: Seq<char>, d: Document) -> Seq<(Seq<char>, Primitive)>
    decreases d, 0nat,
{
    match d {
        Document::Null => seq![(prefix, Primitive::Null)],
        Document::Bool(b) => seq![(prefix, Primitive::Bool(b))],
        Document::Number(n) => seq![(prefix, Primitive::Number(n))],
        Document::String(s) => seq![(prefix, Primitive::String(s))],
        Document::Sequence(v) => flat_items(prefix, v@, v@.len()),
        Document::Mapping(m) => flat_entries(prefix, m@, m@.len()),
    }
}

/// The leaves of the first `n` elements of a sequence.
pub open spec fn flat_items(prefix: Seq<char>, items: Seq<Document>, n: nat) -> Seq<
    (Seq<char>, Primitive),
>
    decreases items, n,
{
    if n == 0 || n > items.len() {
        seq![]
    } else {
        let i = (n - 1) as nat;
        flat_items(prefix, items, i) + flat(prefix + index_segment(i), items[i as int])
    }
}

/// The leaves of the first `n` entries of a mapping.
pub open spec fn flat_entries(prefix: Seq<char>, entries: Seq<(String, Document)>, n: nat) -> Seq<
    (Seq<char>, Primitive),
>
    decreases entries, n,
{
    if n == 0 || n > entries.len() {
        seq![]
    } else {
        let i = (n - 1) as nat;
        flat_entries(prefix, entries, i) + flat(
            prefix + key_segment(entries[i as int].0@),
            entries[i as int].1,
        )
    }
}

/// The number of terminal values reachable in `d`.
pub open spec fn terminal_count(d: Document) -> nat
    decreases d, 0nat,
{
    match d {
        Document::Sequence(v) => items_terminal_count(v@, v@.len()),
        Document::Mapping(m) => entries_terminal_count(m@, m@.len()),
        _ => 1,
    }
}

/// The number of terminal values reachable in the first `n` elements of a sequence.
pub open spec fn items_terminal_count(items: Seq<Document>, n: nat) -> nat
    decreases items, n,
{
    if n == 0 || n > items.len() {
        0
    } else {
        let i = (n - 1) as nat;
        items_terminal_count(items, i) + terminal_count(items[i as int])
    }
}

/// The number of terminal values reachable in the first `n` entries of a mapping.
pub open spec fn entries_terminal_count(entries: Seq<(String, Document)>, n: nat) -> nat
    decreases entries, n,
{
    if n == 0 || n > entries.len() {
        0
    } else {
        let i = (n - 1) as nat;
        entries_terminal_count(entries, i) + terminal_count(entries[i as int].1)
    }
}

/// Flattening emits one leaf for each terminal value of the document, whatever
/// the prefix.
pub proof fn lemma_leaf_count(prefix: Seq<char>, d: Document)
    ensures
        flat(prefix, d).len() == terminal_count(d),
    decreases d, 0nat,
{
    match d {
        Document::Sequence(v) => lemma_items_leaf_count(prefix, v@, v@.len()),
        Document::Mapping(m) => lemma_entries_leaf_count(prefix, m@, m@.len()),
        _ => {},
    }
}

proof fn lemma_items_leaf_count(prefix: Seq<char>, items: Seq<Document>, n: nat)
    ensures
        flat_items(prefix, items, n).len() == items_terminal_count(items, n),
    decreases items, n,
{
    if n > 0 && n <= items.len() {
        let i = (n - 1) as nat;
        lemma_items_leaf_count(prefix, items, i);
        lemma_leaf_count(prefix + index_segment(i), items[i as int]);
    }
}

proof fn lemma_entries_leaf_count(prefix: Seq<char>, entries: Seq<(String, Document)>, n: nat)
    ensures
        flat_entries(prefix, entries, n).len() == entries_terminal_count(entries, n),
    decreases entries, n,
{
    if n > 0 && n <= entries.len() {
        let i = (n - 1) as nat;
        lemma_entries_leaf_count(prefix, entries, i);
        lemma_leaf_count(prefix + key_segment(entries[i as int].0@), entries[i as int].1);
    }
}

/// What a list of leaves holds: each path's text and its value.
pub open spec fn leaf_views(leaves: Seq<Leaf>) -> Seq<(Seq<char>, Primitive)> {
    leaves.map_values(|l: Leaf| (l.path@, l.value))
}

fn digit_str(d: usize) -> (r: &'static str)
    requires
        d < 10,
    ensures
        r@ == seq![digit_char(d as nat)],
{
    if d == 0 {
        proof { reveal_strlit("0"); }
        "0"
    } else if d == 1 {
        proof { reveal_strlit("1"); }
        "1"
    } else if d == 2 {
        proof { reveal_strlit("2"); }
        "2"
    } else if d == 3 {
        proof { reveal_strlit("3"); }
        "3"
    } else if d == 4 {
        proof { reveal_strlit("4"); }
        "4"
    } else if d == 5 {
        proof { reveal_strlit("5"); }
        "5"
    } else if d == 6 {
        proof { reveal_strlit("6"); }
        "6"
    } else if d == 7 {
        proof { reveal_strlit("7"); }
        "7"
    } else if d == 8 {
        proof { reveal_strlit("8"); }
        "8"
    } else {
        proof { reveal_strlit("9"); }
        "9"
    }
}

/// Appends the decimal digits of `n` to `s`.
pub fn push_decimal(s: &mut String, n: usize)
    ensures
        final(s)@ == old(s)@ + decimal(n as nat),
    decreases n,
{
    if n >= 10 {
        push_decimal(s, n / 10);
    }
    s.append(digit_str(n % 10));
    proof {
        if n >= 10 {
            assert(old(s)@ + decimal((n / 10) as nat) + seq![digit_char((n % 10) as nat)] =~= old(
                s,
            )@ + decimal(n as nat));
        }
    }
}

/// The path of element `i` of the sequence found at `prefix`.
pub fn index_path(prefix: &String, i: usize) -> (r: String)
    ensures
        r@ == prefix@ + index_segment(i as nat),
{
    let mut r = prefix.clone();
    r.append("[");
    push_decimal(&mut r, i);
    r.append("]");
    proof {
        reveal_strlit("[");
        reveal_strlit("]");
        assert(r@ =~= prefix@ + index_segment(i as nat));
    }
    r
}

/// The path of key `key` of the mapping found at `prefix`.
pub fn key_path(prefix: &String, key: &String) -> (r: String)
    ensures
        r@ == prefix@ + key_segment(key@),
{
    let mut r = prefix.clone();
    r.append(".");
    r.append(key.as_str());
    proof {
        reveal_strlit(".");
        assert(r@ =~= prefix@ + key_segment(key@));
    }
    r
}

fn flatten_ref(prefix: &String, acc: &mut Vec<Leaf>, d: &Document)
    ensures
        leaf_views(final(acc)@) == leaf_views(old(acc)@) + flat(prefix@, *d),
    decreases d,
{
    let ghost start = acc@;
    match d {
        Document::Null => {
            acc.push(Leaf { path: prefix.clone(), value: Primitive::Null });
            assert(leaf_views(acc@) =~= leaf_views(start) + flat(prefix@, *d));
        },
        Document::Bool(b) => {
            acc.push(Leaf { path: prefix.clone(), value: Primitive::Bool(*b) });
            assert(leaf_views(acc@) =~= leaf_views(start) + flat(prefix@, *d));
        },
        Document::Number(n) => {
            acc.push(Leaf { path: prefix.clone(), value: Primitive::Number(n.clone()) });
            assert(leaf_views(acc@) =~= leaf_views(start) + flat(prefix@, *d));
        },
        Document::String(s) => {
            acc.push(Leaf { path: prefix.clone(), value: Primitive::String(s.clone()) });
            assert(leaf_views(acc@) =~= leaf_views(start) + flat(prefix@, *d));
        },
        Document::Sequence(v) => {
            let mut i: usize = 0;
            while i < v.len()
                invariant
                    i <= v.len(),
                    *d == Document::Sequence(*v),
                    leaf_views(acc@) == leaf_views(start) + flat_items(prefix@, v@, i as nat),
                decreases v.len() - i,
            {
                let child = index_path(prefix, i);
                proof {
                    assert(decreases_to!(*d => d->Sequence_0));
                    assert(decreases_to!(*v => v[i as int]));
                    assert(decreases_to!(*d => v[i as int]));
                }
                flatten_ref(&child, acc, &v[i]);
                assert(leaf_views(acc@) =~= leaf_views(start) + flat_items(
                    prefix@,
                    v@,
                    (i + 1) as nat,
                ));
                i = i + 1;
            }
        },
        Document::Mapping(m) => {
            let mut i: usize = 0;
            while i < m.len()
                invariant
                    i <= m.len(),
                    *d == Document::Mapping(*m),
                    leaf_views(acc@) == leaf_views(start) + flat_entries(prefix@, m@, i as nat),
                decreases m.len() - i,
            {
                let child = key_path(prefix, &m[i].0);
                proof {
                    assert(decreases_to!(*d => d->Mapping_0));
                    assert(decreases_to!(*m => m[i as int]));
                    assert(decreases_to!(m[i as int] => m[i as int].1));
                    assert(decreases_to!(*d => m[i as int].1));
                }
                flatten_ref(&child, acc, &m[i].1);
                assert(leaf_views(acc@) =~= leaf_views(start) + flat_entries(
                    prefix@,
                    m@,
                    (i + 1) as nat,
                ));
                i = i + 1;
            }
        },
    }
}

/// Appends the leaves of `value` to `acc`, in document order, each path
/// starting with `prefix`.
pub fn flatten(prefix: String, acc: &mut Vec<Leaf>, value: Document)
    ensures
        leaf_views(final(acc)@) == leaf_views(old(acc)@) + flat(prefix@, value),
{
    flatten_ref(&prefix, acc, &value);
}

/// The leaves of a whole document.
#[derive(Debug, PartialEq, Eq)]
pub struct Intercepted {
    pub leaves: Vec<Leaf>,
}

impl Intercepted {
    /// Flattens `value` from its root, whose path is the empty text.
    pub fn from_document(value: Document) -> (r: Intercepted)
        ensures
            leaf_views(r.leaves@) == flat(Seq::empty(), value),
            r.leaves@.len() == terminal_count(value),
            plain_keys(value) ==> forall|a: int, b: int|
                0 <= a < b < r.leaves@.len() ==> #[trigger] r.leaves@[a].path@
                    != #[trigger] r.leaves@[b].path@,
    {
        let mut acc: Vec<Leaf> = Vec::new();
        flatten(String::new(), &mut acc, value);
        proof {
            assert(leaf_views(Seq::<Leaf>::empty()) =~= Seq::empty());
            assert(flat(Seq::empty(), value) =~= leaf_views(acc@));
            lemma_leaf_count(Seq::empty(), value);
            if plain_keys(value) {
                lemma_paths_distinct(Seq::empty(), value);
                assert forall|a: int, b: int| 0 <= a < b < acc@.len() implies #[trigger] acc@[a].path@
                    != #[trigger] acc@[b].path@ by {
                    assert(leaf_views(acc@)[a].0 == acc@[a].path@);
                    assert(leaf_views(acc@)[b].0 == acc@[b].path@);
                }
            }
        }
        Intercepted { leaves: acc }
    }
}

/// How a terminal value is displayed.
pub open spec fn primitive_text(p: Primitive) -> Seq<char> {
    match p {
        Primitive::Null => seq!['n', 'u', 'l', 'l'],
        Primitive::Bool(b) => if b {
            seq!['t', 'r', 'u', 'e']
        } else {
            seq!['f', 'a', 'l', 's', 'e']
        },
        Primitive::Number(n) => n@,
        Primitive::String(s) => seq!['"'] + s@ + seq!['"'],
    }
}

impl Primitive {
    /// The value as displayed: `null`, `true`, `false`, the number's text, or
    /// the string in double quotes.
    pub fn to_text(&self) -> (r: String)
        ensures
            r@ == primitive_text(*self),
    {
        match self {
            Primitive::Null => {
                proof { reveal_strlit("null"); }
                String::from_str("null")
            },
            Primitive::Bool(b) => {
                if *b {
                    proof { reveal_strlit("true"); }
                    String::from_str("true")
                } else {
                    proof { reveal_strlit("false"); }
                    String::from_str("false")
                }
            },
            Primitive::Number(n) => n.clone(),
            Primitive::String(s) => {
                let mut r = String::from_str("\"");
                r.append(s.as_str());
                r.append("\"");
                proof {
                    reveal_strlit("\"");
                    assert(r@ =~= primitive_text(*self));
                }
                r
            },
        }
    }

    /// A copy of the value.
    pub fn duplicate(&self) -> (r: Primitive)
        ensures
            r == *self,
    {
        match self {
            Primitive::Null => Primitive::Null,
            Primitive::Bool(b) => Primitive::Bool(*b),
            Primitive::Number(n) => Primitive::Number(n.clone()),
            Primitive::String(s) => Primitive::String(s.clone()),
        }
    }
}

/// How a leaf is displayed: `path : value`.
pub open spec fn leaf_text(path: Seq<char>, value: Primitive) -> Seq<char> {
    path + seq![' ', ':', ' '] + primitive_text(value)
}

impl Leaf {
    /// The leaf as displayed: its path, ` : `, and its value.
    pub fn render(&self) -> (r: String)
        ensures
            r@ == leaf_text(self.path@, self.value),
    {
        let mut r = self.path.clone();
        r.append(" : ");
        let v = self.value.to_text();
        r.append(v.as_str());
        proof {
            reveal_strlit(" : ");
            assert(r@ =~= leaf_text(self.path@, self.value));
        }
        r
    }

    /// A copy of the leaf.
    pub fn duplicate(&self) -> (r: Leaf)
        ensures
            r == *self,
    {
        Leaf { path: self.path.clone(), value: self.value.duplicate() }
    }
}

} // verus!
