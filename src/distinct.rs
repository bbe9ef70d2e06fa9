use crate::document::{
    decimal, digit_char, flat, flat_entries, flat_items, index_segment, key_segment, Document,
};
use vstd::prelude::*;

verus! {

broadcast use vstd::std_specs::vec::group_vec_axioms;

/// `p` begins with `prefix`.
pub open spec fn has_prefix(p: Seq<char>, prefix: Seq<char>) -> bool {
    prefix.len() <= p.len() && p.subrange(0, prefix.len() as int) == prefix
}

/// At position `at`, the path `p` ends or goes on with `.` or `[`.
pub open spec fn continues_at(p: Seq<char>, at: int) -> bool {
    p.len() == at || p[at] == '.' || p[at] == '['
}

/// A key that holds neither `.` nor `[`, so that a path can be read back.
pub open spec fn plain_key(k: Seq<char>) -> bool {
    forall|i: int| 0 <= i < k.len() ==> k[i] != '.' && k[i] != '['
}

/// Every mapping in `d` has unique, plain keys.
pub open spec fn plain_keys(d: Document) -> bool
    decreases d, 0nat,
{
    match d {
        Document::Sequence(v) => items_plain(v@, v@.len()),
        Document::Mapping(m) => entries_plain(m@, m@.len()),
        _ => true,
    }
}

/// The first `n` elements of a sequence have unique, plain keys throughout.
pub open spec fn items_plain(items: Seq<Document>, n: nat) -> bool
    decreases items, n,
{
    if n == 0 || n > items.len() {
        true
    } else {
        let i = (n - 1) as nat;
        items_plain(items, i) && plain_keys(items[i as int])
    }
}

/// The first `n` entries of a mapping have unique, plain keys, and so do their
/// values throughout.
pub open spec fn entries_plain(entries: Seq<(String, Document)>, n: nat) -> bool
    decreases entries, n,
{
    if n == 0 || n > entries.len() {
        true
    } else {
        let i = (n - 1) as nat;
        &&& entries_plain(entries, i)
        &&& plain_key(entries[i as int].0@)
        &&& plain_keys(entries[i as int].1)
        &&& forall|j: int| 0 <= j < i ==> entries[j].0@ != entries[i as int].0@
    }
}

pub open spec fn is_digit(c: char) -> bool {
    '0' <= c <= '9'
}

pub open spec fn digit_value(c: char) -> nat {
    if c == '1' {
        1
    } else if c == '2' {
        2
    } else if c == '3' {
        3
    } else if c == '4' {
        4
    } else if c == '5' {
        5
    } else if c == '6' {
        6
    } else if c == '7' {
        7
    } else if c == '8' {
        8
    } else if c == '9' {
        9
    } else {
        0
    }
}

/// The number that a text of decimal digits denotes.
pub open spec fn digits_value(s: Seq<char>) -> nat
    decreases s.len(),
{
    if s.len() == 0 {
        0
    } else {
        digits_value(s.drop_last()) * 10 + digit_value(s.last())
    }
}

pub proof fn lemma_decimal_digits(n: nat)
    ensures
        decimal(n).len() >= 1,
        forall|i: int| 0 <= i < decimal(n).len() ==> is_digit(#[trigger] decimal(n)[i]),
        digits_value(decimal(n)) == n,
    decreases n,
{
    if n >= 10 {
        lemma_decimal_digits(n / 10);
        assert(decimal(n).drop_last() =~= decimal(n / 10));
        assert(digit_value(digit_char((n % 10) as nat)) == n % 10);
        assert(decimal(n).last() == digit_char((n % 10) as nat));
        assert((n / 10) * 10 + n % 10 == n);
        assert(digits_value(decimal(n)) == digits_value(decimal(n / 10)) * 10 + digit_value(
            digit_char((n % 10) as nat),
        ));
    } else {
        assert(decimal(n).last() == digit_char(n));
        assert(digits_value(Seq::<char>::empty()) == 0);
        assert(decimal(n).drop_last() =~= Seq::<char>::empty());
        assert(digit_value(digit_char(n)) == n);
    }
}

/// Two different indices give segments that differ at a position both have.
proof fn lemma_index_segments_differ(k: nat, j: nat)
    requires
        k != j,
    ensures
        exists|t: int|
            0 <= t < index_segment(k).len() && t < index_segment(j).len() && index_segment(k)[t]
                != index_segment(j)[t],
{
    lemma_decimal_digits(k);
    lemma_decimal_digits(j);
    let dk = decimal(k);
    let dj = decimal(j);
    let sk = index_segment(k);
    let sj = index_segment(j);
    if dk.len() == dj.len() {
        if forall|t: int| 0 <= t < dk.len() ==> dk[t] == dj[t] {
            assert(dk =~= dj);
        }
        let t = choose|t: int| 0 <= t < dk.len() && dk[t] != dj[t];
        assert(sk[t + 1] == dk[t]);
        assert(sj[t + 1] == dj[t]);
    } else if dk.len() < dj.len() {
        let t = dk.len() as int;
        assert(sk[t + 1] == ']');
        assert(sj[t + 1] == dj[t]);
        assert(is_digit(dj[t]));
    } else {
        let t = dj.len() as int;
        assert(sj[t + 1] == ']');
        assert(sk[t + 1] == dk[t]);
        assert(is_digit(dk[t]));
    }
}

pub proof fn lemma_has_prefix_concat(p: Seq<char>, a: Seq<char>, s: Seq<char>)
    requires
        has_prefix(p, a + s),
    ensures
        has_prefix(p, a),
        forall|t: int| 0 <= t < s.len() ==> p[a.len() + t] == #[trigger] s[t],
{
    let whole = p.subrange(0, (a + s).len() as int);
    assert(whole == a + s);
    assert(p.subrange(0, a.len() as int) =~= whole.subrange(0, a.len() as int));
    assert(whole.subrange(0, a.len() as int) =~= a);
    assert forall|t: int| 0 <= t < s.len() implies p[a.len() + t] == #[trigger] s[t] by {
        assert(p.subrange(0, (a + s).len() as int)[a.len() + t] == (a + s)[a.len() + t]);
    }
}

/// Every path of `flat(prefix, d)` begins with `prefix` and ends there or goes
/// on with `.` or `[`.
pub proof fn lemma_paths_extend(prefix: Seq<char>, d: Document)
    ensures
        forall|x: int|
            0 <= x < flat(prefix, d).len() ==> has_prefix(#[trigger] flat(prefix, d)[x].0, prefix)
                && continues_at(flat(prefix, d)[x].0, prefix.len() as int),
    decreases d, 0nat,
{
    match d {
        Document::Sequence(v) => {
            lemma_items_paths(prefix, v@, v@.len());
            assert forall|x: int| 0 <= x < flat(prefix, d).len() implies has_prefix(
                #[trigger] flat(prefix, d)[x].0,
                prefix,
            ) && continues_at(flat(prefix, d)[x].0, prefix.len() as int) by {
                let p = flat(prefix, d)[x].0;
                assert(flat_items(prefix, v@, v@.len())[x].0 == p);
                let k = choose|k: nat| k < v@.len() && has_prefix(p, prefix + index_segment(k));
                lemma_has_prefix_concat(p, prefix, index_segment(k));
                assert(index_segment(k)[0] == '[');
            }
        },
        Document::Mapping(m) => {
            lemma_entries_paths(prefix, m@, m@.len());
            assert forall|x: int| 0 <= x < flat(prefix, d).len() implies has_prefix(
                #[trigger] flat(prefix, d)[x].0,
                prefix,
            ) && continues_at(flat(prefix, d)[x].0, prefix.len() as int) by {
                let p = flat(prefix, d)[x].0;
                assert(flat_entries(prefix, m@, m@.len())[x].0 == p);
                let k = choose|k: int|
                    0 <= k < m@.len() && has_prefix(p, prefix + key_segment(m@[k].0@));
                lemma_has_prefix_concat(p, prefix, key_segment(m@[k].0@));
                assert(key_segment(m@[k].0@)[0] == '.');
            }
        },
        _ => {
            assert(flat(prefix, d)[0].0.subrange(0, prefix.len() as int) =~= prefix);
        },
    }
}

proof fn lemma_items_paths(prefix: Seq<char>, items: Seq<Document>, n: nat)
    ensures
        forall|x: int|
            0 <= x < flat_items(prefix, items, n).len() ==> exists|k: nat|
                k < n && has_prefix(
                    #[trigger] flat_items(prefix, items, n)[x].0,
                    prefix + index_segment(k),
                ),
    decreases items, n,
{
    if n > 0 && n <= items.len() {
        let i = (n - 1) as nat;
        let c = prefix + index_segment(i);
        lemma_items_paths(prefix, items, i);
        lemma_paths_extend(c, items[i as int]);
        let first = flat_items(prefix, items, i);
        let second = flat(c, items[i as int]);
        assert forall|x: int| 0 <= x < flat_items(prefix, items, n).len() implies exists|k: nat|
            k < n && has_prefix(
                #[trigger] flat_items(prefix, items, n)[x].0,
                prefix + index_segment(k),
            ) by {
            if x < first.len() {
                assert(flat_items(prefix, items, n)[x] == first[x]);
            } else {
                assert(flat_items(prefix, items, n)[x] == second[x - first.len()]);
                assert(has_prefix(second[x - first.len()].0, c));
            }
        }
    }
}

proof fn lemma_entries_paths(prefix: Seq<char>, entries: Seq<(String, Document)>, n: nat)
    ensures
        forall|x: int|
            0 <= x < flat_entries(prefix, entries, n).len() ==> exists|k: int|
                0 <= k < n && k < entries.len() && has_prefix(
                    #[trigger] flat_entries(prefix, entries, n)[x].0,
                    prefix + key_segment(entries[k].0@),
                ) && continues_at(
                    flat_entries(prefix, entries, n)[x].0,
                    (prefix + key_segment(entries[k].0@)).len() as int,
                ),
    decreases entries, n,
{
    if n > 0 && n <= entries.len() {
        let i = (n - 1) as nat;
        let c = prefix + key_segment(entries[i as int].0@);
        lemma_entries_paths(prefix, entries, i);
        lemma_paths_extend(c, entries[i as int].1);
        let first = flat_entries(prefix, entries, i);
        let second = flat(c, entries[i as int].1);
        assert forall|x: int| 0 <= x < flat_entries(prefix, entries, n).len() implies exists|
            k: int,
        |
            0 <= k < n && k < entries.len() && has_prefix(
                #[trigger] flat_entries(prefix, entries, n)[x].0,
                prefix + key_segment(entries[k].0@),
            ) && continues_at(
                flat_entries(prefix, entries, n)[x].0,
                (prefix + key_segment(entries[k].0@)).len() as int,
            ) by {
            if x < first.len() {
                assert(flat_entries(prefix, entries, n)[x] == first[x]);
            } else {
                assert(flat_entries(prefix, entries, n)[x] == second[x - first.len()]);
                assert(has_prefix(second[x - first.len()].0, c));
                assert(continues_at(second[x - first.len()].0, c.len() as int));
            }
        }
    }
}

/// Paths that begin with two different plain keys of one mapping differ.
proof fn lemma_key_paths_differ(
    prefix: Seq<char>,
    key_a: Seq<char>,
    key_b: Seq<char>,
    path_a: Seq<char>,
    path_b: Seq<char>,
)
    requires
        plain_key(key_a),
        plain_key(key_b),
        key_a != key_b,
        has_prefix(path_a, prefix + key_segment(key_a)),
        continues_at(path_a, (prefix + key_segment(key_a)).len() as int),
        has_prefix(path_b, prefix + key_segment(key_b)),
        continues_at(path_b, (prefix + key_segment(key_b)).len() as int),
    ensures
        path_a != path_b,
{
    let base = prefix.len() + 1;
    lemma_has_prefix_concat(path_a, prefix, key_segment(key_a));
    lemma_has_prefix_concat(path_b, prefix, key_segment(key_b));
    assert forall|t: int| 0 <= t < key_a.len() implies path_a[base + t] == #[trigger] key_a[t] by {
        assert(key_segment(key_a)[t + 1] == key_a[t]);
    }
    assert forall|t: int| 0 <= t < key_b.len() implies path_b[base + t] == #[trigger] key_b[t] by {
        assert(key_segment(key_b)[t + 1] == key_b[t]);
    }
    if exists|t: int| 0 <= t < key_a.len() && t < key_b.len() && key_a[t] != key_b[t] {
        let t = choose|t: int| 0 <= t < key_a.len() && t < key_b.len() && key_a[t] != key_b[t];
        assert(path_a[base + t] != path_b[base + t]);
    } else if key_a.len() < key_b.len() {
        let t = key_a.len() as int;
        assert(path_b[base + t] == key_b[t]);
        if path_a.len() != base + t {
            assert(path_a[base + t] != path_b[base + t]);
        }
    } else if key_b.len() < key_a.len() {
        let t = key_b.len() as int;
        assert(path_a[base + t] == key_a[t]);
        if path_b.len() != base + t {
            assert(path_a[base + t] != path_b[base + t]);
        }
    } else {
        assert(key_a =~= key_b);
    }
}

/// Where every mapping has unique keys that hold neither `.` nor `[`, the
/// paths that flattening emits are pairwise distinct.
pub proof fn lemma_paths_distinct(prefix: Seq<char>, d: Document)
    requires
        plain_keys(d),
    ensures
        forall|a: int, b: int|
            0 <= a < b < flat(prefix, d).len() ==> #[trigger] flat(prefix, d)[a].0
                != #[trigger] flat(prefix, d)[b].0,
    decreases d, 0nat,
{
    match d {
        Document::Sequence(v) => {
            lemma_items_distinct(prefix, v@, v@.len());
            assert(flat(prefix, d) == flat_items(prefix, v@, v@.len()));
        },
        Document::Mapping(m) => {
            lemma_entries_distinct(prefix, m@, m@.len());
            assert(flat(prefix, d) == flat_entries(prefix, m@, m@.len()));
        },
        _ => {},
    }
}

proof fn lemma_items_distinct(prefix: Seq<char>, items: Seq<Document>, n: nat)
    requires
        items_plain(items, n),
    ensures
        forall|a: int, b: int|
            0 <= a < b < flat_items(prefix, items, n).len() ==> #[trigger] flat_items(
                prefix,
                items,
                n,
            )[a].0 != #[trigger] flat_items(prefix, items, n)[b].0,
    decreases items, n,
{
    if n > 0 && n <= items.len() {
        let i = (n - 1) as nat;
        let c = prefix + index_segment(i);
        let first = flat_items(prefix, items, i);
        let second = flat(c, items[i as int]);
        let all = flat_items(prefix, items, n);
        assert(all == first + second);
        lemma_items_distinct(prefix, items, i);
        lemma_items_paths(prefix, items, i);
        lemma_paths_distinct(c, items[i as int]);
        lemma_paths_extend(c, items[i as int]);
        assert forall|a: int, b: int| 0 <= a < b < all.len() implies #[trigger] all[a].0
            != #[trigger] all[b].0 by {
            if b < first.len() {
                assert(first[a].0 != first[b].0);
            } else if a >= first.len() {
                assert(all[a] == second[a - first.len()]);
                assert(all[b] == second[b - first.len()]);
            } else {
                let pa = first[a].0;
                let pb = second[b - first.len()].0;
                assert(all[b] == second[b - first.len()]);
                let k = choose|k: nat| k < i && has_prefix(pa, prefix + index_segment(k));
                assert(has_prefix(pb, c));
                lemma_has_prefix_concat(pa, prefix, index_segment(k));
                lemma_has_prefix_concat(pb, prefix, index_segment(i));
                lemma_index_segments_differ(k, i);
                let t = choose|t: int|
                    0 <= t < index_segment(k).len() && t < index_segment(i).len()
                        && index_segment(k)[t] != index_segment(i)[t];
                assert(pa[prefix.len() + t] != pb[prefix.len() + t]);
            }
        }
    }
}

proof fn lemma_entries_distinct(prefix: Seq<char>, entries: Seq<(String, Document)>, n: nat)
    requires
        entries_plain(entries, n),
    ensures
        forall|a: int, b: int|
            0 <= a < b < flat_entries(prefix, entries, n).len() ==> #[trigger] flat_entries(
                prefix,
                entries,
                n,
            )[a].0 != #[trigger] flat_entries(prefix, entries, n)[b].0,
    decreases entries, n,
{
    if n > 0 && n <= entries.len() {
        let i = (n - 1) as nat;
        let key = entries[i as int].0@;
        let c = prefix + key_segment(key);
        let first = flat_entries(prefix, entries, i);
        let second = flat(c, entries[i as int].1);
        let all = flat_entries(prefix, entries, n);
        assert(all == first + second);
        lemma_entries_distinct(prefix, entries, i);
        lemma_entries_paths(prefix, entries, i);
        lemma_paths_distinct(c, entries[i as int].1);
        lemma_paths_extend(c, entries[i as int].1);
        assert forall|a: int, b: int| 0 <= a < b < all.len() implies #[trigger] all[a].0
            != #[trigger] all[b].0 by {
            if b < first.len() {
                assert(first[a].0 != first[b].0);
            } else if a >= first.len() {
                assert(all[a] == second[a - first.len()]);
                assert(all[b] == second[b - first.len()]);
            } else {
                let pa = first[a].0;
                let pb = second[b - first.len()].0;
                assert(all[b] == second[b - first.len()]);
                assert(first[a].0 == pa);
                let k = choose|k: int|
                    0 <= k < i && k < entries.len() && has_prefix(
                        pa,
                        prefix + key_segment(entries[k].0@),
                    ) && continues_at(pa, (prefix + key_segment(entries[k].0@)).len() as int);
                assert(has_prefix(pb, c));
                assert(continues_at(pb, c.len() as int));
                lemma_entries_plain_at(entries, k as nat, n);
                lemma_key_paths_differ(prefix, entries[k].0@, key, pa, pb);
            }
        }
    }
}

/// What a plain mapping says of its entry `k`: a plain key that no other
/// entry has, and a plain value.
pub proof fn lemma_entries_plain_at(entries: Seq<(String, Document)>, k: nat, n: nat)
    requires
        entries_plain(entries, n),
        k < n <= entries.len(),
    ensures
        plain_key(entries[k as int].0@),
        plain_keys(entries[k as int].1),
        forall|j: int| 0 <= j < n && j != k ==> #[trigger] entries[j].0@ != entries[k as int].0@,
    decreases n,
{
    let i = (n - 1) as nat;
    if k < i {
        lemma_entries_plain_at(entries, k, i);
        assert(entries[i as int].0@ != entries[k as int].0@);
    }
    if k == i && i > 0 {
        assert forall|j: int| 0 <= j < n && j != k implies #[trigger] entries[j].0@
            != entries[k as int].0@ by {
            assert(j < i);
        }
    }
}

/// The elements of a plain sequence are plain.
pub proof fn lemma_items_plain_at(items: Seq<Document>, k: nat, n: nat)
    requires
        items_plain(items, n),
        k < n <= items.len(),
    ensures
        plain_keys(items[k as int]),
    decreases n,
{
    if k + 1 < n {
        lemma_items_plain_at(items, k, (n - 1) as nat);
    }
}

} // verus!
