use crate::distinct::{
    continues_at, digits_value, entries_plain, has_prefix, is_digit, items_plain,
    lemma_decimal_digits, lemma_entries_plain_at, lemma_has_prefix_concat, lemma_items_plain_at,
    lemma_paths_extend, plain_key, plain_keys,
};
use crate::document::{
    decimal, flat, flat_entries, flat_items, index_segment, key_segment, Document, Primitive,
};
use vstd::prelude::*;

verus! {

broadcast use vstd::std_specs::vec::group_vec_axioms;

/// The number of decimal digits at the start of `p`.
pub open spec fn digits_len(p: Seq<char>) -> nat
    decreases p.len(),
{
    if p.len() > 0 && is_digit(p[0]) {
        1 + digits_len(p.drop_first())
    } else {
        0
    }
}

/// The length of the key at the start of `p`: up to the first `.` or `[`.
pub open spec fn key_len(p: Seq<char>) -> nat
    decreases p.len(),
{
    if p.len() > 0 && p[0] != '.' && p[0] != '[' {
        1 + key_len(p.drop_first())
    } else {
        0
    }
}

/// The terminal value that `d` is, if it is one.
pub open spec fn terminal_of(d: Document) -> Option<Primitive> {
    match d {
        Document::Null => Some(Primitive::Null),
        Document::Bool(b) => Some(Primitive::Bool(b)),
        Document::Number(n) => Some(Primitive::Number(n)),
        Document::String(s) => Some(Primitive::String(s)),
        _ => None,
    }
}

/// The terminal value that the path text `p` leads to from `d`, reading `[i]`
/// (`i` in decimal, without leading zeros) as element `i` of a sequence and
/// `.k` as the entry of a mapping with key `k`.
pub open spec fn value_at(d: Document, p: Seq<char>) -> Option<Primitive>
    decreases p.len(),
{
    if p.len() == 0 {
        terminal_of(d)
    } else if p[0] == '[' {
        let n = digits_len(p.drop_first()) as int;
        if 1 <= n && 1 + n < p.len() && p[1 + n] == ']' && d is Sequence && digits_value(
            p.subrange(1, 1 + n),
        ) < d->Sequence_0@.len() && decimal(digits_value(p.subrange(1, 1 + n))) == p.subrange(
            1,
            1 + n,
        ) {
            let i = digits_value(p.subrange(1, 1 + n));
            value_at(d->Sequence_0@[i as int], p.subrange(2 + n, p.len() as int))
        } else {
            None
        }
    } else if p[0] == '.' {
        let n = key_len(p.drop_first()) as int;
        if 1 + n <= p.len() && d is Mapping && exists|j: int|
            0 <= j < d->Mapping_0@.len() && #[trigger] d->Mapping_0@[j].0@ == p.subrange(1, 1 + n) {
            let j = choose|j: int|
                0 <= j < d->Mapping_0@.len() && #[trigger] d->Mapping_0@[j].0@ == p.subrange(1, 1 + n);
            value_at(d->Mapping_0@[j].1, p.subrange(1 + n, p.len() as int))
        } else {
            None
        }
    } else {
        None
    }
}

proof fn lemma_digits_len(s: Seq<char>, rest: Seq<char>)
    requires
        forall|i: int| 0 <= i < s.len() ==> is_digit(#[trigger] s[i]),
    ensures
        digits_len(s + seq![']'] + rest) == s.len(),
    decreases s.len(),
{
    if s.len() > 0 {
        assert((s + seq![']'] + rest).drop_first() =~= s.drop_first() + seq![']'] + rest);
        lemma_digits_len(s.drop_first(), rest);
    } else {
        assert((s + seq![']'] + rest)[0] == ']');
    }
}

proof fn lemma_key_len(k: Seq<char>, rest: Seq<char>)
    requires
        plain_key(k),
        rest.len() == 0 || rest[0] == '.' || rest[0] == '[',
    ensures
        key_len(k + rest) == k.len(),
    decreases k.len(),
{
    if k.len() > 0 {
        assert((k + rest).drop_first() =~= k.drop_first() + rest);
        lemma_key_len(k.drop_first(), rest);
    } else {
        assert(k + rest =~= rest);
    }
}

/// Each path that flattening emits, read from the end of `prefix`, leads in
/// `d` to the value it is paired with.
pub proof fn lemma_paths_read_back(prefix: Seq<char>, d: Document)
    requires
        plain_keys(d),
    ensures
        forall|x: int|
            0 <= x < flat(prefix, d).len() ==> value_at(
                d,
                (#[trigger] flat(prefix, d)[x]).0.subrange(
                    prefix.len() as int,
                    flat(prefix, d)[x].0.len() as int,
                ),
            ) == Some(flat(prefix, d)[x].1),
    decreases d, 0nat,
{
    lemma_paths_extend(prefix, d);
    match d {
        Document::Sequence(v) => {
            lemma_items_read_back(prefix, v, v@.len());
            assert(flat(prefix, d) == flat_items(prefix, v@, v@.len()));
        },
        Document::Mapping(m) => {
            lemma_entries_read_back(prefix, m, m@.len());
            assert(flat(prefix, d) == flat_entries(prefix, m@, m@.len()));
        },
        _ => {
            let p = flat(prefix, d)[0].0;
            assert(p.subrange(prefix.len() as int, p.len() as int) =~= Seq::<char>::empty());
        },
    }
}

/// Flattening loses nothing but empty containers: where every mapping has
/// unique keys that hold neither `.` nor `[`, the emitted `(path, value)`
/// pairs are exactly the places of `d` that hold a terminal value, each path
/// read back from the root leading to its value.
pub proof fn lemma_round_trip(d: Document)
    requires
        plain_keys(d),
    ensures
        forall|x: int|
            0 <= x < flat(Seq::empty(), d).len() ==> value_at(
                d,
                (#[trigger] flat(Seq::empty(), d)[x]).0,
            ) == Some(flat(Seq::empty(), d)[x].1),
        forall|p: Seq<char>|
            #[trigger] value_at(d, p) is Some ==> exists|x: int|
                0 <= x < flat(Seq::empty(), d).len() && flat(Seq::empty(), d)[x] == (
                    p,
                    value_at(d, p)->Some_0,
                ),
{
    lemma_paths_read_back(Seq::empty(), d);
    assert forall|x: int| 0 <= x < flat(Seq::empty(), d).len() implies value_at(
        d,
        (#[trigger] flat(Seq::empty(), d)[x]).0,
    ) == Some(flat(Seq::empty(), d)[x].1) by {
        let p = flat(Seq::empty(), d)[x].0;
        assert(p.subrange(0, p.len() as int) =~= p);
    }
    assert forall|p: Seq<char>| #[trigger] value_at(d, p) is Some implies exists|x: int|
        0 <= x < flat(Seq::empty(), d).len() && flat(Seq::empty(), d)[x] == (
            p,
            value_at(d, p)->Some_0,
        ) by {
        lemma_places_are_leaves(Seq::empty(), d, p);
        assert(Seq::<char>::empty() + p =~= p);
    }
}

proof fn lemma_items_read_back(prefix: Seq<char>, v: Vec<Document>, n: nat)
    requires
        items_plain(v@, v@.len()),
        n <= v@.len(),
    ensures
        forall|x: int|
            0 <= x < flat_items(prefix, v@, n).len() ==> value_at(
                Document::Sequence(v),
                (#[trigger] flat_items(prefix, v@, n)[x]).0.subrange(
                    prefix.len() as int,
                    flat_items(prefix, v@, n)[x].0.len() as int,
                ),
            ) == Some(flat_items(prefix, v@, n)[x].1),
    decreases v, n,
{
    if n > 0 {
        let i = (n - 1) as nat;
        let c = prefix + index_segment(i);
        let first = flat_items(prefix, v@, i);
        let child = v@[i as int];
        let second = flat(c, child);
        let all = flat_items(prefix, v@, n);
        assert(all == first + second);
        lemma_items_read_back(prefix, v, i);
        lemma_items_plain_at(v@, i, v@.len());
        assert(decreases_to!(v => v@[i as int]));
        lemma_paths_read_back(c, child);
        lemma_paths_extend(c, child);
        lemma_decimal_digits(i);
        assert forall|x: int| 0 <= x < all.len() implies value_at(
            Document::Sequence(v),
            (#[trigger] all[x]).0.subrange(prefix.len() as int, all[x].0.len() as int),
        ) == Some(all[x].1) by {
            if x < first.len() {
                assert(all[x] == first[x]);
            } else {
                let y = x - first.len();
                assert(all[x] == second[y]);
                let q = second[y].0;
                assert(has_prefix(q, c));
                lemma_has_prefix_concat(q, prefix, index_segment(i));
                let r = q.subrange(prefix.len() as int, q.len() as int);
                let tail = q.subrange(c.len() as int, q.len() as int);
                let dk = decimal(i);
                let dl = dk.len() as int;
                assert(r =~= seq!['['] + dk + seq![']'] + tail) by {
                    assert forall|t: int| 0 <= t < index_segment(i).len() implies r[t]
                        == #[trigger] index_segment(i)[t] by {
                        assert(q[prefix.len() + t] == index_segment(i)[t]);
                    }
                }
                assert(r.drop_first() =~= dk + seq![']'] + tail);
                lemma_digits_len(dk, tail);
                assert(r.subrange(1, 1 + dl) =~= dk);
                assert(r[1 + dl] == ']');
                assert(r.subrange(2 + dl, r.len() as int) =~= tail);
            }
        }
    }
}

proof fn lemma_entries_read_back(prefix: Seq<char>, m: Vec<(String, Document)>, n: nat)
    requires
        entries_plain(m@, m@.len()),
        n <= m@.len(),
    ensures
        forall|x: int|
            0 <= x < flat_entries(prefix, m@, n).len() ==> value_at(
                Document::Mapping(m),
                (#[trigger] flat_entries(prefix, m@, n)[x]).0.subrange(
                    prefix.len() as int,
                    flat_entries(prefix, m@, n)[x].0.len() as int,
                ),
            ) == Some(flat_entries(prefix, m@, n)[x].1),
    decreases m, n,
{
    if n > 0 {
        let i = (n - 1) as nat;
        let key = m@[i as int].0@;
        let c = prefix + key_segment(key);
        let first = flat_entries(prefix, m@, i);
        let child = m@[i as int].1;
        let second = flat(c, child);
        let all = flat_entries(prefix, m@, n);
        assert(all == first + second);
        lemma_entries_read_back(prefix, m, i);
        lemma_entries_plain_at(m@, i, m@.len());
        assert(decreases_to!(m => m@[i as int]));
        assert(decreases_to!(m@[i as int] => m@[i as int].1));
        lemma_paths_read_back(c, child);
        lemma_paths_extend(c, child);
        assert forall|x: int| 0 <= x < all.len() implies value_at(
            Document::Mapping(m),
            (#[trigger] all[x]).0.subrange(prefix.len() as int, all[x].0.len() as int),
        ) == Some(all[x].1) by {
            if x < first.len() {
                assert(all[x] == first[x]);
            } else {
                let y = x - first.len();
                assert(all[x] == second[y]);
                let q = second[y].0;
                assert(has_prefix(q, c));
                assert(continues_at(q, c.len() as int));
                lemma_has_prefix_concat(q, prefix, key_segment(key));
                let r = q.subrange(prefix.len() as int, q.len() as int);
                let tail = q.subrange(c.len() as int, q.len() as int);
                assert(r =~= seq!['.'] + key + tail) by {
                    assert forall|t: int| 0 <= t < key_segment(key).len() implies r[t]
                        == #[trigger] key_segment(key)[t] by {
                        assert(q[prefix.len() + t] == key_segment(key)[t]);
                    }
                }
                assert(r.drop_first() =~= key + tail);
                if tail.len() > 0 {
                    assert(tail[0] == q[c.len() as int]);
                }
                lemma_key_len(key, tail);
                let kl = key.len() as int;
                assert(r.subrange(1, 1 + kl) =~= key);
                assert(r.subrange(1 + kl, r.len() as int) =~= tail);
                let d = Document::Mapping(m);
                assert(d->Mapping_0@[i as int].0@ == key);
                let j = choose|j: int|
                    0 <= j < d->Mapping_0@.len() && #[trigger] d->Mapping_0@[j].0@ == key;
                assert(j == i);
            }
        }
    }
}

proof fn lemma_items_contain(prefix: Seq<char>, items: Seq<Document>, n: nat, i: nat, y: int)
    requires
        i < n <= items.len(),
        0 <= y < flat(prefix + index_segment(i), items[i as int]).len(),
    ensures
        exists|x: int|
            0 <= x < flat_items(prefix, items, n).len() && #[trigger] flat_items(prefix, items, n)[x]
                == flat(prefix + index_segment(i), items[i as int])[y],
    decreases n,
{
    let k = (n - 1) as nat;
    let first = flat_items(prefix, items, k);
    let all = flat_items(prefix, items, n);
    assert(all == first + flat(prefix + index_segment(k), items[k as int]));
    if i == k {
        assert(all[first.len() + y] == flat(prefix + index_segment(i), items[i as int])[y]);
    } else {
        lemma_items_contain(prefix, items, k, i, y);
        let x = choose|x: int|
            0 <= x < first.len() && #[trigger] first[x] == flat(
                prefix + index_segment(i),
                items[i as int],
            )[y];
        assert(all[x] == first[x]);
    }
}

proof fn lemma_entries_contain(
    prefix: Seq<char>,
    entries: Seq<(String, Document)>,
    n: nat,
    i: nat,
    y: int,
)
    requires
        i < n <= entries.len(),
        0 <= y < flat(prefix + key_segment(entries[i as int].0@), entries[i as int].1).len(),
    ensures
        exists|x: int|
            0 <= x < flat_entries(prefix, entries, n).len() && #[trigger] flat_entries(
                prefix,
                entries,
                n,
            )[x] == flat(prefix + key_segment(entries[i as int].0@), entries[i as int].1)[y],
    decreases n,
{
    let k = (n - 1) as nat;
    let first = flat_entries(prefix, entries, k);
    let all = flat_entries(prefix, entries, n);
    assert(all == first + flat(prefix + key_segment(entries[k as int].0@), entries[k as int].1));
    if i == k {
        assert(all[first.len() + y] == flat(
            prefix + key_segment(entries[i as int].0@),
            entries[i as int].1,
        )[y]);
    } else {
        lemma_entries_contain(prefix, entries, k, i, y);
        let x = choose|x: int|
            0 <= x < first.len() && #[trigger] first[x] == flat(
                prefix + key_segment(entries[i as int].0@),
                entries[i as int].1,
            )[y];
        assert(all[x] == first[x]);
    }
}

/// Each place of `d` that a path `p` leads to and that holds a terminal value
/// is emitted, as `prefix + p` with that value.
pub proof fn lemma_places_are_leaves(prefix: Seq<char>, d: Document, p: Seq<char>)
    requires
        value_at(d, p) is Some,
    ensures
        exists|x: int|
            0 <= x < flat(prefix, d).len() && #[trigger] flat(prefix, d)[x] == (
                prefix + p,
                value_at(d, p)->Some_0,
            ),
    decreases p.len(),
{
    if p.len() == 0 {
        assert(prefix + p =~= prefix);
        assert(flat(prefix, d)[0] == (prefix + p, value_at(d, p)->Some_0));
    } else if p[0] == '[' {
        let n = digits_len(p.drop_first()) as int;
        let ds = p.subrange(1, 1 + n);
        let i = digits_value(ds);
        let v = d->Sequence_0;
        let rest = p.subrange(2 + n, p.len() as int);
        let c = prefix + index_segment(i);
        lemma_places_are_leaves(c, v@[i as int], rest);
        assert(p =~= index_segment(i) + rest) by {
            assert(decimal(i) == ds);
            assert forall|t: int| 0 <= t < p.len() implies p[t] == #[trigger] (index_segment(i)
                + rest)[t] by {
                if 1 <= t < 1 + n {
                    assert(ds[t - 1] == p[t]);
                }
            }
        }
        assert(c + rest =~= prefix + p);
        let y = choose|y: int|
            0 <= y < flat(c, v@[i as int]).len() && #[trigger] flat(c, v@[i as int])[y] == (
                c + rest,
                value_at(v@[i as int], rest)->Some_0,
            );
        lemma_items_contain(prefix, v@, v@.len(), i, y);
        assert(flat(prefix, d) == flat_items(prefix, v@, v@.len()));
    } else {
        let n = key_len(p.drop_first()) as int;
        let k = p.subrange(1, 1 + n);
        assert(p[0] == '.');
        assert(1 + n <= p.len() && d is Mapping);
        let m = d->Mapping_0;
        let j = choose|j: int|
            0 <= j < d->Mapping_0@.len() && #[trigger] d->Mapping_0@[j].0@ == p.subrange(1, 1 + n);
        let rest = p.subrange(1 + n, p.len() as int);
        assert(value_at(d, p) == value_at(m@[j].1, rest));
        let c = prefix + key_segment(k);
        lemma_places_are_leaves(c, m@[j].1, rest);
        assert(p =~= key_segment(k) + rest);
        assert(c + rest =~= prefix + p);
        let y = choose|y: int|
            0 <= y < flat(c, m@[j].1).len() && #[trigger] flat(c, m@[j].1)[y] == (
                c + rest,
                value_at(m@[j].1, rest)->Some_0,
            );
        lemma_entries_contain(prefix, m@, m@.len(), j as nat, y);
        assert(flat(prefix, d) == flat_entries(prefix, m@, m@.len()));
    }
}

} // verus!
