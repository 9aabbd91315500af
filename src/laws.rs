//! Facts that hold of every input, proved over the models.
use vstd::prelude::*;

use crate::grammar::{
    after_ident, all_objects, block_at, finish, flatten_trees, has_object, object_at, program,
    scalar, tree_entries, value_at, IdentStep, Outcome, MAX_DEPTH,
};
use crate::token::{Lexed, Lexeme, Span};
use crate::value::{
    flatten_values, key_index, keys_unique, lemma_key_index, lemma_put_keeps_keys_unique, merge,
    object_entries, put, Entries, ObjectMap, Tree, Value,
};

verus! {

/// The tokens are `identifier = scalar`, repeated.
pub open spec fn flat_pairs(ts: Seq<Lexed>) -> bool {
    &&& ts.len() % 3 == 0
    &&& forall|k: int|
        #![trigger ts[3 * k]]
        0 <= k < ts.len() as int / 3 ==> {
            &&& ts[3 * k] matches Lexed::Token(Lexeme::Ident(_), _)
            &&& ts[3 * k + 1] matches Lexed::Token(Lexeme::EqualSign, _)
            &&& ts[3 * k + 2] matches Lexed::Token(l, _) && scalar(l) is Some
        }
}

/// The key of the `k`-th pair.
pub open spec fn pair_key(ts: Seq<Lexed>, k: int) -> Seq<char> {
    match ts[3 * k] {
        Lexed::Token(Lexeme::Ident(name), _) => name,
        _ => Seq::empty(),
    }
}

/// The value of the `k`-th pair.
pub open spec fn pair_value(ts: Seq<Lexed>, k: int) -> Tree {
    match ts[3 * k + 2] {
        Lexed::Token(l, _) => scalar(l)->Some_0,
        _ => Tree::Null,
    }
}

/// The first `n` pairs, each put in turn into an ordered map.
pub open spec fn pairs_entries(ts: Seq<Lexed>, n: int) -> Entries<Tree>
    decreases n,
{
    if n <= 0 {
        Seq::empty()
    } else {
        put(pairs_entries(ts, n - 1), pair_key(ts, n - 1), pair_value(ts, n - 1))
    }
}

proof fn lemma_pairs_from(ts: Seq<Lexed>, k: int, open: Span, eof: Span, depth: int)
    requires
        flat_pairs(ts),
        0 <= k <= ts.len() as int / 3,
    ensures
        object_at(ts, 3 * k, true, None, pairs_entries(ts, k), open, eof, depth) == Outcome::Parsed(
            Tree::Object(pairs_entries(ts, ts.len() as int / 3)),
            ts.len() as int,
        ),
    decreases ts.len() as int / 3 - k,
{
    let n = ts.len() as int / 3;
    if k < n {
        assert(ts[3 * k] matches Lexed::Token(Lexeme::Ident(_), _));
        let i = 3 * k;
        assert(value_at(ts, i + 2, eof, depth) == Outcome::Parsed(pair_value(ts, k), i + 3));
        assert(object_at(ts, i + 1, true, Some(pair_key(ts, k)), pairs_entries(ts, k), open, eof, depth)
            == object_at(ts, i + 3, true, None, pairs_entries(ts, k + 1), open, eof, depth));
        assert(3 * (k + 1) == i + 3);
        lemma_pairs_from(ts, k + 1, open, eof, depth);
    } else {
        assert(3 * k == ts.len());
    }
}

proof fn lemma_pairs_unique(ts: Seq<Lexed>, n: int)
    ensures
        keys_unique(pairs_entries(ts, n)),
    decreases n,
{
    if n > 0 {
        lemma_pairs_unique(ts, n - 1);
        lemma_put_keeps_keys_unique(pairs_entries(ts, n - 1), pair_key(ts, n - 1), pair_value(ts, n - 1));
    }
}

/// A program made only of `identifier = scalar` pairs is one object with an
/// entry per distinct key, in the order the keys first appear; a repeated key
/// keeps its first position and takes its last value. No key occurs twice.
pub proof fn law_flat_pairs(ts: Seq<Lexed>, eof: Span)
    requires
        flat_pairs(ts),
    ensures
        program(ts, eof) == Outcome::Parsed(
            Tree::Object(pairs_entries(ts, ts.len() as int / 3)),
            ts.len() as int,
        ),
        keys_unique(pairs_entries(ts, ts.len() as int / 3)),
{
    lemma_pairs_from(ts, 0, Span { start: 0, end: 0 }, eof, 0);
    lemma_pairs_unique(ts, ts.len() as int / 3);
}

proof fn lemma_key_index_absent<V>(es: Entries<V>, k: Seq<char>)
    requires
        forall|i: int| 0 <= i < es.len() ==> (#[trigger] es[i]).0 != k,
    ensures
        key_index(es, k) == -1,
    decreases es.len(),
{
    if es.len() > 0 {
        assert(es[es.len() - 1] == es.last());
        assert forall|i: int| 0 <= i < es.drop_last().len() implies (#[trigger] es.drop_last()[i]).0 != k by {
            assert(es.drop_last()[i] == es[i]);
        }
        lemma_key_index_absent(es.drop_last(), k);
    }
}

/// Merging entries whose keys are unique into nothing gives them back.
pub proof fn lemma_merge_into_empty<V>(es: Entries<V>)
    requires
        keys_unique(es),
    ensures
        merge(Seq::empty(), es) == es,
    decreases es.len(),
{
    if es.len() > 0 {
        let init = es.drop_last();
        assert(keys_unique(init)) by {
            assert forall|i: int, j: int| 0 <= i < j < init.len() implies init[i].0 != init[j].0 by {
                assert(init[i] == es[i] && init[j] == es[j]);
            }
        }
        lemma_merge_into_empty(init);
        assert forall|i: int| 0 <= i < init.len() implies (#[trigger] init[i]).0 != es.last().0 by {
            assert(init[i] == es[i]);
            assert(es.last() == es[es.len() - 1]);
        }
        lemma_key_index_absent(init, es.last().0);
        assert(init.push(es.last()) =~= es);
    }
}

/// Flattening an array that holds a single object yields that object's
/// entries unchanged.
pub proof fn law_flatten_single_object(m: ObjectMap)
    requires
        keys_unique(object_entries(m)),
    ensures
        flatten_values(seq![Value::Object(m)]) == object_entries(m),
{
    let vs = seq![Value::Object(m)];
    assert(vs.drop_last() =~= Seq::<Value>::empty());
    assert(flatten_values(vs.drop_last()) == Seq::<(Seq<char>, Value)>::empty());
    assert(vs.last() == Value::Object(m));
    lemma_merge_into_empty(object_entries(m));
}

} // verus!

verus! {

/// Every object in the tree, at any depth, holds each key once.
pub open spec fn well_formed(t: Tree) -> bool
    decreases t,
{
    match t {
        Tree::Array(ts) => forall|k: int| 0 <= k < ts.len() ==> well_formed(#[trigger] ts[k]),
        Tree::Object(es) => keys_unique(es) && forall|k: int|
            0 <= k < es.len() ==> well_formed((#[trigger] es[k]).1),
        _ => true,
    }
}

pub open spec fn values_well_formed(es: Entries<Tree>) -> bool {
    forall|k: int| 0 <= k < es.len() ==> well_formed((#[trigger] es[k]).1)
}

pub open spec fn all_well_formed(ts: Seq<Tree>) -> bool {
    forall|k: int| 0 <= k < ts.len() ==> well_formed(#[trigger] ts[k])
}

proof fn lemma_put_well_formed(es: Entries<Tree>, k: Seq<char>, v: Tree)
    requires
        keys_unique(es),
        values_well_formed(es),
        well_formed(v),
    ensures
        keys_unique(put(es, k, v)),
        values_well_formed(put(es, k, v)),
{
    lemma_put_keeps_keys_unique(es, k, v);
    let p = put(es, k, v);
    lemma_key_index(es, k);
    let idx = key_index(es, k);
    assert forall|i: int| 0 <= i < p.len() implies well_formed((#[trigger] p[i]).1) by {
        if idx >= 0 {
            if i != idx {
                assert(p[i] == es[i]);
            }
        } else if i < es.len() {
            assert(p[i] == es[i]);
        }
    }
}

proof fn lemma_merge_well_formed(es: Entries<Tree>, more: Entries<Tree>)
    requires
        keys_unique(es),
        values_well_formed(es),
        values_well_formed(more),
    ensures
        keys_unique(merge(es, more)),
        values_well_formed(merge(es, more)),
    decreases more.len(),
{
    if more.len() > 0 {
        assert(values_well_formed(more.drop_last())) by {
            assert forall|k: int| 0 <= k < more.drop_last().len() implies well_formed(
                (#[trigger] more.drop_last()[k]).1,
            ) by {
                assert(more.drop_last()[k] == more[k]);
            }
        }
        lemma_merge_well_formed(es, more.drop_last());
        assert(more.last() == more[more.len() - 1]);
        lemma_put_well_formed(merge(es, more.drop_last()), more.last().0, more.last().1);
    }
}

proof fn lemma_flatten_well_formed(ts: Seq<Tree>)
    requires
        all_well_formed(ts),
    ensures
        keys_unique(flatten_trees(ts)),
        values_well_formed(flatten_trees(ts)),
    decreases ts.len(),
{
    if ts.len() > 0 {
        assert(all_well_formed(ts.drop_last())) by {
            assert forall|k: int| 0 <= k < ts.drop_last().len() implies well_formed(
                #[trigger] ts.drop_last()[k],
            ) by {
                assert(ts.drop_last()[k] == ts[k]);
            }
        }
        lemma_flatten_well_formed(ts.drop_last());
        assert(ts.last() == ts[ts.len() - 1]);
        assert(well_formed(ts.last()));
        lemma_merge_well_formed(flatten_trees(ts.drop_last()), tree_entries(ts.last()));
    }
}

proof fn lemma_finish_well_formed(elems: Seq<Tree>, j: int, close: Span)
    requires
        all_well_formed(elems),
    ensures
        finish(elems, j, close) matches Outcome::Parsed(t, _) ==> well_formed(t),
{
    if elems.len() > 0 && has_object(elems) && all_objects(elems) {
        lemma_flatten_well_formed(elems);
    }
}

proof fn lemma_push_well_formed(elems: Seq<Tree>, more: Seq<Tree>)
    requires
        all_well_formed(elems),
        all_well_formed(more),
    ensures
        all_well_formed(elems + more),
{
    assert forall|k: int| 0 <= k < (elems + more).len() implies well_formed(#[trigger] (elems + more)[k]) by {
        if k < elems.len() {
            assert((elems + more)[k] == elems[k]);
        } else {
            assert((elems + more)[k] == more[k - elems.len()]);
        }
    }
}

proof fn lemma_value_well_formed(ts: Seq<Lexed>, i: int, eof: Span, depth: int)
    ensures
        value_at(ts, i, eof, depth) matches Outcome::Parsed(t, _) ==> well_formed(t),
    decreases ts.len() - i, 0int,
{
    if 0 <= i < ts.len() {
        if let Lexed::Token(Lexeme::BraceOpen, sp) = ts[i] {
            if depth < MAX_DEPTH {
                lemma_block_well_formed(ts, i + 1, sp, Seq::empty(), eof, depth + 1);
            }
        }
    }
}

proof fn lemma_block_well_formed(
    ts: Seq<Lexed>,
    i: int,
    open: Span,
    elems: Seq<Tree>,
    eof: Span,
    depth: int,
)
    requires
        all_well_formed(elems),
    ensures
        block_at(ts, i, open, elems, eof, depth) matches Outcome::Parsed(t, _) ==> well_formed(t),
    decreases ts.len() - i, 0int,
{
    if 0 <= i < ts.len() {
        match ts[i] {
            Lexed::Invalid(_) => {},
            Lexed::Token(Lexeme::BraceClose, sp) => {
                lemma_finish_well_formed(elems, i + 1, sp);
            },
            Lexed::Token(Lexeme::BraceOpen, sp) => {
                if depth < MAX_DEPTH {
                    lemma_block_well_formed(ts, i + 1, sp, Seq::empty(), eof, depth + 1);
                    if let Outcome::Parsed(t, j) = block_at(ts, i + 1, sp, Seq::empty(), eof, depth + 1) {
                        if i < j <= ts.len() {
                            lemma_push_well_formed(elems, seq![t]);
                            assert(elems + seq![t] =~= elems.push(t));
                            lemma_block_well_formed(ts, j, open, elems.push(t), eof, depth);
                        }
                    }
                }
            },
            Lexed::Token(Lexeme::Ident(name), _) => {
                lemma_ident_well_formed(ts, i + 1, name, open, eof, depth);
                match after_ident(ts, i + 1, name, open, eof, depth) {
                    IdentStep::Push(more, j) => {
                        if i < j <= ts.len() {
                            lemma_push_well_formed(elems, more);
                            lemma_block_well_formed(ts, j, open, elems + more, eof, depth);
                        }
                    },
                    IdentStep::Close(j, close) => {
                        lemma_push_well_formed(elems, seq![Tree::Str(name)]);
                        assert(elems + seq![Tree::Str(name)] =~= elems.push(Tree::Str(name)));
                        lemma_finish_well_formed(elems.push(Tree::Str(name)), j, close);
                    },
                    IdentStep::Fail(_, _) => {},
                }
            },
            Lexed::Token(l, _) => {
                if let Some(t) = scalar(l) {
                    lemma_push_well_formed(elems, seq![t]);
                    assert(elems + seq![t] =~= elems.push(t));
                    lemma_block_well_formed(ts, i + 1, open, elems.push(t), eof, depth);
                }
            },
        }
    }
}

proof fn lemma_ident_well_formed(
    ts: Seq<Lexed>,
    i: int,
    name: Seq<char>,
    open: Span,
    eof: Span,
    depth: int,
)
    ensures
        after_ident(ts, i, name, open, eof, depth) matches IdentStep::Push(more, _) ==> all_well_formed(more),
    decreases ts.len() - i, 1int,
{
    if 0 <= i < ts.len() {
        if let Lexed::Token(Lexeme::EqualSign, _) = ts[i] {
            lemma_value_well_formed(ts, i + 1, eof, depth);
            if let Outcome::Parsed(v, _) = value_at(ts, i + 1, eof, depth) {
                let o = Tree::Object(seq![(name, v)]);
                assert(well_formed(o));
            }
        }
    }
}

proof fn lemma_object_well_formed(
    ts: Seq<Lexed>,
    i: int,
    top: bool,
    pending: Option<Seq<char>>,
    es: Entries<Tree>,
    open: Span,
    eof: Span,
    depth: int,
)
    requires
        keys_unique(es),
        values_well_formed(es),
    ensures
        object_at(ts, i, top, pending, es, open, eof, depth) matches Outcome::Parsed(t, _) ==> well_formed(t),
    decreases ts.len() - i,
{
    if 0 <= i < ts.len() {
        if let Lexed::Token(l, _) = ts[i] {
            match (l, pending) {
                (Lexeme::Ident(k), None) => {
                    lemma_object_well_formed(ts, i + 1, top, Some(k), es, open, eof, depth);
                },
                (Lexeme::EqualSign, Some(k)) => {
                    lemma_value_well_formed(ts, i + 1, eof, depth);
                    if let Outcome::Parsed(v, j) = value_at(ts, i + 1, eof, depth) {
                        if i < j <= ts.len() {
                            lemma_put_well_formed(es, k, v);
                            lemma_object_well_formed(ts, j, top, None, put(es, k, v), open, eof, depth);
                        }
                    }
                },
                _ => {},
            }
        }
    }
}

/// Every object in a parsed program, at any depth, holds each key once.
pub proof fn law_parsed_keys_unique(ts: Seq<Lexed>, eof: Span)
    ensures
        program(ts, eof) matches Outcome::Parsed(t, _) ==> well_formed(t),
{
    lemma_object_well_formed(ts, 0, true, None, Seq::empty(), Span { start: 0, end: 0 }, eof, 0);
}

} // verus!

verus! {

/// The first of the first `n` pairs whose key is `k`, or -1.
pub open spec fn first_occurrence(ts: Seq<Lexed>, n: int, k: Seq<char>) -> int
    decreases n,
{
    if n <= 0 {
        -1
    } else {
        let f = first_occurrence(ts, n - 1, k);
        if f >= 0 {
            f
        } else if pair_key(ts, n - 1) == k {
            n - 1
        } else {
            -1
        }
    }
}

/// The last of the first `n` pairs whose key is `k`, or -1.
pub open spec fn last_occurrence(ts: Seq<Lexed>, n: int, k: Seq<char>) -> int
    decreases n,
{
    if n <= 0 {
        -1
    } else if pair_key(ts, n - 1) == k {
        n - 1
    } else {
        last_occurrence(ts, n - 1, k)
    }
}

proof fn lemma_occurrence_bounds(ts: Seq<Lexed>, n: int, k: Seq<char>)
    requires
        n >= 0,
    ensures
        -1 <= first_occurrence(ts, n, k) < n,
        -1 <= last_occurrence(ts, n, k) < n,
        first_occurrence(ts, n, k) >= 0 <==> last_occurrence(ts, n, k) >= 0,
        first_occurrence(ts, n, k) >= 0 ==> pair_key(ts, first_occurrence(ts, n, k)) == k,
    decreases n,
{
    if n > 0 {
        lemma_occurrence_bounds(ts, n - 1, k);
    }
}

/// What the pairs' entries hold after the first `n` pairs: each key of those
/// pairs once, in the order of its first occurrence, with the value of its
/// last occurrence.
pub open spec fn first_last(ts: Seq<Lexed>, n: int, es: Entries<Tree>) -> bool {
    &&& keys_unique(es)
    &&& forall|j: int| 0 <= j < n ==> key_index(es, #[trigger] pair_key(ts, j)) >= 0
    &&& forall|e: int|
        0 <= e < es.len() ==> {
            &&& 0 <= first_occurrence(ts, n, (#[trigger] es[e]).0)
            &&& 0 <= last_occurrence(ts, n, es[e].0)
            &&& es[e].1 == pair_value(ts, last_occurrence(ts, n, es[e].0))
        }
    &&& forall|e1: int, e2: int|
        0 <= e1 < e2 < es.len() ==> first_occurrence(ts, n, (#[trigger] es[e1]).0)
            < first_occurrence(ts, n, (#[trigger] es[e2]).0)
}

proof fn lemma_present_after(f: Entries<Tree>, q: Seq<char>, e: int)
    requires
        0 <= e < f.len(),
        f[e].0 == q,
    ensures
        key_index(f, q) >= 0,
{
    lemma_key_index(f, q);
}

proof fn lemma_first_last(ts: Seq<Lexed>, n: int)
    requires
        n >= 0,
    ensures
        first_last(ts, n, pairs_entries(ts, n)),
    decreases n,
{
    if n > 0 {
        lemma_first_last(ts, n - 1);
        lemma_pairs_unique(ts, n);
        let p = pairs_entries(ts, n - 1);
        let k = pair_key(ts, n - 1);
        let v = pair_value(ts, n - 1);
        let e = pairs_entries(ts, n);
        assert(e == put(p, k, v));
        lemma_key_index(p, k);
        let idx = key_index(p, k);
        lemma_occurrence_bounds(ts, n, k);
        lemma_occurrence_bounds(ts, n - 1, k);
        assert(last_occurrence(ts, n, k) == n - 1);
        // Keys other than `k` occur where they did.
        assert forall|q: Seq<char>| q != k implies first_occurrence(ts, n, q) == first_occurrence(
            ts,
            n - 1,
            q,
        ) && last_occurrence(ts, n, q) == last_occurrence(ts, n - 1, q) by {}
        if idx >= 0 {
            assert(p[idx].0 == k);
            assert(first_occurrence(ts, n, k) == first_occurrence(ts, n - 1, k));
            assert forall|j: int| 0 <= j < n implies key_index(e, #[trigger] pair_key(ts, j)) >= 0 by {
                let q = pair_key(ts, j);
                if j == n - 1 {
                    lemma_present_after(e, q, idx);
                } else {
                    lemma_key_index(p, q);
                    let ki = key_index(p, q);
                    assert(e[ki].0 == q);
                    lemma_present_after(e, q, ki);
                }
            }
            assert forall|x: int| 0 <= x < e.len() implies {
                &&& 0 <= first_occurrence(ts, n, (#[trigger] e[x]).0)
                &&& 0 <= last_occurrence(ts, n, e[x].0)
                &&& e[x].1 == pair_value(ts, last_occurrence(ts, n, e[x].0))
            } by {
                if x != idx {
                    assert(e[x] == p[x]);
                    assert(p[x].0 != k);
                }
            }
            assert forall|e1: int, e2: int| 0 <= e1 < e2 < e.len() implies first_occurrence(
                ts,
                n,
                (#[trigger] e[e1]).0,
            ) < first_occurrence(ts, n, (#[trigger] e[e2]).0) by {
                assert(e[e1].0 == p[e1].0 && e[e2].0 == p[e2].0);
                assert(first_occurrence(ts, n - 1, p[e1].0) < first_occurrence(ts, n - 1, p[e2].0));
                if p[e1].0 != k {
                    assert(first_occurrence(ts, n, p[e1].0) == first_occurrence(ts, n - 1, p[e1].0));
                }
                if p[e2].0 != k {
                    assert(first_occurrence(ts, n, p[e2].0) == first_occurrence(ts, n - 1, p[e2].0));
                }
            }
        } else {
            assert(first_occurrence(ts, n - 1, k) == -1) by {
                if first_occurrence(ts, n - 1, k) >= 0 {
                    let f = first_occurrence(ts, n - 1, k);
                    assert(key_index(p, pair_key(ts, f)) >= 0);
                }
            }
            assert(first_occurrence(ts, n, k) == n - 1);
            assert forall|j: int| 0 <= j < n implies key_index(e, #[trigger] pair_key(ts, j)) >= 0 by {
                let q = pair_key(ts, j);
                if j == n - 1 {
                    lemma_present_after(e, q, p.len() as int);
                } else {
                    lemma_key_index(p, q);
                    let ki = key_index(p, q);
                    assert(e[ki] == p[ki]);
                    lemma_present_after(e, q, ki);
                }
            }
            assert forall|x: int| 0 <= x < e.len() implies {
                &&& 0 <= first_occurrence(ts, n, (#[trigger] e[x]).0)
                &&& 0 <= last_occurrence(ts, n, e[x].0)
                &&& e[x].1 == pair_value(ts, last_occurrence(ts, n, e[x].0))
            } by {
                if x < p.len() {
                    assert(e[x] == p[x]);
                    assert(p[x].0 != k);
                }
            }
            assert forall|e1: int, e2: int| 0 <= e1 < e2 < e.len() implies first_occurrence(
                ts,
                n,
                (#[trigger] e[e1]).0,
            ) < first_occurrence(ts, n, (#[trigger] e[e2]).0) by {
                assert(e[e1] == p[e1]);
                assert(p[e1].0 != k);
                lemma_occurrence_bounds(ts, n - 1, p[e1].0);
                if e2 < p.len() {
                    assert(e[e2] == p[e2]);
                    assert(p[e2].0 != k);
                    assert(first_occurrence(ts, n - 1, p[e1].0) < first_occurrence(ts, n - 1, p[e2].0));
                }
            }
        }
    }
}

/// In a program made only of `identifier = scalar` pairs, the object holds
/// each key that occurs, once, in the order of the key's first occurrence,
/// with the value of its last occurrence.
pub proof fn law_flat_pairs_first_last(ts: Seq<Lexed>, eof: Span)
    requires
        flat_pairs(ts),
    ensures
        program(ts, eof) == Outcome::Parsed(
            Tree::Object(pairs_entries(ts, ts.len() as int / 3)),
            ts.len() as int,
        ),
        first_last(ts, ts.len() as int / 3, pairs_entries(ts, ts.len() as int / 3)),
{
    law_flat_pairs(ts, eof);
    lemma_first_last(ts, ts.len() as int / 3);
}

} // verus!
