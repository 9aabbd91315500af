//! The value tree that parsing produces, and its mathematical model.
use vstd::prelude::*;

verus! {

/// The entries of an object: keys with their values, in order.
pub type Entries<V> = Seq<(Seq<char>, V)>;

/// The position of key `k` among the entries, or -1 when it is absent.
pub open spec fn key_index<V>(es: Entries<V>, k: Seq<char>) -> int
    decreases es.len(),
{
    if es.len() == 0 {
        -1
    } else if es.last().0 == k {
        es.len() - 1
    } else {
        key_index(es.drop_last(), k)
    }
}

/// Ordered-map insertion: a new key goes to the end; a key that is present
/// gets the new value and keeps its position.
pub open spec fn put<V>(es: Entries<V>, k: Seq<char>, v: V) -> Entries<V> {
    let i = key_index(es, k);
    if i >= 0 {
        es.update(i, (k, v))
    } else {
        es.push((k, v))
    }
}

/// Inserts the entries of `more`, in order, into `es`.
pub open spec fn merge<V>(es: Entries<V>, more: Entries<V>) -> Entries<V>
    decreases more.len(),
{
    if more.len() == 0 {
        es
    } else {
        let last = more.last();
        put(merge(es, more.drop_last()), last.0, last.1)
    }
}

/// No key occurs twice.
pub open spec fn keys_unique<V>(es: Entries<V>) -> bool {
    forall|i: int, j: int| 0 <= i < j < es.len() ==> es[i].0 != es[j].0
}

/// A value tree as a mathematical object.
pub enum Tree {
    Null,
    Bool(bool),
    /// A float as written in the source.
    Float(Seq<char>),
    Integer(i64),
    Str(Seq<char>),
    Array(Seq<Tree>),
    Object(Entries<Tree>),
    Empty,
}

/// A map from keys to values that keeps the order in which keys were first
/// inserted.
#[verifier::external_body]
#[derive(Debug, PartialEq)]
pub struct ObjectMap<'a> {
    map: ordered_hash_map::OrderedHashMap<&'a str, Value<'a>>,
}


/// The entries of an object map, in order.
pub uninterp spec fn object_entries(m: ObjectMap) -> Seq<(Seq<char>, Value)>;

/// A parsed value. Text borrows from the source.
#[derive(Debug, PartialEq)]
pub enum Value<'a> {
    Null,
    Bool(bool),
    /// A number with a fractional part, as written in the source.
    Float(&'a str),
    Integer(i64),
    /// A quoted string without its quotes, or a bare word.
    String(&'a str),
    Array(Vec<Value<'a>>),
    Object(ObjectMap<'a>),
    /// The block `{}`, which may stand for an empty array or an empty object.
    Empty,
}

/// `v` is a value whose model is `t`.
pub open spec fn represents(v: Value, t: Tree) -> bool
    decreases t,
{
    match t {
        Tree::Null => v is Null,
        Tree::Bool(b) => v == Value::Bool(b),
        Tree::Float(s) => v matches Value::Float(x) && x@ == s,
        Tree::Integer(n) => v == Value::Integer(n),
        Tree::Str(s) => v matches Value::String(x) && x@ == s,
        Tree::Array(ts) => v matches Value::Array(xs) && xs@.len() == ts.len() && forall|i: int|
            0 <= i < ts.len() ==> represents(#[trigger] xs@[i], ts[i]),
        Tree::Object(es) => v matches Value::Object(m) && object_entries(m).len() == es.len()
            && forall|i: int|
            0 <= i < es.len() ==> (#[trigger] object_entries(m)[i]).0 == es[i].0 && represents(
                object_entries(m)[i].1,
                es[i].1,
            ),
        Tree::Empty => v is Empty,
    }
}

/// The entries `ev` hold the keys of `et` in the same order, with values that
/// they model.
pub open spec fn entries_represent(ev: Entries<Value>, et: Entries<Tree>) -> bool {
    &&& ev.len() == et.len()
    &&& forall|i: int|
        0 <= i < et.len() ==> (#[trigger] ev[i]).0 == et[i].0 && represents(ev[i].1, et[i].1)
}

impl<'a> ObjectMap<'a> {
    /// Relies on OrderedHashMap::new: a new map holds no entries.
    #[verifier::external_body]
    pub fn new() -> (r: ObjectMap<'a>)
        ensures
            object_entries(r) == Seq::<(Seq<char>, Value)>::empty(),
    {
        ObjectMap { map: ordered_hash_map::OrderedHashMap::new() }
    }

    /// Relies on OrderedHashMap::contains_key: whether the key is present.
    #[verifier::external_body]
    fn contains_key(&self, key: &str) -> (r: bool)
        ensures
            r == (key_index(object_entries(*self), key@) >= 0),
    {
        self.map.contains_key(key)
    }

    /// Relies on OrderedHashMap::get_mut: the value of a present key, which can
    /// be changed in place without moving its entry.
    #[verifier::external_body]
    fn value_mut(&mut self, key: &str) -> (r: &mut Value<'a>)
        requires
            key_index(object_entries(*old(self)), key@) >= 0,
        ensures
            *r == object_entries(*old(self))[key_index(object_entries(*old(self)), key@)].1,
            object_entries(*final(self)) == object_entries(*old(self)).update(
                key_index(object_entries(*old(self)), key@),
                (key@, *final(r)),
            ),
    {
        self.map.get_mut(key).unwrap()
    }

    /// Relies on OrderedHashMap::insert: a new key is appended; a present key
    /// is taken out and appended with the new value.
    #[verifier::external_body]
    fn insert(&mut self, key: &'a str, value: Value<'a>)
        ensures
            key_index(object_entries(*old(self)), key@) < 0 ==> object_entries(*final(self))
                == object_entries(*old(self)).push((key@, value)),
            key_index(object_entries(*old(self)), key@) >= 0 ==> object_entries(*final(self))
                == object_entries(*old(self)).remove(
                key_index(object_entries(*old(self)), key@),
            ).push((key@, value)),
    {
        self.map.insert(key, value);
    }

    /// Relies on OrderedHashMap's owning iterator: the entries in order.
    #[verifier::external_body]
    pub fn into_entries(self) -> (r: Vec<(&'a str, Value<'a>)>)
        ensures
            r@.len() == object_entries(self).len(),
            forall|i: int|
                0 <= i < r@.len() ==> (#[trigger] r@[i]).0@ == object_entries(self)[i].0 && r@[i].1
                    == object_entries(self)[i].1,
    {
        self.map.into_iter().collect()
    }

    /// Sets `key` to `value`. A new key goes to the end; a present key keeps
    /// its position and gets the new value.
    pub fn put(&mut self, key: &'a str, value: Value<'a>)
        ensures
            object_entries(*final(self)) == put(object_entries(*old(self)), key@, value),
    {
        if self.contains_key(key) {
            let slot = self.value_mut(key);
            *slot = value;
        } else {
            self.insert(key, value);
        }
    }
}

} // verus!

verus! {

/// The entries of `v` if it is an object, else none.
pub open spec fn value_entries(v: Value) -> Entries<Value> {
    match v {
        Value::Object(m) => object_entries(m),
        _ => Seq::empty(),
    }
}

/// The entries of the objects `vs`, merged in order.
pub open spec fn flatten_values(vs: Seq<Value>) -> Entries<Value>
    decreases vs.len(),
{
    if vs.len() == 0 {
        Seq::empty()
    } else {
        merge(flatten_values(vs.drop_last()), value_entries(vs.last()))
    }
}

impl<'a> ObjectMap<'a> {
    /// Puts each entry of `other`, in order, into this map.
    pub fn extend(&mut self, other: ObjectMap<'a>)
        ensures
            object_entries(*final(self)) == merge(object_entries(*old(self)), object_entries(other)),
    {
        let ghost base = object_entries(*self);
        let ghost es = object_entries(other);
        let pairs = other.into_entries();
        let ghost items = pairs@;
        for pair in it: pairs.into_iter()
            invariant
                items.len() == es.len(),
                it.seq() == items,
                forall|i: int|
                    0 <= i < items.len() ==> (#[trigger] items[i]).0@ == es[i].0 && items[i].1
                        == es[i].1,
                object_entries(*self) == merge(base, es.subrange(0, it.index() as int)),
        {
            let (k, v) = pair;
            let ghost n = it.index() as int;
            assert(es.subrange(0, n + 1).drop_last() =~= es.subrange(0, n));
            self.put(k, v);
        }
        assert(es.subrange(0, es.len() as int) =~= es);
    }
}

} // verus!

verus! {

pub proof fn lemma_represents_object(v: Value, t: Tree)
    requires
        represents(v, t),
    ensures
        v is Object <==> t is Object,
        t is Object ==> entries_represent(value_entries(v), t->Object_0),
{
}

proof fn lemma_key_index_agrees(ev: Entries<Value>, et: Entries<Tree>, k: Seq<char>)
    requires
        entries_represent(ev, et),
    ensures
        key_index(ev, k) == key_index(et, k),
        -1 <= key_index(et, k) < et.len(),
        key_index(et, k) >= 0 ==> et[key_index(et, k)].0 == k,
    decreases et.len(),
{
    if et.len() > 0 {
        assert(entries_represent(ev.drop_last(), et.drop_last())) by {
            assert forall|i: int| 0 <= i < et.drop_last().len() implies (#[trigger] ev.drop_last()[i]).0
                == et.drop_last()[i].0 && represents(ev.drop_last()[i].1, et.drop_last()[i].1) by {
                assert(ev[i] == ev.drop_last()[i]);
            }
        }
        assert(ev[et.len() - 1] == ev.last());
        lemma_key_index_agrees(ev.drop_last(), et.drop_last(), k);
    }
}

pub proof fn lemma_put_represents(ev: Entries<Value>, et: Entries<Tree>, k: Seq<char>, v: Value, t: Tree)
    requires
        entries_represent(ev, et),
        represents(v, t),
    ensures
        entries_represent(put(ev, k, v), put(et, k, t)),
{
    lemma_key_index_agrees(ev, et, k);
    let pv = put(ev, k, v);
    let pt = put(et, k, t);
    assert forall|i: int| 0 <= i < pt.len() implies (#[trigger] pv[i]).0 == pt[i].0 && represents(
        pv[i].1,
        pt[i].1,
    ) by {
        if i < et.len() {
            assert(ev[i].0 == et[i].0);
        }
    }
}

pub proof fn lemma_merge_represents(ev: Entries<Value>, et: Entries<Tree>, mv: Entries<Value>, mt: Entries<Tree>)
    requires
        entries_represent(ev, et),
        entries_represent(mv, mt),
    ensures
        entries_represent(merge(ev, mv), merge(et, mt)),
    decreases mt.len(),
{
    if mt.len() > 0 {
        assert(entries_represent(mv.drop_last(), mt.drop_last())) by {
            assert forall|i: int| 0 <= i < mt.drop_last().len() implies (#[trigger] mv.drop_last()[i]).0
                == mt.drop_last()[i].0 && represents(mv.drop_last()[i].1, mt.drop_last()[i].1) by {
                assert(mv[i] == mv.drop_last()[i]);
            }
        }
        lemma_merge_represents(ev, et, mv.drop_last(), mt.drop_last());
        assert(mv[mt.len() - 1] == mv.last());
        lemma_put_represents(
            merge(ev, mv.drop_last()),
            merge(et, mt.drop_last()),
            mt.last().0,
            mv.last().1,
            mt.last().1,
        );
    }
}

} // verus!

verus! {

/// `key_index` finds the position of a key that is present, and -1 only for
/// one that is absent.
pub proof fn lemma_key_index<V>(es: Entries<V>, k: Seq<char>)
    ensures
        -1 <= key_index(es, k) < es.len(),
        key_index(es, k) >= 0 ==> es[key_index(es, k)].0 == k,
        key_index(es, k) == -1 ==> forall|i: int| 0 <= i < es.len() ==> (#[trigger] es[i]).0 != k,
    decreases es.len(),
{
    if es.len() > 0 {
        lemma_key_index(es.drop_last(), k);
        assert(es.last() == es[es.len() - 1]);
        if key_index(es, k) == -1 {
            assert forall|i: int| 0 <= i < es.len() implies (#[trigger] es[i]).0 != k by {
                if i < es.len() - 1 {
                    assert(es.drop_last()[i] == es[i]);
                }
            }
        }
        if key_index(es, k) >= 0 && key_index(es, k) < es.len() - 1 {
            assert(es.drop_last()[key_index(es, k)] == es[key_index(es, k)]);
        }
    }
}

/// Putting an entry keeps keys unique.
pub proof fn lemma_put_keeps_keys_unique<V>(es: Entries<V>, k: Seq<char>, v: V)
    requires
        keys_unique(es),
    ensures
        keys_unique(put(es, k, v)),
{
    lemma_key_index(es, k);
    let p = put(es, k, v);
    assert forall|i: int, j: int| 0 <= i < j < p.len() implies p[i].0 != p[j].0 by {
        if j == es.len() {
            assert(es[i].0 != k);
        } else {
            assert(es[i].0 != es[j].0);
        }
    }
}

} // verus!
