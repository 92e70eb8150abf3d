//! Owned JSON value trees.
//!
//! A `JsonValue` is a tagged union over null, booleans, numbers, strings,
//! arrays and objects. Objects are key/value pair lists with unique keys;
//! setting an existing key replaces its value in place. Numbers that are not
//! integers in `i64` range are carried as their decimal literal text, so the
//! tree itself stays free of machine floating point.
//!
//! The abstract content of a tree is the ghost `JsonVal`, reached through the
//! `View` impl; every contract over JSON data speaks of that view.

use crate::pool::PoolValue;
use vstd::prelude::*;

verus! {

broadcast use vstd::std_specs::vec::group_vec_axioms;

/// Host-visible type codes reported for a JSON node.
pub const NODE_NUMBER: i32 = 0;

pub const NODE_BOOLEAN: i32 = 1;

pub const NODE_STRING: i32 = 2;

pub const NODE_OBJECT: i32 = 3;

pub const NODE_ARRAY: i32 = 4;

pub const NODE_NULL: i32 = 5;

/// An owned JSON tree.
pub enum JsonValue {
    Null,
    Bool(bool),
    /// A number that is an integer in `i64` range.
    Int(i64),
    /// Any other number, kept as the decimal literal it was written as.
    Num(String),
    Str(String),
    Arr(Vec<JsonValue>),
    Obj(Vec<(String, JsonValue)>),
}

/// The abstract content of a `JsonValue`.
pub enum JsonVal {
    Null,
    Bool(bool),
    Int(i64),
    Num(Seq<char>),
    Str(Seq<char>),
    Arr(Seq<JsonVal>),
    Obj(Seq<(Seq<char>, JsonVal)>),
}

pub open spec fn view_of(v: JsonValue) -> JsonVal
    decreases v,
{
    match v {
        JsonValue::Null => JsonVal::Null,
        JsonValue::Bool(b) => JsonVal::Bool(b),
        JsonValue::Int(i) => JsonVal::Int(i),
        JsonValue::Num(s) => JsonVal::Num(s@),
        JsonValue::Str(s) => JsonVal::Str(s@),
        JsonValue::Arr(elems) => JsonVal::Arr(view_of_list(elems@)),
        JsonValue::Obj(pairs) => JsonVal::Obj(view_of_pairs(pairs@)),
    }
}

pub open spec fn view_of_list(s: Seq<JsonValue>) -> Seq<JsonVal>
    decreases s,
{
    if s.len() == 0 {
        Seq::empty()
    } else {
        seq![view_of(s[0])] + view_of_list(s.drop_first())
    }
}

pub open spec fn view_of_pairs(s: Seq<(String, JsonValue)>) -> Seq<(Seq<char>, JsonVal)>
    decreases s,
{
    if s.len() == 0 {
        Seq::empty()
    } else {
        seq![(s[0].0@, view_of(s[0].1))] + view_of_pairs(s.drop_first())
    }
}

pub broadcast proof fn lemma_view_of_list_index(s: Seq<JsonValue>)
    ensures
        (#[trigger] view_of_list(s)).len() == s.len(),
        forall|i: int| 0 <= i < s.len() ==> view_of_list(s)[i] == view_of(s[i]),
    decreases s.len(),
{
    if s.len() > 0 {
        lemma_view_of_list_index(s.drop_first());
        assert forall|i: int| 0 <= i < s.len() implies view_of_list(s)[i] == view_of(s[i]) by {
            if i > 0 {
                assert(s.drop_first()[i - 1] == s[i]);
            }
        }
    }
}

pub broadcast proof fn lemma_view_of_pairs_index(s: Seq<(String, JsonValue)>)
    ensures
        (#[trigger] view_of_pairs(s)).len() == s.len(),
        forall|i: int|
            0 <= i < s.len() ==> view_of_pairs(s)[i] == (s[i].0@, view_of(s[i].1)),
    decreases s.len(),
{
    if s.len() > 0 {
        lemma_view_of_pairs_index(s.drop_first());
        assert forall|i: int|
            0 <= i < s.len() implies view_of_pairs(s)[i] == (s[i].0@, view_of(s[i].1)) by {
            if i > 0 {
                assert(s.drop_first()[i - 1] == s[i]);
            }
        }
    }
}

impl View for JsonValue {
    type V = JsonVal;

    open spec fn view(&self) -> JsonVal {
        view_of(*self)
    }
}

impl JsonVal {
    /// Keys of every object in the tree are unique.
    pub open spec fn wf(self) -> bool
        decreases self,
    {
        match self {
            JsonVal::Arr(elems) => forall|i: int|
                0 <= i < elems.len() ==> (#[trigger] elems[i]).wf(),
            JsonVal::Obj(pairs) => {
                &&& forall|i: int, j: int|
                    0 <= i < j < pairs.len() ==> (#[trigger] pairs[i].0) != (#[trigger] pairs[j].0)
                &&& forall|i: int| 0 <= i < pairs.len() ==> (#[trigger] pairs[i].1).wf()
            },
            _ => true,
        }
    }

    /// The value under `key` in an object's pair list, if any.
    pub open spec fn pairs_lookup(pairs: Seq<(Seq<char>, JsonVal)>, key: Seq<char>) -> Option<
        JsonVal,
    >
        decreases pairs.len(),
    {
        if pairs.len() == 0 {
            None
        } else if pairs[0].0 == key {
            Some(pairs[0].1)
        } else {
            Self::pairs_lookup(pairs.drop_first(), key)
        }
    }

    /// The pair list after binding `key` to `val`: replaces the existing pair
    /// in place, or appends a new one.
    pub open spec fn pairs_store(
        pairs: Seq<(Seq<char>, JsonVal)>,
        key: Seq<char>,
        val: JsonVal,
    ) -> Seq<(Seq<char>, JsonVal)>
        decreases pairs.len(),
    {
        if pairs.len() == 0 {
            seq![(key, val)]
        } else if pairs[0].0 == key {
            seq![(key, val)] + pairs.drop_first()
        } else {
            seq![pairs[0]] + Self::pairs_store(pairs.drop_first(), key, val)
        }
    }

    /// `base` with every pair of `over` stored into it in order; on a key
    /// both sides carry, the value of `over` wins.
    pub open spec fn pairs_merge(
        base: Seq<(Seq<char>, JsonVal)>,
        over: Seq<(Seq<char>, JsonVal)>,
    ) -> Seq<(Seq<char>, JsonVal)>
        decreases over.len(),
    {
        if over.len() == 0 {
            base
        } else {
            Self::pairs_merge(Self::pairs_store(base, over[0].0, over[0].1), over.drop_first())
        }
    }
}

impl JsonValue {
    /// The host-visible type code of this node.
    pub fn node_type(&self) -> (t: i32)
        ensures
            t == match self@ {
                JsonVal::Null => NODE_NULL,
                JsonVal::Bool(_) => NODE_BOOLEAN,
                JsonVal::Int(_) => NODE_NUMBER,
                JsonVal::Num(_) => NODE_NUMBER,
                JsonVal::Str(_) => NODE_STRING,
                JsonVal::Arr(_) => NODE_ARRAY,
                JsonVal::Obj(_) => NODE_OBJECT,
            },
    {
        match self {
            JsonValue::Null => NODE_NULL,
            JsonValue::Bool(_) => NODE_BOOLEAN,
            JsonValue::Int(_) => NODE_NUMBER,
            JsonValue::Num(_) => NODE_NUMBER,
            JsonValue::Str(_) => NODE_STRING,
            JsonValue::Arr(_) => NODE_ARRAY,
            JsonValue::Obj(_) => NODE_OBJECT,
        }
    }

    /// Structural deep copy; the copy has the same abstract content.
    #[verifier::loop_isolation(false)]
    pub fn deep_copy(&self) -> (r: JsonValue)
        ensures
            r@ == self@,
        decreases *self,
    {
        match self {
            JsonValue::Null => JsonValue::Null,
            JsonValue::Bool(b) => JsonValue::Bool(*b),
            JsonValue::Int(i) => JsonValue::Int(*i),
            JsonValue::Num(s) => JsonValue::Num(s.clone()),
            JsonValue::Str(s) => JsonValue::Str(s.clone()),
            JsonValue::Arr(elems) => {
                let mut out: Vec<JsonValue> = Vec::new();
                let mut i: usize = 0;
                while i < elems.len()
                    invariant
                        i <= elems.len(),
                        out@.len() == i as int,
                        forall|j: int| 0 <= j < i ==> out@[j]@ == elems@[j]@,
                    decreases elems.len() - i,
                {
                    proof {
                        assert(decreases_to!(*self => *elems));
                        assert(decreases_to!(*elems => elems@[i as int]));
                    }
                    out.push(elems[i].deep_copy());
                    i = i + 1;
                }
                proof {
                    lemma_view_of_list_index(elems@);
                    lemma_view_of_list_index(out@);
                    assert(view_of_list(out@) =~= view_of_list(elems@));
                }
                JsonValue::Arr(out)
            },
            JsonValue::Obj(pairs) => {
                let mut out: Vec<(String, JsonValue)> = Vec::new();
                let mut i: usize = 0;
                while i < pairs.len()
                    invariant
                        i <= pairs.len(),
                        out@.len() == i as int,
                        forall|j: int|
                            0 <= j < i ==> out@[j].0@ == pairs@[j].0@ && out@[j].1@ == pairs@[j].1@,
                    decreases pairs.len() - i,
                {
                    proof {
                        assert(decreases_to!(*self => *pairs));
                        assert(decreases_to!(*pairs => pairs@[i as int]));
                        assert(decreases_to!(pairs@[i as int] => pairs@[i as int].1));
                    }
                    let key = pairs[i].0.clone();
                    let val = pairs[i].1.deep_copy();
                    out.push((key, val));
                    i = i + 1;
                }
                proof {
                    lemma_view_of_pairs_index(pairs@);
                    lemma_view_of_pairs_index(out@);
                    assert(view_of_pairs(out@) =~= view_of_pairs(pairs@));
                }
                JsonValue::Obj(out)
            },
        }
    }
}

/// `pairs_lookup` finds the first pair whose key matches.
pub proof fn lemma_pairs_lookup_first(pairs: Seq<(Seq<char>, JsonVal)>, key: Seq<char>, i: int)
    requires
        0 <= i < pairs.len(),
        pairs[i].0 == key,
        forall|j: int| 0 <= j < i ==> (#[trigger] pairs[j].0) != key,
    ensures
        JsonVal::pairs_lookup(pairs, key) == Some(pairs[i].1),
    decreases i,
{
    if i > 0 {
        lemma_pairs_lookup_first(pairs.drop_first(), key, i - 1);
    }
}

/// `pairs_lookup` fails exactly when no pair's key matches.
pub proof fn lemma_pairs_lookup_none(pairs: Seq<(Seq<char>, JsonVal)>, key: Seq<char>)
    requires
        forall|j: int| 0 <= j < pairs.len() ==> (#[trigger] pairs[j].0) != key,
    ensures
        JsonVal::pairs_lookup(pairs, key) is None,
    decreases pairs.len(),
{
    if pairs.len() > 0 {
        lemma_pairs_lookup_none(pairs.drop_first(), key);
    }
}

/// When the first matching key stands at `i`, `pairs_store` updates that pair
/// in place.
pub proof fn lemma_pairs_store_at(
    pairs: Seq<(Seq<char>, JsonVal)>,
    key: Seq<char>,
    val: JsonVal,
    i: int,
)
    requires
        0 <= i < pairs.len(),
        pairs[i].0 == key,
        forall|j: int| 0 <= j < i ==> (#[trigger] pairs[j].0) != key,
    ensures
        JsonVal::pairs_store(pairs, key, val) =~= pairs.update(i, (key, val)),
    decreases i,
{
    if i == 0 {
        assert(JsonVal::pairs_store(pairs, key, val) =~= pairs.update(0, (key, val)));
    } else {
        lemma_pairs_store_at(pairs.drop_first(), key, val, i - 1);
        assert(JsonVal::pairs_store(pairs, key, val) =~= pairs.update(i, (key, val)));
    }
}

/// When no key matches, `pairs_store` appends the new pair.
pub proof fn lemma_pairs_store_append(
    pairs: Seq<(Seq<char>, JsonVal)>,
    key: Seq<char>,
    val: JsonVal,
)
    requires
        forall|j: int| 0 <= j < pairs.len() ==> (#[trigger] pairs[j].0) != key,
    ensures
        JsonVal::pairs_store(pairs, key, val) =~= pairs.push((key, val)),
    decreases pairs.len(),
{
    if pairs.len() > 0 {
        lemma_pairs_store_append(pairs.drop_first(), key, val);
        assert(JsonVal::pairs_store(pairs, key, val) =~= pairs.push((key, val)));
    }
}

/// The index of the first pair whose key matches, when one exists.
pub proof fn find_first_key(pairs: Seq<(Seq<char>, JsonVal)>, key: Seq<char>) -> (i: int)
    requires
        exists|m: int| 0 <= m < pairs.len() && (#[trigger] pairs[m].0) == key,
    ensures
        0 <= i < pairs.len(),
        pairs[i].0 == key,
        forall|j: int| 0 <= j < i ==> (#[trigger] pairs[j].0) != key,
    decreases pairs.len(),
{
    if pairs[0].0 == key {
        0
    } else {
        let m = choose|m: int| 0 <= m < pairs.len() && (#[trigger] pairs[m].0) == key;
        assert(pairs.drop_first()[m - 1].0 == key);
        let i0 = find_first_key(pairs.drop_first(), key);
        assert forall|j: int| 0 <= j < i0 + 1 implies (#[trigger] pairs[j].0) != key by {
            if j > 0 {
                assert(pairs.drop_first()[j - 1] == pairs[j]);
            }
        }
        i0 + 1
    }
}

impl JsonValue {
    /// Whether this node is an object.
    pub fn is_object(&self) -> (b: bool)
        ensures
            b == (self@ is Obj),
    {
        match self {
            JsonValue::Obj(_) => true,
            _ => false,
        }
    }

    /// Whether this node is an array.
    pub fn is_array(&self) -> (b: bool)
        ensures
            b == (self@ is Arr),
    {
        match self {
            JsonValue::Arr(_) => true,
            _ => false,
        }
    }

    /// The integer behind a number node; `None` for every other node and for
    /// numbers carried as non-integer literals.
    pub fn as_int(&self) -> (r: Option<i64>)
        ensures
            match self@ {
                JsonVal::Int(i) => r == Some(i),
                _ => r is None,
            },
    {
        match self {
            JsonValue::Int(i) => Some(*i),
            _ => None,
        }
    }

    /// The boolean behind a boolean node.
    pub fn as_bool(&self) -> (r: Option<bool>)
        ensures
            match self@ {
                JsonVal::Bool(b) => r == Some(b),
                _ => r is None,
            },
    {
        match self {
            JsonValue::Bool(b) => Some(*b),
            _ => None,
        }
    }

    /// The text behind a string node.
    pub fn as_str(&self) -> (r: Option<&String>)
        ensures
            match self@ {
                JsonVal::Str(s) => r is Some && r->0@ == s,
                _ => r is None,
            },
    {
        match self {
            JsonValue::Str(s) => Some(s),
            _ => None,
        }
    }

    /// The value under `key`, when this node is an object that has the key.
    #[verifier::loop_isolation(false)]
    pub fn obj_get(&self, key: &String) -> (r: Option<&JsonValue>)
        ensures
            match self@ {
                JsonVal::Obj(pairs) => match r {
                    Some(v) => JsonVal::pairs_lookup(pairs, key@) == Some(v@),
                    None => JsonVal::pairs_lookup(pairs, key@) is None,
                },
                _ => r is None,
            },
    {
        match self {
            JsonValue::Obj(pairs) => {
                proof {
                    lemma_view_of_pairs_index(pairs@);
                }
                let ghost vpairs = view_of_pairs(pairs@);
                let mut i: usize = 0;
                while i < pairs.len()
                    invariant
                        i <= pairs.len(),
                        vpairs == view_of_pairs(pairs@),
                        vpairs.len() == pairs.len(),
                        forall|j: int| 0 <= j < vpairs.len() ==> #[trigger] vpairs[j] == (
                        pairs@[j].0@, view_of(pairs@[j].1)),
                        forall|j: int| 0 <= j < i ==> (#[trigger] vpairs[j].0) != key@,
                    decreases pairs.len() - i,
                {
                    if pairs[i].0 == *key {
                        proof {
                            lemma_pairs_lookup_first(vpairs, key@, i as int);
                        }
                        return Some(&pairs[i].1);
                    }
                    i = i + 1;
                }
                proof {
                    lemma_pairs_lookup_none(vpairs, key@);
                }
                None
            },
            _ => None,
        }
    }

    /// Binds `key` to `val` in an object node: replaces the pair carrying the
    /// key, or appends a new one. Fails (changing nothing) on any other node.
    #[verifier::loop_isolation(false)]
    pub fn obj_set(&mut self, key: String, val: JsonValue) -> (ok: bool)
        ensures
            match old(self)@ {
                JsonVal::Obj(pairs) => ok && final(self)@ == JsonVal::Obj(
                    JsonVal::pairs_store(pairs, key@, val@),
                ),
                _ => !ok && final(self)@ == old(self)@,
            },
    {
        match self {
            JsonValue::Obj(pairs) => {
                proof {
                    lemma_view_of_pairs_index(pairs@);
                }
                let ghost vpairs0 = view_of_pairs(pairs@);
                let mut i: usize = 0;
                while i < pairs.len()
                    invariant
                        i <= pairs.len(),
                        vpairs0 == view_of_pairs(pairs@),
                        vpairs0.len() == pairs.len(),
                        forall|j: int| 0 <= j < vpairs0.len() ==> #[trigger] vpairs0[j] == (
                        pairs@[j].0@, view_of(pairs@[j].1)),
                        forall|j: int| 0 <= j < i ==> (#[trigger] vpairs0[j].0) != key@,
                    decreases pairs.len() - i,
                {
                    if pairs[i].0 == key {
                        proof {
                            lemma_pairs_store_at(vpairs0, key@, val@, i as int);
                        }
                        let _ = pairs.remove(i);
                        pairs.insert(i, (key, val));
                        proof {
                            lemma_view_of_pairs_index(pairs@);
                            assert(view_of_pairs(pairs@) =~= vpairs0.update(
                                i as int,
                                (key@, val@),
                            ));
                        }
                        return true;
                    }
                    i = i + 1;
                }
                proof {
                    lemma_pairs_store_append(vpairs0, key@, val@);
                }
                pairs.push((key, val));
                proof {
                    lemma_view_of_pairs_index(pairs@);
                    assert(view_of_pairs(pairs@) =~= vpairs0.push((key@, val@)));
                }
                true
            },
            _ => false,
        }
    }

    /// The number of elements of an array node; 0 for every other node.
    pub fn arr_len(&self) -> (n: usize)
        ensures
            match self@ {
                JsonVal::Arr(elems) => n == elems.len(),
                _ => n == 0,
            },
    {
        match self {
            JsonValue::Arr(elems) => {
                proof {
                    lemma_view_of_list_index(elems@);
                }
                elems.len()
            },
            _ => 0,
        }
    }

    /// The element at `index` of an array node, if it exists.
    pub fn arr_get(&self, index: usize) -> (r: Option<&JsonValue>)
        ensures
            match self@ {
                JsonVal::Arr(elems) => match r {
                    Some(v) => index < elems.len() && v@ == elems[index as int],
                    None => index >= elems.len(),
                },
                _ => r is None,
            },
    {
        match self {
            JsonValue::Arr(elems) => {
                proof {
                    lemma_view_of_list_index(elems@);
                }
                if index < elems.len() {
                    Some(&elems[index])
                } else {
                    None
                }
            },
            _ => None,
        }
    }
}

impl PoolValue for JsonValue {
    fn duplicate(&self) -> (r: Self)
        ensures
            r@ == self@,
    {
        self.deep_copy()
    }
}

/// Merges two object nodes: the result holds every key of `a`, with the pairs
/// of `b` stored over them in order, so `b` wins on conflicting keys.
#[verifier::loop_isolation(false)]
pub fn merge_objects(a: JsonValue, b: JsonValue) -> (r: JsonValue)
    requires
        a@ is Obj,
        b@ is Obj,
    ensures
        r@ == JsonVal::Obj(JsonVal::pairs_merge(a@->Obj_0, b@->Obj_0)),
{
    let ghost base0 = a@->Obj_0;
    let ghost over0 = b@->Obj_0;
    let mut acc = a;
    match b {
        JsonValue::Obj(mut bpairs) => {
            proof {
                lemma_view_of_pairs_index(bpairs@);
            }
            while bpairs.len() > 0
                invariant
                    acc@ is Obj,
                    JsonVal::pairs_merge(acc@->Obj_0, view_of_pairs(bpairs@)) == JsonVal::pairs_merge(
                        base0,
                        over0,
                    ),
                decreases bpairs.len(),
            {
                let ghost before = view_of_pairs(bpairs@);
                let (key, val) = bpairs.remove(0);
                proof {
                    lemma_view_of_pairs_index(bpairs@);
                    assert(view_of_pairs(bpairs@) =~= before.drop_first());
                    assert(before[0] == (key@, val@));
                }
                let ghost acc_pairs = acc@->Obj_0;
                let _ = acc.obj_set(key, val);
                proof {
                    assert(acc@->Obj_0 == JsonVal::pairs_store(acc_pairs, key@, val@));
                }
            }
            acc
        },
        _ => acc,
    }
}

/// Concatenates two array nodes, `a`'s elements first.
pub fn concat_arrays(a: JsonValue, b: JsonValue) -> (r: JsonValue)
    requires
        a@ is Arr,
        b@ is Arr,
    ensures
        r@ == JsonVal::Arr(a@->Arr_0 + b@->Arr_0),
{
    match (a, b) {
        (JsonValue::Arr(mut ae), JsonValue::Arr(mut be)) => {
            let ghost a0 = ae@;
            let ghost b0 = be@;
            ae.append(&mut be);
            proof {
                lemma_view_of_list_index(a0);
                lemma_view_of_list_index(b0);
                lemma_view_of_list_index(ae@);
                assert(view_of_list(ae@) =~= view_of_list(a0) + view_of_list(b0));
            }
            JsonValue::Arr(ae)
        },
        _ => JsonValue::Null,
    }
}

} // verus!
