//! A model of JSON documents, used for record attributes and for the
//! JSON-Patch update engine.
//!
//! Numbers are carried as their decimal text so that the engine never
//! manipulates floating point; documents are compared structurally.

use vstd::prelude::*;

verus! {

/// A JSON document.
#[derive(Debug)]
pub enum JsonValue {
    Null,
    Bool(bool),
    /// A number, as its decimal text.
    Number(String),
    Text(String),
    Array(Vec<JsonValue>),
    Object(Vec<(String, JsonValue)>),
}

/// The mathematical shape of a JSON document.
pub enum JsonModel {
    Null,
    Bool(bool),
    Number(Seq<char>),
    Text(Seq<char>),
    Array(Seq<JsonModel>),
    Object(Seq<(Seq<char>, JsonModel)>),
}

/// The model of a document.
pub open spec fn jv_model(v: JsonValue) -> JsonModel
    decreases v,
{
    match v {
        JsonValue::Null => JsonModel::Null,
        JsonValue::Bool(b) => JsonModel::Bool(b),
        JsonValue::Number(s) => JsonModel::Number(s@),
        JsonValue::Text(s) => JsonModel::Text(s@),
        JsonValue::Array(a) => JsonModel::Array(jv_models(a@)),
        JsonValue::Object(o) => JsonModel::Object(jv_entry_models(o@)),
    }
}

/// The models of a sequence of documents.
pub open spec fn jv_models(s: Seq<JsonValue>) -> Seq<JsonModel>
    decreases s,
{
    if s.len() == 0 {
        Seq::empty()
    } else {
        seq![jv_model(s[0])] + jv_models(s.subrange(1, s.len() as int))
    }
}

/// The models of a sequence of object members.
pub open spec fn jv_entry_models(s: Seq<(String, JsonValue)>) -> Seq<(Seq<char>, JsonModel)>
    decreases s,
{
    if s.len() == 0 {
        Seq::empty()
    } else {
        seq![(s[0].0@, jv_model(s[0].1))] + jv_entry_models(s.subrange(1, s.len() as int))
    }
}

/// `jv_models` maps each element to its model.
pub proof fn lemma_jv_models_props(s: Seq<JsonValue>)
    ensures
        jv_models(s).len() == s.len(),
        forall|i: int| 0 <= i < s.len() ==> jv_models(s)[i] == jv_model(s[i]),
    decreases s.len(),
{
    if s.len() > 0 {
        lemma_jv_models_props(s.subrange(1, s.len() as int));
        assert forall|i: int| 0 <= i < s.len() implies jv_models(s)[i] == jv_model(s[i]) by {
            if i > 0 {
                assert(s.subrange(1, s.len() as int)[i - 1] == s[i]);
            }
        }
    }
}

/// `jv_entry_models` maps each member to its model.
pub proof fn lemma_jv_entry_models_props(s: Seq<(String, JsonValue)>)
    ensures
        jv_entry_models(s).len() == s.len(),
        forall|i: int| 0 <= i < s.len() ==> jv_entry_models(s)[i] == (s[i].0@, jv_model(s[i].1)),
    decreases s.len(),
{
    if s.len() > 0 {
        lemma_jv_entry_models_props(s.subrange(1, s.len() as int));
        assert forall|i: int| 0 <= i < s.len() implies jv_entry_models(s)[i] == (
            s[i].0@,
            jv_model(s[i].1),
        ) by {
            if i > 0 {
                assert(s.subrange(1, s.len() as int)[i - 1] == s[i]);
            }
        }
    }
}

/// The model of an optional document.
pub open spec fn opt_jv_model(v: Option<JsonValue>) -> Option<JsonModel> {
    match v {
        Option::None => Option::None,
        Option::Some(d) => Option::Some(jv_model(d)),
    }
}

/// The index of the first member of an object with the given key, or -1.
pub open spec fn obj_find(o: Seq<(Seq<char>, JsonModel)>, k: Seq<char>) -> int
    decreases o.len(),
{
    if o.len() == 0 {
        -1
    } else if o[0].0 == k {
        0
    } else {
        let r = obj_find(o.skip(1), k);
        if r == -1 {
            -1
        } else {
            r + 1
        }
    }
}

/// `obj_find` returns the first matching index, or -1 when no key matches.
pub proof fn lemma_obj_find_props(o: Seq<(Seq<char>, JsonModel)>, k: Seq<char>)
    ensures
        -1 <= obj_find(o, k) < o.len(),
        obj_find(o, k) >= 0 ==> o[obj_find(o, k)].0 == k,
        obj_find(o, k) >= 0 ==> forall|j: int| 0 <= j < obj_find(o, k) ==> o[j].0 != k,
        obj_find(o, k) == -1 ==> forall|j: int| 0 <= j < o.len() ==> o[j].0 != k,
    decreases o.len(),
{
    if o.len() > 0 && o[0].0 != k {
        lemma_obj_find_props(o.skip(1), k);
        assert forall|j: int| 1 <= j < o.len() implies o[j] == o.skip(1)[j - 1] by {}
    }
}

/// The member of an object at the given key.
pub open spec fn obj_lookup(o: Seq<(Seq<char>, JsonModel)>, k: Seq<char>) -> Option<JsonModel> {
    if obj_find(o, k) >= 0 {
        Option::Some(o[obj_find(o, k)].1)
    } else {
        Option::None
    }
}

/// The object with the member at `k` replaced, or appended when absent.
pub open spec fn obj_put(
    o: Seq<(Seq<char>, JsonModel)>,
    k: Seq<char>,
    v: JsonModel,
) -> Seq<(Seq<char>, JsonModel)> {
    if obj_find(o, k) >= 0 {
        o.update(obj_find(o, k), (k, v))
    } else {
        o.push((k, v))
    }
}

/// The object without the member at `k`; unchanged when absent.
pub open spec fn obj_del(o: Seq<(Seq<char>, JsonModel)>, k: Seq<char>) -> Seq<
    (Seq<char>, JsonModel),
> {
    if obj_find(o, k) >= 0 {
        o.remove(obj_find(o, k))
    } else {
        o
    }
}

/// The value a pointer path addresses. Paths address object members; a path
/// into anything but an object addresses nothing.
pub open spec fn ptr_get(m: JsonModel, path: Seq<Seq<char>>) -> Option<JsonModel>
    decreases path.len(),
{
    if path.len() == 0 {
        Option::Some(m)
    } else {
        match m {
            JsonModel::Object(o) => match obj_lookup(o, path[0]) {
                Option::Some(c) => ptr_get(c, path.skip(1)),
                Option::None => Option::None,
            },
            _ => Option::None,
        }
    }
}

/// The document with `v` written at the pointer path: the whole document for
/// an empty path, a member replaced or added for a path whose parent exists.
/// `None` when the parent is absent or not an object.
pub open spec fn ptr_put(m: JsonModel, path: Seq<Seq<char>>, v: JsonModel) -> Option<JsonModel>
    decreases path.len(),
{
    if path.len() == 0 {
        Option::Some(v)
    } else {
        match m {
            JsonModel::Object(o) => {
                if path.len() == 1 {
                    Option::Some(JsonModel::Object(obj_put(o, path[0], v)))
                } else {
                    match obj_lookup(o, path[0]) {
                        Option::Some(c) => match ptr_put(c, path.skip(1), v) {
                            Option::Some(c2) => Option::Some(
                                JsonModel::Object(obj_put(o, path[0], c2)),
                            ),
                            Option::None => Option::None,
                        },
                        Option::None => Option::None,
                    }
                }
            },
            _ => Option::None,
        }
    }
}

/// The document with the member at the pointer path removed. `None` when the
/// path is empty or addresses nothing.
pub open spec fn ptr_del(m: JsonModel, path: Seq<Seq<char>>) -> Option<JsonModel>
    decreases path.len(),
{
    if path.len() == 0 {
        Option::None
    } else {
        match m {
            JsonModel::Object(o) => {
                if path.len() == 1 {
                    if obj_find(o, path[0]) >= 0 {
                        Option::Some(JsonModel::Object(obj_del(o, path[0])))
                    } else {
                        Option::None
                    }
                } else {
                    match obj_lookup(o, path[0]) {
                        Option::Some(c) => match ptr_del(c, path.skip(1)) {
                            Option::Some(c2) => Option::Some(
                                JsonModel::Object(obj_put(o, path[0], c2)),
                            ),
                            Option::None => Option::None,
                        },
                        Option::None => Option::None,
                    }
                }
            },
            _ => Option::None,
        }
    }
}

impl JsonValue {
    /// A structural copy of the document.
    #[verifier::loop_isolation(false)]
    pub fn duplicate(&self) -> (r: JsonValue)
        ensures
            jv_model(r) == jv_model(*self),
        decreases *self,
    {
        match self {
            JsonValue::Null => JsonValue::Null,
            JsonValue::Bool(b) => JsonValue::Bool(*b),
            JsonValue::Number(s) => JsonValue::Number(s.clone()),
            JsonValue::Text(s) => JsonValue::Text(s.clone()),
            JsonValue::Array(a) => {
                let mut out: Vec<JsonValue> = Vec::new();
                let mut i: usize = 0;
                while i < a.len()
                    invariant
                        i <= a@.len(),
                        out@.len() == i,
                        forall|j: int| 0 <= j < i ==> jv_model(out@[j]) == jv_model(a@[j]),
                    decreases a@.len() - i,
                {
                    proof {
                        assert(*self == JsonValue::Array(*a));
                        assert(decreases_to!(*self => (*self)->Array_0));
                        assert(decreases_to!(*a => a@));
                        assert(decreases_to!(a@ => a@[i as int]));
                    }
                    out.push(a[i].duplicate());
                    i = i + 1;
                }
                proof {
                    lemma_jv_models_props(out@);
                    lemma_jv_models_props(a@);
                    assert(jv_models(out@) =~= jv_models(a@));
                }
                JsonValue::Array(out)
            },
            JsonValue::Object(o) => {
                let mut out: Vec<(String, JsonValue)> = Vec::new();
                let mut i: usize = 0;
                while i < o.len()
                    invariant
                        i <= o@.len(),
                        out@.len() == i,
                        forall|j: int| 0 <= j < i ==> out@[j].0@ == o@[j].0@ && jv_model(
                            out@[j].1,
                        ) == jv_model(o@[j].1),
                    decreases o@.len() - i,
                {
                    proof {
                        assert(*self == JsonValue::Object(*o));
                        assert(decreases_to!(*self => (*self)->Object_0));
                        assert(decreases_to!(*o => o@));
                        assert(decreases_to!(o@ => o@[i as int]));
                        assert(decreases_to!(o@[i as int] => o@[i as int].1));
                    }
                    let entry = &o[i];
                    out.push((entry.0.clone(), entry.1.duplicate()));
                    i = i + 1;
                }
                proof {
                    lemma_jv_entry_models_props(out@);
                    lemma_jv_entry_models_props(o@);
                    assert(jv_entry_models(out@) =~= jv_entry_models(o@));
                }
                JsonValue::Object(out)
            },
        }
    }

    /// Structural equality of two documents.
    #[verifier::loop_isolation(false)]
    pub fn same_as(&self, other: &JsonValue) -> (r: bool)
        ensures
            r == (jv_model(*self) == jv_model(*other)),
        decreases *self,
    {
        match (self, other) {
            (JsonValue::Null, JsonValue::Null) => true,
            (JsonValue::Bool(a), JsonValue::Bool(b)) => a == b,
            (JsonValue::Number(a), JsonValue::Number(b)) => crate::text::str_eq(
                a.as_str(),
                b.as_str(),
            ),
            (JsonValue::Text(a), JsonValue::Text(b)) => crate::text::str_eq(
                a.as_str(),
                b.as_str(),
            ),
            (JsonValue::Array(a), JsonValue::Array(b)) => {
                if a.len() != b.len() {
                    proof {
                        lemma_jv_models_props(a@);
                        lemma_jv_models_props(b@);
                    }
                    return false;
                }
                let mut i: usize = 0;
                while i < a.len()
                    invariant
                        i <= a@.len(),
                        a@.len() == b@.len(),
                        forall|j: int| 0 <= j < i ==> jv_model(a@[j]) == jv_model(b@[j]),
                    decreases a@.len() - i,
                {
                    proof {
                        assert(*self == JsonValue::Array(*a));
                        assert(*other == JsonValue::Array(*b));
                        assert(decreases_to!(*self => (*self)->Array_0));
                        assert(decreases_to!(*a => a@));
                        assert(decreases_to!(a@ => a@[i as int]));
                    }
                    if !a[i].same_as(&b[i]) {
                        proof {
                            lemma_jv_models_props(a@);
                            lemma_jv_models_props(b@);
                            assert(jv_models(a@)[i as int] != jv_models(b@)[i as int]);
                        }
                        return false;
                    }
                    i = i + 1;
                }
                proof {
                    lemma_jv_models_props(a@);
                    lemma_jv_models_props(b@);
                    assert(jv_models(a@) =~= jv_models(b@));
                }
                true
            },
            (JsonValue::Object(a), JsonValue::Object(b)) => {
                if a.len() != b.len() {
                    proof {
                        lemma_jv_entry_models_props(a@);
                        lemma_jv_entry_models_props(b@);
                    }
                    return false;
                }
                let mut i: usize = 0;
                while i < a.len()
                    invariant
                        i <= a@.len(),
                        a@.len() == b@.len(),
                        forall|j: int| 0 <= j < i ==> a@[j].0@ == b@[j].0@ && jv_model(a@[j].1)
                            == jv_model(b@[j].1),
                    decreases a@.len() - i,
                {
                    proof {
                        assert(*self == JsonValue::Object(*a));
                        assert(*other == JsonValue::Object(*b));
                        assert(decreases_to!(*self => (*self)->Object_0));
                        assert(decreases_to!(*a => a@));
                        assert(decreases_to!(a@ => a@[i as int]));
                        assert(decreases_to!(a@[i as int] => a@[i as int].1));
                    }
                    let ea = &a[i];
                    let eb = &b[i];
                    if !crate::text::str_eq(ea.0.as_str(), eb.0.as_str()) || !ea.1.same_as(&eb.1) {
                        proof {
                            lemma_jv_entry_models_props(a@);
                            lemma_jv_entry_models_props(b@);
                            assert(jv_entry_models(a@)[i as int] != jv_entry_models(b@)[i as int]);
                        }
                        return false;
                    }
                    i = i + 1;
                }
                proof {
                    lemma_jv_entry_models_props(a@);
                    lemma_jv_entry_models_props(b@);
                    assert(jv_entry_models(a@) =~= jv_entry_models(b@));
                }
                true
            },
            _ => false,
        }
    }
}

/// The views of a sequence of path segments.
pub open spec fn segs_model(s: Seq<String>) -> Seq<Seq<char>> {
    Seq::new(s.len(), |i: int| s[i]@)
}

/// Find the first member of an object with the given key.
pub fn obj_index_of(o: &Vec<(String, JsonValue)>, k: &str) -> (r: Option<usize>)
    ensures
        match r {
            Option::Some(i) => obj_find(jv_entry_models(o@), k@) == i as int && i < o@.len(),
            Option::None => obj_find(jv_entry_models(o@), k@) == -1,
        },
{
    proof {
        lemma_jv_entry_models_props(o@);
        lemma_obj_find_props(jv_entry_models(o@), k@);
    }
    let mut j: usize = 0;
    #[verifier::loop_isolation(false)]
    while j < o.len()
        invariant
            j <= o@.len(),
            forall|jj: int| 0 <= jj < j ==> o@[jj].0@ != k@,
        decreases o@.len() - j,
    {
        if crate::text::str_eq(o[j].0.as_str(), k) {
            proof {
                let em = jv_entry_models(o@);
                let f = obj_find(em, k@);
                assert(em[j as int].0 == k@);
                if f == -1 {
                    assert(em[j as int].0 != k@);
                } else if f < j as int {
                    assert(em[f].0 == k@);
                    assert(o@[f].0@ != k@);
                } else if f > j as int {
                    assert(em[j as int].0 != k@);
                }
            }
            return Option::Some(j);
        }
        j = j + 1;
    }
    Option::None
}

/// Look up the value a pointer path addresses, starting at segment `i`.
pub fn ptr_get_exec<'a>(doc: &'a JsonValue, path: &Vec<String>, i: usize) -> (r: Option<
    &'a JsonValue,
>)
    requires
        i <= path@.len(),
    ensures
        match r {
            Option::Some(c) => ptr_get(jv_model(*doc), segs_model(path@).skip(i as int))
                == Option::Some(jv_model(*c)),
            Option::None => ptr_get(jv_model(*doc), segs_model(path@).skip(i as int))
                is None,
        },
    decreases path@.len() - i,
{
    proof {
        assert(segs_model(path@).skip(i as int).len() == path@.len() - i);
    }
    if i == path.len() {
        return Option::Some(doc);
    }
    proof {
        assert(segs_model(path@).skip(i as int)[0] == path@[i as int]@);
    }
    match doc {
        JsonValue::Object(o) => {
            let idx_opt = obj_index_of(o, path[i].as_str());
            proof {
                lemma_jv_entry_models_props(o@);
                lemma_obj_find_props(jv_entry_models(o@), path@[i as int]@);
            }
            match idx_opt {
                Option::Some(idx) => {
                    proof {
                        assert(segs_model(path@).skip(i as int).skip(1) =~= segs_model(
                            path@,
                        ).skip(i as int + 1));
                    }
                    ptr_get_exec(&o[idx].1, path, i + 1)
                },
                Option::None => Option::None,
            }
        },
        _ => Option::None,
    }
}

/// Write `v` at the pointer path, starting at segment `i`.
pub fn ptr_put_exec(doc: JsonValue, path: &Vec<String>, i: usize, v: JsonValue) -> (r: Option<
    JsonValue,
>)
    requires
        i <= path@.len(),
    ensures
        match r {
            Option::Some(d2) => ptr_put(
                jv_model(doc),
                segs_model(path@).skip(i as int),
                jv_model(v),
            ) == Option::Some(jv_model(d2)),
            Option::None => ptr_put(jv_model(doc), segs_model(path@).skip(i as int), jv_model(v))
                is None,
        },
    decreases path@.len() - i,
{
    proof {
        assert(segs_model(path@).skip(i as int).len() == path@.len() - i);
    }
    if i == path.len() {
        return Option::Some(v);
    }
    proof {
        assert(segs_model(path@).skip(i as int)[0] == path@[i as int]@);
    }
    match doc {
        JsonValue::Object(o) => {
            let ghost em = jv_entry_models(o@);
            let ghost key = path@[i as int]@;
            let mut o = o;
            let k = path[i].clone();
            let idx_opt = obj_index_of(&o, k.as_str());
            proof {
                lemma_jv_entry_models_props(o@);
                lemma_obj_find_props(em, key);
            }
            if i + 1 == path.len() {
                match idx_opt {
                    Option::Some(idx) => {
                        let ghost mv = jv_model(v);
                        o[idx] = (k, v);
                        proof {
                            lemma_jv_entry_models_props(o@);
                            assert(jv_entry_models(o@) =~= obj_put(em, key, mv));
                        }
                        Option::Some(JsonValue::Object(o))
                    },
                    Option::None => {
                        let ghost mv = jv_model(v);
                        o.push((k, v));
                        proof {
                            lemma_jv_entry_models_props(o@);
                            assert(jv_entry_models(o@) =~= obj_put(em, key, mv));
                        }
                        Option::Some(JsonValue::Object(o))
                    },
                }
            } else {
                match idx_opt {
                    Option::Some(idx) => {
                        let entry = o.remove(idx);
                        proof {
                            assert(segs_model(path@).skip(i as int).skip(1) =~= segs_model(
                                path@,
                            ).skip(i as int + 1));
                        }
                        match ptr_put_exec(entry.1, path, i + 1, v) {
                            Option::Some(c2) => {
                                let ghost mc2 = jv_model(c2);
                                o.insert(idx, (entry.0, c2));
                                proof {
                                    lemma_jv_entry_models_props(o@);
                                    assert(jv_entry_models(o@) =~= obj_put(em, key, mc2));
                                }
                                Option::Some(JsonValue::Object(o))
                            },
                            Option::None => Option::None,
                        }
                    },
                    Option::None => Option::None,
                }
            }
        },
        _ => Option::None,
    }
}

/// Remove the member at the pointer path, starting at segment `i`.
pub fn ptr_del_exec(doc: JsonValue, path: &Vec<String>, i: usize) -> (r: Option<JsonValue>)
    requires
        i <= path@.len(),
    ensures
        match r {
            Option::Some(d2) => ptr_del(jv_model(doc), segs_model(path@).skip(i as int))
                == Option::Some(jv_model(d2)),
            Option::None => ptr_del(jv_model(doc), segs_model(path@).skip(i as int)) is None,
        },
    decreases path@.len() - i,
{
    proof {
        assert(segs_model(path@).skip(i as int).len() == path@.len() - i);
    }
    if i == path.len() {
        return Option::None;
    }
    proof {
        assert(segs_model(path@).skip(i as int)[0] == path@[i as int]@);
    }
    match doc {
        JsonValue::Object(o) => {
            let ghost em = jv_entry_models(o@);
            let ghost key = path@[i as int]@;
            let mut o = o;
            let k = path[i].clone();
            let idx_opt = obj_index_of(&o, k.as_str());
            proof {
                lemma_jv_entry_models_props(o@);
                lemma_obj_find_props(em, key);
            }
            if i + 1 == path.len() {
                match idx_opt {
                    Option::Some(idx) => {
                        o.remove(idx);
                        proof {
                            lemma_jv_entry_models_props(o@);
                            assert(jv_entry_models(o@) =~= obj_del(em, key));
                        }
                        Option::Some(JsonValue::Object(o))
                    },
                    Option::None => Option::None,
                }
            } else {
                match idx_opt {
                    Option::Some(idx) => {
                        let entry = o.remove(idx);
                        proof {
                            assert(segs_model(path@).skip(i as int).skip(1) =~= segs_model(
                                path@,
                            ).skip(i as int + 1));
                        }
                        match ptr_del_exec(entry.1, path, i + 1) {
                            Option::Some(c2) => {
                                let ghost mc2 = jv_model(c2);
                                o.insert(idx, (entry.0, c2));
                                proof {
                                    lemma_jv_entry_models_props(o@);
                                    assert(jv_entry_models(o@) =~= obj_put(em, key, mc2));
                                }
                                Option::Some(JsonValue::Object(o))
                            },
                            Option::None => Option::None,
                        }
                    },
                    Option::None => Option::None,
                }
            }
        },
        _ => Option::None,
    }
}

/// A copy of an optional document.
pub fn duplicate_opt_json(v: &Option<JsonValue>) -> (r: Option<JsonValue>)
    ensures
        opt_jv_model(r) == opt_jv_model(*v),
{
    match v {
        Option::None => Option::None,
        Option::Some(d) => Option::Some(d.duplicate()),
    }
}

} // verus!
