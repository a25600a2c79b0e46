use vstd::prelude::*;

verus! {

/// A JSON document as the recipe, tag and configuration files hold it.
/// Numbers carry no value: nothing here reads one.
#[derive(Debug)]
pub enum JsonValue {
    Null,
    Bool(bool),
    Number,
    Str(String),
    Array(Vec<JsonValue>),
    Object(Vec<(String, JsonValue)>),
}

/// The value of the first member of `o` named `key`.
pub open spec fn obj_get(o: Seq<(String, JsonValue)>, key: Seq<char>) -> Option<JsonValue>
    decreases o.len(),
{
    if o.len() == 0 {
        None
    } else if o[0].0@ == key {
        Some(o[0].1)
    } else {
        obj_get(o.subrange(1, o.len() as int), key)
    }
}

/// Whether `s` reads `lit`.
pub fn eq_lit(s: &String, lit: &str) -> (r: bool)
    ensures
        r == (s@ == lit@),
{
    *s == lit.to_owned()
}

/// The value of the member of `o` named `key`, as `obj_get` picks it.
pub fn object_get<'a>(o: &'a Vec<(String, JsonValue)>, key: &str) -> (r: Option<&'a JsonValue>)
    ensures
        match r {
            Some(v) => obj_get(o@, key@) == Some(*v),
            None => obj_get(o@, key@) is None,
        },
{
    let k = key.to_owned();
    let mut i: usize = 0;
    assert(o@.subrange(0, o@.len() as int) =~= o@);
    while i < o.len()
        invariant
            i <= o.len(),
            k@ == key@,
            obj_get(o@, key@) == obj_get(o@.subrange(i as int, o@.len() as int), key@),
        decreases o.len() - i,
    {
        let ghost rest = o@.subrange(i as int, o@.len() as int);
        assert(rest[0] == o@[i as int]);
        assert(rest.subrange(1, rest.len() as int) =~= o@.subrange(i + 1, o@.len() as int));
        if o[i].0 == k {
            return Some(&o[i].1);
        }
        i = i + 1;
    }
    None
}


/// The position of the first member of `o` named `key`, or -1.
pub open spec fn obj_pos(o: Seq<(String, JsonValue)>, key: Seq<char>) -> int
    decreases o.len(),
{
    if o.len() == 0 {
        -1
    } else if o[0].0@ == key {
        0
    } else {
        let p = obj_pos(o.subrange(1, o.len() as int), key);
        if p < 0 { -1 } else { p + 1 }
    }
}

/// `obj_get` gives the value of the member at `obj_pos`.
pub proof fn lemma_obj_pos(o: Seq<(String, JsonValue)>, key: Seq<char>)
    ensures
        -1 <= obj_pos(o, key) < o.len(),
        obj_pos(o, key) >= 0 ==> obj_get(o, key) == Some(o[obj_pos(o, key)].1),
        obj_pos(o, key) < 0 ==> obj_get(o, key) is None,
    decreases o.len(),
{
    if o.len() > 0 && o[0].0@ != key {
        let rest = o.subrange(1, o.len() as int);
        lemma_obj_pos(rest, key);
        if obj_pos(rest, key) >= 0 {
            assert(rest[obj_pos(rest, key)] == o[obj_pos(rest, key) + 1]);
        }
    }
}

} // verus!
