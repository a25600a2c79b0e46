use vstd::prelude::*;
use crate::json::{JsonValue, object_get};
use crate::logic::{LogicDependency, Logic, logics, lemma_view_and_or, TagTable};
use crate::config::{member, mc_name};
use vstd::string::StringSliceAdditionalSpecFns;

verus! {

/// Why a tag file cannot be read as a tag.
#[derive(Debug, PartialEq, Eq, Structural)]
pub enum TagFileError {
    NoValues,
    ValueNotString,
    BadFirstChar,
    NameTooShort,
    NameNotCharBoundary,
}

/// One entry of a tag's `values`: `#name` stands for the tag `name`, any
/// other string for the item it names. The first character must take one
/// byte.
pub open spec fn tag_value(j: JsonValue) -> Result<Logic, TagFileError> {
    match j {
        JsonValue::Str(s) => if s@.len() == 0 || (s@[0] as u32) >= 128 {
            Err(TagFileError::BadFirstChar)
        } else if s@[0] == '#' {
            Ok(Logic::Tag(s@.subrange(1, s@.len() as int)))
        } else {
            Ok(Logic::Item(s@))
        },
        _ => Err(TagFileError::ValueNotString),
    }
}

/// The entries of `values`, in order; the first entry that fails decides the error.
pub open spec fn tag_values(v: Seq<JsonValue>) -> Result<Seq<Logic>, TagFileError>
    decreases v.len(),
{
    if v.len() == 0 {
        Ok(Seq::empty())
    } else {
        match tag_values(v.drop_last()) {
            Err(e) => Err(e),
            Ok(init) => match tag_value(v.last()) {
                Err(e) => Err(e),
                Ok(l) => Ok(init.push(l)),
            },
        }
    }
}

/// The formula that a tag document stands for: any one of its `values`.
/// `values` that is not an array lists nothing.
pub open spec fn tag_logic(data: JsonValue) -> Result<Logic, TagFileError> {
    match member(data, "values"@) {
        None => Err(TagFileError::NoValues),
        Some(JsonValue::Array(a)) => match tag_values(a@) {
            Err(e) => Err(e),
            Ok(ls) => Ok(Logic::Or(ls)),
        },
        Some(_) => Ok(Logic::Or(Seq::empty())),
    }
}

/// One entry of a tag's `values`.
pub fn tag_value_from_json(j: &JsonValue) -> (r: Result<LogicDependency, TagFileError>)
    ensures
        match r {
            Ok(l) => tag_value(*j) == Ok::<Logic, TagFileError>(l@),
            Err(e) => tag_value(*j) == Err::<Logic, TagFileError>(e),
        },
{
    match j {
        JsonValue::Str(s) => {
            let st = s.as_str();
            let n = st.unicode_len();
            if n == 0 {
                return Err(TagFileError::BadFirstChar);
            }
            let c = st.get_char(0);
            if (c as u32) >= 128 {
                return Err(TagFileError::BadFirstChar);
            }
            if c == '#' {
                let rest = st.substring_char(1, n);
                Ok(LogicDependency::Tag(rest.to_owned()))
            } else {
                Ok(LogicDependency::Item(s.clone()))
            }
        },
        _ => Err(TagFileError::ValueNotString),
    }
}

/// The formula that a tag document stands for: any one of its `values`.
#[verifier::loop_isolation(false)]
pub fn try_tag_from_json(data: &JsonValue) -> (r: Result<LogicDependency, TagFileError>)
    ensures
        match r {
            Ok(l) => tag_logic(*data) == Ok::<Logic, TagFileError>(l@),
            Err(e) => tag_logic(*data) == Err::<Logic, TagFileError>(e),
        },
{
    let vals = match data {
        JsonValue::Object(o) => object_get(o, "values"),
        _ => None,
    };
    let vals = match vals {
        None => return Err(TagFileError::NoValues),
        Some(v) => v,
    };
    let mut dependencies: Vec<LogicDependency> = Vec::new();
    match vals {
        JsonValue::Array(a) => {
            let mut i: usize = 0;
            assert(a@.subrange(0, 0) =~= Seq::<JsonValue>::empty());
            assert(logics(dependencies@) =~= Seq::<Logic>::empty());
            while i < a.len()
                invariant
                    i <= a.len(),
                    tag_values(a@.subrange(0, i as int)) == Ok::<Seq<Logic>, TagFileError>(logics(dependencies@)),
                decreases a.len() - i,
            {
                let ghost pre = a@.subrange(0, i + 1);
                assert(pre.drop_last() =~= a@.subrange(0, i as int));
                assert(pre.last() == a@[i as int]);
                let ghost before = logics(dependencies@);
                match tag_value_from_json(&a[i]) {
                    Err(e) => {
                        proof {
                            lemma_tag_values_err(a@, i as int + 1);
                        }
                        return Err(e);
                    },
                    Ok(l) => {
                        let ghost lv = l@;
                        dependencies.push(l);
                        assert(logics(dependencies@) =~= before.push(lv));
                    },
                }
                i = i + 1;
            }
            assert(a@.subrange(0, a@.len() as int) =~= a@);
        },
        _ => {},
    }
    let r = LogicDependency::Or(dependencies);
    proof {
        lemma_view_and_or(r);
        assert(logics(dependencies@) =~= Seq::<Logic>::empty() || vals is Array);
    }
    Ok(r)
}

/// Once a prefix of the entries fails, so do all the entries.
proof fn lemma_tag_values_err(v: Seq<JsonValue>, n: int)
    requires
        0 <= n <= v.len(),
        tag_values(v.subrange(0, n)) is Err,
    ensures
        tag_values(v) == tag_values(v.subrange(0, n)),
    decreases v.len() - n,
{
    if n < v.len() {
        let pre = v.subrange(0, n + 1);
        assert(pre.drop_last() =~= v.subrange(0, n));
        lemma_tag_values_err(v, n + 1);
    } else {
        assert(v.subrange(0, n) =~= v);
    }
}

/// The name of the tag that the file `file_name` defines: the file name
/// without its last five bytes (`.json`), in the `minecraft` namespace.
pub fn try_tag_name_from_file_name(file_name: &str) -> (r: Result<String, TagFileError>)
    ensures
        ({
            let b = vstd::utf8::encode_utf8(file_name@);
            let n = b.len() as usize;
            if n < 5 {
                r == Err::<String, TagFileError>(TagFileError::NameTooShort)
            } else if !vstd::utf8::is_char_boundary(b, n - 5) {
                r == Err::<String, TagFileError>(TagFileError::NameNotCharBoundary)
            } else {
                r matches Ok(name) && name@ == mc_name(vstd::utf8::decode_utf8(b.subrange(0, n - 5)))
            }
        }),
{
    let len = file_name.len();
    if len < 5 {
        return Err(TagFileError::NameTooShort);
    }
    if !file_name.is_char_boundary(len - 5) {
        return Err(TagFileError::NameNotCharBoundary);
    }
    let (prefix, _) = file_name.split_at(len - 5);
    proof {
        vstd::utf8::encode_utf8_decode_utf8(prefix@);
        assert(prefix.spec_bytes() =~= vstd::utf8::encode_utf8(file_name@).subrange(0, len - 5));
    }
    Ok("minecraft:".to_owned().concat(prefix))
}

/// The formula that a well-formed tag document stands for.
pub fn tag_from_json(data: &JsonValue) -> (r: LogicDependency)
    requires
        tag_logic(*data) is Ok,
    ensures
        tag_logic(*data) == Ok::<Logic, TagFileError>(r@),
{
    match try_tag_from_json(data) {
        Ok(l) => l,
        // `requires` rules this branch out.
        Err(_) => LogicDependency::True,
    }
}

/// The name of the tag that the file `file_name` defines, for a name of at
/// least five bytes whose last five bytes start on a character boundary.
pub fn tag_name_from_file_name(file_name: &str) -> (r: String)
    requires
        ({
            let b = vstd::utf8::encode_utf8(file_name@);
            let n = b.len() as usize;
            n >= 5 && vstd::utf8::is_char_boundary(b, n - 5)
        }),
    ensures
        ({
            let b = vstd::utf8::encode_utf8(file_name@);
            let n = b.len() as usize;
            r@ == mc_name(vstd::utf8::decode_utf8(b.subrange(0, n - 5)))
        }),
{
    match try_tag_name_from_file_name(file_name) {
        Ok(n) => n,
        // `requires` rules this branch out.
        Err(_) => String::new(),
    }
}

/// The name of the tag that a file named `file_name` defines: the name
/// without its last five bytes, in the `minecraft` namespace.
pub open spec fn tag_name(file_name: Seq<char>) -> Result<Seq<char>, TagFileError> {
    let b = vstd::utf8::encode_utf8(file_name);
    let n = b.len() as usize;
    if n < 5 {
        Err(TagFileError::NameTooShort)
    } else if !vstd::utf8::is_char_boundary(b, n - 5) {
        Err(TagFileError::NameNotCharBoundary)
    } else {
        Ok(mc_name(vstd::utf8::decode_utf8(b.subrange(0, n - 5))))
    }
}

/// The tag table that tag files build, file by file (a file name and its
/// document): each file binds the tag its name gives to the formula its
/// document stands for, a later file replacing an earlier one; the first
/// file that fails decides the error, its document before its name.
pub open spec fn tags_from(files: Seq<(String, JsonValue)>) -> Result<Map<Seq<char>, Logic>, TagFileError>
    decreases files.len(),
{
    if files.len() == 0 {
        Ok(Map::empty())
    } else {
        match tags_from(files.drop_last()) {
            Err(e) => Err(e),
            Ok(m) => match tag_logic(files.last().1) {
                Err(e) => Err(e),
                Ok(l) => match tag_name(files.last().0@) {
                    Err(e) => Err(e),
                    Ok(n) => Ok(m.insert(n, l)),
                },
            },
        }
    }
}

proof fn lemma_tags_from_err(files: Seq<(String, JsonValue)>, k: int)
    requires
        0 <= k <= files.len(),
        tags_from(files.subrange(0, k)) is Err,
    ensures
        tags_from(files) == tags_from(files.subrange(0, k)),
    decreases files.len() - k,
{
    if k < files.len() {
        let pre = files.subrange(0, k + 1);
        assert(pre.drop_last() =~= files.subrange(0, k));
        lemma_tags_from_err(files, k + 1);
    } else {
        assert(files.subrange(0, k) =~= files);
    }
}

/// The tag table that the tag files build; the first file that fails decides
/// the error.
pub fn try_get_all_tags(files: &Vec<(String, JsonValue)>) -> (r: Result<TagTable, TagFileError>)
    ensures
        match r {
            Ok(t) => tags_from(files@) == Ok::<Map<Seq<char>, Logic>, TagFileError>(t@),
            Err(e) => tags_from(files@) == Err::<Map<Seq<char>, Logic>, TagFileError>(e),
        },
{
    let mut tags = TagTable::new();
    let mut k: usize = 0;
    assert(files@.subrange(0, 0) =~= Seq::<(String, JsonValue)>::empty());
    while k < files.len()
        invariant
            k <= files.len(),
            tags_from(files@.subrange(0, k as int)) == Ok::<Map<Seq<char>, Logic>, TagFileError>(tags@),
        decreases files.len() - k,
    {
        let ghost pre = files@.subrange(0, k + 1);
        assert(pre.drop_last() =~= files@.subrange(0, k as int));
        assert(pre.last() == files@[k as int]);
        let logic = match try_tag_from_json(&files[k].1) {
            Err(e) => {
                proof {
                    lemma_tags_from_err(files@, k + 1);
                }
                return Err(e);
            },
            Ok(l) => l,
        };
        let name = match try_tag_name_from_file_name(files[k].0.as_str()) {
            Err(e) => {
                proof {
                    lemma_tags_from_err(files@, k + 1);
                }
                return Err(e);
            },
            Ok(n) => n,
        };
        tags.insert(name, logic);
        k = k + 1;
    }
    assert(files@.subrange(0, files.len() as int) =~= files@);
    Ok(tags)
}

/// The tag table that well-formed tag files build.
pub fn get_all_tags(files: &Vec<(String, JsonValue)>) -> (r: TagTable)
    requires
        tags_from(files@) is Ok,
    ensures
        tags_from(files@) == Ok::<Map<Seq<char>, Logic>, TagFileError>(r@),
{
    match try_get_all_tags(files) {
        Ok(t) => t,
        // `requires` rules this branch out.
        Err(_) => TagTable::new(),
    }
}

proof fn lemma_tag_values_each(v: Seq<JsonValue>)
    requires
        tag_values(v) is Ok,
    ensures
        tag_values(v)->Ok_0.len() == v.len(),
        forall|k: int| 0 <= k < v.len() ==> tag_value(v[k]) == Ok::<Logic, TagFileError>(#[trigger] tag_values(v)->Ok_0[k]),
    decreases v.len(),
{
    if v.len() > 0 {
        let init = v.drop_last();
        lemma_tag_values_each(init);
        assert forall|k: int| 0 <= k < v.len() implies tag_value(v[k]) == Ok::<Logic, TagFileError>(#[trigger] tag_values(v)->Ok_0[k]) by {
            if k < v.len() - 1 {
                assert(init[k] == v[k]);
            }
        }
    }
}

/// A tag document whose values all read stands for `Or` with one operand
/// per value, in order: `#name` gives the tag `name`, any other string the
/// item it names.
pub proof fn law_tag_values_one_for_one(data: JsonValue)
    requires
        tag_logic(data) is Ok,
        member(data, "values"@) matches Some(JsonValue::Array(_)),
    ensures
        tag_logic(data)->Ok_0 is Or,
        ({
            let a = member(data, "values"@)->Some_0->Array_0@;
            let ls = tag_logic(data)->Ok_0->Or_0;
            &&& ls.len() == a.len()
            &&& forall|k: int| 0 <= k < a.len() ==> {
                &&& a[k] is Str
                &&& a[k]->Str_0@.len() > 0
                &&& #[trigger] ls[k] == if a[k]->Str_0@[0] == '#' {
                    Logic::Tag(a[k]->Str_0@.subrange(1, a[k]->Str_0@.len() as int))
                } else {
                    Logic::Item(a[k]->Str_0@)
                }
            }
        }),
{
    let a = member(data, "values"@)->Some_0->Array_0@;
    lemma_tag_values_each(a);
}

} // verus!
