use vstd::prelude::*;
use crate::json::{JsonValue, obj_get, obj_pos, lemma_obj_pos, object_get, eq_lit};
use crate::logic::{LogicDependency, Logic, logics, lemma_view_and_or, same_logic, strs};

verus! {

/// Why the configuration of age groups cannot be read.
#[derive(Debug, PartialEq, Eq, Structural)]
pub enum ConfigError {
    NotArray,
    MissingRequires,
    MissingResults,
    MalformedResults,
    ResultNotString,
    MissingTypeTag,
    MissingItemsTag,
    BrokenItemsTag,
    InvalidType,
    BrokenConfig,
}

/// The full name of an item of the base game.
pub open spec fn mc_name(s: Seq<char>) -> Seq<char> {
    "minecraft:"@ + s
}

/// The full name of the item that a configuration string names.
pub fn convert_to_mc_name(item: &JsonValue) -> (r: Option<String>)
    ensures
        match item {
            JsonValue::Str(s) => r matches Some(n) && n@ == mc_name(s@),
            _ => r is None,
        },
{
    match item {
        JsonValue::Str(s) => Some("minecraft:".to_owned().concat(s.as_str())),
        _ => None,
    }
}

/// `t` is a string reading `lit`.
pub open spec fn is_str_lit(t: Option<JsonValue>, lit: Seq<char>) -> bool {
    t matches Some(JsonValue::Str(s)) && s@ == lit
}

/// The formula of an age group's `requires` entry: a string names an item;
/// an object has a `type` of `True`, `And` or `Or`, and the latter two list
/// their operands under `items`.
pub open spec fn age_logic(v: JsonValue) -> Result<Logic, ConfigError>
    decreases v,
{
    match v {
        JsonValue::Str(s) => Ok(Logic::Item(mc_name(s@))),
        JsonValue::Object(o) => {
            let tp = obj_pos(o@, "type"@);
            if tp < 0 {
                Err(ConfigError::MissingTypeTag)
            } else {
                let t = obj_get(o@, "type"@);
                if is_str_lit(t, "True"@) {
                    Ok(Logic::True)
                } else {
                    let ip = obj_pos(o@, "items"@);
                    if ip < 0 {
                        Err(ConfigError::MissingItemsTag)
                    } else {
                        proof {
                            lemma_obj_pos(o@, "items"@);
                        }
                        match o@[ip].1 {
                            JsonValue::Array(rs) => match age_logic_list(rs@) {
                                Err(e) => Err(e),
                                Ok(vec) => if is_str_lit(t, "And"@) {
                                    Ok(Logic::And(vec))
                                } else if is_str_lit(t, "Or"@) {
                                    Ok(Logic::Or(vec))
                                } else {
                                    Err(ConfigError::InvalidType)
                                },
                            },
                            _ => Err(ConfigError::BrokenItemsTag),
                        }
                    }
                }
            }
        },
        _ => Err(ConfigError::BrokenConfig),
    }
}


/// The formulas of a list of `requires` entries, in order; the first entry
/// that fails decides the error.
pub open spec fn age_logic_list(v: Seq<JsonValue>) -> Result<Seq<Logic>, ConfigError>
    decreases v,
{
    if v.len() == 0 {
        Ok(Seq::empty())
    } else {
        match age_logic(v[0]) {
            Err(e) => Err(e),
            Ok(l) => match age_logic_list(v.subrange(1, v.len() as int)) {
                Err(e) => Err(e),
                Ok(rest) => Ok(seq![l] + rest),
            },
        }
    }
}


/// `r` is the executable form of the modelled formula outcome `s`.
pub open spec fn age_outcome(r: Result<LogicDependency, ConfigError>, s: Result<Logic, ConfigError>) -> bool {
    match r {
        Ok(l) => s == Ok::<Logic, ConfigError>(l@),
        Err(e) => s == Err::<Logic, ConfigError>(e),
    }
}

pub open spec fn prepend_ages(prefix: Seq<Logic>, r: Result<Seq<Logic>, ConfigError>) -> Result<Seq<Logic>, ConfigError> {
    match r {
        Ok(rest) => Ok(prefix + rest),
        Err(e) => Err(e),
    }
}

fn str_is(t: &JsonValue, lit: &str) -> (r: bool)
    ensures
        r == is_str_lit(Some(*t), lit@),
{
    match t {
        JsonValue::Str(s) => eq_lit(s, lit),
        _ => false,
    }
}

/// The formula of an age group's `requires` entry.
#[verifier::loop_isolation(false)]
pub fn try_get_age_logic(v: &JsonValue) -> (r: Result<LogicDependency, ConfigError>)
    ensures
        age_outcome(r, age_logic(*v)),
    decreases v,
{
    match v {
        JsonValue::Str(_) => {
            let name = convert_to_mc_name(v);
            match name {
                Some(n) => Ok(LogicDependency::Item(n)),
                None => Err(ConfigError::BrokenConfig),
            }
        },
        JsonValue::Object(obj) => {
            proof {
                lemma_obj_pos(obj@, "type"@);
                lemma_obj_pos(obj@, "items"@);
            }
            let rtype = match object_get(obj, "type") {
                None => return Err(ConfigError::MissingTypeTag),
                Some(t) => t,
            };
            if str_is(rtype, "True") {
                return Ok(LogicDependency::True);
            }
            let results = match object_get(obj, "items") {
                None => return Err(ConfigError::MissingItemsTag),
                Some(JsonValue::Array(rs)) => rs,
                Some(_) => return Err(ConfigError::BrokenItemsTag),
            };
            let ghost ip = obj_pos(obj@, "items"@);
            let ghost lv = age_logic_list(results@);
            let mut vec: Vec<LogicDependency> = Vec::new();
            let mut i: usize = 0;
            assert(results@.subrange(0, results@.len() as int) =~= results@);
            assert(logics(vec@) + Seq::<Logic>::empty() =~= Seq::<Logic>::empty());
            assert(logics(vec@) =~= Seq::<Logic>::empty());
            while i < results.len()
                invariant
                    i <= results.len(),
                    age_logic_list(results@) == prepend_ages(
                        logics(vec@),
                        age_logic_list(results@.subrange(i as int, results@.len() as int)),
                    ),
                decreases results.len() - i,
            {
                let ghost rest = results@.subrange(i as int, results@.len() as int);
                assert(rest[0] == results@[i as int]);
                assert(rest.subrange(1, rest.len() as int) =~= results@.subrange(i + 1, results@.len() as int));
                let ghost before = logics(vec@);
                match try_get_age_logic(&results[i]) {
                    Err(e) => return Err(e),
                    Ok(l) => {
                        let ghost l_view = l@;
                        vec.push(l);
                        proof {
                            assert(logics(vec@) =~= before + seq![l_view]);
                            let tail = age_logic_list(results@.subrange(i + 1, results@.len() as int));
                            match tail {
                                Ok(t) => {
                                    assert(before + (seq![l_view] + t) =~= logics(vec@) + t);
                                },
                                Err(_) => {},
                            }
                        }
                    },
                }
                i = i + 1;
            }
            assert(logics(vec@) + Seq::<Logic>::empty() =~= logics(vec@));
            if str_is(rtype, "And") {
                let r = LogicDependency::And(vec);
                proof { lemma_view_and_or(r); }
                Ok(r)
            } else if str_is(rtype, "Or") {
                let r = LogicDependency::Or(vec);
                proof { lemma_view_and_or(r); }
                Ok(r)
            } else {
                Err(ConfigError::InvalidType)
            }
        },
        _ => Err(ConfigError::BrokenConfig),
    }
}


/// The position of the first group of `g` keyed by `k`, or -1.
pub open spec fn group_pos(g: Seq<(Logic, Seq<Seq<char>>)>, k: Logic) -> int
    decreases g.len(),
{
    if g.len() == 0 {
        -1
    } else if g[0].0 == k {
        0
    } else {
        let p = group_pos(g.subrange(1, g.len() as int), k);
        if p < 0 { -1 } else { p + 1 }
    }
}

/// `g` with the items of the group keyed by `k` set to `items`: a group
/// already keyed by `k` keeps its place, a new one goes last.
pub open spec fn insert_group(g: Seq<(Logic, Seq<Seq<char>>)>, k: Logic, items: Seq<Seq<char>>) -> Seq<(Logic, Seq<Seq<char>>)> {
    let p = group_pos(g, k);
    if p < 0 {
        g.push((k, items))
    } else {
        g.update(p, (k, items))
    }
}

/// `group_pos` finds the first group keyed by `k`.
pub proof fn lemma_group_pos(g: Seq<(Logic, Seq<Seq<char>>)>, k: Logic)
    ensures
        -1 <= group_pos(g, k) < g.len(),
        group_pos(g, k) >= 0 ==> g[group_pos(g, k)].0 == k,
        forall|j: int| 0 <= j < g.len() && (group_pos(g, k) < 0 || j < group_pos(g, k)) ==> #[trigger] g[j].0 != k,
    decreases g.len(),
{
    if g.len() > 0 && g[0].0 != k {
        let rest = g.subrange(1, g.len() as int);
        lemma_group_pos(rest, k);
        assert forall|j: int| 0 <= j < g.len() && (group_pos(g, k) < 0 || j < group_pos(g, k)) implies #[trigger] g[j].0 != k by {
            if j > 0 {
                assert(g[j] == rest[j - 1]);
            }
        }
        if group_pos(rest, k) >= 0 {
            assert(rest[group_pos(rest, k)] == g[group_pos(rest, k) + 1]);
        }
    }
}

/// Setting the items of a group keyed by `k` and then looking `k` up gives
/// those items back; the other groups keep their keys, items and order; the
/// number of groups grows only when `k` was not yet a key.
pub proof fn law_group_read_after_write(g: Seq<(Logic, Seq<Seq<char>>)>, k: Logic, items: Seq<Seq<char>>)
    ensures
        ({
            let h = insert_group(g, k, items);
            let p = group_pos(h, k);
            &&& p >= 0
            &&& h[p].1 == items
            &&& h.len() == if group_pos(g, k) >= 0 { g.len() } else { g.len() + 1 }
            &&& forall|j: int| 0 <= j < g.len() && g[j].0 != k ==> #[trigger] h[j] == g[j]
        }),
{
    lemma_group_pos(g, k);
    let h = insert_group(g, k, items);
    lemma_group_pos(h, k);
    if group_pos(g, k) >= 0 {
        let p = group_pos(g, k);
        assert(h[p].0 == k);
        if group_pos(h, k) != p {
            assert(group_pos(h, k) < p);
            assert(h[group_pos(h, k)] == g[group_pos(h, k)]);
        }
    } else {
        assert(h[g.len() as int].0 == k);
        if group_pos(h, k) != g.len() {
            assert(h[group_pos(h, k)] == g[group_pos(h, k)]);
        }
    }
}

/// The age groups of the configuration: a formula, and the items that
/// become available once the formula is satisfied.
pub struct AgeGroups {
    groups: Vec<(LogicDependency, Vec<String>)>,
}

pub open spec fn group_views(g: Seq<(LogicDependency, Vec<String>)>) -> Seq<(Logic, Seq<Seq<char>>)> {
    Seq::new(g.len(), |i: int| (g[i].0@, strs(g[i].1@)))
}

/// No two groups share a formula.
pub open spec fn keys_distinct(g: Seq<(Logic, Seq<Seq<char>>)>) -> bool {
    forall|i: int, j: int| 0 <= i < j < g.len() ==> g[i].0 != g[j].0
}

impl AgeGroups {
    pub closed spec fn view(&self) -> Seq<(Logic, Seq<Seq<char>>)> {
        group_views(self.groups@)
    }

    #[verifier::type_invariant]
    closed spec fn wf(&self) -> bool {
        keys_distinct(group_views(self.groups@))
    }

    pub fn new() -> (r: AgeGroups)
        ensures
            r@ == Seq::<(Logic, Seq<Seq<char>>)>::empty(),
    {
        let r = AgeGroups { groups: Vec::new() };
        assert(r@ =~= Seq::<(Logic, Seq<Seq<char>>)>::empty());
        r
    }

    /// The number of groups; no two of them share a formula.
    pub fn len(&self) -> (r: usize)
        ensures
            r == self@.len(),
            keys_distinct(self@),
    {
        proof {
            use_type_invariant(self);
        }
        self.groups.len()
    }

    /// The formula of the `i`-th group.
    pub fn key_at(&self, i: usize) -> (r: &LogicDependency)
        requires
            i < self@.len(),
        ensures
            r@ == self@[i as int].0,
    {
        &self.groups[i].0
    }

    /// The items of the `i`-th group.
    pub fn items_at(&self, i: usize) -> (r: &Vec<String>)
        requires
            i < self@.len(),
        ensures
            strs(r@) == self@[i as int].1,
    {
        &self.groups[i].1
    }

    /// The position of the group keyed by `key`.
    pub fn position(&self, key: &LogicDependency) -> (r: Option<usize>)
        ensures
            match r {
                Some(p) => group_pos(self@, key@) == p && p < self@.len(),
                None => group_pos(self@, key@) < 0,
            },
    {
        proof {
            lemma_group_pos(self@, key@);
        }
        let mut i: usize = 0;
        while i < self.groups.len()
            invariant
                i <= self.groups.len(),
                forall|j: int| 0 <= j < i ==> self@[j].0 != key@,
            decreases self.groups.len() - i,
        {
            if same_logic(&self.groups[i].0, key) {
                assert(self@[i as int].0 == key@);
                proof {
                    lemma_group_pos(self@, key@);
                }
                return Some(i);
            }
            i = i + 1;
        }
        None
    }

    /// The items of the group keyed by `key`.
    pub fn get(&self, key: &LogicDependency) -> (r: Option<&Vec<String>>)
        ensures
            match r {
                Some(items) => group_pos(self@, key@) >= 0 && strs(items@) == self@[group_pos(self@, key@)].1,
                None => group_pos(self@, key@) < 0,
            },
    {
        match self.position(key) {
            Some(p) => Some(&self.groups[p].1),
            None => None,
        }
    }

    /// Sets the items of the group keyed by `key`.
    pub fn insert(&mut self, key: LogicDependency, items: Vec<String>)
        ensures
            final(self)@ == insert_group(old(self)@, key@, strs(items@)),
    {
        proof {
            use_type_invariant(&*self);
            lemma_group_pos(self@, key@);
        }
        let ghost kv = key@;
        let ghost iv = strs(items@);
        let ghost before = self@;
        let pos = self.position(&key);
        let mut groups: Vec<(LogicDependency, Vec<String>)> = Vec::new();
        std::mem::swap(&mut groups, &mut self.groups);
        assert(group_views(groups@) == before);
        match pos {
            Some(p) => {
                groups.set(p, (key, items));
                assert(group_views(groups@) =~= before.update(p as int, (kv, iv)));
            },
            None => {
                groups.push((key, items));
                assert(group_views(groups@) =~= before.push((kv, iv)));
            },
        }
        self.groups = groups;
    }
}


/// The member `key` of `v` when `v` is an object.
pub open spec fn member(v: JsonValue, key: Seq<char>) -> Option<JsonValue> {
    match v {
        JsonValue::Object(o) => obj_get(o@, key),
        _ => None,
    }
}

/// The full names of a list of item names; `None` when one is not a string.
pub open spec fn mc_names(list: Seq<JsonValue>) -> Option<Seq<Seq<char>>> {
    if forall|i: int| 0 <= i < list.len() ==> #[trigger] list[i] is Str {
        Some(Seq::new(list.len(), |i: int| mc_name(list[i]->Str_0@)))
    } else {
        None
    }
}

/// One age group of the configuration: its `requires` formula and the full
/// names of its `results`.
pub open spec fn group_entry(v: JsonValue) -> Result<(Logic, Seq<Seq<char>>), ConfigError> {
    match member(v, "requires"@) {
        None => Err(ConfigError::MissingRequires),
        Some(r) => match age_logic(r) {
            Err(e) => Err(e),
            Ok(l) => match member(v, "results"@) {
                None => Err(ConfigError::MissingResults),
                Some(JsonValue::Array(list)) => match mc_names(list@) {
                    None => Err(ConfigError::ResultNotString),
                    Some(names) => Ok((l, names)),
                },
                Some(_) => Err(ConfigError::MalformedResults),
            },
        },
    }
}

/// The age groups of the configuration entries, inserted in order; the first
/// entry that fails decides the error.
pub open spec fn groups_from(entries: Seq<JsonValue>) -> Result<Seq<(Logic, Seq<Seq<char>>)>, ConfigError>
    decreases entries.len(),
{
    if entries.len() == 0 {
        Ok(Seq::empty())
    } else {
        match groups_from(entries.drop_last()) {
            Err(e) => Err(e),
            Ok(g) => match group_entry(entries.last()) {
                Err(e) => Err(e),
                Ok(entry) => Ok(insert_group(g, entry.0, entry.1)),
            },
        }
    }
}

/// The age groups of a configuration document.
pub open spec fn age_groups_of(data: JsonValue) -> Result<Seq<(Logic, Seq<Seq<char>>)>, ConfigError> {
    match data {
        JsonValue::Array(entries) => groups_from(entries@),
        _ => Err(ConfigError::NotArray),
    }
}

fn member_exec<'a>(v: &'a JsonValue, key: &str) -> (r: Option<&'a JsonValue>)
    ensures
        match r {
            Some(x) => member(*v, key@) == Some(*x),
            None => member(*v, key@) is None,
        },
{
    match v {
        JsonValue::Object(o) => object_get(o, key),
        _ => None,
    }
}

/// One age group of the configuration.
#[verifier::loop_isolation(false)]
pub fn group_from_json(v: &JsonValue) -> (r: Result<(LogicDependency, Vec<String>), ConfigError>)
    ensures
        match r {
            Ok(entry) => group_entry(*v) == Ok::<(Logic, Seq<Seq<char>>), ConfigError>((entry.0@, strs(entry.1@))),
            Err(e) => group_entry(*v) == Err::<(Logic, Seq<Seq<char>>), ConfigError>(e),
        },
{
    let r = match member_exec(v, "requires") {
        None => return Err(ConfigError::MissingRequires),
        Some(r) => r,
    };
    let logic = match try_get_age_logic(r) {
        Err(e) => return Err(e),
        Ok(l) => l,
    };
    let list = match member_exec(v, "results") {
        None => return Err(ConfigError::MissingResults),
        Some(JsonValue::Array(list)) => list,
        Some(_) => return Err(ConfigError::MalformedResults),
    };
    let mut items: Vec<String> = Vec::new();
    let mut i: usize = 0;
    while i < list.len()
        invariant
            i <= list.len(),
            items.len() == i,
            forall|j: int| 0 <= j < i ==> #[trigger] list@[j] is Str && items@[j]@ == mc_name(list@[j]->Str_0@),
        decreases list.len() - i,
    {
        match convert_to_mc_name(&list[i]) {
            None => {
                assert(!(list@[i as int] is Str));
                assert(mc_names(list@) is None);
                return Err(ConfigError::ResultNotString);
            },
            Some(n) => items.push(n),
        }
        i = i + 1;
    }
    proof {
        assert(mc_names(list@) is Some);
        assert(strs(items@) =~= mc_names(list@)->Some_0);
    }
    Ok((logic, items))
}

/// The age groups of a configuration document: an array of objects, each
/// with a `requires` formula and the `results` it unlocks. A later entry
/// with the same formula replaces the items of an earlier one.
#[verifier::loop_isolation(false)]
pub fn try_age_groups_from_json(data: &JsonValue) -> (r: Result<AgeGroups, ConfigError>)
    ensures
        match r {
            Ok(g) => age_groups_of(*data) == Ok::<Seq<(Logic, Seq<Seq<char>>)>, ConfigError>(g@),
            Err(e) => age_groups_of(*data) == Err::<Seq<(Logic, Seq<Seq<char>>)>, ConfigError>(e),
        },
{
    let entries = match data {
        JsonValue::Array(a) => a,
        _ => return Err(ConfigError::NotArray),
    };
    let mut groups = AgeGroups::new();
    let mut i: usize = 0;
    assert(entries@.subrange(0, 0) =~= Seq::<JsonValue>::empty());
    while i < entries.len()
        invariant
            i <= entries.len(),
            groups_from(entries@.subrange(0, i as int)) == Ok::<Seq<(Logic, Seq<Seq<char>>)>, ConfigError>(groups@),
        decreases entries.len() - i,
    {
        let ghost pre = entries@.subrange(0, i + 1);
        assert(pre.drop_last() =~= entries@.subrange(0, i as int));
        assert(pre.last() == entries@[i as int]);
        match group_from_json(&entries[i]) {
            Err(e) => {
                proof {
                    assert(groups_from(pre) == Err::<Seq<(Logic, Seq<Seq<char>>)>, ConfigError>(e));
                    lemma_groups_from_err(entries@, i as int + 1);
                }
                return Err(e);
            },
            Ok(entry) => {
                groups.insert(entry.0, entry.1);
            },
        }
        i = i + 1;
    }
    assert(entries@.subrange(0, entries@.len() as int) =~= entries@);
    Ok(groups)
}

/// Once a prefix of the entries fails, so do all the entries.
proof fn lemma_groups_from_err(entries: Seq<JsonValue>, n: int)
    requires
        0 <= n <= entries.len(),
        groups_from(entries.subrange(0, n)) is Err,
    ensures
        groups_from(entries) == groups_from(entries.subrange(0, n)),
    decreases entries.len() - n,
{
    if n < entries.len() {
        let pre = entries.subrange(0, n + 1);
        assert(pre.drop_last() =~= entries.subrange(0, n));
        lemma_groups_from_err(entries, n + 1);
    } else {
        assert(entries.subrange(0, n) =~= entries);
    }
}

/// The formula of a well-formed `requires` entry of an age group.
pub fn get_age_logic(v: &JsonValue) -> (r: LogicDependency)
    requires
        age_logic(*v) is Ok,
    ensures
        age_logic(*v) == Ok::<Logic, ConfigError>(r@),
{
    match try_get_age_logic(v) {
        Ok(l) => l,
        // `requires` rules this branch out.
        Err(_) => LogicDependency::True,
    }
}

/// The age groups of a well-formed configuration document.
pub fn age_groups_from_json(data: &JsonValue) -> (r: AgeGroups)
    requires
        age_groups_of(*data) is Ok,
    ensures
        age_groups_of(*data) == Ok::<Seq<(Logic, Seq<Seq<char>>)>, ConfigError>(r@),
{
    match try_age_groups_from_json(data) {
        Ok(g) => g,
        // `requires` rules this branch out.
        Err(_) => AgeGroups::new(),
    }
}

/// The items of the age group read from a configuration entry are the
/// full names of its `results`, one for one and in order: as many items as
/// results, item `k` being `minecraft:` followed by result `k`.
pub proof fn law_group_items_are_results(v: JsonValue)
    requires
        group_entry(v) is Ok,
    ensures
        member(v, "results"@) matches Some(JsonValue::Array(_)),
        ({
            let list = member(v, "results"@)->Some_0->Array_0@;
            let names = group_entry(v)->Ok_0.1;
            &&& names.len() == list.len()
            &&& forall|k: int| 0 <= k < list.len()
                ==> list[k] is Str && #[trigger] names[k] == "minecraft:"@ + list[k]->Str_0@
        }),
{
}

} // verus!
