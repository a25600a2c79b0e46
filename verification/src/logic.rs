use vstd::prelude::*;

verus! {

/// What a recipe, a tag or an age group needs before it counts as satisfied.
#[derive(Debug, PartialEq, Eq, Hash)]
pub enum LogicDependency {
    Item(String),
    Tag(String),
    And(Vec<LogicDependency>),
    Or(Vec<LogicDependency>),
    True,
}

/// Mathematical model of a `LogicDependency`.
pub enum Logic {
    Item(Seq<char>),
    Tag(Seq<char>),
    And(Seq<Logic>),
    Or(Seq<Logic>),
    True,
}

impl LogicDependency {
    pub open spec fn view(&self) -> Logic
        decreases self,
    {
        match self {
            LogicDependency::Item(s) => Logic::Item(s@),
            LogicDependency::Tag(s) => Logic::Tag(s@),
            LogicDependency::And(v) => Logic::And(
                Seq::new(v@.len(), |i: int| if 0 <= i < v@.len() { v@[i].view() } else { Logic::True }),
            ),
            LogicDependency::Or(v) => Logic::Or(
                Seq::new(v@.len(), |i: int| if 0 <= i < v@.len() { v@[i].view() } else { Logic::True }),
            ),
            LogicDependency::True => Logic::True,
        }
    }
}

/// The views of a sequence of strings.
pub open spec fn strs(v: Seq<String>) -> Seq<Seq<char>> {
    Seq::new(v.len(), |i: int| v[i]@)
}

/// The views of a sequence of formulas.
pub open spec fn logics(v: Seq<LogicDependency>) -> Seq<Logic> {
    Seq::new(v.len(), |i: int| v[i]@)
}

pub open spec fn max_nat(a: nat, b: nat) -> nat {
    if a >= b { a } else { b }
}

/// The longest chain of tag expansions a formula can start, measured by `rank`.
pub open spec fn height(l: Logic, rank: spec_fn(Seq<char>) -> nat) -> nat
    decreases l,
{
    match l {
        Logic::Tag(s) => rank(s) + 1,
        Logic::And(v) => height_seq(v, rank),
        Logic::Or(v) => height_seq(v, rank),
        _ => 0,
    }
}

pub open spec fn height_seq(s: Seq<Logic>, rank: spec_fn(Seq<char>) -> nat) -> nat
    decreases s,
{
    if s.len() == 0 {
        0
    } else {
        max_nat(height(s[0], rank), height_seq(s.subrange(1, s.len() as int), rank))
    }
}

/// `rank` orders the tags of `tags` so that a tag only mentions tags of lower rank.
pub open spec fn ranked(tags: Map<Seq<char>, Logic>, rank: spec_fn(Seq<char>) -> nat) -> bool {
    forall|k: Seq<char>| #[trigger] tags.dom().contains(k) ==> height(tags[k], rank) <= rank(k)
}

/// No tag of the table reaches itself through the tags it mentions.
pub open spec fn acyclic(tags: Map<Seq<char>, Logic>) -> bool {
    exists|rank: spec_fn(Seq<char>) -> nat| #[trigger] ranked(tags, rank)
}

pub open spec fn tag_rank(tags: Map<Seq<char>, Logic>) -> spec_fn(Seq<char>) -> nat {
    choose|rank: spec_fn(Seq<char>) -> nat| #[trigger] ranked(tags, rank)
}

/// Whether `items` satisfy `l` when tags may be expanded at most `fuel`
/// deep, one inside another: `None` when that is not deep enough,
/// `Some(Err(name))` when the evaluation meets a tag `name` that the table
/// does not hold. `And` and `Or` stop at the first operand that decides
/// them, from left to right.
pub open spec fn solves_fuel(l: Logic, items: Seq<Seq<char>>, tags: Map<Seq<char>, Logic>, fuel: nat) -> Option<Result<bool, Seq<char>>>
    decreases fuel, l,
{
    match l {
        Logic::Item(s) => Some(Ok(items.contains(s))),
        Logic::Tag(s) => if !tags.dom().contains(s) {
            Some(Err(s))
        } else if fuel == 0 {
            None
        } else {
            solves_fuel(tags[s], items, tags, (fuel - 1) as nat)
        },
        Logic::And(v) => solves_all_fuel(v, items, tags, fuel),
        Logic::Or(v) => solves_any_fuel(v, items, tags, fuel),
        Logic::True => Some(Ok(true)),
    }
}

pub open spec fn solves_all_fuel(v: Seq<Logic>, items: Seq<Seq<char>>, tags: Map<Seq<char>, Logic>, fuel: nat) -> Option<Result<bool, Seq<char>>>
    decreases fuel, v,
{
    if v.len() == 0 {
        Some(Ok(true))
    } else {
        match solves_fuel(v[0], items, tags, fuel) {
            Some(Ok(true)) => solves_all_fuel(v.subrange(1, v.len() as int), items, tags, fuel),
            other => other,
        }
    }
}

pub open spec fn solves_any_fuel(v: Seq<Logic>, items: Seq<Seq<char>>, tags: Map<Seq<char>, Logic>, fuel: nat) -> Option<Result<bool, Seq<char>>>
    decreases fuel, v,
{
    if v.len() == 0 {
        Some(Ok(false))
    } else {
        match solves_fuel(v[0], items, tags, fuel) {
            Some(Ok(false)) => solves_any_fuel(v.subrange(1, v.len() as int), items, tags, fuel),
            other => other,
        }
    }
}

/// The evaluation of `l` on `items` comes to an end: it never meets a tag
/// again inside that tag's own expansion.
pub open spec fn evaluates(l: Logic, items: Seq<Seq<char>>, tags: Map<Seq<char>, Logic>) -> bool {
    exists|fuel: nat| #[trigger] solves_fuel(l, items, tags, fuel) is Some
}

/// Whether `items` satisfy `l`, for an evaluation that comes to an end;
/// `Err(name)` when it meets a tag `name` that the table does not hold.
pub open spec fn solves(l: Logic, items: Seq<Seq<char>>, tags: Map<Seq<char>, Logic>) -> Result<bool, Seq<char>> {
    solves_fuel(l, items, tags, choose|fuel: nat| #[trigger] solves_fuel(l, items, tags, fuel) is Some)->Some_0
}

/// The items that `l` mentions, in order, with each tag replaced by the
/// items of its formula, when tags may be expanded at most `fuel` deep:
/// `None` when that is not deep enough, `Some(Err(name))` at the first tag
/// `name` missing from the table.
pub open spec fn referenced_fuel(l: Logic, tags: Map<Seq<char>, Logic>, fuel: nat) -> Option<Result<Seq<Seq<char>>, Seq<char>>>
    decreases fuel, l,
{
    match l {
        Logic::Item(s) => Some(Ok(seq![s])),
        Logic::Tag(s) => if !tags.dom().contains(s) {
            Some(Err(s))
        } else if fuel == 0 {
            None
        } else {
            referenced_fuel(tags[s], tags, (fuel - 1) as nat)
        },
        Logic::And(v) => referenced_seq_fuel(v, tags, fuel),
        Logic::Or(v) => referenced_seq_fuel(v, tags, fuel),
        Logic::True => Some(Ok(Seq::empty())),
    }
}

pub open spec fn referenced_seq_fuel(v: Seq<Logic>, tags: Map<Seq<char>, Logic>, fuel: nat) -> Option<Result<Seq<Seq<char>>, Seq<char>>>
    decreases fuel, v,
{
    if v.len() == 0 {
        Some(Ok(Seq::empty()))
    } else {
        match referenced_fuel(v[0], tags, fuel) {
            Some(Ok(first)) => prepend_some(first, referenced_seq_fuel(v.subrange(1, v.len() as int), tags, fuel)),
            other => other,
        }
    }
}

/// `prefix` followed by the list of `r`, when `r` is a list.
pub open spec fn prepend_some(prefix: Seq<Seq<char>>, r: Option<Result<Seq<Seq<char>>, Seq<char>>>) -> Option<Result<Seq<Seq<char>>, Seq<char>>> {
    match r {
        Some(Ok(rest)) => Some(Ok(prefix + rest)),
        other => other,
    }
}

/// Listing the items that `l` mentions comes to an end: no tag is met again
/// inside its own expansion.
pub open spec fn references_end(l: Logic, tags: Map<Seq<char>, Logic>) -> bool {
    exists|fuel: nat| #[trigger] referenced_fuel(l, tags, fuel) is Some
}

/// The items that `l` mentions, in order, with each tag replaced by the
/// items of its formula, for a listing that comes to an end; `Err(name)` at
/// the first tag `name` missing from the table.
pub open spec fn referenced(l: Logic, tags: Map<Seq<char>, Logic>) -> Result<Seq<Seq<char>>, Seq<char>> {
    referenced_fuel(l, tags, choose|fuel: nat| #[trigger] referenced_fuel(l, tags, fuel) is Some)->Some_0
}

/// A tag that a formula mentions is missing from the tag table.
#[derive(Debug)]
pub enum LogicError {
    MissingTag(String),
}

impl LogicError {
    pub open spec fn view(&self) -> Seq<char> {
        match self {
            LogicError::MissingTag(name) => name@,
        }
    }
}

/// `r` is the executable form of the modelled outcome `s`.
pub open spec fn outcome<T>(r: Result<T, LogicError>, s: Result<T, Seq<char>>) -> bool {
    match r {
        Ok(v) => s == Ok::<T, Seq<char>>(v),
        Err(e) => s == Err::<T, Seq<char>>(e@),
    }
}

/// The model of a table of entries where a later entry for a name replaces
/// an earlier one.
pub open spec fn entry_map(s: Seq<(String, LogicDependency)>) -> Map<Seq<char>, Logic>
    decreases s.len(),
{
    if s.len() == 0 {
        Map::empty()
    } else {
        entry_map(s.drop_last()).insert(s.last().0@, s.last().1@)
    }
}

/// Tag name to the formula that the tag stands for.
pub struct TagTable {
    entries: Vec<(String, LogicDependency)>,
}

/// No two entries share a name.
pub open spec fn names_distinct(s: Seq<(String, LogicDependency)>) -> bool {
    forall|i: int, j: int| 0 <= i < j < s.len() ==> s[i].0@ != s[j].0@
}

/// With distinct names, every entry is what the model holds for its name,
/// and the model holds nothing else.
pub proof fn lemma_entry_map_distinct(s: Seq<(String, LogicDependency)>)
    requires
        names_distinct(s),
    ensures
        forall|i: int| 0 <= i < s.len() ==> #[trigger] entry_map(s).dom().contains(s[i].0@) && entry_map(s)[s[i].0@] == s[i].1@,
        forall|k: Seq<char>| #[trigger] entry_map(s).dom().contains(k) ==> exists|i: int| 0 <= i < s.len() && s[i].0@ == k,
    decreases s.len(),
{
    if s.len() > 0 {
        let init = s.drop_last();
        assert(names_distinct(init));
        lemma_entry_map_distinct(init);
        assert forall|i: int| 0 <= i < s.len() implies #[trigger] entry_map(s).dom().contains(s[i].0@) && entry_map(s)[s[i].0@] == s[i].1@ by {
            if i < s.len() - 1 {
                assert(init[i] == s[i]);
            }
        }
        assert forall|k: Seq<char>| #[trigger] entry_map(s).dom().contains(k) implies exists|i: int| 0 <= i < s.len() && s[i].0@ == k by {
            if k != s.last().0@ {
                let i = choose|i: int| 0 <= i < init.len() && init[i].0@ == k;
                assert(s[i] == init[i]);
            } else {
                assert(s[s.len() - 1].0@ == k);
            }
        }
    }
}

proof fn lemma_entry_map_update(s: Seq<(String, LogicDependency)>, i: int, x: (String, LogicDependency))
    requires
        names_distinct(s),
        0 <= i < s.len(),
        s[i].0@ == x.0@,
    ensures
        entry_map(s.update(i, x)) == entry_map(s).insert(x.0@, x.1@),
        names_distinct(s.update(i, x)),
    decreases s.len(),
{
    let init = s.drop_last();
    let t = s.update(i, x);
    assert(t.drop_last() =~= if i == s.len() - 1 { init } else { init.update(i, x) });
    if i < s.len() - 1 {
        assert(names_distinct(init));
        lemma_entry_map_update(init, i, x);
        assert(s.last().0@ != x.0@);
        assert(entry_map(t) =~= entry_map(s).insert(x.0@, x.1@));
    } else {
        assert(entry_map(t) =~= entry_map(s).insert(x.0@, x.1@));
    }
}

impl TagTable {
    pub closed spec fn view(&self) -> Map<Seq<char>, Logic> {
        entry_map(self.entries@)
    }

    #[verifier::type_invariant]
    closed spec fn wf(&self) -> bool {
        names_distinct(self.entries@)
    }

    pub fn new() -> (t: TagTable)
        ensures
            t@ == Map::<Seq<char>, Logic>::empty(),
    {
        TagTable { entries: Vec::new() }
    }

    /// Binds `name` to `logic`, replacing an earlier binding of `name`.
    pub fn insert(&mut self, name: String, logic: LogicDependency)
        ensures
            final(self)@ == old(self)@.insert(name@, logic@),
    {
        proof {
            use_type_invariant(&*self);
        }
        let mut entries: Vec<(String, LogicDependency)> = Vec::new();
        std::mem::swap(&mut entries, &mut self.entries);
        let ghost before = entries@;
        let ghost x = (name, logic);
        let mut i: usize = 0;
        while i < entries.len()
            invariant
                i <= entries.len(),
                entries@ == before,
                before == old(self).entries@,
                x == (name, logic),
                names_distinct(before),
                forall|j: int| 0 <= j < i ==> before[j].0@ != name@,
            decreases entries.len() - i,
        {
            if entries[i].0 == name {
                proof {
                    lemma_entry_map_update(before, i as int, x);
                }
                entries.set(i, (name, logic));
                assert(entries@ == before.update(i as int, x));
                self.entries = entries;
                return;
            }
            i = i + 1;
        }
        entries.push((name, logic));
        assert(entries@.drop_last() =~= before);
        self.entries = entries;
    }

    /// The formula bound to `name`.
    pub fn get(&self, name: &String) -> (r: Option<&LogicDependency>)
        ensures
            r is Some <==> self@.dom().contains(name@),
            r matches Some(l) ==> l@ == self@[name@],
    {
        let mut n = self.entries.len();
        assert(self.entries@.subrange(0, n as int) =~= self.entries@);
        while n > 0
            invariant
                n <= self.entries.len(),
                entry_map(self.entries@).dom().contains(name@)
                    == entry_map(self.entries@.subrange(0, n as int)).dom().contains(name@),
                entry_map(self.entries@).dom().contains(name@) ==> entry_map(self.entries@)[name@]
                    == entry_map(self.entries@.subrange(0, n as int))[name@],
            decreases n,
        {
            let ghost pre = self.entries@.subrange(0, n as int);
            assert(pre.drop_last() =~= self.entries@.subrange(0, n - 1));
            if self.entries[n - 1].0 == *name {
                return Some(&self.entries[n - 1].1);
            }
            n = n - 1;
        }
        assert(self.entries@.subrange(0, 0) =~= Seq::<(String, LogicDependency)>::empty());
        None
    }
}


proof fn lemma_rank(tags: Map<Seq<char>, Logic>)
    requires
        acyclic(tags),
    ensures
        ranked(tags, tag_rank(tags)),
{
}

/// The model of an `And` or `Or` formula lists the models of its operands.
pub proof fn lemma_view_and_or(l: LogicDependency)
    ensures
        l matches LogicDependency::And(v) ==> l@ == Logic::And(logics(v@)),
        l matches LogicDependency::Or(v) ==> l@ == Logic::Or(logics(v@)),
{
    match l {
        LogicDependency::And(v) => {
            assert(l@->And_0 =~= logics(v@));
        },
        LogicDependency::Or(v) => {
            assert(l@->Or_0 =~= logics(v@));
        },
        _ => {},
    }
}

/// Whether `s` occurs in `v`.
pub fn contains_string(v: &Vec<String>, s: &String) -> (r: bool)
    ensures
        r == strs(v@).contains(s@),
{
    let mut i: usize = 0;
    while i < v.len()
        invariant
            i <= v.len(),
            forall|j: int| 0 <= j < i ==> v@[j]@ != s@,
        decreases v.len() - i,
    {
        if v[i] == *s {
            assert(strs(v@)[i as int] == s@);
            return true;
        }
        i = i + 1;
    }
    assert forall|j: int| 0 <= j < strs(v@).len() implies strs(v@)[j] != s@ by {
        assert(strs(v@)[j] == v@[j]@);
    }
    false
}

/// Whether `items` satisfy `logic`, expanding tags at most `fuel` deep.
#[verifier::loop_isolation(false)]
fn solve_with_fuel(logic: &LogicDependency, items: &Vec<String>, tags: &TagTable, Ghost(fuel): Ghost<nat>) -> (r: Result<bool, LogicError>)
    requires
        solves_fuel(logic@, strs(items@), tags@, fuel) is Some,
    ensures
        outcome(r, solves_fuel(logic@, strs(items@), tags@, fuel)->Some_0),
    decreases fuel, logic,
{
    proof {
        lemma_view_and_or(*logic);
    }
    match logic {
        LogicDependency::Item(s) => Ok(contains_string(items, s)),
        LogicDependency::Tag(s) => match tags.get(s) {
            Some(l) => {
                assert(tags@.dom().contains(s@));
                solve_with_fuel(l, items, tags, Ghost((fuel - 1) as nat))
            },
            None => Err(LogicError::MissingTag(s.clone())),
        },
        LogicDependency::And(v) => {
            let ghost lv = logics(v@);
            let mut i: usize = 0;
            assert(lv.subrange(0, lv.len() as int) =~= lv);
            while i < v.len()
                invariant
                    i <= v.len(),
                    lv.len() == v.len(),
                    solves_all_fuel(lv, strs(items@), tags@, fuel) is Some,
                    solves_all_fuel(lv, strs(items@), tags@, fuel) == solves_all_fuel(
                        lv.subrange(i as int, lv.len() as int),
                        strs(items@),
                        tags@,
                        fuel,
                    ),
                decreases v.len() - i,
            {
                proof {
                    assert(lv[i as int] == v@[i as int]@);
                    let rest = lv.subrange(i as int, lv.len() as int);
                    assert(rest[0] == lv[i as int]);
                    assert(rest.subrange(1, rest.len() as int) =~= lv.subrange(i + 1, lv.len() as int));
                }
                match solve_with_fuel(&v[i], items, tags, Ghost(fuel)) {
                    Err(e) => return Err(e),
                    Ok(false) => return Ok(false),
                    Ok(true) => {},
                }
                i = i + 1;
            }
            Ok(true)
        },
        LogicDependency::Or(v) => {
            let ghost lv = logics(v@);
            let mut i: usize = 0;
            assert(lv.subrange(0, lv.len() as int) =~= lv);
            while i < v.len()
                invariant
                    i <= v.len(),
                    lv.len() == v.len(),
                    solves_any_fuel(lv, strs(items@), tags@, fuel) is Some,
                    solves_any_fuel(lv, strs(items@), tags@, fuel) == solves_any_fuel(
                        lv.subrange(i as int, lv.len() as int),
                        strs(items@),
                        tags@,
                        fuel,
                    ),
                decreases v.len() - i,
            {
                proof {
                    assert(lv[i as int] == v@[i as int]@);
                    let rest = lv.subrange(i as int, lv.len() as int);
                    assert(rest[0] == lv[i as int]);
                    assert(rest.subrange(1, rest.len() as int) =~= lv.subrange(i + 1, lv.len() as int));
                }
                match solve_with_fuel(&v[i], items, tags, Ghost(fuel)) {
                    Err(e) => return Err(e),
                    Ok(true) => return Ok(true),
                    Ok(false) => {},
                }
                i = i + 1;
            }
            Ok(false)
        },
        LogicDependency::True => Ok(true),
    }
}

/// Whether `items` satisfy `logic`, expanding tags through `tags`.
pub fn try_rec_solve_logic(logic: &LogicDependency, items: &Vec<String>, tags: &TagTable) -> (r: Result<bool, LogicError>)
    requires
        evaluates(logic@, strs(items@), tags@),
    ensures
        outcome(r, solves(logic@, strs(items@), tags@)),
{
    let ghost fuel = choose|fuel: nat| #[trigger] solves_fuel(logic@, strs(items@), tags@, fuel) is Some;
    solve_with_fuel(logic, items, tags, Ghost(fuel))
}

/// `r` is the executable form of the modelled list outcome `s`.
pub open spec fn strs_outcome(r: Result<Vec<String>, LogicError>, s: Result<Seq<Seq<char>>, Seq<char>>) -> bool {
    match r {
        Ok(v) => s == Ok::<Seq<Seq<char>>, Seq<char>>(strs(v@)),
        Err(e) => s == Err::<Seq<Seq<char>>, Seq<char>>(e@),
    }
}

/// `prefix` followed by the list of `r`, when `r` is a list.
pub open spec fn prepend(prefix: Seq<Seq<char>>, r: Result<Seq<Seq<char>>, Seq<char>>) -> Result<Seq<Seq<char>>, Seq<char>> {
    match r {
        Ok(rest) => Ok(prefix + rest),
        Err(e) => Err(e),
    }
}

proof fn lemma_strs_append(a: Seq<String>, b: Seq<String>)
    ensures
        strs(a + b) =~= strs(a) + strs(b),
{
}

/// Every item that `logic` mentions, tags expanded at most `fuel` deep, in order.
#[verifier::loop_isolation(false)]
fn referenced_with_fuel(logic: &LogicDependency, tags: &TagTable, Ghost(fuel): Ghost<nat>) -> (r: Result<Vec<String>, LogicError>)
    requires
        referenced_fuel(logic@, tags@, fuel) is Some,
    ensures
        strs_outcome(r, referenced_fuel(logic@, tags@, fuel)->Some_0),
    decreases fuel, logic,
{
    proof {
        lemma_view_and_or(*logic);
    }
    match logic {
        LogicDependency::Item(s) => {
            let mut vec = Vec::new();
            vec.push(s.clone());
            assert(strs(vec@) =~= seq![s@]);
            Ok(vec)
        },
        LogicDependency::Tag(s) => match tags.get(s) {
            Some(l) => {
                assert(tags@.dom().contains(s@));
                referenced_with_fuel(l, tags, Ghost((fuel - 1) as nat))
            },
            None => Err(LogicError::MissingTag(s.clone())),
        },
        LogicDependency::And(v) | LogicDependency::Or(v) => {
            let ghost lv = logics(v@);
            assert(referenced_fuel(logic@, tags@, fuel) == referenced_seq_fuel(lv, tags@, fuel));
            let mut vec: Vec<String> = Vec::new();
            let mut i: usize = 0;
            assert(lv.subrange(0, lv.len() as int) =~= lv);
            assert(strs(vec@) =~= Seq::<Seq<char>>::empty());
            let ghost whole = referenced_seq_fuel(lv, tags@, fuel);
            assert(whole == prepend_some(strs(vec@), referenced_seq_fuel(lv.subrange(0, lv.len() as int), tags@, fuel))) by {
                match whole {
                    Some(Ok(w)) => {
                        assert(strs(vec@) + w =~= w);
                    },
                    _ => {},
                }
            }
            while i < v.len()
                invariant
                    i <= v.len(),
                    lv.len() == v.len(),
                    whole == referenced_seq_fuel(lv, tags@, fuel),
                    whole is Some,
                    whole == prepend_some(
                        strs(vec@),
                        referenced_seq_fuel(lv.subrange(i as int, lv.len() as int), tags@, fuel),
                    ),
                decreases v.len() - i,
            {
                let ghost rest = lv.subrange(i as int, lv.len() as int);
                proof {
                    assert(lv[i as int] == v@[i as int]@);
                    assert(rest[0] == lv[i as int]);
                    assert(rest.subrange(1, rest.len() as int) =~= lv.subrange(i + 1, lv.len() as int));
                }
                match referenced_with_fuel(&v[i], tags, Ghost(fuel)) {
                    Err(e) => return Err(e),
                    Ok(mut sub) => {
                        let ghost before = vec@;
                        let ghost added = sub@;
                        vec.append(&mut sub);
                        proof {
                            lemma_strs_append(before, added);
                            let tail = referenced_seq_fuel(lv.subrange(i + 1, lv.len() as int), tags@, fuel);
                            match tail {
                                Some(Ok(t)) => {
                                    assert(strs(before) + (strs(added) + t) =~= strs(vec@) + t);
                                },
                                _ => {},
                            }
                        }
                    },
                }
                i = i + 1;
            }
            assert(lv.subrange(v.len() as int, lv.len() as int) =~= Seq::<Logic>::empty());
            assert(strs(vec@) + Seq::<Seq<char>>::empty() =~= strs(vec@));
            Ok(vec)
        },
        LogicDependency::True => {
            let vec: Vec<String> = Vec::new();
            assert(strs(vec@) =~= Seq::<Seq<char>>::empty());
            Ok(vec)
        },
    }
}

/// Every item that `logic` mentions, tags expanded through `tags`, in order.
pub fn try_rec_get_all_referenced_recipes(logic: &LogicDependency, tags: &TagTable) -> (r: Result<Vec<String>, LogicError>)
    requires
        references_end(logic@, tags@),
    ensures
        strs_outcome(r, referenced(logic@, tags@)),
{
    let ghost fuel = choose|fuel: nat| #[trigger] referenced_fuel(logic@, tags@, fuel) is Some;
    referenced_with_fuel(logic, tags, Ghost(fuel))
}


impl LogicDependency {
    #[verifier::loop_isolation(false)]
    fn duplicate(&self) -> (r: LogicDependency)
        ensures
            r@ == self@,
        decreases self,
    {
        proof {
            lemma_view_and_or(*self);
        }
        match self {
            LogicDependency::Item(s) => LogicDependency::Item(s.clone()),
            LogicDependency::Tag(s) => LogicDependency::Tag(s.clone()),
            LogicDependency::And(v) | LogicDependency::Or(v) => {
                let mut out: Vec<LogicDependency> = Vec::new();
                let mut i: usize = 0;
                while i < v.len()
                    invariant
                        i <= v.len(),
                        out.len() == i,
                        forall|j: int| 0 <= j < i ==> out@[j]@ == v@[j]@,
                    decreases v.len() - i,
                {
                    let c = v[i].duplicate();
                    out.push(c);
                    i = i + 1;
                }
                proof {
                    lemma_view_and_or(LogicDependency::And(out));
                    lemma_view_and_or(LogicDependency::Or(out));
                    assert(logics(out@) =~= logics(v@));
                }
                match self {
                    LogicDependency::And(_) => LogicDependency::And(out),
                    _ => LogicDependency::Or(out),
                }
            },
            LogicDependency::True => LogicDependency::True,
        }
    }
}

impl Clone for LogicDependency {
    /// A copy with the same model.
    fn clone(&self) -> (r: LogicDependency)
        ensures
            r@ == self@,
    {
        self.duplicate()
    }
}

/// Whether `a` and `b` are the same formula.
#[verifier::loop_isolation(false)]
pub fn same_logic(a: &LogicDependency, b: &LogicDependency) -> (r: bool)
    ensures
        r == (a@ == b@),
    decreases a,
{
    proof {
        lemma_view_and_or(*a);
        lemma_view_and_or(*b);
    }
    match (a, b) {
        (LogicDependency::Item(x), LogicDependency::Item(y)) => *x == *y,
        (LogicDependency::Tag(x), LogicDependency::Tag(y)) => *x == *y,
        (LogicDependency::True, LogicDependency::True) => true,
        (LogicDependency::And(v), LogicDependency::And(w)) | (LogicDependency::Or(v), LogicDependency::Or(w)) => {
            if v.len() != w.len() {
                assert(logics(v@).len() != logics(w@).len());
                return false;
            }
            let mut i: usize = 0;
            while i < v.len()
                invariant
                    i <= v.len(),
                    v.len() == w.len(),
                    forall|j: int| 0 <= j < i ==> v@[j]@ == w@[j]@,
                decreases v.len() - i,
            {
                if !same_logic(&v[i], &w[i]) {
                    assert(logics(v@)[i as int] != logics(w@)[i as int]);
                    return false;
                }
                i = i + 1;
            }
            assert(logics(v@) =~= logics(w@));
            true
        },
        _ => false,
    }
}

/// Every item of `a` is also in `b`.
pub open spec fn items_within(a: Seq<Seq<char>>, b: Seq<Seq<char>>) -> bool {
    forall|x: Seq<char>| a.contains(x) ==> #[trigger] b.contains(x)
}

proof fn lemma_solves_fuel_mono(l: Logic, items: Seq<Seq<char>>, tags: Map<Seq<char>, Logic>, n: nat, m: nat)
    requires
        solves_fuel(l, items, tags, n) is Some,
        n <= m,
    ensures
        solves_fuel(l, items, tags, m) == solves_fuel(l, items, tags, n),
    decreases n, l,
{
    match l {
        Logic::Tag(s) => {
            if tags.dom().contains(s) {
                lemma_solves_fuel_mono(tags[s], items, tags, (n - 1) as nat, (m - 1) as nat);
            }
        },
        Logic::And(v) => lemma_solves_all_fuel_mono(v, items, tags, n, m),
        Logic::Or(v) => lemma_solves_any_fuel_mono(v, items, tags, n, m),
        _ => {},
    }
}

proof fn lemma_solves_all_fuel_mono(v: Seq<Logic>, items: Seq<Seq<char>>, tags: Map<Seq<char>, Logic>, n: nat, m: nat)
    requires
        solves_all_fuel(v, items, tags, n) is Some,
        n <= m,
    ensures
        solves_all_fuel(v, items, tags, m) == solves_all_fuel(v, items, tags, n),
    decreases n, v,
{
    if v.len() > 0 {
        lemma_solves_fuel_mono(v[0], items, tags, n, m);
        if solves_fuel(v[0], items, tags, n) == Some(Ok::<bool, Seq<char>>(true)) {
            lemma_solves_all_fuel_mono(v.subrange(1, v.len() as int), items, tags, n, m);
        }
    }
}

proof fn lemma_solves_any_fuel_mono(v: Seq<Logic>, items: Seq<Seq<char>>, tags: Map<Seq<char>, Logic>, n: nat, m: nat)
    requires
        solves_any_fuel(v, items, tags, n) is Some,
        n <= m,
    ensures
        solves_any_fuel(v, items, tags, m) == solves_any_fuel(v, items, tags, n),
    decreases n, v,
{
    if v.len() > 0 {
        lemma_solves_fuel_mono(v[0], items, tags, n, m);
        if solves_fuel(v[0], items, tags, n) == Some(Ok::<bool, Seq<char>>(false)) {
            lemma_solves_any_fuel_mono(v.subrange(1, v.len() as int), items, tags, n, m);
        }
    }
}

/// Any depth at which the evaluation of `l` ends gives `solves`.
pub proof fn lemma_solves_at(l: Logic, items: Seq<Seq<char>>, tags: Map<Seq<char>, Logic>, n: nat)
    requires
        solves_fuel(l, items, tags, n) is Some,
    ensures
        evaluates(l, items, tags),
        solves(l, items, tags) == solves_fuel(l, items, tags, n)->Some_0,
{
    let c = choose|fuel: nat| #[trigger] solves_fuel(l, items, tags, fuel) is Some;
    assert(solves_fuel(l, items, tags, c) is Some);
    if c <= n {
        lemma_solves_fuel_mono(l, items, tags, c, n);
    } else {
        lemma_solves_fuel_mono(l, items, tags, n, c);
    }
}

proof fn lemma_referenced_fuel_mono(l: Logic, tags: Map<Seq<char>, Logic>, n: nat, m: nat)
    requires
        referenced_fuel(l, tags, n) is Some,
        n <= m,
    ensures
        referenced_fuel(l, tags, m) == referenced_fuel(l, tags, n),
    decreases n, l,
{
    match l {
        Logic::Tag(s) => {
            if tags.dom().contains(s) {
                lemma_referenced_fuel_mono(tags[s], tags, (n - 1) as nat, (m - 1) as nat);
            }
        },
        Logic::And(v) => lemma_referenced_seq_fuel_mono(v, tags, n, m),
        Logic::Or(v) => lemma_referenced_seq_fuel_mono(v, tags, n, m),
        _ => {},
    }
}

proof fn lemma_referenced_seq_fuel_mono(v: Seq<Logic>, tags: Map<Seq<char>, Logic>, n: nat, m: nat)
    requires
        referenced_seq_fuel(v, tags, n) is Some,
        n <= m,
    ensures
        referenced_seq_fuel(v, tags, m) == referenced_seq_fuel(v, tags, n),
    decreases n, v,
{
    if v.len() > 0 {
        lemma_referenced_fuel_mono(v[0], tags, n, m);
        if referenced_fuel(v[0], tags, n) matches Some(Ok(_)) {
            lemma_referenced_seq_fuel_mono(v.subrange(1, v.len() as int), tags, n, m);
        }
    }
}

/// Any depth at which the listing of `l` ends gives `referenced`.
pub proof fn lemma_referenced_at(l: Logic, tags: Map<Seq<char>, Logic>, n: nat)
    requires
        referenced_fuel(l, tags, n) is Some,
    ensures
        references_end(l, tags),
        referenced(l, tags) == referenced_fuel(l, tags, n)->Some_0,
{
    let c = choose|fuel: nat| #[trigger] referenced_fuel(l, tags, fuel) is Some;
    assert(referenced_fuel(l, tags, c) is Some);
    if c <= n {
        lemma_referenced_fuel_mono(l, tags, c, n);
    } else {
        lemma_referenced_fuel_mono(l, tags, n, c);
    }
}

proof fn lemma_enough_fuel(l: Logic, items: Seq<Seq<char>>, tags: Map<Seq<char>, Logic>, n: nat)
    requires
        acyclic(tags),
        height(l, tag_rank(tags)) <= n,
    ensures
        solves_fuel(l, items, tags, n) is Some,
        referenced_fuel(l, tags, n) is Some,
    decreases n, l,
{
    lemma_rank(tags);
    match l {
        Logic::Tag(s) => {
            if tags.dom().contains(s) {
                lemma_enough_fuel(tags[s], items, tags, (n - 1) as nat);
            }
        },
        Logic::And(v) => lemma_enough_fuel_seq(v, items, tags, n),
        Logic::Or(v) => lemma_enough_fuel_seq(v, items, tags, n),
        _ => {},
    }
}

proof fn lemma_enough_fuel_seq(v: Seq<Logic>, items: Seq<Seq<char>>, tags: Map<Seq<char>, Logic>, n: nat)
    requires
        acyclic(tags),
        height_seq(v, tag_rank(tags)) <= n,
    ensures
        solves_all_fuel(v, items, tags, n) is Some,
        solves_any_fuel(v, items, tags, n) is Some,
        referenced_seq_fuel(v, tags, n) is Some,
    decreases n, v,
{
    if v.len() > 0 {
        lemma_enough_fuel(v[0], items, tags, n);
        lemma_enough_fuel_seq(v.subrange(1, v.len() as int), items, tags, n);
    }
}

/// Every evaluation of `l` comes to an end, whatever the items.
pub open spec fn ends_always(l: Logic, tags: Map<Seq<char>, Logic>) -> bool {
    forall|items: Seq<Seq<char>>| #[trigger] evaluates(l, items, tags)
}

/// Over a table where no tag reaches itself, every evaluation and every
/// listing comes to an end.
pub proof fn lemma_acyclic_ends(l: Logic, tags: Map<Seq<char>, Logic>)
    requires
        acyclic(tags),
    ensures
        ends_always(l, tags),
        references_end(l, tags),
{
    let n = height(l, tag_rank(tags));
    assert forall|items: Seq<Seq<char>>| #[trigger] evaluates(l, items, tags) by {
        lemma_enough_fuel(l, items, tags, n);
        lemma_solves_at(l, items, tags, n);
    }
    lemma_enough_fuel(l, Seq::empty(), tags, n);
    lemma_referenced_at(l, tags, n);
}

proof fn lemma_mono(l: Logic, items: Seq<Seq<char>>, more: Seq<Seq<char>>, tags: Map<Seq<char>, Logic>, n: nat)
    requires
        referenced_fuel(l, tags, n) matches Some(Ok(_)),
        items_within(items, more),
    ensures
        solves_fuel(l, items, tags, n) matches Some(Ok(_)),
        solves_fuel(l, more, tags, n) matches Some(Ok(_)),
        solves_fuel(l, items, tags, n) == Some(Ok::<bool, Seq<char>>(true))
            ==> solves_fuel(l, more, tags, n) == Some(Ok::<bool, Seq<char>>(true)),
    decreases n, l,
{
    match l {
        Logic::Item(s) => {
            if items.contains(s) {
                assert(more.contains(s));
            }
        },
        Logic::Tag(s) => {
            lemma_mono(tags[s], items, more, tags, (n - 1) as nat);
        },
        Logic::And(v) => {
            lemma_mono_all(v, items, more, tags, n);
        },
        Logic::Or(v) => {
            lemma_mono_any(v, items, more, tags, n);
        },
        Logic::True => {},
    }
}

proof fn lemma_mono_all(v: Seq<Logic>, items: Seq<Seq<char>>, more: Seq<Seq<char>>, tags: Map<Seq<char>, Logic>, n: nat)
    requires
        referenced_seq_fuel(v, tags, n) matches Some(Ok(_)),
        items_within(items, more),
    ensures
        solves_all_fuel(v, items, tags, n) matches Some(Ok(_)),
        solves_all_fuel(v, more, tags, n) matches Some(Ok(_)),
        solves_all_fuel(v, items, tags, n) == Some(Ok::<bool, Seq<char>>(true))
            ==> solves_all_fuel(v, more, tags, n) == Some(Ok::<bool, Seq<char>>(true)),
    decreases n, v,
{
    if v.len() > 0 {
        let rest = v.subrange(1, v.len() as int);
        lemma_mono(v[0], items, more, tags, n);
        lemma_mono_all(rest, items, more, tags, n);
    }
}

proof fn lemma_mono_any(v: Seq<Logic>, items: Seq<Seq<char>>, more: Seq<Seq<char>>, tags: Map<Seq<char>, Logic>, n: nat)
    requires
        referenced_seq_fuel(v, tags, n) matches Some(Ok(_)),
        items_within(items, more),
    ensures
        solves_any_fuel(v, items, tags, n) matches Some(Ok(_)),
        solves_any_fuel(v, more, tags, n) matches Some(Ok(_)),
        solves_any_fuel(v, items, tags, n) == Some(Ok::<bool, Seq<char>>(true))
            ==> solves_any_fuel(v, more, tags, n) == Some(Ok::<bool, Seq<char>>(true)),
    decreases n, v,
{
    if v.len() > 0 {
        let rest = v.subrange(1, v.len() as int);
        lemma_mono(v[0], items, more, tags, n);
        lemma_mono_any(rest, items, more, tags, n);
    }
}

/// For a formula whose listing ends and meets no missing tag, every
/// evaluation ends without meeting a missing tag, and holding more items
/// never undoes a satisfied formula.
pub proof fn law_more_items_keep_formula_satisfied(
    l: Logic,
    items: Seq<Seq<char>>,
    more: Seq<Seq<char>>,
    tags: Map<Seq<char>, Logic>,
)
    requires
        references_end(l, tags),
        referenced(l, tags) is Ok,
        items_within(items, more),
    ensures
        evaluates(l, items, tags),
        evaluates(l, more, tags),
        solves(l, items, tags) is Ok,
        solves(l, items, tags) == Ok::<bool, Seq<char>>(true) ==> solves(l, more, tags) == Ok::<bool, Seq<char>>(true),
{
    let n = choose|fuel: nat| #[trigger] referenced_fuel(l, tags, fuel) is Some;
    assert(referenced_fuel(l, tags, n) is Some);
    lemma_mono(l, items, more, tags, n);
    lemma_solves_at(l, items, tags, n);
    lemma_solves_at(l, more, tags, n);
}

/// `r` followed by `rest`, for listings: the first error decides.
pub open spec fn then_list(r: Option<Result<Seq<Seq<char>>, Seq<char>>>, rest: Option<Result<Seq<Seq<char>>, Seq<char>>>) -> Option<Result<Seq<Seq<char>>, Seq<char>>> {
    match r {
        Some(Ok(first)) => prepend_some(first, rest),
        other => other,
    }
}

proof fn lemma_referenced_seq_concat(v1: Seq<Logic>, v2: Seq<Logic>, tags: Map<Seq<char>, Logic>, n: nat)
    ensures
        referenced_seq_fuel(v1 + v2, tags, n) == then_list(referenced_seq_fuel(v1, tags, n), referenced_seq_fuel(v2, tags, n)),
    decreases v1.len(),
{
    if v1.len() == 0 {
        assert(v1 + v2 =~= v2);
        match referenced_seq_fuel(v2, tags, n) {
            Some(Ok(b)) => {
                assert(Seq::<Seq<char>>::empty() + b =~= b);
            },
            _ => {},
        }
    } else {
        let w = v1 + v2;
        let rest1 = v1.subrange(1, v1.len() as int);
        assert(w[0] == v1[0]);
        assert(w.subrange(1, w.len() as int) =~= rest1 + v2);
        lemma_referenced_seq_concat(rest1, v2, tags, n);
        match referenced_fuel(v1[0], tags, n) {
            Some(Ok(first)) => {
                match referenced_seq_fuel(rest1, tags, n) {
                    Some(Ok(a)) => {
                        match referenced_seq_fuel(v2, tags, n) {
                            Some(Ok(b)) => {
                                assert(first + (a + b) =~= (first + a) + b);
                            },
                            _ => {},
                        }
                    },
                    _ => {},
                }
            },
            _ => {},
        }
    }
}

/// Listing an `And` of two lists of operands lists the first list and then
/// the second; a missing tag in the first list decides before the second.
pub proof fn law_referenced_concat(v1: Seq<Logic>, v2: Seq<Logic>, tags: Map<Seq<char>, Logic>)
    requires
        references_end(Logic::And(v1), tags),
        references_end(Logic::And(v2), tags),
    ensures
        references_end(Logic::And(v1 + v2), tags),
        referenced(Logic::And(v1 + v2), tags) == match (referenced(Logic::And(v1), tags), referenced(Logic::And(v2), tags)) {
            (Ok(a), Ok(b)) => Ok(a + b),
            (Ok(_), Err(e)) => Err(e),
            (Err(e), _) => Err(e),
        },
{
    let n1 = choose|fuel: nat| #[trigger] referenced_fuel(Logic::And(v1), tags, fuel) is Some;
    let n2 = choose|fuel: nat| #[trigger] referenced_fuel(Logic::And(v2), tags, fuel) is Some;
    let n = if n1 <= n2 { n2 } else { n1 };
    assert(referenced_fuel(Logic::And(v1), tags, n1) is Some);
    assert(referenced_fuel(Logic::And(v2), tags, n2) is Some);
    lemma_referenced_fuel_mono(Logic::And(v1), tags, n1, n);
    lemma_referenced_fuel_mono(Logic::And(v2), tags, n2, n);
    lemma_referenced_at(Logic::And(v1), tags, n);
    lemma_referenced_at(Logic::And(v2), tags, n);
    lemma_referenced_seq_concat(v1, v2, tags, n);
    assert(referenced_fuel(Logic::And(v1 + v2), tags, n) is Some);
    lemma_referenced_at(Logic::And(v1 + v2), tags, n);
}

/// `a` and `b` agree on every item of `refs`.
pub open spec fn agree_on(a: Seq<Seq<char>>, b: Seq<Seq<char>>, refs: Seq<Seq<char>>) -> bool {
    forall|x: Seq<char>| #[trigger] refs.contains(x) ==> (a.contains(x) == b.contains(x))
}

proof fn lemma_agree_parts(a: Seq<Seq<char>>, b: Seq<Seq<char>>, r1: Seq<Seq<char>>, r2: Seq<Seq<char>>)
    requires
        agree_on(a, b, r1 + r2),
    ensures
        agree_on(a, b, r1),
        agree_on(a, b, r2),
{
    assert forall|x: Seq<char>| #[trigger] r1.contains(x) implies (a.contains(x) == b.contains(x)) by {
        let k = choose|k: int| 0 <= k < r1.len() && r1[k] == x;
        assert((r1 + r2)[k] == x);
        assert((r1 + r2).contains(x));
    }
    assert forall|x: Seq<char>| #[trigger] r2.contains(x) implies (a.contains(x) == b.contains(x)) by {
        let k = choose|k: int| 0 <= k < r2.len() && r2[k] == x;
        assert((r1 + r2)[r1.len() + k] == x);
        assert((r1 + r2).contains(x));
    }
}

proof fn lemma_only_named(l: Logic, a: Seq<Seq<char>>, b: Seq<Seq<char>>, tags: Map<Seq<char>, Logic>, n: nat, refs: Seq<Seq<char>>)
    requires
        referenced_fuel(l, tags, n) == Some(Ok::<Seq<Seq<char>>, Seq<char>>(refs)),
        agree_on(a, b, refs),
    ensures
        solves_fuel(l, a, tags, n) == solves_fuel(l, b, tags, n),
    decreases n, l,
{
    match l {
        Logic::Item(s) => {
            assert(refs[0] == s);
            assert(refs.contains(s));
        },
        Logic::Tag(s) => {
            lemma_only_named(tags[s], a, b, tags, (n - 1) as nat, refs);
        },
        Logic::And(v) => lemma_only_named_seq(v, a, b, tags, n, refs),
        Logic::Or(v) => lemma_only_named_seq(v, a, b, tags, n, refs),
        Logic::True => {},
    }
}

proof fn lemma_only_named_seq(v: Seq<Logic>, a: Seq<Seq<char>>, b: Seq<Seq<char>>, tags: Map<Seq<char>, Logic>, n: nat, refs: Seq<Seq<char>>)
    requires
        referenced_seq_fuel(v, tags, n) == Some(Ok::<Seq<Seq<char>>, Seq<char>>(refs)),
        agree_on(a, b, refs),
    ensures
        solves_all_fuel(v, a, tags, n) == solves_all_fuel(v, b, tags, n),
        solves_any_fuel(v, a, tags, n) == solves_any_fuel(v, b, tags, n),
    decreases n, v,
{
    if v.len() > 0 {
        let rest = v.subrange(1, v.len() as int);
        let first = referenced_fuel(v[0], tags, n)->Some_0->Ok_0;
        let others = referenced_seq_fuel(rest, tags, n)->Some_0->Ok_0;
        assert(refs == first + others);
        lemma_agree_parts(a, b, first, others);
        lemma_only_named(v[0], a, b, tags, n, first);
        lemma_only_named_seq(rest, a, b, tags, n, others);
    }
}

/// Items that a formula never mentions have no say in it: two item lists
/// that agree on every mentioned item satisfy the formula alike.
pub proof fn law_only_named_items_matter(l: Logic, a: Seq<Seq<char>>, b: Seq<Seq<char>>, tags: Map<Seq<char>, Logic>)
    requires
        references_end(l, tags),
        referenced(l, tags) is Ok,
        agree_on(a, b, referenced(l, tags)->Ok_0),
    ensures
        evaluates(l, a, tags),
        evaluates(l, b, tags),
        solves(l, a, tags) == solves(l, b, tags),
{
    let n = choose|fuel: nat| #[trigger] referenced_fuel(l, tags, fuel) is Some;
    assert(referenced_fuel(l, tags, n) is Some);
    lemma_mono(l, a, a, tags, n);
    lemma_mono(l, b, b, tags, n);
    lemma_only_named(l, a, b, tags, n, referenced(l, tags)->Ok_0);
    lemma_solves_at(l, a, tags, n);
    lemma_solves_at(l, b, tags, n);
}

/// No `Or` without operands comes up when tags are expanded at most `fuel`
/// deep.
pub open spec fn no_empty_or_fuel(l: Logic, tags: Map<Seq<char>, Logic>, fuel: nat) -> bool
    decreases fuel, l,
{
    match l {
        Logic::Tag(s) => if !tags.dom().contains(s) {
            true
        } else if fuel == 0 {
            false
        } else {
            no_empty_or_fuel(tags[s], tags, (fuel - 1) as nat)
        },
        Logic::And(v) => no_empty_or_seq_fuel(v, tags, fuel),
        Logic::Or(v) => v.len() > 0 && no_empty_or_seq_fuel(v, tags, fuel),
        _ => true,
    }
}

pub open spec fn no_empty_or_seq_fuel(v: Seq<Logic>, tags: Map<Seq<char>, Logic>, fuel: nat) -> bool
    decreases fuel, v,
{
    v.len() == 0 || (no_empty_or_fuel(v[0], tags, fuel) && no_empty_or_seq_fuel(v.subrange(1, v.len() as int), tags, fuel))
}

/// No `Or` without operands comes up in `l`, through any tag.
pub open spec fn no_empty_or(l: Logic, tags: Map<Seq<char>, Logic>) -> bool {
    exists|fuel: nat| #[trigger] no_empty_or_fuel(l, tags, fuel) && referenced_fuel(l, tags, fuel) is Some
}

proof fn lemma_all_held(l: Logic, items: Seq<Seq<char>>, tags: Map<Seq<char>, Logic>, n: nat, refs: Seq<Seq<char>>)
    requires
        referenced_fuel(l, tags, n) == Some(Ok::<Seq<Seq<char>>, Seq<char>>(refs)),
        no_empty_or_fuel(l, tags, n),
        forall|x: Seq<char>| #[trigger] refs.contains(x) ==> items.contains(x),
    ensures
        solves_fuel(l, items, tags, n) == Some(Ok::<bool, Seq<char>>(true)),
    decreases n, l,
{
    match l {
        Logic::Item(s) => {
            assert(refs[0] == s);
            assert(refs.contains(s));
        },
        Logic::Tag(s) => {
            lemma_all_held(tags[s], items, tags, (n - 1) as nat, refs);
        },
        Logic::And(v) => lemma_all_held_seq(v, items, tags, n, refs),
        Logic::Or(v) => lemma_all_held_seq(v, items, tags, n, refs),
        Logic::True => {},
    }
}

proof fn lemma_all_held_seq(v: Seq<Logic>, items: Seq<Seq<char>>, tags: Map<Seq<char>, Logic>, n: nat, refs: Seq<Seq<char>>)
    requires
        referenced_seq_fuel(v, tags, n) == Some(Ok::<Seq<Seq<char>>, Seq<char>>(refs)),
        no_empty_or_seq_fuel(v, tags, n),
        forall|x: Seq<char>| #[trigger] refs.contains(x) ==> items.contains(x),
    ensures
        solves_all_fuel(v, items, tags, n) == Some(Ok::<bool, Seq<char>>(true)),
        v.len() > 0 ==> solves_any_fuel(v, items, tags, n) == Some(Ok::<bool, Seq<char>>(true)),
    decreases n, v,
{
    if v.len() > 0 {
        let rest = v.subrange(1, v.len() as int);
        let first = referenced_fuel(v[0], tags, n)->Some_0->Ok_0;
        let others = referenced_seq_fuel(rest, tags, n)->Some_0->Ok_0;
        assert(refs == first + others);
        assert forall|x: Seq<char>| #[trigger] first.contains(x) implies items.contains(x) by {
            let k = choose|k: int| 0 <= k < first.len() && first[k] == x;
            assert(refs[k] == x);
            assert(refs.contains(x));
        }
        assert forall|x: Seq<char>| #[trigger] others.contains(x) implies items.contains(x) by {
            let k = choose|k: int| 0 <= k < others.len() && others[k] == x;
            assert(refs[first.len() + k] == x);
            assert(refs.contains(x));
        }
        lemma_all_held(v[0], items, tags, n, first);
        lemma_all_held_seq(rest, items, tags, n, others);
    }
}

/// Holding every item that a formula mentions satisfies it, unless an `Or`
/// without operands comes up in it.
pub proof fn law_all_named_items_satisfy(l: Logic, items: Seq<Seq<char>>, tags: Map<Seq<char>, Logic>)
    requires
        references_end(l, tags),
        referenced(l, tags) is Ok,
        no_empty_or(l, tags),
        forall|x: Seq<char>| #[trigger] referenced(l, tags)->Ok_0.contains(x) ==> items.contains(x),
    ensures
        evaluates(l, items, tags),
        solves(l, items, tags) == Ok::<bool, Seq<char>>(true),
{
    let n = choose|fuel: nat| #[trigger] no_empty_or_fuel(l, tags, fuel) && referenced_fuel(l, tags, fuel) is Some;
    assert(no_empty_or_fuel(l, tags, n) && referenced_fuel(l, tags, n) is Some);
    lemma_referenced_at(l, tags, n);
    let refs = referenced(l, tags)->Ok_0;
    lemma_all_held(l, items, tags, n, refs);
    lemma_solves_at(l, items, tags, n);
}

/// The tags that `l` names itself, in order, without looking into the table.
pub open spec fn tag_refs(l: Logic) -> Seq<Seq<char>>
    decreases l,
{
    match l {
        Logic::Tag(s) => seq![s],
        Logic::And(v) => tag_refs_seq(v),
        Logic::Or(v) => tag_refs_seq(v),
        _ => Seq::empty(),
    }
}

pub open spec fn tag_refs_seq(v: Seq<Logic>) -> Seq<Seq<char>>
    decreases v,
{
    if v.len() == 0 {
        Seq::empty()
    } else {
        tag_refs(v[0]) + tag_refs_seq(v.subrange(1, v.len() as int))
    }
}

/// The height of a formula is one more than the highest rank among the tags
/// it names, or 0.
proof fn lemma_height_refs(l: Logic, r: spec_fn(Seq<char>) -> nat, h: nat)
    ensures
        forall|i: int| 0 <= i < tag_refs(l).len() ==> r(#[trigger] tag_refs(l)[i]) + 1 <= height(l, r),
        (forall|i: int| 0 <= i < tag_refs(l).len() ==> r(#[trigger] tag_refs(l)[i]) + 1 <= h) ==> height(l, r) <= h,
    decreases l,
{
    match l {
        Logic::And(v) => lemma_height_refs_seq(v, r, h),
        Logic::Or(v) => lemma_height_refs_seq(v, r, h),
        Logic::Tag(s) => {
            if forall|i: int| 0 <= i < tag_refs(l).len() ==> r(#[trigger] tag_refs(l)[i]) + 1 <= h {
                assert(tag_refs(l)[0] == s);
            }
        },
        _ => {},
    }
}

proof fn lemma_height_refs_seq(v: Seq<Logic>, r: spec_fn(Seq<char>) -> nat, h: nat)
    ensures
        forall|i: int| 0 <= i < tag_refs_seq(v).len() ==> r(#[trigger] tag_refs_seq(v)[i]) + 1 <= height_seq(v, r),
        (forall|i: int| 0 <= i < tag_refs_seq(v).len() ==> r(#[trigger] tag_refs_seq(v)[i]) + 1 <= h) ==> height_seq(v, r) <= h,
    decreases v,
{
    if v.len() > 0 {
        let rest = v.subrange(1, v.len() as int);
        let a = tag_refs(v[0]);
        let b = tag_refs_seq(rest);
        lemma_height_refs(v[0], r, h);
        lemma_height_refs_seq(rest, r, h);
        assert(tag_refs_seq(v) == a + b);
        assert forall|i: int| 0 <= i < tag_refs_seq(v).len() implies r(#[trigger] tag_refs_seq(v)[i]) + 1 <= height_seq(v, r) by {
            if i < a.len() {
                assert(tag_refs_seq(v)[i] == a[i]);
            } else {
                assert(tag_refs_seq(v)[i] == b[i - a.len()]);
            }
        }
        if forall|i: int| 0 <= i < tag_refs_seq(v).len() ==> r(#[trigger] tag_refs_seq(v)[i]) + 1 <= h {
            assert forall|i: int| 0 <= i < a.len() implies r(#[trigger] a[i]) + 1 <= h by {
                assert(tag_refs_seq(v)[i] == a[i]);
            }
            assert forall|i: int| 0 <= i < b.len() implies r(#[trigger] b[i]) + 1 <= h by {
                assert(tag_refs_seq(v)[i + a.len()] == b[i]);
            }
        }
    }
}

/// The tags that `logic` names itself, in order.
#[verifier::loop_isolation(false)]
pub fn collect_tag_refs(logic: &LogicDependency) -> (r: Vec<String>)
    ensures
        strs(r@) == tag_refs(logic@),
    decreases logic,
{
    proof {
        lemma_view_and_or(*logic);
    }
    match logic {
        LogicDependency::Tag(s) => {
            let mut vec = Vec::new();
            vec.push(s.clone());
            assert(strs(vec@) =~= seq![s@]);
            vec
        },
        LogicDependency::And(v) | LogicDependency::Or(v) => {
            let ghost lv = logics(v@);
            assert(tag_refs(logic@) == tag_refs_seq(lv));
            let mut vec: Vec<String> = Vec::new();
            let mut i: usize = 0;
            assert(lv.subrange(0, lv.len() as int) =~= lv);
            assert(strs(vec@) =~= Seq::<Seq<char>>::empty());
            assert(tag_refs_seq(lv) =~= strs(vec@) + tag_refs_seq(lv.subrange(0, lv.len() as int)));
            while i < v.len()
                invariant
                    i <= v.len(),
                    lv.len() == v.len(),
                    tag_refs_seq(lv) == strs(vec@) + tag_refs_seq(lv.subrange(i as int, lv.len() as int)),
                decreases v.len() - i,
            {
                let ghost rest = lv.subrange(i as int, lv.len() as int);
                assert(rest[0] == lv[i as int]);
                assert(lv[i as int] == v@[i as int]@);
                assert(rest.subrange(1, rest.len() as int) =~= lv.subrange(i + 1, lv.len() as int));
                let mut sub = collect_tag_refs(&v[i]);
                let ghost before = vec@;
                let ghost added = sub@;
                vec.append(&mut sub);
                proof {
                    lemma_strs_append(before, added);
                    assert(strs(before) + (strs(added) + tag_refs_seq(lv.subrange(i + 1, lv.len() as int)))
                        =~= strs(vec@) + tag_refs_seq(lv.subrange(i + 1, lv.len() as int)));
                }
                i = i + 1;
            }
            assert(lv.subrange(v.len() as int, lv.len() as int) =~= Seq::<Logic>::empty());
            assert(strs(vec@) + Seq::<Seq<char>>::empty() =~= strs(vec@));
            vec
        },
        _ => {
            let vec: Vec<String> = Vec::new();
            assert(strs(vec@) =~= Seq::<Seq<char>>::empty());
            vec
        },
    }
}

/// Every tag that entry `refs_i` names and the table holds is assigned.
pub open spec fn refs_ready(e: Seq<(String, LogicDependency)>, refs_i: Seq<Seq<char>>, assigned: Seq<bool>) -> bool {
    forall|q: int, j: int|
        0 <= q < refs_i.len() && 0 <= j < e.len() && e[j].0@ == #[trigger] refs_i[q] ==> #[trigger] assigned[j]
}

/// Entry `i` names a tag of the table that is not assigned.
pub open spec fn blocked(e: Seq<(String, LogicDependency)>, refs: Seq<Seq<Seq<char>>>, assigned: Seq<bool>, i: int) -> bool {
    exists|q: int, j: int|
        0 <= q < refs[i].len() && 0 <= j < e.len() && e[j].0@ == #[trigger] refs[i][q] && !#[trigger] assigned[j]
}

/// Entry `i`, when assigned, got its place after the entries of the tags it names.
pub open spec fn entry_orderly(e: Seq<(String, LogicDependency)>, refs: Seq<Seq<Seq<char>>>, assigned: Seq<bool>, order: Seq<usize>, i: int) -> bool {
    assigned[i] ==> forall|q: int, j: int|
        #![trigger refs[i][q], e[j]]
        0 <= q < refs[i].len() && 0 <= j < e.len() && e[j].0@ == refs[i][q]
            ==> assigned[j] && order[j] < order[i]
}

/// Every assigned entry got its place after the entries of the tags it names.
pub open spec fn orderly(e: Seq<(String, LogicDependency)>, refs: Seq<Seq<Seq<char>>>, assigned: Seq<bool>, order: Seq<usize>) -> bool {
    forall|i: int| 0 <= i < e.len() ==> #[trigger] entry_orderly(e, refs, assigned, order, i)
}

proof fn lemma_orderly_at(
    e: Seq<(String, LogicDependency)>,
    refs: Seq<Seq<Seq<char>>>,
    assigned: Seq<bool>,
    order: Seq<usize>,
    i: int,
    q: int,
    j: int,
)
    requires
        orderly(e, refs, assigned, order),
        0 <= i < e.len(),
        assigned[i],
        0 <= q < refs[i].len(),
        0 <= j < e.len(),
        e[j].0@ == refs[i][q],
    ensures
        assigned[j],
        order[j] < order[i],
{
    assert(entry_orderly(e, refs, assigned, order, i));
}

proof fn lemma_orderly_extend(
    e: Seq<(String, LogicDependency)>,
    refs: Seq<Seq<Seq<char>>>,
    assigned: Seq<bool>,
    order: Seq<usize>,
    i: int,
    count: usize,
)
    requires
        orderly(e, refs, assigned, order),
        assigned.len() == e.len(),
        order.len() == e.len(),
        refs.len() == e.len(),
        0 <= i < e.len(),
        !assigned[i],
        refs_ready(e, refs[i], assigned),
        forall|i2: int| 0 <= i2 < e.len() && #[trigger] assigned[i2] ==> order[i2] < count,
    ensures
        orderly(e, refs, assigned.update(i, true), order.update(i, count)),
{
    let a2 = assigned.update(i, true);
    let o2 = order.update(i, count);
    assert forall|i2: int| 0 <= i2 < e.len() implies #[trigger] entry_orderly(e, refs, a2, o2, i2) by {
        if a2[i2] {
            assert forall|q: int, j: int|
                #![trigger refs[i2][q], e[j]]
                0 <= q < refs[i2].len() && 0 <= j < e.len() && e[j].0@ == refs[i2][q]
                    implies a2[j] && o2[j] < o2[i2]
            by {
                if i2 == i {
                    assert(assigned[j]);
                    assert(j != i);
                } else {
                    assert(assigned[i2]);
                    lemma_orderly_at(e, refs, assigned, order, i2, q, j);
                    assert(j != i);
                }
            }
        }
    }
}

/// The rank that an assignment order gives a name: one more than its entry's
/// place, or 0 for a name without entry.
pub open spec fn order_rank(e: Seq<(String, LogicDependency)>, order: Seq<usize>) -> spec_fn(Seq<char>) -> nat {
    |t: Seq<char>| if exists|j: int| 0 <= j < e.len() && e[j].0@ == t {
        (order[choose|j: int| 0 <= j < e.len() && e[j].0@ == t] + 1) as nat
    } else {
        0nat
    }
}

proof fn lemma_all_assigned_acyclic(
    e: Seq<(String, LogicDependency)>,
    refs: Seq<Seq<Seq<char>>>,
    assigned: Seq<bool>,
    order: Seq<usize>,
)
    requires
        names_distinct(e),
        refs.len() == e.len(),
        assigned.len() == e.len(),
        order.len() == e.len(),
        forall|i: int| 0 <= i < e.len() ==> #[trigger] refs[i] == tag_refs(e[i].1@),
        forall|i: int| 0 <= i < e.len() ==> #[trigger] assigned[i],
        orderly(e, refs, assigned, order),
    ensures
        acyclic(entry_map(e)),
{
    lemma_entry_map_distinct(e);
    let m = entry_map(e);
    let rank = order_rank(e, order);
    assert forall|k: Seq<char>| #[trigger] m.dom().contains(k) implies height(m[k], rank) <= rank(k) by {
        let i = choose|i: int| 0 <= i < e.len() && e[i].0@ == k;
        assert(m[e[i].0@] == e[i].1@);
        let ci = choose|j: int| 0 <= j < e.len() && e[j].0@ == k;
        assert(ci == i);
        let rs = refs[i];
        assert forall|x: int| 0 <= x < tag_refs(e[i].1@).len() implies rank(#[trigger] tag_refs(e[i].1@)[x]) + 1 <= rank(k) by {
            let t = rs[x];
            assert(assigned[i]);
            if exists|j: int| 0 <= j < e.len() && e[j].0@ == t {
                let j = choose|j: int| 0 <= j < e.len() && e[j].0@ == t;
                assert(e[j].0@ == rs[x]);
                lemma_orderly_at(e, refs, assigned, order, i, x, j);
            }
        }
        lemma_height_refs(e[i].1@, rank, rank(k));
    }
    assert(ranked(m, rank));
}

proof fn lemma_blocked_above(
    e: Seq<(String, LogicDependency)>,
    refs: Seq<Seq<Seq<char>>>,
    assigned: Seq<bool>,
    r: spec_fn(Seq<char>) -> nat,
    b: nat,
)
    requires
        names_distinct(e),
        refs.len() == e.len(),
        assigned.len() == e.len(),
        forall|i: int| 0 <= i < e.len() ==> #[trigger] refs[i] == tag_refs(e[i].1@),
        forall|i: int| 0 <= i < e.len() ==> #[trigger] assigned[i] || blocked(e, refs, assigned, i),
        ranked(entry_map(e), r),
    ensures
        forall|i: int| 0 <= i < e.len() && !#[trigger] assigned[i] ==> r(e[i].0@) > b,
    decreases b,
{
    lemma_entry_map_distinct(e);
    let m = entry_map(e);
    if b > 0 {
        lemma_blocked_above(e, refs, assigned, r, (b - 1) as nat);
    }
    assert forall|i: int| 0 <= i < e.len() && !#[trigger] assigned[i] implies r(e[i].0@) > b by {
        assert(blocked(e, refs, assigned, i));
        let (q, j) = choose|q: int, j: int|
            0 <= q < refs[i].len() && 0 <= j < e.len() && e[j].0@ == #[trigger] refs[i][q] && !#[trigger] assigned[j];
        assert(m.dom().contains(e[i].0@));
        assert(m[e[i].0@] == e[i].1@);
        lemma_height_refs(e[i].1@, r, 0);
        assert(tag_refs(e[i].1@)[q] == e[j].0@);
        assert(r(e[j].0@) + 1 <= height(e[i].1@, r));
        assert(height(e[i].1@, r) <= r(e[i].0@));
        if b > 0 {
            assert(!assigned[j]);
        }
    }
}

proof fn lemma_blocked_cyclic(
    e: Seq<(String, LogicDependency)>,
    refs: Seq<Seq<Seq<char>>>,
    assigned: Seq<bool>,
    i0: int,
)
    requires
        names_distinct(e),
        refs.len() == e.len(),
        assigned.len() == e.len(),
        forall|i: int| 0 <= i < e.len() ==> #[trigger] refs[i] == tag_refs(e[i].1@),
        forall|i: int| 0 <= i < e.len() ==> #[trigger] assigned[i] || blocked(e, refs, assigned, i),
        0 <= i0 < e.len(),
        !assigned[i0],
    ensures
        !acyclic(entry_map(e)),
{
    if acyclic(entry_map(e)) {
        let r = tag_rank(entry_map(e));
        lemma_blocked_above(e, refs, assigned, r, r(e[i0].0@));
        assert(!assigned[i0]);
    }
}

impl TagTable {
    fn refs_ready_exec(&self, refs_i: &Vec<String>, assigned: &Vec<bool>) -> (r: bool)
        requires
            assigned.len() == self.entries.len(),
        ensures
            r == refs_ready(self.entries@, strs(refs_i@), assigned@),
    {
        let ghost rv = strs(refs_i@);
        let mut q: usize = 0;
        while q < refs_i.len()
            invariant
                q <= refs_i.len(),
                rv == strs(refs_i@),
                assigned.len() == self.entries.len(),
                forall|q2: int, j: int|
                    0 <= q2 < q && 0 <= j < self.entries@.len() && self.entries@[j].0@ == #[trigger] rv[q2] ==> #[trigger] assigned@[j],
            decreases refs_i.len() - q,
        {
            let mut j: usize = 0;
            while j < self.entries.len()
                invariant
                    j <= self.entries.len(),
                    q < refs_i.len(),
                    rv == strs(refs_i@),
                    assigned.len() == self.entries.len(),
                    forall|q2: int, j2: int|
                        0 <= q2 < q && 0 <= j2 < self.entries@.len() && self.entries@[j2].0@ == #[trigger] rv[q2] ==> #[trigger] assigned@[j2],
                    forall|j2: int| 0 <= j2 < j && self.entries@[j2].0@ == rv[q as int] ==> #[trigger] assigned@[j2],
                decreases self.entries.len() - j,
            {
                if self.entries[j].0 == refs_i[q] && !assigned[j] {
                    assert(self.entries@[j as int].0@ == rv[q as int]);
                    return false;
                }
                j = j + 1;
            }
            q = q + 1;
        }
        true
    }

    /// Whether no tag of the table reaches itself through the tags it names.
    pub fn is_acyclic(&self) -> (r: bool)
        ensures
            r == acyclic(self@),
    {
        proof {
            use_type_invariant(self);
        }
        let n = self.entries.len();
        let ghost e = self.entries@;
        let mut refs: Vec<Vec<String>> = Vec::new();
        let mut assigned: Vec<bool> = Vec::new();
        let mut order: Vec<usize> = Vec::new();
        let mut k: usize = 0;
        while k < n
            invariant
                k <= n,
                n == e.len(),
                e == self.entries@,
                refs.len() == k,
                assigned.len() == k,
                order.len() == k,
                forall|i: int| 0 <= i < k ==> strs(#[trigger] refs@[i]@) == tag_refs(e[i].1@),
                forall|i: int| 0 <= i < k ==> !#[trigger] assigned@[i],
            decreases n - k,
        {
            refs.push(collect_tag_refs(&self.entries[k].1));
            assigned.push(false);
            order.push(0);
            k = k + 1;
        }
        let ghost rv: Seq<Seq<Seq<char>>> = Seq::new(n as nat, |i: int| strs(refs@[i]@));
        let mut count: usize = 0;
        let ghost mut aset: Set<int> = Set::empty();
        let mut changed = true;
        while changed
            invariant
                n == e.len(),
                e == self.entries@,
                names_distinct(e),
                refs.len() == n,
                assigned.len() == n,
                order.len() == n,
                rv.len() == n,
                forall|i: int| 0 <= i < n ==> #[trigger] rv[i] == strs(refs@[i]@),
                forall|i: int| 0 <= i < n ==> #[trigger] rv[i] == tag_refs(e[i].1@),
                aset.finite(),
                aset.len() == count,
                forall|i: int| #[trigger] aset.contains(i) <==> (0 <= i < n && assigned@[i]),
                count <= n,
                forall|i: int| 0 <= i < n && #[trigger] assigned@[i] ==> order@[i] < count,
                orderly(e, rv, assigned@, order@),
                !changed ==> forall|i: int| 0 <= i < n ==> #[trigger] assigned@[i] || blocked(e, rv, assigned@, i),
            decreases n - count + if changed { 1int } else { 0int },
        {
            changed = false;
            let ghost count0 = count;
            let mut i: usize = 0;
            while i < n
                invariant
                    i <= n,
                    n == e.len(),
                    e == self.entries@,
                    names_distinct(e),
                    refs.len() == n,
                    assigned.len() == n,
                    order.len() == n,
                    rv.len() == n,
                    forall|i2: int| 0 <= i2 < n ==> #[trigger] rv[i2] == strs(refs@[i2]@),
                    forall|i2: int| 0 <= i2 < n ==> #[trigger] rv[i2] == tag_refs(e[i2].1@),
                    aset.finite(),
                    aset.len() == count,
                    forall|i2: int| #[trigger] aset.contains(i2) <==> (0 <= i2 < n && assigned@[i2]),
                    count <= n,
                    count0 <= count,
                    changed ==> count > count0,
                    !changed ==> count == count0,
                    forall|i2: int| 0 <= i2 < n && #[trigger] assigned@[i2] ==> order@[i2] < count,
                    orderly(e, rv, assigned@, order@),
                    !changed ==> forall|i2: int| 0 <= i2 < i ==> #[trigger] assigned@[i2] || blocked(e, rv, assigned@, i2),
                decreases n - i,
            {
                if !assigned[i] {
                    let ready = self.refs_ready_exec(&refs[i], &assigned);
                    if ready {
                        proof {
                            assert(!aset.contains(i as int));
                            vstd::set_lib::lemma_int_range(0, n as int);
                            assert(aset.insert(i as int).subset_of(vstd::set_lib::set_int_range(0, n as int)));
                            vstd::set_lib::lemma_len_subset(aset.insert(i as int), vstd::set_lib::set_int_range(0, n as int));
                        }
                        let ghost old_assigned = assigned@;
                        let ghost old_order = order@;
                        assigned.set(i, true);
                        order.set(i, count);
                        proof {
                            aset = aset.insert(i as int);
                            lemma_orderly_extend(e, rv, old_assigned, old_order, i as int, count);
                            assert(assigned@ =~= old_assigned.update(i as int, true));
                            assert(order@ =~= old_order.update(i as int, count));
                        }
                        count = count + 1;
                        changed = true;
                    } else {
                        proof {
                            let rq = rv[i as int];
                            assert(!refs_ready(e, rq, assigned@));
                            let (q, j) = choose|q: int, j: int|
                                0 <= q < rq.len() && 0 <= j < e.len() && e[j].0@ == #[trigger] rq[q] && !#[trigger] assigned@[j];
                            assert(blocked(e, rv, assigned@, i as int));
                        }
                    }
                }
                i = i + 1;
            }
        }
        let mut i: usize = 0;
        #[verifier::loop_isolation(false)]
        while i < n
            invariant
                i <= n,
                forall|i2: int| 0 <= i2 < i ==> #[trigger] assigned@[i2],
            decreases n - i,
        {
            if !assigned[i] {
                proof {
                    lemma_blocked_cyclic(e, rv, assigned@, i as int);
                }
                return false;
            }
            i = i + 1;
        }
        proof {
            lemma_all_assigned_acyclic(e, rv, assigned@, order@);
        }
        true
    }
}

/// Whether `items` satisfy `logic`, for an evaluation that ends and meets
/// no missing tag.
pub fn rec_solve_logic(logic: &LogicDependency, items: &Vec<String>, tags: &TagTable) -> (r: bool)
    requires
        evaluates(logic@, strs(items@), tags@),
        solves(logic@, strs(items@), tags@) is Ok,
    ensures
        solves(logic@, strs(items@), tags@) == Ok::<bool, Seq<char>>(r),
{
    match try_rec_solve_logic(logic, items, tags) {
        Ok(b) => b,
        // `requires` rules this branch out.
        Err(_) => false,
    }
}

/// Every item that `logic` mentions, tags expanded through `tags`, in order,
/// for a listing that ends and meets no missing tag.
pub fn rec_get_all_referenced_recipes(logic: &LogicDependency, tags: &TagTable) -> (r: Vec<String>)
    requires
        references_end(logic@, tags@),
        referenced(logic@, tags@) is Ok,
    ensures
        referenced(logic@, tags@) == Ok::<Seq<Seq<char>>, Seq<char>>(strs(r@)),
{
    match try_rec_get_all_referenced_recipes(logic, tags) {
        Ok(v) => v,
        // `requires` rules this branch out.
        Err(_) => Vec::new(),
    }
}

} // verus!
