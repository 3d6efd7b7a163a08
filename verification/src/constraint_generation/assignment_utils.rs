//! The tags of signals: what an assignment passes on of the tags of the
//! value assigned, and which tags a signal shows once assigned.

use vstd::prelude::*;

verus! {

/// A map from names to values, the names distinct, in the order they were
/// first inserted.
pub struct NameMap<V> {
    entries: Vec<(String, V)>,
}

/// No name occurs twice in `s`.
pub open spec fn names_unique<V>(s: Seq<(String, V)>) -> bool {
    forall|i: int, j: int| 0 <= i < j < s.len() ==> (#[trigger] s[i]).0@ != (#[trigger] s[j]).0@
}

/// The position of the entry named `k` in `s`.
pub open spec fn position_of<V>(s: Seq<(String, V)>, k: Seq<char>) -> int {
    choose|i: int| 0 <= i < s.len() && (#[trigger] s[i]).0@ == k
}

/// The map that the entries `s` stand for.
pub open spec fn entries_map<V: DeepView>(s: Seq<(String, V)>) -> Map<Seq<char>, V::V> {
    Map::new(
        |k: Seq<char>| exists|i: int| 0 <= i < s.len() && (#[trigger] s[i]).0@ == k,
        |k: Seq<char>| s[position_of(s, k)].1.deep_view(),
    )
}

impl<V> NameMap<V> {
    #[verifier::type_invariant]
    spec fn unique(&self) -> bool {
        names_unique(self.entries@)
    }

    /// The entries, in order.
    pub closed spec fn spec_entries(&self) -> Seq<(String, V)> {
        self.entries@
    }
}

impl<V: DeepView> View for NameMap<V> {
    type V = Map<Seq<char>, V::V>;

    closed spec fn view(&self) -> Map<Seq<char>, V::V> {
        entries_map(self.entries@)
    }
}

proof fn lemma_position<V: DeepView>(s: Seq<(String, V)>, i: int)
    requires
        names_unique(s),
        0 <= i < s.len(),
    ensures
        position_of(s, s[i].0@) == i,
        entries_map(s).contains_key(s[i].0@),
        entries_map(s)[s[i].0@] == s[i].1.deep_view(),
{
    let k = s[i].0@;
    let j = position_of(s, k);
    assert(0 <= j < s.len() && s[j].0@ == k);
    if j != i {
        if j < i {
            assert(s[j].0@ != s[i].0@);
        } else {
            assert(s[i].0@ != s[j].0@);
        }
    }
}

impl<V: DeepView> NameMap<V> {
    /// A map without names.
    pub fn new() -> (res: Self)
        ensures
            res@ == Map::<Seq<char>, V::V>::empty(),
            res.spec_entries().len() == 0,
    {
        let res = NameMap { entries: Vec::new() };
        proof {
            assert(res@ =~= Map::<Seq<char>, V::V>::empty());
        }
        res
    }

    /// The entries, in order; their names are distinct and they stand for
    /// the map.
    pub fn entries(&self) -> (res: &Vec<(String, V)>)
        ensures
            res@ == self.spec_entries(),
            names_unique(res@),
            entries_map(res@) == self@,
    {
        proof {
            use_type_invariant(self);
        }
        &self.entries
    }

    fn find(&self, name: &String) -> (res: Option<usize>)
        ensures
            match res {
                Some(i) => i < self.entries@.len() && self.entries@[i as int].0@ == name@,
                None => !self@.contains_key(name@),
            },
    {
        let mut i: usize = 0;
        while i < self.entries.len()
            invariant
                i <= self.entries@.len(),
                forall|j: int| 0 <= j < i ==> (#[trigger] self.entries@[j]).0@ != name@,
            decreases self.entries@.len() - i,
        {
            if self.entries[i].0 == *name {
                return Some(i);
            }
            i = i + 1;
        }
        None
    }

    /// Whether `name` has a value.
    pub fn contains_key(&self, name: &String) -> (res: bool)
        ensures
            res == self@.contains_key(name@),
    {
        proof {
            use_type_invariant(self);
        }
        match self.find(name) {
            Some(i) => {
                proof {
                    lemma_position(self.entries@, i as int);
                }
                true
            },
            None => false,
        }
    }

    /// The value of `name`, if it has one.
    pub fn get(&self, name: &String) -> (res: Option<&V>)
        ensures
            match res {
                Some(v) => self@.contains_key(name@) && v.deep_view() == self@[name@],
                None => !self@.contains_key(name@),
            },
    {
        proof {
            use_type_invariant(self);
        }
        match self.find(name) {
            Some(i) => {
                proof {
                    lemma_position(self.entries@, i as int);
                }
                Some(&self.entries[i].1)
            },
            None => None,
        }
    }

    /// Gives `name` the value `value`.
    pub fn insert(&mut self, name: String, value: V)
        ensures
            final(self)@ == old(self)@.insert(name@, value.deep_view()),
    {
        proof {
            use_type_invariant(&*self);
        }
        let ghost before = self.entries@;
        let ghost k = name@;
        let ghost vv = value.deep_view();
        match self.find(&name) {
            Some(i) => {
                let mut entries: Vec<(String, V)> = Vec::new();
                std::mem::swap(&mut entries, &mut self.entries);
                entries.set(i, (name, value));
                let ghost after = entries@;
                proof {
                    assert(after == before.update(i as int, after[i as int]));
                    assert(names_unique(after)) by {
                        assert forall|a: int, b: int| 0 <= a < b < after.len() implies (#[trigger] after[a]).0@
                            != (#[trigger] after[b]).0@ by {
                            if a != i && b != i {
                                assert(after[a] == before[a] && after[b] == before[b]);
                            } else if a == i {
                                assert(after[b] == before[b]);
                                assert(before[a].0@ != before[b].0@);
                            } else {
                                assert(after[a] == before[a]);
                                assert(before[a].0@ != before[b].0@);
                            }
                        }
                    }
                    lemma_position(after, i as int);
                    assert(entries_map(after) =~= entries_map(before).insert(k, vv)) by {
                        assert forall|key: Seq<char>| #[trigger] entries_map(after).contains_key(key)
                            == entries_map(before).insert(k, vv).contains_key(key) by {
                            if key != k {
                                if entries_map(before).contains_key(key) {
                                    let j = choose|j: int| 0 <= j < before.len() && (#[trigger] before[j]).0@ == key;
                                    assert(after[j] == before[j]);
                                }
                                if entries_map(after).contains_key(key) {
                                    let j = choose|j: int| 0 <= j < after.len() && (#[trigger] after[j]).0@ == key;
                                    assert(after[j] == before[j]);
                                }
                            }
                        }
                        assert forall|key: Seq<char>| #[trigger] entries_map(after).contains_key(key) && key != k
                            implies entries_map(after)[key] == entries_map(before)[key] by {
                            let j = choose|j: int| 0 <= j < after.len() && (#[trigger] after[j]).0@ == key;
                            assert(after[j] == before[j]);
                            lemma_position(after, j);
                            lemma_position(before, j);
                        }
                    }
                }
                self.entries = entries;
            },
            None => {
                let mut entries: Vec<(String, V)> = Vec::new();
                std::mem::swap(&mut entries, &mut self.entries);
                entries.push((name, value));
                let ghost after = entries@;
                proof {
                    let n = before.len() as int;
                    assert(after == before.push(after[n]));
                    assert(names_unique(after)) by {
                        assert forall|a: int, b: int| 0 <= a < b < after.len() implies (#[trigger] after[a]).0@
                            != (#[trigger] after[b]).0@ by {
                            assert(after[a] == before[a]);
                            if b < n {
                                assert(after[b] == before[b]);
                            } else {
                                assert(entries_map(before).contains_key(before[a].0@)) by {
                                    lemma_position(before, a);
                                }
                            }
                        }
                    }
                    lemma_position(after, n);
                    assert(entries_map(after) =~= entries_map(before).insert(k, vv)) by {
                        assert forall|key: Seq<char>| #[trigger] entries_map(after).contains_key(key)
                            == entries_map(before).insert(k, vv).contains_key(key) by {
                            if key != k {
                                if entries_map(before).contains_key(key) {
                                    let j = choose|j: int| 0 <= j < before.len() && (#[trigger] before[j]).0@ == key;
                                    assert(after[j] == before[j]);
                                }
                                if entries_map(after).contains_key(key) {
                                    let j = choose|j: int| 0 <= j < after.len() && (#[trigger] after[j]).0@ == key;
                                    assert(j < n);
                                    assert(after[j] == before[j]);
                                }
                            }
                        }
                        assert forall|key: Seq<char>| #[trigger] entries_map(after).contains_key(key) && key != k
                            implies entries_map(after)[key] == entries_map(before)[key] by {
                            let j = choose|j: int| 0 <= j < after.len() && (#[trigger] after[j]).0@ == key;
                            assert(j < n);
                            assert(after[j] == before[j]);
                            lemma_position(after, j);
                            lemma_position(before, j);
                        }
                    }
                }
                self.entries = entries;
            },
        }
    }

    /// Takes the value of `name` away, if it has one.
    pub fn remove(&mut self, name: &String)
        ensures
            final(self)@ == old(self)@.remove(name@),
    {
        proof {
            use_type_invariant(&*self);
        }
        let ghost before = self.entries@;
        let ghost k = name@;
        match self.find(name) {
            Some(i) => {
                let mut entries: Vec<(String, V)> = Vec::new();
                std::mem::swap(&mut entries, &mut self.entries);
                entries.remove(i);
                let ghost after = entries@;
                proof {
                    assert(after == before.remove(i as int));
                    assert(names_unique(after)) by {
                        assert forall|a: int, b: int| 0 <= a < b < after.len() implies (#[trigger] after[a]).0@
                            != (#[trigger] after[b]).0@ by {
                            let a2 = if a < i { a } else { a + 1 };
                            let b2 = if b < i { b } else { b + 1 };
                            assert(after[a] == before[a2] && after[b] == before[b2]);
                        }
                    }
                    assert(entries_map(after) =~= entries_map(before).remove(k)) by {
                        assert forall|key: Seq<char>| #[trigger] entries_map(after).contains_key(key)
                            == entries_map(before).remove(k).contains_key(key) by {
                            if entries_map(after).contains_key(key) {
                                let j = choose|j: int| 0 <= j < after.len() && (#[trigger] after[j]).0@ == key;
                                let j2 = if j < i { j } else { j + 1 };
                                assert(after[j] == before[j2]);
                                assert(before[j2].0@ != before[i as int].0@);
                            }
                            if key != k && entries_map(before).contains_key(key) {
                                let j = choose|j: int| 0 <= j < before.len() && (#[trigger] before[j]).0@ == key;
                                assert(j != i);
                                let j2 = if j < i { j } else { j - 1 };
                                assert(after[j2] == before[j]);
                            }
                        }
                        assert forall|key: Seq<char>| #[trigger] entries_map(after).contains_key(key) implies entries_map(
                            after,
                        )[key] == entries_map(before)[key] by {
                            let j = choose|j: int| 0 <= j < after.len() && (#[trigger] after[j]).0@ == key;
                            let j2 = if j < i { j } else { j + 1 };
                            assert(after[j] == before[j2]);
                            lemma_position(after, j);
                            lemma_position(before, j2);
                        }
                    }
                }
                self.entries = entries;
            },
            None => {
                proof {
                    assert(entries_map(before) =~= entries_map(before).remove(k));
                }
            },
        }
    }
}

proof fn lemma_entries_map_push<V: DeepView>(s: Seq<(String, V)>, e: (String, V))
    requires
        names_unique(s.push(e)),
    ensures
        names_unique(s),
        !entries_map(s).contains_key(e.0@),
        entries_map(s.push(e)) == entries_map(s).insert(e.0@, e.1.deep_view()),
{
    let t = s.push(e);
    let n = s.len() as int;
    assert forall|a: int, b: int| 0 <= a < b < s.len() implies (#[trigger] s[a]).0@ != (#[trigger] s[b]).0@ by {
        assert(t[a] == s[a] && t[b] == s[b]);
    }
    if entries_map(s).contains_key(e.0@) {
        let j = choose|j: int| 0 <= j < s.len() && (#[trigger] s[j]).0@ == e.0@;
        assert(t[j] == s[j] && t[n] == e);
    }
    lemma_position(t, n);
    assert forall|key: Seq<char>| #[trigger] entries_map(t).contains_key(key) == entries_map(s).insert(
        e.0@,
        e.1.deep_view(),
    ).contains_key(key) by {
        if key != e.0@ {
            if entries_map(s).contains_key(key) {
                let j = choose|j: int| 0 <= j < s.len() && (#[trigger] s[j]).0@ == key;
                assert(t[j] == s[j]);
            }
            if entries_map(t).contains_key(key) {
                let j = choose|j: int| 0 <= j < t.len() && (#[trigger] t[j]).0@ == key;
                assert(j < n);
                assert(t[j] == s[j]);
            }
        }
    }
    assert forall|key: Seq<char>| #[trigger] entries_map(t).contains_key(key) && key != e.0@ implies entries_map(
        t,
    )[key] == entries_map(s)[key] by {
        let j = choose|j: int| 0 <= j < t.len() && (#[trigger] t[j]).0@ == key;
        assert(j < n);
        assert(t[j] == s[j]);
        lemma_position(t, j);
        lemma_position(s, j);
    }
    assert(entries_map(t) =~= entries_map(s).insert(e.0@, e.1.deep_view()));
}

proof fn lemma_entries_map_prefix<V: DeepView>(s: Seq<(String, V)>, i: int)
    requires
        names_unique(s),
        0 <= i < s.len(),
    ensures
        names_unique(s.subrange(0, i + 1)),
        !entries_map(s.subrange(0, i)).contains_key(s[i].0@),
        entries_map(s.subrange(0, i + 1)) == entries_map(s.subrange(0, i)).insert(s[i].0@, s[i].1.deep_view()),
{
    let p = s.subrange(0, i + 1);
    assert(p =~= s.subrange(0, i).push(s[i]));
    assert forall|a: int, b: int| 0 <= a < b < p.len() implies (#[trigger] p[a]).0@ != (#[trigger] p[b]).0@ by {
        assert(p[a] == s[a] && p[b] == s[b]);
    }
    lemma_entries_map_push(s.subrange(0, i), s[i]);
}

proof fn lemma_entries_map_whole<V: DeepView>(s: Seq<(String, V)>)
    ensures
        entries_map(s.subrange(0, s.len() as int)) == entries_map(s),
        entries_map(s.subrange(0, 0)) == Map::<Seq<char>, V::V>::empty(),
{
    assert(s.subrange(0, s.len() as int) =~= s);
    assert(entries_map(s.subrange(0, 0)) =~= Map::<Seq<char>, V::V>::empty());
}

/// What is known of a tag of a signal: whether the signal declares it, and
/// whether its value was given there.
#[derive(Clone, Copy, PartialEq, Eq, Structural, Debug)]
pub struct TagState {
    pub defined: bool,
    pub value_defined: bool,
}

impl DeepView for TagState {
    type V = TagState;

    open spec fn deep_view(&self) -> TagState {
        *self
    }
}

/// The tags of a signal and their values: an integer as its signed
/// little-endian bytes, or no value.
pub type TagInfo = NameMap<Option<Vec<u8>>>;

/// What is known of each tag of a signal.
pub type TagDefinitions = NameMap<TagState>;

/// Whether two tag values are the same.
fn same_value(a: &Option<Vec<u8>>, b: &Option<Vec<u8>>) -> (res: bool)
    ensures
        res == (a.deep_view() == b.deep_view()),
{
    match (a, b) {
        (None, None) => true,
        (Some(x), Some(y)) => {
            if x.len() != y.len() {
                proof {
                    assert(x.deep_view().len() != y.deep_view().len());
                }
                return false;
            }
            let mut i: usize = 0;
            while i < x.len()
                invariant
                    i <= x@.len(),
                    x@.len() == y@.len(),
                    forall|j: int| 0 <= j < i ==> x@[j] == y@[j],
                    a.deep_view() == Some(x.deep_view()),
                    b.deep_view() == Some(y.deep_view()),
                decreases x@.len() - i,
            {
                if x[i] != y[i] {
                    proof {
                        assert(x.deep_view()[i as int] != y.deep_view()[i as int]);
                        assert(x.deep_view() != y.deep_view());
                        assert(a.deep_view() == Some(x.deep_view()));
                        assert(b.deep_view() == Some(y.deep_view()));
                    }
                    return false;
                }
                i = i + 1;
            }
            proof {
                assert(x.deep_view() =~= y.deep_view());
            }
            true
        },
        _ => false,
    }
}

/// A copy of a tag value.
fn copy_value(a: &Option<Vec<u8>>) -> (res: Option<Vec<u8>>)
    ensures
        res.deep_view() == a.deep_view(),
{
    match a {
        None => None,
        Some(x) => {
            let mut y: Vec<u8> = Vec::new();
            let mut i: usize = 0;
            while i < x.len()
                invariant
                    i <= x@.len(),
                    y@ == x@.subrange(0, i as int),
                decreases x@.len() - i,
            {
                y.push(x[i]);
                i = i + 1;
                proof {
                    assert(y@ =~= x@.subrange(0, i as int));
                }
            }
            proof {
                assert(y.deep_view() =~= x.deep_view());
            }
            Some(y)
        },
    }
}

/// Each tag with a value has what is known of it.
pub open spec fn tags_described(values: Map<Seq<char>, Option<Seq<u8>>>, defs: Map<Seq<char>, TagState>) -> bool {
    forall|t: Seq<char>| #[trigger] values.contains_key(t) ==> defs.contains_key(t)
}

/// What an assignment passes on of the tags `values` of a value: a tag
/// whose value was given, or any tag once no insertion remains, keeps its
/// value; a tag the signal declares otherwise passes on without value; any
/// other is dropped.
pub open spec fn propagated(
    values: Map<Seq<char>, Option<Seq<u8>>>,
    defs: Map<Seq<char>, TagState>,
    remaining_inserts: usize,
) -> Map<Seq<char>, Option<Seq<u8>>> {
    Map::new(
        |t: Seq<char>|
            values.contains_key(t) && (defs[t].value_defined || remaining_inserts == 0 || defs[t].defined),
        |t: Seq<char>|
            if defs[t].value_defined || remaining_inserts == 0 {
                values[t]
            } else {
                None
            },
    )
}

/// The tags that an assignment passes on; see `propagated`.
pub fn compute_propagated_tags(
    tags_values: &TagInfo,
    tags_definitions: &TagDefinitions,
    remaining_inserts: usize,
) -> (res: TagInfo)
    requires
        tags_described(tags_values@, tags_definitions@),
    ensures
        res@ == propagated(tags_values@, tags_definitions@, remaining_inserts),
{
    let entries = tags_values.entries();
    let ghost defs = tags_definitions@;
    let mut tags_propagated: TagInfo = NameMap::new();
    let mut i: usize = 0;
    proof {
        lemma_entries_map_whole(entries@);
        assert(propagated(entries_map(entries@.subrange(0, 0)), defs, remaining_inserts) =~= Map::<
            Seq<char>,
            Option<Seq<u8>>,
        >::empty());
    }
    while i < entries.len()
        invariant
            i <= entries@.len(),
            names_unique(entries@),
            entries_map(entries@) == tags_values@,
            defs == tags_definitions@,
            tags_described(tags_values@, defs),
            tags_propagated@ == propagated(entries_map(entries@.subrange(0, i as int)), defs, remaining_inserts),
        decreases entries@.len() - i,
    {
        let tag = &entries[i].0;
        let value = &entries[i].1;
        proof {
            lemma_entries_map_prefix(entries@, i as int);
            lemma_position(entries@, i as int);
        }
        let ghost before = entries_map(entries@.subrange(0, i as int));
        let ghost after = entries_map(entries@.subrange(0, i + 1));
        let state = *tags_definitions.get(tag).unwrap();
        if state.value_defined || remaining_inserts == 0 {
            tags_propagated.insert(tag.clone(), copy_value(value));
        } else if state.defined {
            tags_propagated.insert(tag.clone(), None);
        }
        proof {
            assert(tags_propagated@ =~= propagated(after, defs, remaining_inserts));
        }
        i = i + 1;
    }
    proof {
        lemma_entries_map_whole(entries@);
    }
    tags_propagated
}

/// What an assignment of a value with tags `assigned` leaves of the tag `t`
/// of value `value`, in state `state`, of the signal assigned: `Some` of
/// the value it keeps, or `None` when the tag is dropped. A tag whose value
/// the signal gave stays; a tag the signal declares keeps, on a signal
/// already assigned, its value where the assignment brings the same and
/// loses it otherwise, and takes, on the first assignment, what the
/// assignment brings; any other tag stays only where the assignment brings
/// it with the same value.
pub open spec fn kept_tag(
    t: Seq<char>,
    value: Option<Seq<u8>>,
    state: TagState,
    assigned: Map<Seq<char>, Option<Seq<u8>>>,
    is_init: bool,
) -> Option<Option<Seq<u8>>> {
    if state.defined {
        if state.value_defined {
            Some(value)
        } else if is_init {
            Some(
                if assigned.contains_key(t) && assigned[t] == value {
                    value
                } else {
                    None
                },
            )
        } else {
            Some(
                if assigned.contains_key(t) {
                    assigned[t]
                } else {
                    None
                },
            )
        }
    } else if assigned.contains_key(t) && assigned[t] == value {
        Some(value)
    } else {
        None
    }
}

/// The tags of `values` that an assignment leaves, with their values.
pub open spec fn tags_kept(
    values: Map<Seq<char>, Option<Seq<u8>>>,
    defs: Map<Seq<char>, TagState>,
    assigned: Map<Seq<char>, Option<Seq<u8>>>,
    is_init: bool,
) -> Map<Seq<char>, Option<Seq<u8>>> {
    Map::new(
        |t: Seq<char>| values.contains_key(t) && kept_tag(t, values[t], defs[t], assigned, is_init) is Some,
        |t: Seq<char>| kept_tag(t, values[t], defs[t], assigned, is_init)->0,
    )
}

/// The tags that the assignment `assigned` brings and that `kept` lacks.
pub open spec fn tags_new(
    kept: Map<Seq<char>, Option<Seq<u8>>>,
    assigned: Map<Seq<char>, Option<Seq<u8>>>,
) -> Map<Seq<char>, Option<Seq<u8>>> {
    Map::new(|t: Seq<char>| assigned.contains_key(t) && !kept.contains_key(t), |t: Seq<char>| assigned[t])
}

/// The tags of a signal after an assignment: those it keeps and, on the
/// first assignment, those the assignment brings that it lacks.
pub open spec fn tags_after(
    values: Map<Seq<char>, Option<Seq<u8>>>,
    defs: Map<Seq<char>, TagState>,
    assigned: Map<Seq<char>, Option<Seq<u8>>>,
    is_init: bool,
) -> Map<Seq<char>, Option<Seq<u8>>> {
    let kept = tags_kept(values, defs, assigned, is_init);
    if is_init {
        kept
    } else {
        kept.union_prefer_right(tags_new(kept, assigned))
    }
}

/// What is known of the tags of a signal after an assignment: on the first
/// assignment, each tag it brings that the signal lacks becomes known as
/// neither declared nor given a value.
pub open spec fn definitions_after(
    values: Map<Seq<char>, Option<Seq<u8>>>,
    defs: Map<Seq<char>, TagState>,
    assigned: Map<Seq<char>, Option<Seq<u8>>>,
    is_init: bool,
) -> Map<Seq<char>, TagState> {
    let kept = tags_kept(values, defs, assigned, is_init);
    if is_init {
        defs
    } else {
        defs.union_prefer_right(
            Map::new(
                |t: Seq<char>| tags_new(kept, assigned).contains_key(t),
                |t: Seq<char>| TagState { defined: false, value_defined: false },
            ),
        )
    }
}

/// Updates the tags of a signal, and what is known of them, after the
/// assignment of a value with tags `assigned_tags`; `is_init` tells that the
/// signal was assigned before.
pub fn perform_tag_propagation(
    tags_values: &mut TagInfo,
    tags_definitions: &mut TagDefinitions,
    assigned_tags: &TagInfo,
    is_init: bool,
)
    requires
        tags_described(old(tags_values)@, old(tags_definitions)@),
    ensures
        final(tags_values)@ == tags_after(old(tags_values)@, old(tags_definitions)@, assigned_tags@, is_init),
        final(tags_definitions)@ == definitions_after(
            old(tags_values)@,
            old(tags_definitions)@,
            assigned_tags@,
            is_init,
        ),
{
    let ghost values0 = tags_values@;
    let ghost defs0 = tags_definitions@;
    let ghost assigned = assigned_tags@;
    let mut previous_tags: TagInfo = NameMap::new();
    std::mem::swap(&mut previous_tags, tags_values);
    let entries = previous_tags.entries();
    let mut i: usize = 0;
    proof {
        lemma_entries_map_whole(entries@);
        assert(tags_kept(entries_map(entries@.subrange(0, 0)), defs0, assigned, is_init) =~= Map::<
            Seq<char>,
            Option<Seq<u8>>,
        >::empty());
    }
    while i < entries.len()
        invariant
            i <= entries@.len(),
            names_unique(entries@),
            entries_map(entries@) == values0,
            defs0 == tags_definitions@,
            assigned == assigned_tags@,
            tags_described(values0, defs0),
            tags_values@ == tags_kept(entries_map(entries@.subrange(0, i as int)), defs0, assigned, is_init),
        decreases entries@.len() - i,
    {
        let tag = &entries[i].0;
        let value = &entries[i].1;
        proof {
            lemma_entries_map_prefix(entries@, i as int);
            lemma_position(entries@, i as int);
        }
        let ghost after = entries_map(entries@.subrange(0, i + 1));
        let tag_state = *tags_definitions.get(tag).unwrap();
        if tag_state.defined {
            if tag_state.value_defined {
                tags_values.insert(tag.clone(), copy_value(value));
            } else {
                if is_init {
                    let to_store_value = if assigned_tags.contains_key(tag) {
                        let value_new = assigned_tags.get(tag).unwrap();
                        if !same_value(value, value_new) {
                            None
                        } else {
                            copy_value(value)
                        }
                    } else {
                        None
                    };
                    tags_values.insert(tag.clone(), to_store_value);
                } else {
                    if assigned_tags.contains_key(tag) {
                        let value_new = assigned_tags.get(tag).unwrap();
                        tags_values.insert(tag.clone(), copy_value(value_new));
                    } else {
                        tags_values.insert(tag.clone(), None);
                    }
                }
            }
        } else {
            if assigned_tags.contains_key(tag) {
                let value_new = assigned_tags.get(tag).unwrap();
                if same_value(value, value_new) {
                    tags_values.insert(tag.clone(), copy_value(value));
                } else {
                    tags_values.remove(tag);
                }
            } else {
                tags_values.remove(tag);
            }
        }
        proof {
            assert(tags_values@ =~= tags_kept(after, defs0, assigned, is_init));
        }
        i = i + 1;
    }
    proof {
        lemma_entries_map_whole(entries@);
    }
    if !is_init {
        let ghost kept = tags_values@;
        let assigned_entries = assigned_tags.entries();
        let mut j: usize = 0;
        proof {
            lemma_entries_map_whole(assigned_entries@);
            assert(kept.union_prefer_right(tags_new(kept, entries_map(assigned_entries@.subrange(0, 0)))) =~= kept);
            assert(defs0.union_prefer_right(
                Map::new(
                    |t: Seq<char>| tags_new(kept, entries_map(assigned_entries@.subrange(0, 0))).contains_key(t),
                    |t: Seq<char>| TagState { defined: false, value_defined: false },
                ),
            ) =~= defs0);
        }
        while j < assigned_entries.len()
            invariant
                j <= assigned_entries@.len(),
                names_unique(assigned_entries@),
                entries_map(assigned_entries@) == assigned,
                tags_values@ == kept.union_prefer_right(
                    tags_new(kept, entries_map(assigned_entries@.subrange(0, j as int))),
                ),
                tags_definitions@ == defs0.union_prefer_right(
                    Map::new(
                        |t: Seq<char>| tags_new(kept, entries_map(assigned_entries@.subrange(0, j as int))).contains_key(t),
                        |t: Seq<char>| TagState { defined: false, value_defined: false },
                    ),
                ),
            decreases assigned_entries@.len() - j,
        {
            let tag = &assigned_entries[j].0;
            let value = &assigned_entries[j].1;
            proof {
                lemma_entries_map_prefix(assigned_entries@, j as int);
                lemma_position(assigned_entries@, j as int);
            }
            let ghost pre = entries_map(assigned_entries@.subrange(0, j as int));
            let ghost post = entries_map(assigned_entries@.subrange(0, j + 1));
            if !tags_values.contains_key(tag) {
                tags_values.insert(tag.clone(), copy_value(value));
                let state = TagState { defined: false, value_defined: false };
                tags_definitions.insert(tag.clone(), state);
            }
            proof {
                assert(tags_values@ =~= kept.union_prefer_right(tags_new(kept, post)));
                assert(tags_definitions@ =~= defs0.union_prefer_right(
                    Map::new(
                        |t: Seq<char>| tags_new(kept, post).contains_key(t),
                        |t: Seq<char>| TagState { defined: false, value_defined: false },
                    ),
                ));
            }
            j = j + 1;
        }
        proof {
            lemma_entries_map_whole(assigned_entries@);
        }
    }
}

/// What an assignment does to a tag `t` the signal has, with value `v`:
/// - a tag the user did not declare stays, with `v`, when the assignment
///   brings it with the same value `v`;
/// - on a signal already assigned, such a tag is dropped when the assignment
///   does not bring it or brings another value;
/// - a declared tag whose value the user gave keeps `v`;
/// - a declared tag without a user value stays a tag of the signal; on a
///   signal already assigned it keeps `v` when the assignment brings the same
///   value and has no value otherwise, and on the first assignment it takes
///   the value the assignment brings, or none.
pub proof fn law_tag_after_assignment(
    values: Map<Seq<char>, Option<Seq<u8>>>,
    defs: Map<Seq<char>, TagState>,
    assigned: Map<Seq<char>, Option<Seq<u8>>>,
    is_init: bool,
    t: Seq<char>,
)
    requires
        values.contains_key(t),
    ensures
        !defs[t].defined && assigned.contains_key(t) && assigned[t] == values[t] ==> tags_after(
            values,
            defs,
            assigned,
            is_init,
        ).contains_key(t) && tags_after(values, defs, assigned, is_init)[t] == values[t],
        !defs[t].defined && is_init && !(assigned.contains_key(t) && assigned[t] == values[t]) ==> !tags_after(
            values,
            defs,
            assigned,
            is_init,
        ).contains_key(t),
        defs[t].defined ==> tags_after(values, defs, assigned, is_init).contains_key(t),
        defs[t].defined && defs[t].value_defined ==> tags_after(values, defs, assigned, is_init)[t] == values[t],
        defs[t].defined && !defs[t].value_defined && is_init ==> tags_after(values, defs, assigned, is_init)[t] == (
        if assigned.contains_key(t) && assigned[t] == values[t] {
            values[t]
        } else {
            None
        }),
        defs[t].defined && !defs[t].value_defined && !is_init ==> tags_after(values, defs, assigned, is_init)[t] == (
        if assigned.contains_key(t) {
            assigned[t]
        } else {
            None
        }),
{
    let kept = tags_kept(values, defs, assigned, is_init);
    assert(kept.contains_key(t) <==> kept_tag(t, values[t], defs[t], assigned, is_init) is Some);
    if kept.contains_key(t) {
        assert(tags_after(values, defs, assigned, is_init)[t] == kept[t]);
    }
}

/// An assignment keeps every tag of a signal known: when each tag with a
/// value has what is known of it before, the same holds after, so that the
/// next assignment finds what it looks up; the tags an assignment passes on
/// are known too.
pub proof fn law_tags_stay_described(
    values: Map<Seq<char>, Option<Seq<u8>>>,
    defs: Map<Seq<char>, TagState>,
    assigned: Map<Seq<char>, Option<Seq<u8>>>,
    is_init: bool,
    remaining_inserts: usize,
)
    requires
        tags_described(values, defs),
    ensures
        tags_described(tags_after(values, defs, assigned, is_init), definitions_after(values, defs, assigned, is_init)),
        tags_described(propagated(values, defs, remaining_inserts), defs),
{
    let kept = tags_kept(values, defs, assigned, is_init);
    let after = tags_after(values, defs, assigned, is_init);
    let known = definitions_after(values, defs, assigned, is_init);
    assert forall|t: Seq<char>| #[trigger] after.contains_key(t) implies known.contains_key(t) by {
        if kept.contains_key(t) {
            assert(values.contains_key(t));
        }
    }
    assert forall|t: Seq<char>| #[trigger] propagated(values, defs, remaining_inserts).contains_key(t) implies defs.contains_key(
        t,
    ) by {
        assert(values.contains_key(t));
    }
}

/// The tags of a bus and of each of its fields, with what is known of them:
/// the insertions left before the bus is complete, the size of the array of
/// buses, and whether the bus was assigned.
pub struct BusTagInfo {
    pub tags: TagInfo,
    pub definitions: TagDefinitions,
    pub remaining_inserts: usize,
    pub size: usize,
    pub is_init: bool,
    pub fields: Vec<(String, BusTagInfo)>,
}

/// The tags of a wire and, for a bus, of each of its fields.
pub struct TagWire {
    pub tags: TagInfo,
    pub fields: Option<Vec<(String, TagWire)>>,
}

/// The tags of a bus taken by value.
pub struct BusTagView {
    pub tags: Map<Seq<char>, Option<Seq<u8>>>,
    pub definitions: Map<Seq<char>, TagState>,
    pub remaining_inserts: usize,
    pub size: usize,
    pub is_init: bool,
    pub fields: Seq<(Seq<char>, BusTagView)>,
}

/// The tags of a wire taken by value.
pub struct TagWireView {
    pub tags: Map<Seq<char>, Option<Seq<u8>>>,
    pub fields: Option<Seq<(Seq<char>, TagWireView)>>,
}

/// A bus taken by value.
pub open spec fn bus_view(b: BusTagInfo) -> BusTagView
    decreases b,
{
    BusTagView {
        tags: b.tags@,
        definitions: b.definitions@,
        remaining_inserts: b.remaining_inserts,
        size: b.size,
        is_init: b.is_init,
        fields: bus_fields_view(b.fields@),
    }
}

/// The fields of a bus taken by value.
pub open spec fn bus_fields_view(fs: Seq<(String, BusTagInfo)>) -> Seq<(Seq<char>, BusTagView)>
    decreases fs,
{
    if fs.len() == 0 {
        Seq::empty()
    } else {
        bus_fields_view(fs.drop_last()).push((fs.last().0@, bus_view(fs.last().1)))
    }
}

/// A wire taken by value.
pub open spec fn wire_view(w: TagWire) -> TagWireView
    decreases w,
{
    TagWireView {
        tags: w.tags@,
        fields: match w.fields {
            Some(fs) => Some(wire_fields_view(fs@)),
            None => None,
        },
    }
}

/// The fields of a wire taken by value.
pub open spec fn wire_fields_view(fs: Seq<(String, TagWire)>) -> Seq<(Seq<char>, TagWireView)>
    decreases fs,
{
    if fs.len() == 0 {
        Seq::empty()
    } else {
        wire_fields_view(fs.drop_last()).push((fs.last().0@, wire_view(fs.last().1)))
    }
}

/// Each tag of the bus and of its fields, at every depth, has what is
/// known of it.
pub open spec fn bus_described(b: BusTagView) -> bool
    decreases b,
{
    tags_described(b.tags, b.definitions) && fields_described(b.fields)
}

/// The fields `fs` are described; see `bus_described`.
pub open spec fn fields_described(fs: Seq<(Seq<char>, BusTagView)>) -> bool
    decreases fs,
{
    fs.len() == 0 || (fields_described(fs.drop_last()) && bus_described(fs.last().1))
}

proof fn lemma_bus_fields_view(fs: Seq<(String, BusTagInfo)>)
    ensures
        bus_fields_view(fs).len() == fs.len(),
        forall|j: int| 0 <= j < fs.len() ==> #[trigger] bus_fields_view(fs)[j] == (fs[j].0@, bus_view(fs[j].1)),
    decreases fs.len(),
{
    if fs.len() > 0 {
        lemma_bus_fields_view(fs.drop_last());
        assert forall|j: int| 0 <= j < fs.len() implies #[trigger] bus_fields_view(fs)[j] == (
            fs[j].0@,
            bus_view(fs[j].1),
        ) by {
            if j < fs.len() - 1 {
                assert(fs.drop_last()[j] == fs[j]);
            }
        }
    }
}

proof fn lemma_fields_described(vs: Seq<(Seq<char>, BusTagView)>)
    ensures
        fields_described(vs) <==> forall|j: int| 0 <= j < vs.len() ==> bus_described(#[trigger] vs[j].1),
    decreases vs.len(),
{
    if vs.len() > 0 {
        lemma_fields_described(vs.drop_last());
        if forall|j: int| 0 <= j < vs.len() ==> bus_described(#[trigger] vs[j].1) {
            assert forall|j: int| 0 <= j < vs.drop_last().len() implies bus_described(#[trigger] vs.drop_last()[j].1) by {
                assert(vs.drop_last()[j] == vs[j]);
            }
            assert(bus_described(vs[vs.len() - 1].1));
        }
        if fields_described(vs) {
            assert forall|j: int| 0 <= j < vs.len() implies bus_described(#[trigger] vs[j].1) by {
                if j < vs.len() - 1 {
                    assert(vs.drop_last()[j] == vs[j]);
                }
            }
        }
    }
}

/// What an assignment of the bus `b` passes on: the tags of the bus, and
/// those of each field, field by field.
pub open spec fn propagated_bus(b: BusTagView) -> TagWireView
    decreases b,
{
    TagWireView {
        tags: propagated(b.tags, b.definitions, b.remaining_inserts),
        fields: Some(propagated_fields(b.fields)),
    }
}

/// What an assignment passes on of the fields `fs`.
pub open spec fn propagated_fields(fs: Seq<(Seq<char>, BusTagView)>) -> Seq<(Seq<char>, TagWireView)>
    decreases fs,
{
    if fs.len() == 0 {
        Seq::empty()
    } else {
        propagated_fields(fs.drop_last()).push((fs.last().0, propagated_bus(fs.last().1)))
    }
}

/// The tags that an assignment of the bus `tag_data` passes on; see
/// `propagated_bus`.
pub fn compute_propagated_tags_bus(tag_data: &BusTagInfo) -> (res: TagWire)
    requires
        bus_described(bus_view(*tag_data)),
    ensures
        wire_view(res) == propagated_bus(bus_view(*tag_data)),
    decreases tag_data,
{
    let tags_propagated = compute_propagated_tags(&tag_data.tags, &tag_data.definitions, tag_data.remaining_inserts);
    let ghost fs = tag_data.fields@;
    proof {
        lemma_bus_fields_view(fs);
        lemma_fields_described(bus_fields_view(fs));
        assert forall|j: int| 0 <= j < fs.len() implies bus_described(#[trigger] bus_view(fs[j].1)) by {
            assert(bus_fields_view(fs)[j].1 == bus_view(fs[j].1));
        }
    }
    let mut fields_propagated: Vec<(String, TagWire)> = Vec::new();
    let mut i: usize = 0;
    proof {
        assert(fs.subrange(0, 0) =~= Seq::<(String, BusTagInfo)>::empty());
        assert(wire_fields_view(fields_propagated@) =~= Seq::<(Seq<char>, TagWireView)>::empty());
    }
    while i < tag_data.fields.len()
        invariant
            i <= fs.len(),
            fs == tag_data.fields@,
            forall|j: int| 0 <= j < fs.len() ==> bus_described(#[trigger] bus_view(fs[j].1)),
            wire_fields_view(fields_propagated@) == propagated_fields(bus_fields_view(fs.subrange(0, i as int))),
        decreases fs.len() - i,
    {
        let name = &tag_data.fields[i].0;
        let field = &tag_data.fields[i].1;
        proof {
            let next = fs.subrange(0, i + 1);
            assert(next.drop_last() =~= fs.subrange(0, i as int));
            assert(next.last() == fs[i as int]);
        }
        let sub = compute_propagated_tags_bus(field);
        let ghost before = fields_propagated@;
        let ghost pre = bus_fields_view(fs.subrange(0, i as int));
        fields_propagated.push((name.clone(), sub));
        proof {
            assert(fields_propagated@.drop_last() =~= before);
            let next = fs.subrange(0, i + 1);
            let nv = bus_fields_view(next);
            assert(nv == pre.push((fs[i as int].0@, bus_view(fs[i as int].1))));
            assert(nv.drop_last() =~= pre);
            assert(wire_fields_view(fields_propagated@) == wire_fields_view(before).push(
                (name@, wire_view(sub)),
            ));
        }
        i = i + 1;
    }
    proof {
        assert(fs.subrange(0, fs.len() as int) =~= fs);
    }
    TagWire { tags: tags_propagated, fields: Some(fields_propagated) }
}

/// A wire without tags and without fields.
pub open spec fn empty_wire() -> TagWireView {
    TagWireView { tags: Map::empty(), fields: None }
}

/// The first of the fields `fs` named `name`.
pub open spec fn find_field(fs: Seq<(Seq<char>, TagWireView)>, name: Seq<char>) -> Option<TagWireView>
    decreases fs.len(),
{
    if fs.len() == 0 {
        None
    } else if fs[0].0 == name {
        Some(fs[0].1)
    } else {
        find_field(fs.drop_first(), name)
    }
}

/// What the assignment `a` brings to the field `name`: its tags there, or
/// none.
pub open spec fn field_assigned(a: TagWireView, name: Seq<char>) -> TagWireView {
    match a.fields {
        Some(fs) => match find_field(fs, name) {
            Some(w) => w,
            None => empty_wire(),
        },
        None => empty_wire(),
    }
}

/// The bus `b` after the assignment of `n` values with tags `a`: its tags
/// as `tags_after` and `definitions_after` give them, `n` insertions
/// fewer, assigned, and each field after the assignment of what `a` brings
/// to it, as many times as the field's size times `n`.
pub open spec fn bus_after(b: BusTagView, a: TagWireView, n: nat) -> BusTagView
    decreases b,
{
    BusTagView {
        tags: tags_after(b.tags, b.definitions, a.tags, b.is_init),
        definitions: definitions_after(b.tags, b.definitions, a.tags, b.is_init),
        remaining_inserts: (b.remaining_inserts - n) as usize,
        size: b.size,
        is_init: true,
        fields: fields_after(b.fields, a, n),
    }
}

/// The fields `fs` after the assignment; see `bus_after`.
pub open spec fn fields_after(fs: Seq<(Seq<char>, BusTagView)>, a: TagWireView, n: nat) -> Seq<
    (Seq<char>, BusTagView),
>
    decreases fs,
{
    if fs.len() == 0 {
        Seq::empty()
    } else {
        fields_after(fs.drop_last(), a, n).push(
            (fs.last().0, bus_after(fs.last().1, field_assigned(a, fs.last().0), fs.last().1.size as nat * n)),
        )
    }
}

/// The assignment of `n` values to the bus `b` leaves no count below zero
/// or above `usize`, at every depth, and every tag is described.
pub open spec fn bus_fits(b: BusTagView, n: nat) -> bool
    decreases b,
{
    n <= b.remaining_inserts && tags_described(b.tags, b.definitions) && fields_fit(b.fields, n)
}

/// The fields `fs` fit the assignment of `n` values; see `bus_fits`.
pub open spec fn fields_fit(fs: Seq<(Seq<char>, BusTagView)>, n: nat) -> bool
    decreases fs,
{
    fs.len() == 0 || (fields_fit(fs.drop_last(), n) && fs.last().1.size as nat * n <= usize::MAX && bus_fits(
        fs.last().1,
        fs.last().1.size as nat * n,
    ))
}

proof fn lemma_fields_after(fs: Seq<(Seq<char>, BusTagView)>, a: TagWireView, n: nat)
    ensures
        fields_after(fs, a, n).len() == fs.len(),
        forall|j: int|
            0 <= j < fs.len() ==> #[trigger] fields_after(fs, a, n)[j] == (
                fs[j].0,
                bus_after(fs[j].1, field_assigned(a, fs[j].0), fs[j].1.size as nat * n),
            ),
        fields_fit(fs, n) <==> forall|j: int|
            0 <= j < fs.len() ==> #[trigger] fs[j].1.size as nat * n <= usize::MAX && bus_fits(fs[j].1, fs[j].1.size as nat * n),
    decreases fs.len(),
{
    if fs.len() > 0 {
        let d = fs.drop_last();
        lemma_fields_after(d, a, n);
        assert forall|j: int| 0 <= j < fs.len() implies #[trigger] fields_after(fs, a, n)[j] == (
            fs[j].0,
            bus_after(fs[j].1, field_assigned(a, fs[j].0), fs[j].1.size as nat * n),
        ) by {
            if j < fs.len() - 1 {
                assert(d[j] == fs[j]);
            }
        }
        if forall|j: int|
            0 <= j < fs.len() ==> #[trigger] fs[j].1.size as nat * n <= usize::MAX && bus_fits(fs[j].1, fs[j].1.size as nat * n) {
            assert forall|j: int| 0 <= j < d.len() implies #[trigger] d[j].1.size as nat * n <= usize::MAX && bus_fits(
                d[j].1,
                d[j].1.size as nat * n,
            ) by {
                assert(d[j] == fs[j]);
            }
            assert(fs.last() == fs[fs.len() - 1]);
        }
        if fields_fit(fs, n) {
            assert forall|j: int| 0 <= j < fs.len() implies #[trigger] fs[j].1.size as nat * n <= usize::MAX && bus_fits(
                fs[j].1,
                fs[j].1.size as nat * n,
            ) by {
                if j < fs.len() - 1 {
                    assert(d[j] == fs[j]);
                }
            }
        }
    }
}

proof fn lemma_wire_fields_view(fs: Seq<(String, TagWire)>)
    ensures
        wire_fields_view(fs).len() == fs.len(),
        forall|j: int| 0 <= j < fs.len() ==> #[trigger] wire_fields_view(fs)[j] == (fs[j].0@, wire_view(fs[j].1)),
    decreases fs.len(),
{
    if fs.len() > 0 {
        lemma_wire_fields_view(fs.drop_last());
        assert forall|j: int| 0 <= j < fs.len() implies #[trigger] wire_fields_view(fs)[j] == (
            fs[j].0@,
            wire_view(fs[j].1),
        ) by {
            if j < fs.len() - 1 {
                assert(fs.drop_last()[j] == fs[j]);
            }
        }
    }
}

proof fn lemma_find_field(fs: Seq<(Seq<char>, TagWireView)>, name: Seq<char>, i: int)
    requires
        0 <= i <= fs.len(),
        forall|j: int| 0 <= j < i ==> (#[trigger] fs[j]).0 != name,
    ensures
        find_field(fs, name) == find_field(fs.subrange(i, fs.len() as int), name),
    decreases i,
{
    if i > 0 {
        lemma_find_field(fs, name, i - 1);
        let r = fs.subrange(i - 1, fs.len() as int);
        assert(r[0] == fs[i - 1]);
        assert(r.drop_first() =~= fs.subrange(i, fs.len() as int));
    } else {
        assert(fs.subrange(0, fs.len() as int) =~= fs);
    }
}

/// What the assignment `assigned` brings to the field `name`, if anything.
fn field_of<'a>(assigned: &'a TagWire, name: &String) -> (res: Option<&'a TagWire>)
    ensures
        match res {
            Some(w) => wire_view(*w) == field_assigned(wire_view(*assigned), name@),
            None => field_assigned(wire_view(*assigned), name@) == empty_wire(),
        },
{
    match &assigned.fields {
        None => None,
        Some(fs) => {
            proof {
                lemma_wire_fields_view(fs@);
            }
            let ghost vs = wire_fields_view(fs@);
            let mut i: usize = 0;
            while i < fs.len()
                invariant
                    i <= fs@.len(),
                    vs == wire_fields_view(fs@),
                    vs.len() == fs@.len(),
                    wire_view(*assigned).fields == Some(vs),
                    forall|j: int| 0 <= j < fs@.len() ==> #[trigger] vs[j] == (fs@[j].0@, wire_view(fs@[j].1)),
                    forall|j: int| 0 <= j < i ==> (#[trigger] vs[j]).0 != name@,
                decreases fs@.len() - i,
            {
                if fs[i].0 == *name {
                    proof {
                        lemma_find_field(vs, name@, i as int);
                        let r = vs.subrange(i as int, vs.len() as int);
                        assert(r[0] == vs[i as int]);
                        assert(vs[i as int].0 == name@);
                        assert(find_field(r, name@) == Some(r[0].1));
                        assert(wire_view(*assigned).fields == Some(vs));
                    }
                    return Some(&fs[i].1);
                }
                proof {
                    assert(vs[i as int].0 != name@);
                }
                i = i + 1;
            }
            proof {
                lemma_find_field(vs, name@, i as int);
                assert(vs.subrange(i as int, vs.len() as int).len() == 0);
                assert(wire_view(*assigned).fields == Some(vs));
            }
            None
        },
    }
}

/// A bus without tags, fields or insertions.
fn empty_bus() -> (res: BusTagInfo)
    ensures
        bus_view(res) == (BusTagView {
            tags: Map::empty(),
            definitions: Map::empty(),
            remaining_inserts: 0,
            size: 0,
            is_init: false,
            fields: Seq::empty(),
        }),
{
    BusTagInfo {
        tags: NameMap::new(),
        definitions: NameMap::new(),
        remaining_inserts: 0,
        size: 0,
        is_init: false,
        fields: Vec::new(),
    }
}

/// Updates the tags of the bus `tag_data`, and of each of its fields, after
/// the assignment of `n_inserts` values with tags `assigned_tags`; see
/// `bus_after`.
pub fn perform_tag_propagation_bus(tag_data: &mut BusTagInfo, assigned_tags: &TagWire, n_inserts: usize)
    requires
        bus_fits(bus_view(*old(tag_data)), n_inserts as nat),
    ensures
        bus_view(*final(tag_data)) == bus_after(bus_view(*old(tag_data)), wire_view(*assigned_tags), n_inserts as nat),
    decreases *old(tag_data),
{
    let ghost b0 = bus_view(*tag_data);
    let ghost a = wire_view(*assigned_tags);
    let ghost old_fields = tag_data.fields@;
    perform_tag_propagation(&mut tag_data.tags, &mut tag_data.definitions, &assigned_tags.tags, tag_data.is_init);
    tag_data.remaining_inserts = tag_data.remaining_inserts - n_inserts;
    tag_data.is_init = true;
    let mut fields: Vec<(String, BusTagInfo)> = Vec::new();
    std::mem::swap(&mut fields, &mut tag_data.fields);
    proof {
        lemma_bus_fields_view(old_fields);
        lemma_fields_after(b0.fields, a, n_inserts as nat);
    }
    let empty = TagWire { tags: NameMap::new(), fields: None };
    let mut i: usize = 0;
    while i < fields.len()
        invariant
            i <= fields@.len(),
            fields@.len() == old_fields.len(),
            old(tag_data).fields@ == old_fields,
            b0.fields == bus_fields_view(old_fields),
            wire_view(*assigned_tags) == a,
            wire_view(empty) == empty_wire(),
            bus_fields_view(old_fields).len() == old_fields.len(),
            forall|j: int|
                0 <= j < old_fields.len() ==> #[trigger] bus_fields_view(old_fields)[j] == (
                    old_fields[j].0@,
                    bus_view(old_fields[j].1),
                ),
            forall|j: int|
                0 <= j < old_fields.len() ==> #[trigger] b0.fields[j].1.size as nat * (n_inserts as nat) <= usize::MAX
                    && bus_fits(b0.fields[j].1, b0.fields[j].1.size as nat * (n_inserts as nat)),
            forall|j: int| i <= j < old_fields.len() ==> #[trigger] fields@[j] == old_fields[j],
            forall|j: int|
                0 <= j < i ==> (#[trigger] fields@[j]).0@ == old_fields[j].0@ && bus_view(fields@[j].1) == bus_after(
                    b0.fields[j].1,
                    field_assigned(a, b0.fields[j].0),
                    b0.fields[j].1.size as nat * (n_inserts as nat),
                ),
        decreases old_fields.len() - i,
    {
        let mut item: (String, BusTagInfo) = (String::new(), empty_bus());
        fields.set_and_swap(i, &mut item);
        proof {
            assert(item == old_fields[i as int]);
            assert(b0.fields[i as int] == (old_fields[i as int].0@, bus_view(old_fields[i as int].1)));
            assert(bus_view(item.1).size == item.1.size);
            assert(b0.fields[i as int].1.size as nat * (n_inserts as nat) <= usize::MAX);
        }
        let field_assigned_tags = match field_of(assigned_tags, &item.0) {
            Some(w) => w,
            None => &empty,
        };
        let field_n_inserts = item.1.size * n_inserts;
        proof {
            assert(decreases_to!(*old(tag_data) => old(tag_data).fields));
            assert(decreases_to!(old(tag_data).fields => old(tag_data).fields@));
            assert(decreases_to!(old(tag_data).fields@ => old(tag_data).fields@[i as int]));
        }
        perform_tag_propagation_bus(&mut item.1, field_assigned_tags, field_n_inserts);
        let ghost before = fields@;
        fields.set(i, item);
        proof {
            assert forall|j: int| i + 1 <= j < old_fields.len() implies #[trigger] fields@[j] == old_fields[j] by {
                assert(fields@[j] == before[j]);
            }
            assert forall|j: int| 0 <= j < i + 1 implies (#[trigger] fields@[j]).0@ == old_fields[j].0@ && bus_view(
                fields@[j].1,
            ) == bus_after(b0.fields[j].1, field_assigned(a, b0.fields[j].0), b0.fields[j].1.size as nat * (n_inserts as nat)) by {
                if j < i {
                    assert(fields@[j] == before[j]);
                }
            }
        }
        i = i + 1;
    }
    std::mem::swap(&mut fields, &mut tag_data.fields);
    proof {
        lemma_bus_fields_view(tag_data.fields@);
        assert(bus_fields_view(tag_data.fields@) =~= fields_after(b0.fields, a, n_inserts as nat));
    }
}

proof fn lemma_bus_stays_described(b: BusTagView, a: TagWireView, n: nat)
    requires
        bus_fits(b, n),
    ensures
        bus_described(bus_after(b, a, n)),
    decreases b,
{
    law_tags_stay_described(b.tags, b.definitions, a.tags, b.is_init, 0);
    lemma_fields_stay_described(b.fields, a, n);
}

proof fn lemma_fields_stay_described(fs: Seq<(Seq<char>, BusTagView)>, a: TagWireView, n: nat)
    requires
        fields_fit(fs, n),
    ensures
        fields_described(fields_after(fs, a, n)),
    decreases fs,
{
    if fs.len() > 0 {
        lemma_fields_stay_described(fs.drop_last(), a, n);
        let last = fs.last();
        lemma_bus_stays_described(last.1, field_assigned(a, last.0), last.1.size as nat * n);
        let after = fields_after(fs, a, n);
        assert(after.drop_last() =~= fields_after(fs.drop_last(), a, n));
    }
}

/// An assignment to a bus keeps every tag of the bus and of its fields, at
/// every depth, known.
pub proof fn law_bus_tags_stay_described(b: BusTagView, a: TagWireView, n: nat)
    requires
        bus_fits(b, n),
    ensures
        bus_described(bus_after(b, a, n)),
{
    lemma_bus_stays_described(b, a, n);
}

/// What is known of tags declared with the values `tags`: each is declared,
/// and its value was given when it has one.
pub open spec fn declared_states(tags: Map<Seq<char>, Option<Seq<u8>>>) -> Map<Seq<char>, TagState> {
    Map::new(
        |t: Seq<char>| tags.contains_key(t),
        |t: Seq<char>| TagState { defined: true, value_defined: tags[t] is Some },
    )
}

/// The tag data of a bus whose tags, and those of its fields, are given by
/// the wire `w`: every tag declared, no insertion left, assigned.
pub open spec fn generated_bus(w: TagWireView) -> BusTagView
    decreases w,
{
    BusTagView {
        tags: w.tags,
        definitions: declared_states(w.tags),
        remaining_inserts: 0,
        size: 0,
        is_init: true,
        fields: match w.fields {
            Some(fs) => generated_fields(fs),
            None => Seq::empty(),
        },
    }
}

/// The tag data of the fields `fs`; see `generated_bus`.
pub open spec fn generated_fields(fs: Seq<(Seq<char>, TagWireView)>) -> Seq<(Seq<char>, BusTagView)>
    decreases fs,
{
    if fs.len() == 0 {
        Seq::empty()
    } else {
        generated_fields(fs.drop_last()).push((fs.last().0, generated_bus(fs.last().1)))
    }
}

/// A copy of the tags `tags`.
fn copy_tags(tags: &TagInfo) -> (res: TagInfo)
    ensures
        res@ == tags@,
{
    let entries = tags.entries();
    let mut out: TagInfo = NameMap::new();
    let mut i: usize = 0;
    proof {
        lemma_entries_map_whole(entries@);
    }
    while i < entries.len()
        invariant
            i <= entries@.len(),
            names_unique(entries@),
            entries_map(entries@) == tags@,
            out@ == entries_map(entries@.subrange(0, i as int)),
        decreases entries@.len() - i,
    {
        proof {
            lemma_entries_map_prefix(entries@, i as int);
        }
        out.insert(entries[i].0.clone(), copy_value(&entries[i].1));
        i = i + 1;
    }
    proof {
        lemma_entries_map_whole(entries@);
    }
    out
}

/// The tag data of a bus whose tags are given by the wire `tags`; see
/// `generated_bus`.
pub fn generate_tags_data(tags: &TagWire) -> (res: BusTagInfo)
    ensures
        bus_view(res) == generated_bus(wire_view(*tags)),
    decreases tags,
{
    let entries = tags.tags.entries();
    let mut tags_defined: TagDefinitions = NameMap::new();
    let mut i: usize = 0;
    proof {
        lemma_entries_map_whole(entries@);
        assert(declared_states(entries_map(entries@.subrange(0, 0))) =~= Map::<Seq<char>, TagState>::empty());
    }
    while i < entries.len()
        invariant
            i <= entries@.len(),
            names_unique(entries@),
            entries_map(entries@) == tags.tags@,
            tags_defined@ == declared_states(entries_map(entries@.subrange(0, i as int))),
        decreases entries@.len() - i,
    {
        proof {
            lemma_entries_map_prefix(entries@, i as int);
        }
        let ghost after = entries_map(entries@.subrange(0, i + 1));
        let state = TagState { defined: true, value_defined: entries[i].1.is_some() };
        tags_defined.insert(entries[i].0.clone(), state);
        proof {
            assert(tags_defined@ =~= declared_states(after));
        }
        i = i + 1;
    }
    proof {
        lemma_entries_map_whole(entries@);
    }
    let mut fields: Vec<(String, BusTagInfo)> = Vec::new();
    match &tags.fields {
        Some(fs) => {
            proof {
                lemma_wire_fields_view(fs@);
            }
            let ghost vs = wire_fields_view(fs@);
            let mut k: usize = 0;
            proof {
                assert(fs@.subrange(0, 0) =~= Seq::<(String, TagWire)>::empty());
                assert(bus_fields_view(fields@) =~= Seq::<(Seq<char>, BusTagView)>::empty());
            }
            while k < fs.len()
                invariant
                    k <= fs@.len(),
                    vs == wire_fields_view(fs@),
                    tags.fields == Some(*fs),
                    bus_fields_view(fields@) == generated_fields(wire_fields_view(fs@.subrange(0, k as int))),
                decreases fs@.len() - k,
            {
                proof {
                    assert(decreases_to!(*tags => tags.fields));
                    assert(decreases_to!(tags.fields => tags.fields->0));
                    assert(decreases_to!(*fs => fs@));
                    assert(decreases_to!(fs@ => fs@[k as int]));
                }
                let sub = generate_tags_data(&fs[k].1);
                let ghost before = fields@;
                let ghost pre = wire_fields_view(fs@.subrange(0, k as int));
                fields.push((fs[k].0.clone(), sub));
                proof {
                    let next = fs@.subrange(0, k + 1);
                    assert(next.drop_last() =~= fs@.subrange(0, k as int));
                    assert(next.last() == fs@[k as int]);
                    let nv = wire_fields_view(next);
                    assert(nv.drop_last() =~= pre);
                    assert(fields@.drop_last() =~= before);
                }
                k = k + 1;
            }
            proof {
                assert(fs@.subrange(0, fs@.len() as int) =~= fs@);
            }
        },
        None => {
            proof {
                assert(bus_fields_view(fields@) =~= Seq::<(Seq<char>, BusTagView)>::empty());
            }
        },
    }
    BusTagInfo {
        definitions: tags_defined,
        tags: copy_tags(&tags.tags),
        remaining_inserts: 0,
        size: 0,
        is_init: true,
        fields,
    }
}

proof fn lemma_generated_described(w: TagWireView)
    ensures
        bus_described(generated_bus(w)),
    decreases w,
{
    match w.fields {
        Some(fs) => lemma_generated_fields_described(fs),
        None => {},
    }
}

proof fn lemma_generated_fields_described(fs: Seq<(Seq<char>, TagWireView)>)
    ensures
        fields_described(generated_fields(fs)),
    decreases fs,
{
    if fs.len() > 0 {
        lemma_generated_fields_described(fs.drop_last());
        lemma_generated_described(fs.last().1);
        assert(generated_fields(fs).drop_last() =~= generated_fields(fs.drop_last()));
    }
}

/// The tag data generated from a wire knows every tag it holds, at every
/// depth: assignments to the bus can be propagated.
pub proof fn law_generated_tags_described(w: TagWireView)
    ensures
        bus_described(generated_bus(w)),
{
    lemma_generated_described(w);
}

} // verus!
