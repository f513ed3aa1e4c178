//! Header fields: a table from names to values in which every name occurs
//! once. Fields keep the order in which their names first came in; setting a
//! name again replaces its value in place.

use crate::text::equal;
use vstd::prelude::*;

verus! {

/// `i` is the index of the first field of `fields` whose name is `name`.
pub open spec fn named_at(fields: Seq<(Seq<u8>, Seq<u8>)>, name: Seq<u8>, i: int) -> bool {
    &&& 0 <= i < fields.len()
    &&& fields[i].0 == name
    &&& forall|j: int| 0 <= j < i ==> (#[trigger] fields[j]).0 != name
}

/// The index of the first field named `name`, if there is one.
pub open spec fn index_of(fields: Seq<(Seq<u8>, Seq<u8>)>, name: Seq<u8>) -> Option<int> {
    if exists|i: int| named_at(fields, name, i) {
        Some(choose|i: int| named_at(fields, name, i))
    } else {
        None
    }
}

/// No two fields share a name.
pub open spec fn distinct(fields: Seq<(Seq<u8>, Seq<u8>)>) -> bool {
    forall|i: int, j: int|
        0 <= i < j < fields.len() ==> (#[trigger] fields[i]).0 != (#[trigger] fields[j]).0
}

/// The mapping that a list of fields stands for: each name that occurs, to
/// the value of its first field.
pub open spec fn as_map(fields: Seq<(Seq<u8>, Seq<u8>)>) -> Map<Seq<u8>, Seq<u8>> {
    Map::new(
        |name: Seq<u8>| index_of(fields, name).is_some(),
        |name: Seq<u8>| fields[index_of(fields, name).unwrap()].1,
    )
}

/// `fields` after `name` was set to `value`: replaced where the name
/// occurs, added at the end where it does not.
pub open spec fn put(fields: Seq<(Seq<u8>, Seq<u8>)>, name: Seq<u8>, value: Seq<u8>) -> Seq<
    (Seq<u8>, Seq<u8>),
> {
    match index_of(fields, name) {
        Some(i) => fields.update(i, (name, value)),
        None => fields.push((name, value)),
    }
}

/// A first field of that name is the only one that `index_of` can name.
pub proof fn lemma_index_of_is(fields: Seq<(Seq<u8>, Seq<u8>)>, name: Seq<u8>, i: int)
    requires
        named_at(fields, name, i),
    ensures
        index_of(fields, name) == Some(i),
{
    let c = choose|c: int| named_at(fields, name, c);
    assert(named_at(fields, name, c));
    if c < i {
        assert(fields[c].0 != name);
    }
    if i < c {
        assert(fields[i].0 != name);
    }
}

/// A field of that name at `j` implies a first one at or before `j`.
pub proof fn lemma_named_has_first(fields: Seq<(Seq<u8>, Seq<u8>)>, name: Seq<u8>, j: int)
    requires
        0 <= j < fields.len(),
        fields[j].0 == name,
    ensures
        exists|i: int| named_at(fields, name, i) && i <= j,
    decreases j,
{
    if forall|k: int| 0 <= k < j ==> (#[trigger] fields[k]).0 != name {
        assert(named_at(fields, name, j));
    } else {
        let k = choose|k: int| 0 <= k < j && (#[trigger] fields[k]).0 == name;
        lemma_named_has_first(fields, name, k);
    }
}

/// What `index_of` says of its result, spelled out.
pub proof fn lemma_index_of_facts(fields: Seq<(Seq<u8>, Seq<u8>)>, name: Seq<u8>)
    ensures
        match index_of(fields, name) {
            Some(i) => named_at(fields, name, i),
            None => forall|j: int| 0 <= j < fields.len() ==> (#[trigger] fields[j]).0 != name,
        },
{
    if index_of(fields, name).is_none() {
        assert forall|j: int| 0 <= j < fields.len() implies (#[trigger] fields[j]).0 != name by {
            if fields[j].0 == name {
                lemma_named_has_first(fields, name, j);
            }
        }
    }
}

/// Setting a name changes the mapping at that name and nowhere else, and
/// keeps the names distinct.
pub proof fn lemma_put(fields: Seq<(Seq<u8>, Seq<u8>)>, name: Seq<u8>, value: Seq<u8>)
    ensures
        as_map(put(fields, name, value)) == as_map(fields).insert(name, value),
        distinct(fields) ==> distinct(put(fields, name, value)),
{
    let after = put(fields, name, value);
    lemma_index_of_facts(fields, name);
    let at: int = match index_of(fields, name) {
        Some(i) => i,
        None => fields.len() as int,
    };
    assert(named_at(after, name, at)) by {
        assert forall|j: int| 0 <= j < at implies (#[trigger] after[j]).0 != name by {
            assert(after[j] == fields[j]);
        }
    }
    lemma_index_of_is(after, name, at);
    assert forall|other: Seq<u8>| other != name implies index_of(after, other) == index_of(
        fields,
        other,
    ) by {
        lemma_index_of_facts(fields, other);
        match index_of(fields, other) {
            Some(j) => {
                assert(j != at);
                assert(after[j] == fields[j]);
                assert forall|k: int| 0 <= k < j implies (#[trigger] after[k]).0 != other by {
                    if k != at {
                        assert(after[k] == fields[k]);
                    }
                }
                lemma_index_of_is(after, other, j);
            },
            None => {
                lemma_index_of_facts(after, other);
                if index_of(after, other).is_some() {
                    let j = index_of(after, other).unwrap();
                    if j != at {
                        assert(after[j] == fields[j]);
                        assert(fields[j].0 != other);
                    }
                }
            },
        }
    }
    assert forall|other: Seq<u8>| other != name && index_of(fields, other).is_some() implies after[index_of(
        fields,
        other,
    ).unwrap()] == fields[index_of(fields, other).unwrap()] by {
        lemma_index_of_facts(fields, other);
    }
    assert(as_map(after) =~= as_map(fields).insert(name, value));
    if distinct(fields) {
        assert forall|i: int, j: int| 0 <= i < j < after.len() implies (#[trigger] after[i]).0 != (
        #[trigger] after[j]).0 by {
            if index_of(fields, name).is_some() {
                assert(after[i].0 == fields[i].0);
                assert(after[j].0 == fields[j].0);
            } else {
                if j < fields.len() {
                    assert(after[i] == fields[i]);
                    assert(after[j] == fields[j]);
                } else {
                    assert(after[i] == fields[i]);
                }
            }
        }
    }
}

/// The byte strings that a vector of fields holds.
pub open spec fn field_views(entries: Seq<(Vec<u8>, Vec<u8>)>) -> Seq<(Seq<u8>, Seq<u8>)> {
    Seq::new(entries.len(), |i: int| (entries[i].0@, entries[i].1@))
}

/// Searches the fields for the first one named `name`.
pub fn find_field(entries: &Vec<(Vec<u8>, Vec<u8>)>, name: &[u8]) -> (found: Option<usize>)
    ensures
        match found {
            Some(i) => index_of(field_views(entries@), name@) == Some(i as int),
            None => index_of(field_views(entries@), name@).is_none(),
        },
{
    let ghost fields = field_views(entries@);
    let mut i: usize = 0;
    while i < entries.len()
        invariant
            i <= entries@.len(),
            fields == field_views(entries@),
            forall|j: int| 0 <= j < i ==> (#[trigger] fields[j]).0 != name@,
        decreases entries@.len() - i,
    {
        if equal(entries[i].0.as_slice(), name) {
            proof {
                assert(fields[i as int].0 == name@);
                lemma_index_of_is(fields, name@, i as int);
            }
            return Some(i);
        }
        assert(fields[i as int].0 != name@);
        i += 1;
    }
    None
}

/// A set of header fields.
#[derive(Debug)]
pub struct Headers {
    entries: Vec<(Vec<u8>, Vec<u8>)>,
}

impl View for Headers {
    type V = Map<Seq<u8>, Seq<u8>>;

    /// The mapping from names to values.
    open spec fn view(&self) -> Map<Seq<u8>, Seq<u8>> {
        as_map(self.fields())
    }
}

impl Headers {
    #[verifier::type_invariant]
    spec fn inv(&self) -> bool {
        distinct(field_views(self.entries@))
    }

    /// The fields in order.
    pub closed spec fn fields(&self) -> Seq<(Seq<u8>, Seq<u8>)> {
        field_views(self.entries@)
    }

    /// No fields at all.
    pub fn new() -> (headers: Headers)
        ensures
            headers.fields() == Seq::<(Seq<u8>, Seq<u8>)>::empty(),
            headers@ == Map::<Seq<u8>, Seq<u8>>::empty(),
    {
        let headers = Headers { entries: Vec::new() };
        assert(headers.fields() =~= Seq::<(Seq<u8>, Seq<u8>)>::empty());
        assert(headers@ =~= Map::<Seq<u8>, Seq<u8>>::empty());
        headers
    }

    /// The number of fields. No two of them share a name.
    pub fn len(&self) -> (n: usize)
        ensures
            n == self.fields().len(),
            distinct(self.fields()),
    {
        proof {
            use_type_invariant(self);
        }
        self.entries.len()
    }

    /// The name of field `i`.
    pub fn name(&self, i: usize) -> (name: &[u8])
        requires
            i < self.fields().len(),
        ensures
            name@ == self.fields()[i as int].0,
    {
        self.entries[i].0.as_slice()
    }

    /// The value of field `i`.
    pub fn value(&self, i: usize) -> (value: &[u8])
        requires
            i < self.fields().len(),
        ensures
            value@ == self.fields()[i as int].1,
    {
        self.entries[i].1.as_slice()
    }

    /// The value set for `name`, if any. Names are compared byte for byte.
    pub fn get(&self, name: &[u8]) -> (value: Option<&[u8]>)
        ensures
            match value {
                Some(v) => self@.contains_key(name@) && v@ == self@[name@],
                None => !self@.contains_key(name@),
            },
    {
        match find_field(&self.entries, name) {
            Some(i) => {
                proof {
                    lemma_index_of_facts(self.fields(), name@);
                }
                Some(self.entries[i].1.as_slice())
            },
            None => None,
        }
    }

    /// Sets `name` to `value`, replacing the value it had.
    pub fn insert(&mut self, name: Vec<u8>, value: Vec<u8>)
        ensures
            final(self).fields() == put(old(self).fields(), name@, value@),
            final(self)@ == old(self)@.insert(name@, value@),
            distinct(final(self).fields()),
    {
        proof {
            use_type_invariant(&*self);
            lemma_put(self.fields(), name@, value@);
            lemma_index_of_facts(self.fields(), name@);
        }
        let mut entries: Vec<(Vec<u8>, Vec<u8>)> = Vec::new();
        core::mem::swap(&mut self.entries, &mut entries);
        match find_field(&entries, name.as_slice()) {
            Some(i) => {
                assert(field_views(entries@.update(i as int, (name, value))) =~= put(
                    field_views(entries@),
                    name@,
                    value@,
                ));
                entries[i] = (name, value);
            },
            None => {
                assert(field_views(entries@.push((name, value))) =~= put(
                    field_views(entries@),
                    name@,
                    value@,
                ));
                entries.push((name, value));
            },
        }
        self.entries = entries;
    }
}

} // verus!
