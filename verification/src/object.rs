//! Rooms and things: a display name and a table of text properties.

use vstd::prelude::*;

verus! {

/// A room or a thing that can be looked at.
#[derive(Debug)]
pub struct Object {
    name: Option<String>,
    properties: Vec<(String, String)>,
}

/// A thing as plain values.
pub struct ObjectView {
    pub name: Option<Seq<char>>,
    pub properties: Map<Seq<char>, Seq<char>>,
}

/// The value that the first entry for `key` holds.
pub open spec fn property(entries: Seq<(Seq<char>, Seq<char>)>, key: Seq<char>) -> Option<
    Seq<char>,
>
    decreases entries.len(),
{
    if entries.len() == 0 {
        None
    } else if entries[0].0 == key {
        Some(entries[0].1)
    } else {
        property(entries.drop_first(), key)
    }
}

/// The table that `entries` stands for.
pub open spec fn table(entries: Seq<(Seq<char>, Seq<char>)>) -> Map<Seq<char>, Seq<char>> {
    Map::new(
        |key: Seq<char>| property(entries, key) is Some,
        |key: Seq<char>| property(entries, key)->0,
    )
}

/// What a look at a thing shows: its name, and below it its description where
/// it has one. A thing without a name is shown by `label`.
pub open spec fn look_text(label: Seq<char>, object: ObjectView) -> Seq<char> {
    let name = match object.name {
        Some(name) => name,
        None => label,
    };
    if object.properties.contains_key("description"@) {
        name + "\n"@ + object.properties["description"@]
    } else {
        name
    }
}

proof fn lemma_property_push(
    entries: Seq<(Seq<char>, Seq<char>)>,
    entry: (Seq<char>, Seq<char>),
    key: Seq<char>,
)
    ensures
        property(entries.push(entry), key) == if property(entries, key) is Some {
            property(entries, key)
        } else if entry.0 == key {
            Some(entry.1)
        } else {
            None
        },
    decreases entries.len(),
{
    if entries.len() == 0 {
        assert(entries.push(entry).drop_first() == entries);
    } else {
        assert(entries.push(entry).drop_first() == entries.drop_first().push(entry));
        lemma_property_push(entries.drop_first(), entry, key);
    }
}

proof fn lemma_property_update(
    entries: Seq<(Seq<char>, Seq<char>)>,
    at: int,
    value: Seq<char>,
    key: Seq<char>,
)
    requires
        0 <= at < entries.len(),
        forall|j: int| 0 <= j < at ==> (#[trigger] entries[j]).0 != entries[at].0,
    ensures
        property(entries.update(at, (entries[at].0, value)), key) == if key == entries[at].0 {
            Some(value)
        } else {
            property(entries, key)
        },
    decreases entries.len(),
{
    let after = entries.update(at, (entries[at].0, value));
    if at == 0 {
        assert(after.drop_first() == entries.drop_first());
    } else {
        assert(after.drop_first() == entries.drop_first().update(
            at - 1,
            (entries.drop_first()[at - 1].0, value),
        ));
        assert forall|j: int| 0 <= j < at - 1 implies (#[trigger] entries.drop_first()[j]).0
            != entries.drop_first()[at - 1].0 by {
            assert(entries.drop_first()[j] == entries[j + 1]);
        }
        lemma_property_update(entries.drop_first(), at - 1, value, key);
        assert(entries[0].0 != entries[at].0);
    }
}

impl Object {
    /// The entries of the table as plain values, in storage order.
    pub closed spec fn entries(&self) -> Seq<(Seq<char>, Seq<char>)> {
        self.properties@.map_values(|e: (String, String)| (e.0@, e.1@))
    }

    /// A thing without a name and without properties.
    pub fn new() -> (object: Object)
        ensures
            object@.name is None,
            object@.properties == Map::<Seq<char>, Seq<char>>::empty(),
    {
        let object = Object { name: None, properties: Vec::new() };
        assert(object@.properties =~= Map::<Seq<char>, Seq<char>>::empty());
        object
    }

    /// A thing called `name`, without properties.
    pub fn named(name: &str) -> (object: Object)
        ensures
            object@.name == Some(name@),
            object@.properties == Map::<Seq<char>, Seq<char>>::empty(),
    {
        let object = Object { name: Some(name.to_owned()), properties: Vec::new() };
        assert(object@.properties =~= Map::<Seq<char>, Seq<char>>::empty());
        object
    }

    /// The display name, if the thing has one.
    pub fn name(&self) -> (name: Option<&String>)
        ensures
            match self@.name {
                Some(text) => name matches Some(n) && n@ == text,
                None => name is None,
            },
    {
        match &self.name {
            Some(name) => Some(name),
            None => None,
        }
    }

    /// The value stored under `key`, if there is one.
    pub fn get(&self, key: &str) -> (value: Option<&String>)
        ensures
            match value {
                Some(text) => self@.properties.contains_key(key@) && self@.properties[key@]
                    == text@,
                None => !self@.properties.contains_key(key@),
            },
    {
        let ghost entries = self.entries();
        let mut i: usize = 0;
        assert(entries.skip(0) == entries);
        while i < self.properties.len()
            invariant
                i <= self.properties.len(),
                entries == self.entries(),
                property(entries, key@) == property(entries.skip(i as int), key@),
            decreases self.properties.len() - i,
        {
            assert(entries.skip(i as int)[0] == (
                self.properties[i as int].0@,
                self.properties[i as int].1@,
            ));
            assert(entries.skip(i as int).drop_first() == entries.skip(i + 1));
            if str_eq(self.properties[i].0.as_str(), key) {
                return Some(&self.properties[i].1);
            }
            i += 1;
        }
        None
    }

    /// Stores `value` under `key`, in place of what was stored there.
    pub fn insert(&mut self, key: String, value: String)
        ensures
            final(self)@.name == old(self)@.name,
            final(self)@.properties == old(self)@.properties.insert(key@, value@),
    {
        let ghost entries = self.entries();
        let mut i: usize = 0;
        while i < self.properties.len()
            invariant
                i <= self.properties.len(),
                entries == self.entries(),
                *self == *old(self),
                forall|j: int| 0 <= j < i ==> (#[trigger] entries[j]).0 != key@,
            decreases self.properties.len() - i,
        {
            assert(entries[i as int] == (
                self.properties[i as int].0@,
                self.properties[i as int].1@,
            ));
            if self.properties[i].0 == key {
                proof {
                    lemma_property_update(entries, i as int, value@, key@);
                    assert forall|q: Seq<char>| true implies property(
                        entries.update(i as int, (key@, value@)),
                        q,
                    ) == (if q == key@ {
                        Some(value@)
                    } else {
                        property(entries, q)
                    }) by {
                        lemma_property_update(entries, i as int, value@, q);
                    }
                }
                self.properties.set(i, (key, value));
                assert(self.entries() == entries.update(i as int, (key@, value@)));
                assert(final(self)@.properties =~= old(self)@.properties.insert(key@, value@));
                return ;
            }
            i += 1;
        }
        proof {
            assert forall|q: Seq<char>| true implies property(entries.push((key@, value@)), q) == (
            if property(entries, q) is Some {
                property(entries, q)
            } else if q == key@ {
                Some(value@)
            } else {
                None
            }) by {
                lemma_property_push(entries, (key@, value@), q);
            }
            lemma_absent(entries, key@);
        }
        self.properties.push((key, value));
        assert(self.entries() == entries.push((key@, value@)));
        assert(final(self)@.properties =~= old(self)@.properties.insert(key@, value@));
    }
}

proof fn lemma_absent(entries: Seq<(Seq<char>, Seq<char>)>, key: Seq<char>)
    requires
        forall|j: int| 0 <= j < entries.len() ==> (#[trigger] entries[j]).0 != key,
    ensures
        property(entries, key) is None,
    decreases entries.len(),
{
    if entries.len() > 0 {
        assert forall|j: int| 0 <= j < entries.drop_first().len() implies (
        #[trigger] entries.drop_first()[j]).0 != key by {
            assert(entries.drop_first()[j] == entries[j + 1]);
        }
        lemma_absent(entries.drop_first(), key);
    }
}

impl View for Object {
    type V = ObjectView;

    closed spec fn view(&self) -> ObjectView {
        ObjectView {
            name: match self.name {
                Some(name) => Some(name@),
                None => None,
            },
            properties: table(self.entries()),
        }
    }
}

/// Whether two texts hold the same characters.
fn str_eq(a: &str, b: &str) -> (same: bool)
    ensures
        same == (a@ == b@),
{
    let x = a.to_owned();
    let y = b.to_owned();
    x == y
}

} // verus!
