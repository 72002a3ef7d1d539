//! The document: a map from section name to section.

use crate::types::{entries_view, EntryModel, InfEntry, InfSection};
use vstd::prelude::*;

verus! {

/// The sections of a document, keyed by name.
///
/// As a mathematical value the map takes each name to the entries of the
/// section stored under it.
#[derive(Debug, Clone, PartialEq)]
pub struct SectionMap {
    items: Vec<InfSection>,
}

/// The position of the section named `name` among `items`, or `items.len()`.
pub open spec fn index_of(items: Seq<InfSection>, name: Seq<char>) -> int
    decreases items.len(),
{
    if items.len() == 0 {
        0
    } else if items[0].name@ == name {
        0
    } else {
        1 + index_of(items.skip(1), name)
    }
}

pub proof fn lemma_index_of(items: Seq<InfSection>, name: Seq<char>)
    ensures
        0 <= index_of(items, name) <= items.len(),
        index_of(items, name) < items.len() ==> items[index_of(items, name)].name@ == name,
        forall|j: int| 0 <= j < index_of(items, name) ==> items[j].name@ != name,
    decreases items.len(),
{
    if items.len() > 0 && items[0].name@ != name {
        let t = items.skip(1);
        lemma_index_of(t, name);
        assert forall|j: int| 0 <= j < index_of(items, name) implies items[j].name@ != name by {
            if j > 0 {
                assert(t[j - 1] == items[j]);
            }
        }
    }
}

/// The first position that holds `name` is the one that `index_of` gives.
pub proof fn lemma_index_of_unique(items: Seq<InfSection>, name: Seq<char>, i: int)
    requires
        0 <= i <= items.len(),
        forall|j: int| 0 <= j < i ==> items[j].name@ != name,
        i < items.len() ==> items[i].name@ == name,
    ensures
        index_of(items, name) == i,
{
    lemma_index_of(items, name);
}

/// No two of the sections have the same name.
pub open spec fn distinct_names(items: Seq<InfSection>) -> bool {
    forall|i: int, j: int| 0 <= i < j < items.len() ==> items[i].name@ != items[j].name@
}

impl View for SectionMap {
    type V = Map<Seq<char>, Seq<EntryModel>>;

    closed spec fn view(&self) -> Map<Seq<char>, Seq<EntryModel>> {
        Map::new(
            |k: Seq<char>| index_of(self.items@, k) < self.items@.len(),
            |k: Seq<char>| self.items@[index_of(self.items@, k)]@.entries,
        )
    }
}

impl SectionMap {
    /// Every section is held once: no two of the sections held have the
    /// same name. This holds of a new map, and inserting a section and
    /// appending an entry keep it.
    pub closed spec fn wf(&self) -> bool {
        distinct_names(self.items@)
    }

    /// The empty document.
    pub fn new() -> (out: SectionMap)
        ensures
            out.wf(),
            out@ == Map::<Seq<char>, Seq<EntryModel>>::empty(),
    {
        let out = SectionMap { items: Vec::new() };
        assert(out@ =~= Map::<Seq<char>, Seq<EntryModel>>::empty());
        out
    }

    fn find(&self, name: &String) -> (out: usize)
        ensures
            out == index_of(self.items@, name@),
            out <= self.items@.len(),
    {
        let mut i: usize = 0;
        assert(self.items@.skip(0) == self.items@);
        while i < self.items.len()
            invariant
                i <= self.items.len(),
                index_of(self.items@, name@) == i + index_of(self.items@.skip(i as int), name@),
            decreases self.items.len() - i,
        {
            if self.items[i].name == *name {
                return i;
            }
            assert(self.items@.skip(i as int).skip(1) == self.items@.skip(i as int + 1));
            i += 1;
        }
        i
    }

    /// Whether a section named `name` is present.
    pub fn contains_key(&self, name: &str) -> (out: bool)
        ensures
            out == self@.contains_key(name@),
    {
        let key = name.to_owned();
        self.find(&key) < self.items.len()
    }

    /// The section named `name`, if present.
    pub fn get(&self, name: &str) -> (out: Option<&InfSection>)
        ensures
            match out {
                Some(s) => self@.contains_key(name@) && s.name@ == name@ && s@.entries
                    == self@[name@],
                None => !self@.contains_key(name@),
            },
    {
        let key = name.to_owned();
        let i = self.find(&key);
        if i < self.items.len() {
            proof {
                lemma_index_of(self.items@, name@);
            }
            Some(&self.items[i])
        } else {
            None
        }
    }

    /// The names of the sections held, each of them once.
    pub fn names(&self) -> (out: Vec<String>)
        requires
            self.wf(),
        ensures
            forall|k: Seq<char>|
                self@.contains_key(k) <==> exists|i: int| 0 <= i < out.len() && out[i]@ == k,
            forall|i: int, j: int| 0 <= i < j < out.len() ==> out[i]@ != out[j]@,
    {
        let mut out: Vec<String> = Vec::new();
        let mut i: usize = 0;
        while i < self.items.len()
            invariant
                i <= self.items.len(),
                out.len() == i,
                forall|j: int| 0 <= j < i ==> out[j]@ == self.items@[j].name@,
            decreases self.items.len() - i,
        {
            out.push(self.items[i].name.clone());
            i += 1;
        }
        proof {
            assert forall|k: Seq<char>|
                self@.contains_key(k) <==> exists|i: int| 0 <= i < out.len() && out[i]@ == k by {
                lemma_index_of(self.items@, k);
                if exists|i: int| 0 <= i < out.len() && out[i]@ == k {
                    let i = choose|i: int| 0 <= i < out.len() && out[i]@ == k;
                    assert(self.items@[i].name@ == k);
                }
                if self@.contains_key(k) {
                    assert(out[index_of(self.items@, k)]@ == k);
                }
            }
        }
        out
    }

    /// Puts `section` under its name, replacing a section of the same name.
    pub fn insert(&mut self, section: InfSection)
        ensures
            final(self)@ == old(self)@.insert(section.name@, section@.entries),
            old(self).wf() ==> final(self).wf(),
    {
        proof {
            lemma_index_of(self.items@, section.name@);
        }
        let ghost before = self.items@;
        let ghost name = section.name@;
        let i = self.find(&section.name);
        if i < self.items.len() {
            self.items[i] = section;
        } else {
            self.items.push(section);
        }
        proof {
            let after = self.items@;
            assert(forall|j: int| 0 <= j < before.len() && j != i ==> after[j] == before[j]);
            assert forall|k: Seq<char>|
                index_of(after, k) == if k == name {
                    i as int
                } else if index_of(before, k) < before.len() {
                    index_of(before, k)
                } else {
                    after.len() as int
                } by {
                lemma_index_of(before, k);
                if k == name {
                    lemma_index_of_unique(after, k, i as int);
                } else if index_of(before, k) < before.len() {
                    lemma_index_of_unique(after, k, index_of(before, k));
                } else {
                    lemma_index_of_unique(after, k, after.len() as int);
                }
            }
            assert(after[i as int] == section);
            let m1 = self@;
            let m2 = old(self)@.insert(name, section@.entries);
            assert forall|k: Seq<char>| m1.contains_key(k) == m2.contains_key(k) by {}
            assert forall|k: Seq<char>| m1.contains_key(k) implies m1[k] == m2[k] by {
                lemma_index_of(before, k);
                lemma_index_of(before, name);
                if k != name {
                    assert(old(self)@.contains_key(k));
                    assert(m2[k] == old(self)@[k]);
                    assert(after[index_of(before, k)] == before[index_of(before, k)]);
                }
            }
            assert(m1 =~= m2);
        }
    }

    /// Appends `entry` to the section named `name`; without such a section
    /// the document is left as it is.
    pub fn push_entry(&mut self, name: &str, entry: InfEntry)
        ensures
            final(self)@ == if old(self)@.contains_key(name@) {
                old(self)@.insert(name@, old(self)@[name@].push(entry@))
            } else {
                old(self)@
            },
            old(self).wf() ==> final(self).wf(),
    {
        proof {
            lemma_index_of(self.items@, name@);
        }
        let ghost before = self.items@;
        let key = name.to_owned();
        let i = self.find(&key);
        if i < self.items.len() {
            self.items[i].entries.push(entry);
            proof {
                let after = self.items@;
                assert(after[i as int].name@ == name@);
                assert(forall|j: int| 0 <= j < after.len() ==> after[j].name@ == before[j].name@);
                assert(forall|j: int| 0 <= j < before.len() && j != i ==> after[j] == before[j]);
                assert forall|k: Seq<char>| index_of(after, k) == index_of(before, k) by {
                    lemma_index_of(before, k);
                    lemma_index_of_unique(after, k, index_of(before, k));
                }
                assert(entries_view(after[i as int].entries@) =~= entries_view(
                    before[i as int].entries@,
                ).push(entry@));
                let m1 = self@;
                let m2 = old(self)@.insert(name@, old(self)@[name@].push(entry@));
                assert forall|k: Seq<char>| m1.contains_key(k) == m2.contains_key(k) by {}
                assert forall|k: Seq<char>| m1.contains_key(k) implies m1[k] == m2[k] by {
                lemma_index_of(before, k);
                lemma_index_of(before, name@);
                if k != name@ {
                    assert(old(self)@.contains_key(k));
                    assert(m2[k] == old(self)@[k]);
                    assert(after[index_of(before, k)] == before[index_of(before, k)]);
                }
            }
                assert(m1 =~= m2);
            }
        }
    }
}

/// A whole INF file: its sections, and the strings that `%token%`
/// placeholders in their values refer to, as pairs of token and text.
#[derive(Debug, Clone, PartialEq)]
pub struct InfFile {
    pub sections: SectionMap,
    pub strings: Vec<(String, String)>,
}

impl Default for SectionMap {
    fn default() -> (out: SectionMap)
        ensures
            out.wf(),
            out@ == Map::<Seq<char>, Seq<EntryModel>>::empty(),
    {
        SectionMap::new()
    }
}

} // verus!
