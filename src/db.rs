//! The database: collections by name, and the names deleted since the last
//! save (tombstones), which tell the store which files to remove.

use vstd::prelude::*;
use crate::collection::{has_id, views, Collection, CollectionView, Distance};
use crate::embedding::Embedding;
use crate::text::{copy_string, str_equal};

verus! {

/// The errors of database operations.
#[derive(Clone, Copy, Debug, PartialEq, Eq, Structural)]
pub enum Error {
    /// A collection or embedding of that name already exists.
    UniqueViolation,
    /// No collection or embedding of that name exists.
    NotFound,
    /// A vector's length differs from its collection's dimension.
    DimensionMismatch,
}

impl Error {
    /// A sentence describing the error.
    pub fn message(&self) -> (r: &'static str)
        ensures
            *self == Error::UniqueViolation ==> r@ == "Collection already exists"@,
            *self == Error::NotFound ==> r@ == "Collection doesn't exist"@,
            *self == Error::DimensionMismatch ==> r@
                == "The dimension of the vector doesn't match the dimension of the collection"@,
    {
        match self {
            Error::UniqueViolation => "Collection already exists",
            Error::NotFound => "Collection doesn't exist",
            Error::DimensionMismatch => "The dimension of the vector doesn't match the dimension of the collection",
        }
    }
}

/// Collections by name, and tombstones.
#[derive(Debug)]
pub struct Db {
    collections: Vec<(String, Collection)>,
    deleted: Vec<String>,
}

/// The mathematical value of a database.
pub struct DbView {
    /// The live collections, by name.
    pub collections: Map<Seq<char>, CollectionView>,
    /// Names deleted since the last save, oldest first.
    pub deleted: Seq<Seq<char>>,
}

/// The map that a list of named collections stands for.
pub open spec fn entries_map(s: Seq<(String, Collection)>) -> Map<Seq<char>, CollectionView>
    decreases s.len(),
{
    if s.len() == 0 {
        Map::empty()
    } else {
        entries_map(s.drop_last()).insert(s.last().0@, s.last().1@)
    }
}

/// No two entries share a name.
pub open spec fn names_distinct(s: Seq<(String, Collection)>) -> bool {
    forall|i: int, j: int| 0 <= i < j < s.len() ==> s[i].0@ != s[j].0@
}

/// The views of a list of strings.
pub open spec fn string_views(s: Seq<String>) -> Seq<Seq<char>> {
    s.map_values(|x: String| x@)
}

/// `i` is the position of the first occurrence of `name`.
pub open spec fn first_occurrence(names: Seq<Seq<char>>, name: Seq<char>, i: int) -> bool {
    0 <= i < names.len() && names[i] == name && forall|j: int| 0 <= j < i ==> names[j] != name
}

/// `names` with the first occurrence of `name` taken out, where it occurs.
pub open spec fn without(names: Seq<Seq<char>>, name: Seq<char>) -> Seq<Seq<char>> {
    if exists|i: int| first_occurrence(names, name, i) {
        names.remove(choose|i: int| first_occurrence(names, name, i))
    } else {
        names
    }
}

/// A first occurrence is unique.
pub proof fn lemma_first_occurrence_unique(names: Seq<Seq<char>>, name: Seq<char>, i: int, j: int)
    requires
        first_occurrence(names, name, i),
        first_occurrence(names, name, j),
    ensures
        i == j,
{
    if i < j {
        assert(names[i] != name);
    } else if j < i {
        assert(names[j] != name);
    }
}

/// A new collection: empty and dirty.
pub open spec fn fresh_collection(dimension: nat, distance: Distance) -> CollectionView {
    CollectionView { dimension, distance, embeddings: Seq::empty(), dirty: true }
}

/// Some live collection has unsaved changes.
pub open spec fn any_dirty(c: Map<Seq<char>, CollectionView>) -> bool {
    exists|n: Seq<char>| c.contains_key(n) && c[n].dirty
}

impl DbView {
    /// The invariant: collections well formed, tombstones distinct, and no
    /// name both live and tombstoned.
    pub open spec fn wf(self) -> bool {
        &&& forall|n: Seq<char>| #[trigger]
            self.collections.contains_key(n) ==> self.collections[n].wf()
        &&& forall|i: int, j: int|
            0 <= i < j < self.deleted.len() ==> self.deleted[i] != self.deleted[j]
        &&& forall|i: int|
            0 <= i < self.deleted.len() ==> !self.collections.contains_key(#[trigger] self.deleted[i])
    }

    /// Unsaved state: a tombstone or a dirty collection.
    pub open spec fn is_dirty(self) -> bool {
        self.deleted.len() > 0 || any_dirty(self.collections)
    }

    /// The database after `create(name, dimension, distance)` succeeds.
    pub open spec fn created(self, name: Seq<char>, dimension: nat, distance: Distance) -> DbView {
        DbView {
            collections: self.collections.insert(name, fresh_collection(dimension, distance)),
            deleted: without(self.deleted, name),
        }
    }

    /// The database after `rename(name, new_name)` succeeds.
    pub open spec fn renamed(self, name: Seq<char>, new_name: Seq<char>) -> DbView {
        DbView {
            collections: self.collections.remove(name).insert(
                new_name,
                CollectionView { dirty: true, ..self.collections[name] },
            ),
            deleted: without(self.deleted.push(name), new_name),
        }
    }

    /// The database after `delete(name)` succeeds.
    pub open spec fn deleted_collection(self, name: Seq<char>) -> DbView {
        DbView { collections: self.collections.remove(name), deleted: self.deleted.push(name) }
    }
}

/// The names are pairwise distinct.
pub open spec fn distinct_names(d: Seq<Seq<char>>) -> bool {
    forall|i: int, j: int| 0 <= i < j < d.len() ==> d[i] != d[j]
}

/// Taking a name out of distinct names keeps the others and only them.
pub proof fn lemma_without(d: Seq<Seq<char>>, n: Seq<char>)
    requires
        distinct_names(d),
    ensures
        distinct_names(without(d, n)),
        forall|x: Seq<char>| without(d, n).contains(x) <==> (d.contains(x) && x != n),
{
    if d.contains(n) {
        let c0 = choose|c: int| 0 <= c < d.len() && d[c] == n;
        assert forall|j: int| 0 <= j < c0 implies d[j] != n by {}
        assert(first_occurrence(d, n, c0));
        let c = choose|c: int| first_occurrence(d, n, c);
        lemma_first_occurrence_unique(d, n, c, c0);
        let e = d.remove(c);
        assert forall|i: int, j: int| 0 <= i < j < e.len() implies e[i] != e[j] by {
            let i2 = if i < c { i } else { i + 1 };
            let j2 = if j < c { j } else { j + 1 };
            assert(e[i] == d[i2] && e[j] == d[j2]);
        }
        assert forall|x: Seq<char>| e.contains(x) <==> (d.contains(x) && x != n) by {
            if e.contains(x) {
                let i = choose|i: int| 0 <= i < e.len() && e[i] == x;
                let i2 = if i < c { i } else { i + 1 };
                assert(e[i] == d[i2]);
                assert(i2 != c);
            }
            if d.contains(x) && x != n {
                let i = choose|i: int| 0 <= i < d.len() && d[i] == x;
                assert(i != c);
                if i < c {
                    assert(e[i] == x);
                } else {
                    assert(e[i - 1] == x);
                }
            }
        }
    }
}

proof fn lemma_entries_dom(s: Seq<(String, Collection)>, k: Seq<char>)
    ensures
        entries_map(s).contains_key(k) <==> exists|i: int| 0 <= i < s.len() && s[i].0@ == k,
    decreases s.len(),
{
    if s.len() > 0 {
        lemma_entries_dom(s.drop_last(), k);
        if entries_map(s.drop_last()).contains_key(k) {
            let i = choose|i: int| 0 <= i < s.drop_last().len() && s.drop_last()[i].0@ == k;
            assert(s[i].0@ == k);
        }
        if exists|i: int| 0 <= i < s.len() && s[i].0@ == k {
            let i = choose|i: int| 0 <= i < s.len() && s[i].0@ == k;
            if i < s.len() - 1 {
                assert(s.drop_last()[i].0@ == k);
            }
        }
    }
}

proof fn lemma_entries_value(s: Seq<(String, Collection)>, i: int)
    requires
        names_distinct(s),
        0 <= i < s.len(),
    ensures
        entries_map(s).contains_key(s[i].0@),
        entries_map(s)[s[i].0@] == s[i].1@,
    decreases s.len(),
{
    if i < s.len() - 1 {
        lemma_entries_value(s.drop_last(), i);
        assert(s.drop_last()[i] == s[i]);
    }
}

proof fn lemma_entries_update(s: Seq<(String, Collection)>, i: int, x: (String, Collection))
    requires
        names_distinct(s),
        0 <= i < s.len(),
        x.0@ == s[i].0@,
    ensures
        names_distinct(s.update(i, x)),
        entries_map(s.update(i, x)) == entries_map(s).insert(x.0@, x.1@),
{
    let t = s.update(i, x);
    assert(names_distinct(t));
    let m = entries_map(s).insert(x.0@, x.1@);
    assert forall|k: Seq<char>| entries_map(t).contains_key(k) <==> m.contains_key(k) by {
        lemma_entries_dom(t, k);
        lemma_entries_dom(s, k);
        if exists|j: int| 0 <= j < s.len() && s[j].0@ == k {
            let j = choose|j: int| 0 <= j < s.len() && s[j].0@ == k;
            assert(t[j].0@ == k);
        }
        if exists|j: int| 0 <= j < t.len() && t[j].0@ == k {
            let j = choose|j: int| 0 <= j < t.len() && t[j].0@ == k;
            assert(s[j].0@ == k);
        }
    }
    assert forall|k: Seq<char>| #[trigger] entries_map(t).contains_key(k) implies entries_map(t)[k]
        == m[k] by {
        lemma_entries_dom(t, k);
        let j = choose|j: int| 0 <= j < t.len() && t[j].0@ == k;
        lemma_entries_value(t, j);
        if j != i {
            lemma_entries_value(s, j);
        }
    }
    assert(entries_map(t) =~= m);
}

proof fn lemma_entries_update_any(s: Seq<(String, Collection)>, i: int)
    requires
        names_distinct(s),
        0 <= i < s.len(),
    ensures
        forall|x: (String, Collection)|
            x.0@ == s[i].0@ ==> names_distinct(#[trigger] s.update(i, x)) && entries_map(
                s.update(i, x),
            ) == entries_map(s).insert(x.0@, x.1@),
{
    assert forall|x: (String, Collection)| x.0@ == s[i].0@ implies names_distinct(
        #[trigger] s.update(i, x),
    ) && entries_map(s.update(i, x)) == entries_map(s).insert(x.0@, x.1@) by {
        lemma_entries_update(s, i, x);
    }
}

proof fn lemma_entries_remove(s: Seq<(String, Collection)>, i: int)
    requires
        names_distinct(s),
        0 <= i < s.len(),
    ensures
        names_distinct(s.remove(i)),
        entries_map(s.remove(i)) == entries_map(s).remove(s[i].0@),
{
    let t = s.remove(i);
    assert forall|a: int, b: int| 0 <= a < b < t.len() implies t[a].0@ != t[b].0@ by {
        let a2 = if a < i { a } else { a + 1 };
        let b2 = if b < i { b } else { b + 1 };
        assert(t[a] == s[a2] && t[b] == s[b2]);
    }
    let m = entries_map(s).remove(s[i].0@);
    assert forall|k: Seq<char>| entries_map(t).contains_key(k) <==> m.contains_key(k) by {
        lemma_entries_dom(t, k);
        lemma_entries_dom(s, k);
        if exists|j: int| 0 <= j < t.len() && t[j].0@ == k {
            let j = choose|j: int| 0 <= j < t.len() && t[j].0@ == k;
            let j2 = if j < i { j } else { j + 1 };
            assert(s[j2].0@ == k);
        }
        if k != s[i].0@ && exists|j: int| 0 <= j < s.len() && s[j].0@ == k {
            let j = choose|j: int| 0 <= j < s.len() && s[j].0@ == k;
            if j < i {
                assert(t[j].0@ == k);
            } else {
                assert(t[j - 1].0@ == k);
            }
        }
    }
    assert forall|k: Seq<char>| #[trigger] entries_map(t).contains_key(k) implies entries_map(t)[k]
        == m[k] by {
        lemma_entries_dom(t, k);
        let j = choose|j: int| 0 <= j < t.len() && t[j].0@ == k;
        lemma_entries_value(t, j);
        let j2 = if j < i { j } else { j + 1 };
        assert(t[j] == s[j2]);
        lemma_entries_value(s, j2);
    }
    assert(entries_map(t) =~= m);
}

proof fn lemma_entries_push(s: Seq<(String, Collection)>, x: (String, Collection))
    requires
        names_distinct(s),
        !entries_map(s).contains_key(x.0@),
    ensures
        names_distinct(s.push(x)),
        entries_map(s.push(x)) == entries_map(s).insert(x.0@, x.1@),
{
    assert(s.push(x).drop_last() =~= s);
    assert forall|a: int, b: int| 0 <= a < b < s.push(x).len() implies s.push(x)[a].0@ != s.push(
        x,
    )[b].0@ by {
        if b == s.len() {
            lemma_entries_dom(s, x.0@);
            assert(s[a].0@ != x.0@);
        }
    }
}

impl View for Db {
    type V = DbView;

    closed spec fn view(&self) -> DbView {
        DbView { collections: entries_map(self.collections@), deleted: string_views(self.deleted@) }
    }
}

impl Db {
    /// The invariant of the database: that of its view, and a
    /// representation with one entry per name.
    pub open spec fn wf(&self) -> bool {
        self.entries_distinct() && self@.wf()
    }

    /// One entry per collection name.
    pub closed spec fn entries_distinct(&self) -> bool {
        names_distinct(self.collections@)
    }

    /// An empty database.
    pub fn new() -> (r: Db)
        ensures
            r.wf(),
            r@.collections == Map::<Seq<char>, CollectionView>::empty(),
            r@.deleted == Seq::<Seq<char>>::empty(),
    {
        let r = Db { collections: Vec::new(), deleted: Vec::new() };
        assert(r@.deleted =~= Seq::<Seq<char>>::empty());
        r
    }

    /// The position of the collection called `name`.
    fn index_of(&self, name: &str) -> (r: Option<usize>)
        requires
            self.wf(),
        ensures
            match r {
                Some(i) => i < self.collections@.len() && self.collections@[i as int].0@ == name@
                    && self@.collections.contains_key(name@) && self@.collections[name@]
                    == self.collections@[i as int].1@,
                None => !self@.collections.contains_key(name@),
            },
    {
        let mut i: usize = 0;
        while i < self.collections.len()
            invariant
                self.wf(),
                0 <= i <= self.collections@.len(),
                forall|j: int| 0 <= j < i ==> self.collections@[j].0@ != name@,
            decreases self.collections@.len() - i,
        {
            if str_equal(self.collections[i].0.as_str(), name) {
                proof {
                    lemma_entries_value(self.collections@, i as int);
                }
                return Some(i);
            }
            i = i + 1;
        }
        proof {
            lemma_entries_dom(self.collections@, name@);
        }
        None
    }

    /// Whether a collection called `name` exists.
    pub fn contains(&self, name: &str) -> (r: bool)
        requires
            self.wf(),
        ensures
            r == self@.collections.contains_key(name@),
    {
        self.index_of(name).is_some()
    }

    /// Creates an empty collection called `name`; fails with
    /// `UniqueViolation` where one exists. The new collection is dirty, and
    /// `name` is no longer a tombstone. Returns a copy of the new collection.
    pub fn create_collection(&mut self, name: String, dimension: usize, distance: Distance) -> (r:
        Result<Collection, Error>)
        requires
            old(self).wf(),
        ensures
            final(self).wf(),
            old(self)@.collections.contains_key(name@) ==> r == Err::<Collection, Error>(
                Error::UniqueViolation,
            ) && final(self)@ == old(self)@,
            !old(self)@.collections.contains_key(name@) ==> r is Ok && r->Ok_0@ == fresh_collection(
                dimension as nat,
                distance,
            ) && final(self)@ == old(self)@.created(name@, dimension as nat, distance),
            !old(self)@.collections.contains_key(name@) ==> forall|x: Seq<char>|
                #[trigger] final(self)@.deleted.contains(x) <==> (old(self)@.deleted.contains(x) && x
                    != name@),
    {
        if self.contains(name.as_str()) {
            return Err(Error::UniqueViolation);
        }
        self.remove_deleted_raw(&name);
        let collection = Collection::new(dimension, distance);
        proof {
            lemma_entries_push(self.collections@, (name, collection));
            lemma_without(old(self)@.deleted, name@);
        }
        self.collections.push((name, collection));
        proof {
            let v = self@;
            assert(v.collections == old(self)@.collections.insert(
                name@,
                fresh_collection(dimension as nat, distance),
            ));
            assert forall|i: int| 0 <= i < v.deleted.len() implies !v.collections.contains_key(
                #[trigger] v.deleted[i],
            ) by {
                assert(v.deleted.contains(v.deleted[i]));
            }
            assert(v.collections[name@].embeddings.len() == 0);
        }
        Ok(Collection::new(dimension, distance))
    }

    /// Takes `name` out of the tombstones, keeping the rest in order.
    fn remove_deleted_raw(&mut self, name: &String) -> (r: bool)
        ensures
            r == old(self)@.deleted.contains(name@),
            final(self)@.deleted == without(old(self)@.deleted, name@),
            final(self).collections == old(self).collections,
    {
        let ghost d = old(self)@.deleted;
        let mut i: usize = 0;
        while i < self.deleted.len()
            invariant
                self.deleted@ == old(self).deleted@,
                self.collections == old(self).collections,
                d == string_views(self.deleted@),
                0 <= i <= self.deleted@.len(),
                forall|j: int| 0 <= j < i ==> d[j] != name@,
            decreases self.deleted@.len() - i,
        {
            if self.deleted[i] == *name {
                proof {
                    assert(d[i as int] == name@);
                    assert(d.contains(name@));
                    assert(first_occurrence(d, name@, i as int));
                    let c = choose|c: int| first_occurrence(d, name@, c);
                    lemma_first_occurrence_unique(d, name@, c, i as int);
                }
                self.deleted.remove(i);
                assert(string_views(self.deleted@) =~= d.remove(i as int));
                return true;
            }
            i = i + 1;
        }
        proof {
            if d.contains(name@) {
                let c = choose|c: int| 0 <= c < d.len() && d[c] == name@;
                assert(d[c] != name@);
            }
            if exists|c: int| first_occurrence(d, name@, c) {
                let c = choose|c: int| first_occurrence(d, name@, c);
                assert(d[c] != name@);
            }
        }
        false
    }

    /// Takes `name` out of the tombstones; tells whether it was there.
    pub fn remove_deleted(&mut self, name: &String) -> (r: bool)
        requires
            old(self).wf(),
        ensures
            final(self).wf(),
            r == old(self)@.deleted.contains(name@),
            final(self)@ == (DbView { deleted: without(old(self)@.deleted, name@), ..old(self)@ }),
    {
        let r = self.remove_deleted_raw(name);
        proof {
            lemma_without(old(self)@.deleted, name@);
            let v = self@;
            assert forall|i: int| 0 <= i < v.deleted.len() implies !v.collections.contains_key(
                #[trigger] v.deleted[i],
            ) by {
                assert(v.deleted.contains(v.deleted[i]));
            }
        }
        r
    }

    /// Records `name` as deleted since the last save.
    pub fn add_deleted(&mut self, name: &str)
        requires
            old(self).wf(),
            !old(self)@.collections.contains_key(name@),
            !old(self)@.deleted.contains(name@),
        ensures
            final(self).wf(),
            final(self)@ == (DbView { deleted: old(self)@.deleted.push(name@), ..old(self)@ }),
    {
        let ghost d = old(self)@.deleted;
        let owned = name.to_string();
        proof {
            vstd::string::to_string_from_display_ensures_for_str(name, owned);
        }
        self.deleted.push(owned);
        proof {
            assert(string_views(self.deleted@) =~= d.push(name@));
            let e = d.push(name@);
            assert forall|i: int, j: int| 0 <= i < j < e.len() implies e[i] != e[j] by {
                if j == d.len() {
                    assert(d[i] != name@);
                }
            }
        }
    }

    /// Renames the collection `name` to `new_name`. Fails with
    /// `UniqueViolation` where `new_name` exists, else with `NotFound` where
    /// `name` does not. The collection becomes dirty, `name` a tombstone, and
    /// `new_name` no longer one.
    pub fn rename_collection(&mut self, name: &str, new_name: String) -> (r: Result<(), Error>)
        requires
            old(self).wf(),
        ensures
            final(self).wf(),
            old(self)@.collections.contains_key(new_name@) ==> r == Err::<(), Error>(
                Error::UniqueViolation,
            ) && final(self)@ == old(self)@,
            !old(self)@.collections.contains_key(new_name@) && !old(self)@.collections.contains_key(
                name@,
            ) ==> r == Err::<(), Error>(Error::NotFound) && final(self)@ == old(self)@,
            !old(self)@.collections.contains_key(new_name@) && old(self)@.collections.contains_key(
                name@,
            ) ==> r == Ok::<(), Error>(()) && final(self)@ == old(self)@.renamed(name@, new_name@),
            r is Ok ==> forall|x: Seq<char>|
                #[trigger] final(self)@.deleted.contains(x) <==> ((old(self)@.deleted.contains(x)
                    || x == name@) && x != new_name@),
    {
        if self.contains(new_name.as_str()) {
            return Err(Error::UniqueViolation);
        }
        let i = match self.index_of(name) {
            None => {
                return Err(Error::NotFound);
            },
            Some(i) => i,
        };
        proof {
            lemma_entries_remove(self.collections@, i as int);
        }
        let (_, mut collection) = self.collections.remove(i);
        proof {
            let v = self@;
            assert(v.collections == old(self)@.collections.remove(name@));
            assert forall|j: int| 0 <= j < v.deleted.len() implies !v.collections.contains_key(
                #[trigger] v.deleted[j],
            ) by {
                assert(old(self)@.deleted[j] == v.deleted[j]);
            }
            if v.deleted.contains(name@) {
                let j = choose|j: int| 0 <= j < v.deleted.len() && v.deleted[j] == name@;
                assert(old(self)@.deleted[j] == v.deleted[j]);
            }
        }
        self.add_deleted(name);
        self.remove_deleted(&new_name);
        collection.set_dirty();
        proof {
            lemma_entries_push(self.collections@, (new_name, collection));
            lemma_without(old(self)@.deleted.push(name@), new_name@);
            let pushed = old(self)@.deleted.push(name@);
            assert forall|x: Seq<char>| pushed.contains(x) <==> (old(self)@.deleted.contains(x) || x
                == name@) by {
                if pushed.contains(x) && x != name@ {
                    let i = choose|i: int| 0 <= i < pushed.len() && pushed[i] == x;
                    assert(old(self)@.deleted[i] == x);
                }
                if old(self)@.deleted.contains(x) {
                    let i = choose|i: int| 0 <= i < old(self)@.deleted.len() && old(self)@.deleted[i] == x;
                    assert(pushed[i] == x);
                }
                if x == name@ {
                    assert(pushed[pushed.len() - 1] == x);
                }
            }
        }
        self.collections.push((new_name, collection));
        proof {
            let v = self@;
            assert(v.collections =~= old(self)@.renamed(name@, new_name@).collections);
            assert forall|j: int| 0 <= j < v.deleted.len() implies !v.collections.contains_key(
                #[trigger] v.deleted[j],
            ) by {
                assert(v.deleted.contains(v.deleted[j]));
            }
        }
        proof {
            let pushed = old(self)@.deleted.push(name@);
            assert(self@.deleted == without(pushed, new_name@));
            assert forall|x: Seq<char>| #[trigger] self@.deleted.contains(x) <==> ((old(
                self,
            )@.deleted.contains(x) || x == name@) && x != new_name@) by {
                assert(without(pushed, new_name@).contains(x) <==> (pushed.contains(x) && x
                    != new_name@));
            }
        }
        Ok(())
    }

    /// Deletes the collection `name`, which becomes a tombstone; fails with
    /// `NotFound` where it does not exist.
    pub fn delete_collection(&mut self, name: &str) -> (r: Result<(), Error>)
        requires
            old(self).wf(),
        ensures
            final(self).wf(),
            !old(self)@.collections.contains_key(name@) ==> r == Err::<(), Error>(Error::NotFound)
                && final(self)@ == old(self)@,
            old(self)@.collections.contains_key(name@) ==> r == Ok::<(), Error>(())
                && final(self)@ == old(self)@.deleted_collection(name@),
    {
        let i = match self.index_of(name) {
            None => {
                return Err(Error::NotFound);
            },
            Some(i) => i,
        };
        proof {
            lemma_entries_remove(self.collections@, i as int);
        }
        self.collections.remove(i);
        proof {
            let v = self@;
            assert(v.collections == old(self)@.collections.remove(name@));
            assert forall|j: int| 0 <= j < v.deleted.len() implies !v.collections.contains_key(
                #[trigger] v.deleted[j],
            ) by {
                assert(old(self)@.deleted[j] == v.deleted[j]);
            }
            if v.deleted.contains(name@) {
                let j = choose|j: int| 0 <= j < v.deleted.len() && v.deleted[j] == name@;
                assert(old(self)@.deleted[j] == v.deleted[j]);
            }
        }
        proof {
            let v = self@;
            assert(names_distinct(self.collections@));
            assert forall|n: Seq<char>| #[trigger] v.collections.contains_key(n) implies v.collections[n].wf() by {
                assert(old(self)@.collections.contains_key(n));
            }
            assert(v.deleted == old(self)@.deleted);
        }
        self.add_deleted(name);
        Ok(())
    }

    /// Appends `embedding` to the collection `collection_name` and marks it
    /// dirty. Fails with `NotFound` where the collection does not exist, with
    /// `UniqueViolation` where it holds the identifier already, and with
    /// `DimensionMismatch` where the vector's length is not its dimension.
    ///
    /// The vector is stored as given: for a cosine collection the caller
    /// hands over the normalised vector.
    pub fn insert_into_collection(&mut self, collection_name: &str, embedding: Embedding) -> (r:
        Result<(), Error>)
        requires
            old(self).wf(),
        ensures
            final(self).wf(),
            ({
                let c = old(self)@.collections[collection_name@];
                if !old(self)@.collections.contains_key(collection_name@) {
                    r == Err::<(), Error>(Error::NotFound) && final(self)@ == old(self)@
                } else if has_id(c.embeddings, embedding@.id) {
                    r == Err::<(), Error>(Error::UniqueViolation) && final(self)@ == old(self)@
                } else if embedding@.vector.len() != c.dimension {
                    r == Err::<(), Error>(Error::DimensionMismatch) && final(self)@ == old(self)@
                } else {
                    r == Ok::<(), Error>(()) && final(self)@ == (DbView {
                        collections: old(self)@.collections.insert(
                            collection_name@,
                            CollectionView {
                                embeddings: c.embeddings.push(embedding@),
                                dirty: true,
                                ..c
                            },
                        ),
                        ..old(self)@
                    })
                }
            }),
    {
        let i = match self.index_of(collection_name) {
            None => {
                return Err(Error::NotFound);
            },
            Some(i) => i,
        };
        if self.collections[i].1.position_of(embedding.id.as_str()).is_some() {
            return Err(Error::UniqueViolation);
        }
        if embedding.vector.len() != self.collections[i].1.dimension {
            return Err(Error::DimensionMismatch);
        }
        let ghost c = self.collections@[i as int].1@;
        let ghost e = embedding@;
        let (name, mut collection) = self.collections.remove(i);
        let ghost before = collection.embeddings@;
        collection.embeddings.push(embedding);
        collection.dirty = true;
        proof {
            assert(views(collection.embeddings@) =~= c.embeddings.push(e));
            let embs = c.embeddings.push(e);
            assert forall|a: int, b: int| 0 <= a < b < embs.len() implies embs[a].id != embs[b].id by {
                if b == c.embeddings.len() {
                    assert(c.embeddings[a].id != e.id);
                }
            }
            assert forall|a: int| 0 <= a < embs.len() implies (#[trigger] embs[a]).vector.len()
                == c.dimension by {
                if a < c.embeddings.len() {
                    assert(embs[a] == c.embeddings[a]);
                }
            }
        }
        let ghost removed = self.collections@;
        self.collections.insert(i, (name, collection));
        proof {
            assert(self.collections@ =~= old(self).collections@.update(i as int, (name, collection)));
            lemma_entries_update(old(self).collections@, i as int, (name, collection));
            let v = self@;
            assert forall|n: Seq<char>| #[trigger] v.collections.contains_key(n) implies v.collections[n].wf() by {
                if n != collection_name@ {
                    assert(old(self)@.collections.contains_key(n));
                }
            }
        }
        Ok(())
    }

    /// The collection called `name`, if any.
    pub fn get_collection(&self, name: &str) -> (r: Option<&Collection>)
        requires
            self.wf(),
        ensures
            match r {
                Some(c) => self@.collections.contains_key(name@) && c@ == self@.collections[name@],
                None => !self@.collections.contains_key(name@),
            },
    {
        match self.index_of(name) {
            Some(i) => Some(&self.collections[i].1),
            None => None,
        }
    }

    /// The collection called `name`, if any, for changing it in place.
    pub fn get_collection_mut(&mut self, name: &str) -> (r: Option<&mut Collection>)
        requires
            old(self).wf(),
        ensures
            match r {
                Some(c) => old(self)@.collections.contains_key(name@) && c@ == old(self)@.collections[name@] && final(self)@ == (DbView {
                    collections: old(self)@.collections.insert(name@, final(c)@),
                    ..old(self)@
                }) && (final(c)@.wf() ==> final(self).wf()),
                None => !old(self)@.collections.contains_key(name@) && final(self)@ == old(self)@,
            },
    {
        match self.index_of(name) {
            Some(i) => {
                proof {
                    lemma_entries_update_any(self.collections@, i as int);
                }
                Some(&mut self.collections[i].1)
            },
            None => None,
        }
    }

    /// The names of the live collections, each once, in no particular order.
    pub fn list(&self) -> (r: Vec<String>)
        requires
            self.wf(),
        ensures
            distinct_names(string_views(r@)),
            forall|n: Seq<char>|
                self@.collections.contains_key(n) <==> string_views(r@).contains(n),
    {
        let mut r: Vec<String> = Vec::new();
        let mut i: usize = 0;
        while i < self.collections.len()
            invariant
                self.wf(),
                0 <= i <= self.collections@.len(),
                r@.len() == i,
                forall|j: int| 0 <= j < i ==> r@[j]@ == #[trigger] self.collections@[j].0@,
            decreases self.collections@.len() - i,
        {
            r.push(copy_string(&self.collections[i].0));
            i = i + 1;
        }
        proof {
            let names = string_views(r@);
            assert forall|a: int, b: int| 0 <= a < b < names.len() implies names[a] != names[b] by {
                assert(names[a] == self.collections@[a].0@);
                assert(names[b] == self.collections@[b].0@);
            }
            assert forall|n: Seq<char>| self@.collections.contains_key(n) <==> names.contains(n) by {
                lemma_entries_dom(self.collections@, n);
                if self@.collections.contains_key(n) {
                    let j = choose|j: int| 0 <= j < self.collections@.len() && self.collections@[j].0@ == n;
                    assert(names[j] == n);
                }
                if names.contains(n) {
                    let j = choose|j: int| 0 <= j < names.len() && names[j] == n;
                    assert(self.collections@[j].0@ == n);
                }
            }
        }
        r
    }

    /// Whether anything awaits saving: a tombstone or a dirty collection.
    pub fn is_dirty(&self) -> (r: bool)
        requires
            self.wf(),
        ensures
            r == self@.is_dirty(),
    {
        if self.deleted.len() > 0 {
            return true;
        }
        let mut i: usize = 0;
        while i < self.collections.len()
            invariant
                self.wf(),
                0 <= i <= self.collections@.len(),
                forall|j: int| 0 <= j < i ==> !(#[trigger] self.collections@[j]).1.dirty,
            decreases self.collections@.len() - i,
        {
            if self.collections[i].1.dirty {
                proof {
                    lemma_entries_value(self.collections@, i as int);
                }
                return true;
            }
            i = i + 1;
        }
        proof {
            if any_dirty(self@.collections) {
                let n = choose|n: Seq<char>| self@.collections.contains_key(n) && self@.collections[n].dirty;
                lemma_entries_dom(self.collections@, n);
                let j = choose|j: int| 0 <= j < self.collections@.len() && self.collections@[j].0@ == n;
                lemma_entries_value(self.collections@, j);
            }
        }
        false
    }

    /// The tombstones, oldest first.
    pub fn tombstones(&self) -> (r: Vec<String>)
        ensures
            string_views(r@) == self@.deleted,
    {
        let mut r: Vec<String> = Vec::new();
        let mut i: usize = 0;
        while i < self.deleted.len()
            invariant
                0 <= i <= self.deleted@.len(),
                r@.len() == i,
                forall|j: int| 0 <= j < i ==> r@[j]@ == self.deleted@[j]@,
            decreases self.deleted@.len() - i,
        {
            r.push(copy_string(&self.deleted[i]));
            i = i + 1;
        }
        assert(string_views(r@) =~= string_views(self.deleted@));
        r
    }

    /// The names of the dirty collections, each once.
    pub fn dirty_names(&self) -> (r: Vec<String>)
        requires
            self.wf(),
        ensures
            distinct_names(string_views(r@)),
            forall|n: Seq<char>|
                string_views(r@).contains(n) <==> (self@.collections.contains_key(n)
                    && self@.collections[n].dirty),
    {
        let ghost coll = self.collections@;
        let mut r: Vec<String> = Vec::new();
        let ghost mut pos: Seq<int> = Seq::empty();
        let mut i: usize = 0;
        while i < self.collections.len()
            invariant
                self.wf(),
                coll == self.collections@,
                0 <= i <= coll.len(),
                pos.len() == r@.len(),
                forall|a: int|
                    0 <= a < r@.len() ==> 0 <= #[trigger] pos[a] < i && r@[a]@ == coll[pos[a]].0@
                        && coll[pos[a]].1.dirty,
                forall|a: int, b: int| 0 <= a < b < r@.len() ==> pos[a] < pos[b],
                forall|j: int|
                    0 <= j < i && (#[trigger] coll[j]).1.dirty ==> string_views(r@).contains(
                        coll[j].0@,
                    ),
            decreases coll.len() - i,
        {
            if self.collections[i].1.dirty {
                let ghost before = r@;
                r.push(copy_string(&self.collections[i].0));
                proof {
                    pos = pos.push(i as int);
                    assert forall|j: int| 0 <= j < i + 1 && (#[trigger] coll[j]).1.dirty implies string_views(
                        r@,
                    ).contains(coll[j].0@) by {
                        if j < i {
                            let a = choose|a: int| 0 <= a < before.len() && string_views(before)[a] == coll[j].0@;
                            assert(string_views(r@)[a] == coll[j].0@);
                        } else {
                            assert(string_views(r@)[before.len() as int] == coll[j].0@);
                        }
                    }
                }
            }
            i = i + 1;
        }
        proof {
            let names = string_views(r@);
            assert forall|a: int, b: int| 0 <= a < b < names.len() implies names[a] != names[b] by {
                assert(pos[a] < pos[b]);
                assert(names[a] == coll[pos[a]].0@);
                assert(names[b] == coll[pos[b]].0@);
            }
            assert forall|n: Seq<char>| names.contains(n) <==> (self@.collections.contains_key(n)
                && self@.collections[n].dirty) by {
                if names.contains(n) {
                    let a = choose|a: int| 0 <= a < names.len() && names[a] == n;
                    assert(0 <= pos[a] < i);
                    lemma_entries_value(coll, pos[a]);
                }
                if self@.collections.contains_key(n) && self@.collections[n].dirty {
                    lemma_entries_dom(coll, n);
                    let j = choose|j: int| 0 <= j < coll.len() && coll[j].0@ == n;
                    lemma_entries_value(coll, j);
                    assert(coll[j].1.dirty);
                }
            }
        }
        r
    }

    /// Records that the collection `name` was saved: it is no longer dirty.
    /// Tells whether it exists.
    pub fn mark_saved(&mut self, name: &str) -> (r: bool)
        requires
            old(self).wf(),
        ensures
            final(self).wf(),
            r == old(self)@.collections.contains_key(name@),
            r ==> final(self)@ == (DbView {
                collections: old(self)@.collections.insert(
                    name@,
                    CollectionView { dirty: false, ..old(self)@.collections[name@] },
                ),
                ..old(self)@
            }),
            !r ==> final(self)@ == old(self)@,
    {
        match self.index_of(name) {
            None => false,
            Some(i) => {
                proof {
                    lemma_entries_update_any(self.collections@, i as int);
                }
                self.collections[i].1.dirty = false;
                proof {
                    let v = self@;
                    assert(v.collections == old(self)@.collections.insert(
                        name@,
                        CollectionView { dirty: false, ..old(self)@.collections[name@] },
                    ));
                    assert(v.deleted == old(self)@.deleted);
                    assert forall|n: Seq<char>| #[trigger] v.collections.contains_key(n) implies v.collections[n].wf() by {
                        assert(old(self)@.collections.contains_key(n));
                    }
                }
                true
            },
        }
    }

    /// Adds a collection read from the store under `name`, replacing one of
    /// that name.
    pub fn insert_loaded(&mut self, name: String, collection: Collection)
        requires
            old(self).wf(),
            collection@.wf(),
            !old(self)@.deleted.contains(name@),
        ensures
            final(self).wf(),
            final(self)@ == (DbView {
                collections: old(self)@.collections.insert(name@, collection@),
                ..old(self)@
            }),
    {
        match self.index_of(name.as_str()) {
            Some(i) => {
                proof {
                    lemma_entries_update(self.collections@, i as int, (name, collection));
                }
                self.collections.set(i, (name, collection));
            },
            None => {
                proof {
                    lemma_entries_push(self.collections@, (name, collection));
                }
                self.collections.push((name, collection));
            },
        }
        proof {
            let v = self@;
            assert forall|j: int| 0 <= j < v.deleted.len() implies !v.collections.contains_key(
                #[trigger] v.deleted[j],
            ) by {
                assert(v.deleted[j] == old(self)@.deleted[j]);
                assert(old(self)@.deleted.contains(v.deleted[j]));
            }
            assert forall|n: Seq<char>| #[trigger] v.collections.contains_key(n) implies v.collections[n].wf() by {
                if n != name@ {
                    assert(old(self)@.collections.contains_key(n));
                }
            }
        }
    }
}

/// In a well-formed database every stored vector has the dimension of its
/// collection.
pub proof fn lemma_vectors_have_dimension(v: DbView)
    requires
        v.wf(),
    ensures
        forall|n: Seq<char>, i: int|
            #![trigger v.collections[n].embeddings[i]]
            v.collections.contains_key(n) && 0 <= i < v.collections[n].embeddings.len()
                ==> v.collections[n].embeddings[i].vector.len() == v.collections[n].dimension,
{
    assert forall|n: Seq<char>, i: int|
        #![trigger v.collections[n].embeddings[i]]
        v.collections.contains_key(n) && 0 <= i < v.collections[n].embeddings.len()
            implies v.collections[n].embeddings[i].vector.len() == v.collections[n].dimension by {
        assert(v.collections[n].wf());
    }
}

/// A listing of the live names (what `list` returns) holds no tombstone.
pub proof fn lemma_list_excludes_tombstones(v: DbView, names: Seq<Seq<char>>)
    requires
        v.wf(),
        forall|n: Seq<char>| v.collections.contains_key(n) <==> names.contains(n),
    ensures
        forall|i: int| 0 <= i < v.deleted.len() ==> !names.contains(#[trigger] v.deleted[i]),
{
}

} // verus!
