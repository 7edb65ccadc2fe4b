//! The directory store: one file per collection, named by the
//! percent-encoded collection name, beside a marker file that tells the
//! current layout from the older single-file one.
//!
//! The file operations themselves are the embedding application's; this
//! module decides what to read, remove and write, and builds databases from
//! what was read.

use vstd::prelude::*;
use vstd::utf8::encode_utf8;
use crate::codec::{
    as_loaded, database_bytes, named_fit, named_loaded, collection_bytes, collection_fits, decode_collection, decode_database,
    encode_collection, lemma_collection_round_trip, lemma_database_round_trip, named_views,
    parse_collection, parse_database,
};
use crate::collection::{Collection, CollectionView, Distance};
use crate::db::{distinct_names, fresh_collection, lemma_without, string_views, Db, DbView};
use crate::text::{copy_string, str_equal};

verus! {

/// Name of the marker file of the per-collection layout.
pub const MARKER_FILE: &'static str = "._collections";

/// Name of the single file of the older layout.
pub const LEGACY_FILE: &'static str = "db";

/// A byte that component encoding leaves as it is: an ASCII letter or
/// digit, or one of `- _ . ! ~ * ' ( )`.
pub open spec fn kept_in_component(b: u8) -> bool {
    (0x41 <= b <= 0x5a) || (0x61 <= b <= 0x7a) || (0x30 <= b <= 0x39) || b == 0x2d || b == 0x5f
        || b == 0x2e || b == 0x21 || b == 0x7e || b == 0x2a || b == 0x27 || b == 0x28 || b == 0x29
}

/// An upper-case hexadecimal digit.
pub open spec fn hex_digit(d: u8) -> char {
    seq!['0', '1', '2', '3', '4', '5', '6', '7', '8', '9', 'A', 'B', 'C', 'D', 'E', 'F'][d as int
        % 16]
}

/// A byte as component encoding writes it: itself, or `%` and two hex digits.
pub open spec fn byte_encoding(b: u8) -> Seq<char> {
    if kept_in_component(b) {
        seq![b as char]
    } else {
        seq!['%', hex_digit(b / 16), hex_digit(b % 16)]
    }
}

/// Bytes as component encoding writes them, one after the other.
pub open spec fn bytes_encoding(bytes: Seq<u8>) -> Seq<char>
    decreases bytes.len(),
{
    if bytes.len() == 0 {
        Seq::empty()
    } else {
        byte_encoding(bytes[0]) + bytes_encoding(bytes.drop_first())
    }
}

/// What `url_escape::encode_component` makes of a text: each byte of its
/// UTF-8 encoding kept or percent-encoded.
pub open spec fn component_encoding(s: Seq<char>) -> Seq<char> {
    bytes_encoding(encode_utf8(s))
}

/// What `url_escape::decode` makes of a text.
pub uninterp spec fn percent_decoding(s: Seq<char>) -> Seq<char>;

/// Relies on `url_escape::encode_component`: it percent-encodes, as `%` and
/// two upper-case hex digits, each UTF-8 byte that is not an ASCII letter,
/// digit or one of `- _ . ! ~ * ' ( )` (`%` among them), so that
/// `url_escape::decode` gives the text back.
#[verifier::external_body]
fn encode_component(s: &str) -> (r: String)
    ensures
        r@ == component_encoding(s@),
        percent_decoding(r@) == s@,
{
    url_escape::encode_component(s).into_owned()
}

/// Relies on `url_escape::decode`: percent-decoding, with invalid UTF-8
/// replaced.
#[verifier::external_body]
fn decode_component(s: &str) -> (r: String)
    ensures
        r@ == percent_decoding(s@),
{
    url_escape::decode(s).into_owned()
}

/// The file name of the collection `name`.
pub fn file_name(name: &str) -> (r: String)
    ensures
        r@ == component_encoding(name@),
        percent_decoding(r@) == name@,
{
    encode_component(name)
}

/// The collection name of the file `file`.
pub fn collection_name(file: &str) -> (r: String)
    ensures
        r@ == percent_decoding(file@),
{
    decode_component(file)
}

/// The layout a store root was found in.
#[derive(Clone, Copy, Debug, PartialEq, Eq, Structural)]
pub enum StoreLayout {
    /// No root directory: create it with its marker, and start empty.
    Missing,
    /// Root and marker present: read every collection file.
    Current,
    /// Root without marker: migrate the single database file.
    Legacy,
}

/// How to open a store, from whether its root and its marker exist.
pub fn store_layout(root_exists: bool, marker_exists: bool) -> (r: StoreLayout)
    ensures
        !root_exists ==> r == StoreLayout::Missing,
        root_exists && marker_exists ==> r == StoreLayout::Current,
        root_exists && !marker_exists ==> r == StoreLayout::Legacy,
{
    if !root_exists {
        StoreLayout::Missing
    } else if marker_exists {
        StoreLayout::Current
    } else {
        StoreLayout::Legacy
    }
}

/// Why a store could not be read.
#[derive(Clone, Copy, Debug, PartialEq, Eq, Structural)]
pub enum LoadError {
    /// The file at this position of the listing is not a well-formed
    /// collection record.
    Corrupt(usize),
    /// The single database file of the older layout is not a well-formed
    /// record.
    LegacyCorrupt,
}

/// The views of a directory listing: file names and contents.
pub open spec fn listing_view(files: Seq<(String, Vec<u8>)>) -> Seq<(Seq<char>, Seq<u8>)> {
    files.map_values(|f: (String, Vec<u8>)| (f.0@, f.1@))
}

/// The collections that a listing of the store holds: each file other than
/// the marker read as a collection record under its decoded name, later
/// files replacing earlier ones of the same name; `None` where a file is not
/// a well-formed record.
pub open spec fn loaded(files: Seq<(Seq<char>, Seq<u8>)>) -> Option<Map<Seq<char>, CollectionView>>
    decreases files.len(),
{
    if files.len() == 0 {
        Some(Map::empty())
    } else {
        match loaded(files.drop_last()) {
            None => None,
            Some(m) => {
                let (f, b) = files.last();
                if f == MARKER_FILE@ {
                    Some(m)
                } else {
                    match parse_collection(b) {
                        Some(c) => if c.wf() {
                            Some(m.insert(percent_decoding(f), c))
                        } else {
                            None
                        },
                        None => None,
                    }
                }
            },
        }
    }
}

/// A database of the collections in a listing of the store (see `loaded`),
/// none dirty and with no tombstones. Fails with the position of the first
/// file that is not a well-formed collection record.
pub fn load_collections(files: &Vec<(String, Vec<u8>)>) -> (r: Result<Db, LoadError>)
    ensures
        match r {
            Ok(db) => db.wf() && loaded(listing_view(files@)) == Some(db@.collections)
                && db@.deleted.len() == 0,
            Err(LoadError::Corrupt(i)) => i < files@.len() && loaded(
                listing_view(files@).take(i as int),
            ) is Some && loaded(listing_view(files@).take(i + 1)) is None,
            Err(LoadError::LegacyCorrupt) => false,
        },
{
    let ghost fs = listing_view(files@);
    let mut db = Db::new();
    let mut i: usize = 0;
    proof {
        reveal_strlit("._collections");
        assert(fs.take(0).len() == 0);
    }
    while i < files.len()
        invariant
            fs == listing_view(files@),
            0 <= i <= fs.len(),
            db.wf(),
            db@.deleted.len() == 0,
            loaded(fs.take(i as int)) == Some(db@.collections),
        decreases fs.len() - i,
    {
        let ghost prefix = fs.take(i as int);
        assert(fs.take(i + 1).drop_last() =~= prefix);
        assert(fs.take(i + 1).last() == fs[i as int]);
        let file = &files[i].0;
        if !str_equal(file.as_str(), MARKER_FILE) {
            match decode_collection(&files[i].1) {
                None => {
                    return Err(LoadError::Corrupt(i));
                },
                Some(c) => {
                    if !c.is_well_formed() {
                        return Err(LoadError::Corrupt(i));
                    }
                    let name = collection_name(file.as_str());
                    db.insert_loaded(name, c);
                },
            }
        }
        i = i + 1;
    }
    assert(fs.take(i as int) =~= fs);
    Ok(db)
}

/// The collections of a whole-database record, in order, each marked dirty
/// so that it is written out as a file of its own.
pub open spec fn legacy_collections(es: Seq<(Seq<char>, CollectionView)>) -> Option<
    Map<Seq<char>, CollectionView>,
>
    decreases es.len(),
{
    if es.len() == 0 {
        Some(Map::empty())
    } else {
        match legacy_collections(es.drop_last()) {
            None => None,
            Some(m) => {
                let (name, c) = es.last();
                if c.wf() {
                    Some(m.insert(name, CollectionView { dirty: true, ..c }))
                } else {
                    None
                }
            },
        }
    }
}

/// A database of the collections in the single file of the older layout,
/// all dirty, with no tombstones; fails with `LegacyCorrupt` where the file
/// is not a well-formed record.
pub fn convert_old_store(bytes: &Vec<u8>) -> (r: Result<Db, LoadError>)
    ensures
        match r {
            Ok(db) => db.wf() && db@.deleted.len() == 0 && (parse_database(bytes@) matches Some(es)
                && legacy_collections(es) == Some(db@.collections)),
            Err(e) => e == LoadError::LegacyCorrupt && match parse_database(bytes@) {
                None => true,
                Some(es) => legacy_collections(es) is None,
            },
        },
{
    let entries = match decode_database(bytes) {
        None => {
            return Err(LoadError::LegacyCorrupt);
        },
        Some(v) => v,
    };
    let ghost es = named_views(entries@);
    let ghost orig = entries@;
    let n = entries.len();
    let mut entries = entries;
    let mut reversed: Vec<(String, Collection)> = Vec::new();
    while entries.len() > 0
        invariant
            n == orig.len(),
            entries@ == orig.take(entries@.len() as int),
            reversed@.len() + entries@.len() == n,
            forall|j: int| 0 <= j < reversed@.len() ==> #[trigger] reversed@[j] == orig[n - 1 - j],
        decreases entries@.len(),
    {
        let ghost before = entries@;
        match entries.pop() {
            Some(x) => {
                assert(entries@ =~= orig.take(entries@.len() as int));
                reversed.push(x);
            },
            None => {},
        }
    }
    let mut db = Db::new();
    let mut k: usize = 0;
    proof {
        assert(es.take(0) =~= Seq::<(Seq<char>, CollectionView)>::empty());
    }
    while k < n
        invariant
            n == orig.len(),
            es == named_views(orig),
            parse_database(bytes@) == Some(es),
            0 <= k <= n,
            reversed@.len() == n - k,
            forall|j: int| 0 <= j < reversed@.len() ==> #[trigger] reversed@[j] == orig[n - 1 - j],
            db.wf(),
            db@.deleted.len() == 0,
            legacy_collections(es.take(k as int)) == Some(db@.collections),
        decreases n - k,
    {
        assert(reversed@.len() > 0);
        let (name, mut c) = match reversed.pop() {
            Some(x) => x,
            None => {
                return Err(LoadError::LegacyCorrupt);
            },
        };
        assert(c@ == es[k as int].1 && name@ == es[k as int].0);
        assert(es.take(k + 1).drop_last() =~= es.take(k as int));
        if !c.is_well_formed() {
            proof {
                assert(es.take(k + 1).last() == es[k as int]);
                assert(legacy_collections(es.take(k + 1)) is None);
                lemma_legacy_none(es, (k + 1) as nat, n as nat);
                assert(es.take(n as int) =~= es);
            }
            return Err(LoadError::LegacyCorrupt);
        }
        c.set_dirty();
        db.insert_loaded(name, c);
        k = k + 1;
    }
    assert(es.take(n as int) =~= es);
    Ok(db)
}

proof fn lemma_legacy_none(es: Seq<(Seq<char>, CollectionView)>, i: nat, n: nat)
    requires
        i <= n <= es.len(),
        legacy_collections(es.take(i as int)) is None,
    ensures
        legacy_collections(es.take(n as int)) is None,
    decreases n - i,
{
    if i < n {
        lemma_legacy_none(es, i, (n - 1) as nat);
        assert(es.take(n as int).drop_last() =~= es.take(n - 1));
    }
}

/// A file to write when saving: a dirty collection's name, its file name,
/// and its record.
#[derive(Debug)]
pub struct StoreWrite {
    pub name: String,
    pub file_name: String,
    pub bytes: Vec<u8>,
}

/// The files to write when saving `db`: one for each dirty collection.
/// After writing one, the caller marks it saved (`Db::mark_saved`).
pub fn pending_writes(db: &Db) -> (r: Vec<StoreWrite>)
    requires
        db.wf(),
    ensures
        forall|a: int, b: int| 0 <= a < b < r@.len() ==> r@[a].name@ != r@[b].name@,
        forall|n: Seq<char>|
            (exists|a: int| 0 <= a < r@.len() && r@[a].name@ == n) <==> (db@.collections.contains_key(n)
                && db@.collections[n].dirty),
        forall|a: int|
            0 <= a < r@.len() ==> {
                let w = #[trigger] r@[a];
                &&& db@.collections.contains_key(w.name@)
                &&& w.file_name@ == component_encoding(w.name@)
                &&& percent_decoding(w.file_name@) == w.name@
                &&& w.bytes@ == collection_bytes(db@.collections[w.name@])
                &&& collection_fits(db@.collections[w.name@])
            },
{
    let names = db.dirty_names();
    let ghost nv = string_views(names@);
    let mut r: Vec<StoreWrite> = Vec::new();
    let mut i: usize = 0;
    while i < names.len()
        invariant
            db.wf(),
            nv == string_views(names@),
            distinct_names(nv),
            forall|n: Seq<char>| nv.contains(n) <==> (db@.collections.contains_key(n) && db@.collections[n].dirty),
            0 <= i <= names@.len(),
            r@.len() == i,
            forall|a: int| 0 <= a < i ==> (#[trigger] r@[a]).name@ == nv[a],
            forall|a: int|
                0 <= a < i ==> {
                    let w = #[trigger] r@[a];
                    &&& db@.collections.contains_key(w.name@)
                    &&& w.file_name@ == component_encoding(w.name@)
                    &&& percent_decoding(w.file_name@) == w.name@
                    &&& w.bytes@ == collection_bytes(db@.collections[w.name@])
                    &&& collection_fits(db@.collections[w.name@])
                },
        decreases names@.len() - i,
    {
        let name = &names[i];
        assert(nv.contains(nv[i as int]));
        match db.get_collection(name.as_str()) {
            None => {
                assert(false);
            },
            Some(c) => {
                let bytes = encode_collection(c);
                let file = file_name(name.as_str());
                r.push(StoreWrite { name: copy_string(name), file_name: file, bytes });
            },
        }
        i = i + 1;
    }
    proof {
        assert forall|n: Seq<char>|
            (exists|a: int| 0 <= a < r@.len() && r@[a].name@ == n) <==> (db@.collections.contains_key(n)
                && db@.collections[n].dirty) by {
            if exists|a: int| 0 <= a < r@.len() && r@[a].name@ == n {
                let a = choose|a: int| 0 <= a < r@.len() && r@[a].name@ == n;
                assert(nv[a] == n);
                assert(nv.contains(n));
            }
            if db@.collections.contains_key(n) && db@.collections[n].dirty {
                assert(nv.contains(n));
                let a = choose|a: int| 0 <= a < nv.len() && nv[a] == n;
                assert(r@[a].name@ == n);
            }
        }
        assert forall|a: int, b: int| 0 <= a < b < r@.len() implies r@[a].name@ != r@[b].name@ by {
            assert(r@[a].name@ == nv[a] && r@[b].name@ == nv[b]);
        }
    }
    r
}

/// The file name of `name` gives `name` back (what `file_name` ensures of
/// each name it is called on).
pub open spec fn name_reversible(name: Seq<char>) -> bool {
    percent_decoding(component_encoding(name)) == name
}

/// The file name of every live or tombstoned name gives the name back.
pub open spec fn names_reversible(v: DbView) -> bool {
    forall|n: Seq<char>|
        (v.collections.contains_key(n) || v.deleted.contains(n)) ==> #[trigger] name_reversible(n)
}

/// A save writes the file `f` for a dirty collection.
pub open spec fn written(v: DbView, f: Seq<char>) -> bool {
    exists|n: Seq<char>|
        v.collections.contains_key(n) && v.collections[n].dirty && component_encoding(n) == f
}

/// The dirty collection that a save writes to the file `f`.
pub open spec fn written_name(v: DbView, f: Seq<char>) -> Seq<char> {
    choose|n: Seq<char>|
        v.collections.contains_key(n) && v.collections[n].dirty && component_encoding(n) == f
}

/// A save removes the file `f` of a tombstone.
pub open spec fn removed(v: DbView, f: Seq<char>) -> bool {
    exists|i: int| 0 <= i < v.deleted.len() && component_encoding(v.deleted[i]) == f
}

/// The files of a store after a complete save of `v`: first the file of
/// each tombstone removed, then the file of each dirty collection written.
pub open spec fn saved_store(store: Map<Seq<char>, Seq<u8>>, v: DbView) -> Map<Seq<char>, Seq<u8>> {
    Map::new(
        |f: Seq<char>| (store.contains_key(f) && !removed(v, f)) || written(v, f),
        |f: Seq<char>|
            if written(v, f) {
                collection_bytes(v.collections[written_name(v, f)])
            } else {
                store[f]
            },
    )
}

/// The database after a complete save: no tombstones and nothing dirty.
pub open spec fn saved_db(v: DbView) -> DbView {
    DbView { collections: v.collections.map_values(|c: CollectionView| as_loaded(c)), deleted: Seq::empty() }
}

/// The store holds the current record of every clean live collection.
pub open spec fn store_current(store: Map<Seq<char>, Seq<u8>>, v: DbView) -> bool {
    forall|n: Seq<char>|
        #![trigger v.collections[n]]
        v.collections.contains_key(n) && !v.collections[n].dirty ==> store.contains_key(
            component_encoding(n),
        ) && store[component_encoding(n)] == collection_bytes(v.collections[n])
}

/// Every live collection fits the record format.
pub open spec fn all_fit(v: DbView) -> bool {
    forall|n: Seq<char>| #[trigger] v.collections.contains_key(n) ==> collection_fits(v.collections[n])
}

proof fn lemma_written_name(v: DbView, n: Seq<char>)
    requires
        names_reversible(v),
        v.collections.contains_key(n),
        v.collections[n].dirty,
    ensures
        written(v, component_encoding(n)),
        written_name(v, component_encoding(n)) == n,
{
    let f = component_encoding(n);
    assert(written(v, f));
    let m = written_name(v, f);
    assert(name_reversible(m));
    assert(name_reversible(n));
}

/// Saving and reading back: after a complete save of a database whose store
/// held the records of its clean collections, the file of every live
/// collection reads back as that collection (not dirty) under its own name,
/// and no tombstone has a file.
pub proof fn lemma_save_load_round_trip(store: Map<Seq<char>, Seq<u8>>, v: DbView)
    requires
        v.wf(),
        names_reversible(v),
        all_fit(v),
        store_current(store, v),
    ensures
        forall|n: Seq<char>|
            #![trigger v.collections[n]]
            v.collections.contains_key(n) ==> {
                let f = component_encoding(n);
                &&& saved_store(store, v).contains_key(f)
                &&& percent_decoding(f) == n
                &&& parse_collection(saved_store(store, v)[f]) == Some(as_loaded(v.collections[n]))
            },
        forall|i: int|
            0 <= i < v.deleted.len() ==> !saved_store(store, v).contains_key(
                component_encoding(#[trigger] v.deleted[i]),
            ),
        saved_db(v).deleted.len() == 0,
{
    let s = saved_store(store, v);
    assert forall|n: Seq<char>| #![trigger v.collections[n]] v.collections.contains_key(n) implies {
        let f = component_encoding(n);
        &&& s.contains_key(f)
        &&& percent_decoding(f) == n
        &&& parse_collection(s[f]) == Some(as_loaded(v.collections[n]))
    } by {
        let f = component_encoding(n);
        assert(name_reversible(n));
        lemma_collection_round_trip(v.collections[n]);
        if v.collections[n].dirty {
            lemma_written_name(v, n);
        } else {
            if written(v, f) {
                let m = written_name(v, f);
                assert(name_reversible(m));
            }
            if removed(v, f) {
                let i = choose|i: int| 0 <= i < v.deleted.len() && component_encoding(v.deleted[i]) == f;
                assert(v.deleted.contains(v.deleted[i]));
                assert(name_reversible(v.deleted[i]));
                assert(!v.collections.contains_key(v.deleted[i]));
            }
        }
    }
    assert forall|i: int| 0 <= i < v.deleted.len() implies !s.contains_key(
        component_encoding(#[trigger] v.deleted[i]),
    ) by {
        let f = component_encoding(v.deleted[i]);
        assert(removed(v, f));
        if written(v, f) {
            let m = written_name(v, f);
            assert(name_reversible(m));
            assert(v.deleted.contains(v.deleted[i]));
                assert(name_reversible(v.deleted[i]));
            assert(!v.collections.contains_key(v.deleted[i]));
        }
    }
}

/// `files` lists the store exactly: each of its files once, with its
/// contents.
pub open spec fn lists(files: Seq<(Seq<char>, Seq<u8>)>, store: Map<Seq<char>, Seq<u8>>) -> bool {
    &&& forall|i: int, j: int| 0 <= i < j < files.len() ==> files[i].0 != files[j].0
    &&& forall|i: int|
        0 <= i < files.len() ==> store.contains_key(#[trigger] files[i].0) && store[files[i].0]
            == files[i].1
    &&& forall|f: Seq<char>|
        store.contains_key(f) ==> exists|i: int| 0 <= i < files.len() && files[i].0 == f
}

/// Every file of the store is its marker or the file of a live or
/// tombstoned collection.
pub open spec fn store_tidy(store: Map<Seq<char>, Seq<u8>>, v: DbView) -> bool {
    forall|f: Seq<char>|
        store.contains_key(f) ==> f == MARKER_FILE@ || exists|n: Seq<char>|
            (v.collections.contains_key(n) || v.deleted.contains(n)) && component_encoding(n) == f
}

/// The live collections whose files are among the first `k` of a listing,
/// as they read back.
pub open spec fn listed_prefix(files: Seq<(Seq<char>, Seq<u8>)>, v: DbView, k: int) -> Map<
    Seq<char>,
    CollectionView,
> {
    Map::new(
        |n: Seq<char>|
            v.collections.contains_key(n) && exists|i: int|
                0 <= i < k && files[i].0 == component_encoding(n),
        |n: Seq<char>| as_loaded(v.collections[n]),
    )
}

proof fn lemma_listed_prefix(
    store: Map<Seq<char>, Seq<u8>>,
    v: DbView,
    files: Seq<(Seq<char>, Seq<u8>)>,
    k: int,
)
    requires
        0 <= k <= files.len(),
        v.wf(),
        names_reversible(v),
        all_fit(v),
        store_current(store, v),
        lists(files, saved_store(store, v)),
        forall|n: Seq<char>| #[trigger]
            v.collections.contains_key(n) ==> component_encoding(n) != MARKER_FILE@,
        forall|f: Seq<char>|
            saved_store(store, v).contains_key(f) && f != MARKER_FILE@ ==> exists|n: Seq<char>|
                v.collections.contains_key(n) && component_encoding(n) == f,
    ensures
        loaded(files.take(k)) == Some(listed_prefix(files, v, k)),
    decreases k,
{
    let s = saved_store(store, v);
    lemma_save_load_round_trip(store, v);
    if k == 0 {
        assert(listed_prefix(files, v, 0) =~= Map::<Seq<char>, CollectionView>::empty());
        assert(files.take(0) =~= Seq::<(Seq<char>, Seq<u8>)>::empty());
    } else {
        let k = k - 1;
        lemma_listed_prefix(store, v, files, k);
        let t = files.take(k + 1);
        assert(t.drop_last() =~= files.take(k));
        assert(t.last() == files[k]);
        let (f, b) = files[k];
        assert(s.contains_key(f) && s[f] == b);
        if f == MARKER_FILE@ {
            assert forall|n: Seq<char>| #[trigger] listed_prefix(files, v, k + 1).contains_key(n)
                <==> listed_prefix(files, v, k).contains_key(n) by {
                if v.collections.contains_key(n) && exists|i: int|
                    0 <= i < k + 1 && files[i].0 == component_encoding(n) {
                    let i = choose|i: int| 0 <= i < k + 1 && files[i].0 == component_encoding(n);
                    assert(i != k);
                }
            }
            assert(listed_prefix(files, v, k + 1) =~= listed_prefix(files, v, k));
        } else {
            let n = choose|n: Seq<char>| v.collections.contains_key(n) && component_encoding(n) == f;
            assert(name_reversible(n));
            assert(parse_collection(b) == Some(as_loaded(v.collections[n])));
            assert(v.collections[n].wf());
            let m = listed_prefix(files, v, k).insert(n, as_loaded(v.collections[n]));
            assert forall|x: Seq<char>| #[trigger] listed_prefix(files, v, k + 1).contains_key(x)
                <==> m.contains_key(x) by {
                if x == n {
                    assert(files[k].0 == component_encoding(n));
                } else if v.collections.contains_key(x) && exists|i: int|
                    0 <= i < k + 1 && files[i].0 == component_encoding(x) {
                    let i = choose|i: int| 0 <= i < k + 1 && files[i].0 == component_encoding(x);
                    if i == k {
                        assert(name_reversible(x));
                    }
                }
            }
            assert(listed_prefix(files, v, k + 1) =~= m);
        }
    }
}

/// Saving and restarting: loading a complete listing of the store after a
/// save gives back exactly the live collections, none dirty. The store held
/// the records of the clean collections and no stray files, and no
/// collection's file name is the marker's.
pub proof fn lemma_save_then_load(
    store: Map<Seq<char>, Seq<u8>>,
    v: DbView,
    files: Seq<(Seq<char>, Seq<u8>)>,
)
    requires
        v.wf(),
        names_reversible(v),
        all_fit(v),
        store_current(store, v),
        store_tidy(store, v),
        forall|n: Seq<char>| #[trigger]
            v.collections.contains_key(n) ==> component_encoding(n) != MARKER_FILE@,
        lists(files, saved_store(store, v)),
    ensures
        loaded(files) == Some(saved_db(v).collections),
{
    let s = saved_store(store, v);
    lemma_save_load_round_trip(store, v);
    // every file other than the marker belongs to a live collection
    assert forall|f: Seq<char>| s.contains_key(f) && f != MARKER_FILE@ implies exists|n: Seq<char>|
        v.collections.contains_key(n) && component_encoding(n) == f by {
        if !written(v, f) {
            let n = choose|n: Seq<char>|
                (v.collections.contains_key(n) || v.deleted.contains(n)) && component_encoding(n)
                    == f;
            if !v.collections.contains_key(n) {
                let i = choose|i: int| 0 <= i < v.deleted.len() && v.deleted[i] == n;
                assert(removed(v, f));
            }
        }
    }
    let k = files.len() as int;
    lemma_listed_prefix(store, v, files, k);
    assert(files.take(k) =~= files);
    assert forall|n: Seq<char>| #[trigger] listed_prefix(files, v, k).contains_key(n)
        <==> saved_db(v).collections.contains_key(n) by {
        if v.collections.contains_key(n) {
            assert(s.contains_key(component_encoding(n)));
        }
    }
    assert(listed_prefix(files, v, k) =~= saved_db(v).collections);
}

/// Deleting a collection and creating one of the same name: the new
/// collection exists, is empty and dirty, its name is no tombstone, and a
/// save writes its record (and only it) to its file.
pub proof fn lemma_recreate_after_delete(
    store: Map<Seq<char>, Seq<u8>>,
    v: DbView,
    name: Seq<char>,
    dimension: nat,
    distance: Distance,
)
    requires
        v.wf(),
        v.collections.contains_key(name),
        names_reversible(v),
        dimension <= usize::MAX,
    ensures
        ({
            let w = v.deleted_collection(name).created(name, dimension, distance);
            let f = component_encoding(name);
            &&& w.collections.contains_key(name)
            &&& w.collections[name] == fresh_collection(dimension, distance)
            &&& w.collections[name].dirty
            &&& !w.deleted.contains(name)
            &&& saved_store(store, w).contains_key(f)
            &&& saved_store(store, w)[f] == collection_bytes(fresh_collection(dimension, distance))
            &&& parse_collection(saved_store(store, w)[f]) == Some(
                as_loaded(fresh_collection(dimension, distance)),
            )
        }),
{
    let u = v.deleted_collection(name);
    let w = u.created(name, dimension, distance);
    assert(distinct_names(u.deleted)) by {
        assert forall|i: int, j: int| 0 <= i < j < u.deleted.len() implies u.deleted[i] != u.deleted[j] by {
            if j == v.deleted.len() {
                assert(!v.collections.contains_key(v.deleted[i]));
            }
        }
    }
    lemma_without(u.deleted, name);
    lemma_written_name(w, name);
    lemma_collection_round_trip(fresh_collection(dimension, distance));
}

/// Renaming a saved collection and saving again: the old name's file is
/// gone, the new name's file holds the collection, which reads back
/// unchanged under the new name, and no tombstone is left.
pub proof fn lemma_rename_then_save(
    store: Map<Seq<char>, Seq<u8>>,
    v: DbView,
    old_name: Seq<char>,
    new_name: Seq<char>,
)
    requires
        v.wf(),
        v.collections.contains_key(old_name),
        !v.collections.contains_key(new_name),
        names_reversible(v),
        name_reversible(new_name),
        collection_fits(v.collections[old_name]),
    ensures
        ({
            let s1 = saved_store(store, v);
            let v2 = saved_db(v).renamed(old_name, new_name);
            let s2 = saved_store(s1, v2);
            &&& !s2.contains_key(component_encoding(old_name))
            &&& s2.contains_key(component_encoding(new_name))
            &&& percent_decoding(component_encoding(new_name)) == new_name
            &&& parse_collection(s2[component_encoding(new_name)]) == Some(
                as_loaded(v.collections[old_name]),
            )
            &&& saved_db(v2).deleted.len() == 0
        }),
{
    let s1 = saved_store(store, v);
    let v1 = saved_db(v);
    let v2 = v1.renamed(old_name, new_name);
    let s2 = saved_store(s1, v2);
    assert(v1.deleted.push(old_name) =~= seq![old_name]);
    assert(!seq![old_name].contains(new_name)) by {
        if seq![old_name].contains(new_name) {
            assert(seq![old_name][0] == new_name);
        }
    }
    assert(v2.deleted == seq![old_name]);
    let f1 = component_encoding(old_name);
    assert(removed(v2, f1)) by {
        assert(v2.deleted[0] == old_name);
    }
    if written(v2, f1) {
        let m = written_name(v2, f1);
        assert(name_reversible(m));
        assert(name_reversible(old_name));
    }
    lemma_written_name(v2, new_name);
    assert(name_reversible(new_name));
    let c = v2.collections[new_name];
    assert(c == CollectionView { dirty: true, ..as_loaded(v.collections[old_name]) });
    lemma_collection_round_trip(c);
    assert(as_loaded(c) == as_loaded(v.collections[old_name]));
}

/// The names of named collections are pairwise distinct.
pub open spec fn named_distinct(es: Seq<(Seq<char>, CollectionView)>) -> bool {
    forall|i: int, j: int| 0 <= i < j < es.len() ==> es[i].0 != es[j].0
}

proof fn lemma_legacy_collections(es: Seq<(Seq<char>, CollectionView)>)
    requires
        named_distinct(es),
        forall|i: int| 0 <= i < es.len() ==> (#[trigger] es[i]).1.wf(),
    ensures
        legacy_collections(es) matches Some(m) && (forall|i: int|
            0 <= i < es.len() ==> m.contains_key((#[trigger] es[i]).0) && m[es[i].0] == (CollectionView {
                dirty: true,
                ..es[i].1
            })) && (forall|k: Seq<char>| m.contains_key(k) ==> exists|i: int| 0 <= i < es.len() && es[i].0 == k),
    decreases es.len(),
{
    if es.len() > 0 {
        let init = es.drop_last();
        assert forall|i: int| 0 <= i < init.len() implies (#[trigger] init[i]).1.wf() by {
            assert(init[i] == es[i]);
        }
        lemma_legacy_collections(init);
        let m0 = legacy_collections(init)->Some_0;
        let m = legacy_collections(es)->Some_0;
        assert forall|i: int| 0 <= i < es.len() implies m.contains_key((#[trigger] es[i]).0) && m[es[i].0]
            == (CollectionView { dirty: true, ..es[i].1 }) by {
            if i < es.len() - 1 {
                assert(init[i] == es[i]);
                assert(es[i].0 != es[es.len() - 1].0);
            }
        }
        assert forall|k: Seq<char>| m.contains_key(k) implies exists|i: int| 0 <= i < es.len() && es[i].0 == k by {
            if k != es.last().0 {
                assert(m0.contains_key(k));
                let i = choose|i: int| 0 <= i < init.len() && init[i].0 == k;
                assert(es[i].0 == k);
            } else {
                assert(es[es.len() - 1].0 == k);
            }
        }
    }
}

/// Migrating the single file of the older layout: the record of a database
/// with distinct names and well-formed collections reads back and converts
/// to exactly its collections, each marked dirty so that a save writes it.
pub proof fn lemma_legacy_migration(es: Seq<(Seq<char>, CollectionView)>)
    requires
        named_fit(es),
        es.len() <= u64::MAX,
        named_distinct(es),
        forall|i: int| 0 <= i < es.len() ==> (#[trigger] es[i]).1.wf(),
    ensures
        parse_database(database_bytes(es)) == Some(named_loaded(es)),
        legacy_collections(named_loaded(es)) matches Some(m) && (forall|i: int|
            0 <= i < es.len() ==> m.contains_key((#[trigger] es[i]).0) && m[es[i].0] == (CollectionView {
                dirty: true,
                ..es[i].1
            })) && (forall|k: Seq<char>| m.contains_key(k) ==> exists|i: int| 0 <= i < es.len() && es[i].0 == k),
{
    lemma_database_round_trip(es);
    let l = named_loaded(es);
    assert forall|i: int| 0 <= i < l.len() implies (#[trigger] l[i]).1.wf() by {
        assert(es[i].1.wf());
    }
    lemma_legacy_collections(l);
    let m = legacy_collections(l)->Some_0;
    assert forall|i: int| 0 <= i < es.len() implies m.contains_key((#[trigger] es[i]).0) && m[es[i].0]
        == (CollectionView { dirty: true, ..es[i].1 }) by {
        assert(l[i].0 == es[i].0);
    }
    assert forall|k: Seq<char>| m.contains_key(k) implies exists|i: int| 0 <= i < es.len() && es[i].0 == k by {
        let i = choose|i: int| 0 <= i < l.len() && l[i].0 == k;
        assert(es[i].0 == k);
    }
}

} // verus!
