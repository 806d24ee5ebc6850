use vstd::prelude::*;

use crate::file::{some_tag_holds, without_matching, TaggedFile};
use crate::query::Query;
use crate::tags::{Tag, TagValue};

verus! {

/// The tag database: a storage location and one tagged file per path.
#[derive(Debug)]
pub struct DB {
    file: String,
    db: Vec<TaggedFile>,
}

/// The mathematical value of a database: its location and, for each known
/// path, the set of tags attached to it.
pub struct DbView {
    pub location: Seq<char>,
    pub entries: Map<Seq<char>, Set<Seq<TagValue>>>,
}

/// The path-to-tags map that a list of files with distinct paths stands for.
pub open spec fn entries_of(v: Seq<TaggedFile>) -> Map<Seq<char>, Set<Seq<TagValue>>> {
    Map::new(
        |p: Seq<char>| exists|i: int| 0 <= i < v.len() && #[trigger] v[i]@.path == p,
        |p: Seq<char>| v[choose|i: int| 0 <= i < v.len() && #[trigger] v[i]@.path == p]@.tags,
    )
}

/// No two files of `v` share a path.
pub open spec fn unique_paths(v: Seq<TaggedFile>) -> bool {
    forall|i: int, j: int| 0 <= i < j < v.len() ==> v[i]@.path != v[j]@.path
}

/// The paths spelled by the strings of `v`.
pub open spec fn path_set(v: Seq<String>) -> Set<Seq<char>> {
    Set::new(|p: Seq<char>| exists|k: int| 0 <= k < v.len() && #[trigger] v[k]@ == p)
}

/// The paths of `entries` whose tags satisfy `q`.
pub open spec fn matching_paths(
    entries: Map<Seq<char>, Set<Seq<TagValue>>>,
    q: Query,
) -> Set<Seq<char>> {
    entries.dom().filter(|p: Seq<char>| some_tag_holds(entries[p], q))
}

/// `entries` with `path` registered: an absent path gets no tags, a present
/// one keeps its own.
pub open spec fn with_file(
    entries: Map<Seq<char>, Set<Seq<TagValue>>>,
    path: Seq<char>,
) -> Map<Seq<char>, Set<Seq<TagValue>>> {
    if entries.contains_key(path) {
        entries
    } else {
        entries.insert(path, Set::empty())
    }
}

/// Registering a path twice is the same as registering it once, and never
/// resets the tags it already has.
pub proof fn lemma_add_file_idempotent(entries: Map<Seq<char>, Set<Seq<TagValue>>>, path: Seq<char>)
    ensures
        with_file(with_file(entries, path), path) == with_file(entries, path),
        entries.contains_key(path) ==> with_file(entries, path)[path] == entries[path],
{
}

proof fn lemma_entry(v: Seq<TaggedFile>, i: int)
    requires
        unique_paths(v),
        0 <= i < v.len(),
    ensures
        entries_of(v).contains_key(v[i]@.path),
        entries_of(v)[v[i]@.path] == v[i]@.tags,
{
    let p = v[i]@.path;
    assert(entries_of(v).contains_key(p));
    let j = choose|j: int| 0 <= j < v.len() && #[trigger] v[j]@.path == p;
    assert(j == i);
}

/// Files changed one by one, keeping their paths, by `f` on their tags.
proof fn lemma_pointwise(
    a: Seq<TaggedFile>,
    b: Seq<TaggedFile>,
    f: spec_fn(Set<Seq<TagValue>>) -> Set<Seq<TagValue>>,
)
    requires
        unique_paths(a),
        a.len() == b.len(),
        forall|i: int|
            0 <= i < a.len() ==> #[trigger] b[i]@.path == a[i]@.path && b[i]@.tags == f(
                a[i]@.tags,
            ),
    ensures
        unique_paths(b),
        entries_of(b) == entries_of(a).map_values(f),
{
    assert(unique_paths(b)) by {
        assert forall|i: int, j: int| 0 <= i < j < b.len() implies b[i]@.path != b[j]@.path by {
            assert(b[i]@.path == a[i]@.path);
            assert(b[j]@.path == a[j]@.path);
        }
    }
    assert forall|p: Seq<char>| #[trigger] entries_of(b).contains_key(p) <==> entries_of(
        a,
    ).contains_key(p) by {
        if entries_of(b).contains_key(p) {
            let i = choose|i: int| 0 <= i < b.len() && #[trigger] b[i]@.path == p;
            assert(a[i]@.path == p);
        }
        if entries_of(a).contains_key(p) {
            let i = choose|i: int| 0 <= i < a.len() && #[trigger] a[i]@.path == p;
            assert(b[i]@.path == p);
        }
    }
    assert forall|p: Seq<char>| #[trigger] entries_of(b).contains_key(p) implies entries_of(b)[p]
        == f(entries_of(a)[p]) by {
        let i = choose|i: int| 0 <= i < b.len() && #[trigger] b[i]@.path == p;
        assert(a[i]@.path == p);
        lemma_entry(a, i);
        lemma_entry(b, i);
    }
    assert(entries_of(b) =~= entries_of(a).map_values(f));
}

/// One file changed, keeping its path.
proof fn lemma_update_one(a: Seq<TaggedFile>, b: Seq<TaggedFile>, i: int)
    requires
        unique_paths(a),
        a.len() == b.len(),
        0 <= i < a.len(),
        b[i]@.path == a[i]@.path,
        forall|j: int| 0 <= j < a.len() && j != i ==> #[trigger] b[j] == a[j],
    ensures
        unique_paths(b),
        entries_of(b) == entries_of(a).insert(a[i]@.path, b[i]@.tags),
{
    let f = |ts: Set<Seq<TagValue>>| ts;
    assert(unique_paths(b)) by {
        assert forall|j: int, k: int| 0 <= j < k < b.len() implies b[j]@.path != b[k]@.path by {
            if j != i {
                assert(b[j] == a[j]);
            }
            if k != i {
                assert(b[k] == a[k]);
            }
        }
    }
    assert forall|p: Seq<char>| #[trigger] entries_of(b).contains_key(p) <==> entries_of(
        a,
    ).insert(a[i]@.path, b[i]@.tags).contains_key(p) by {
        if entries_of(b).contains_key(p) {
            let j = choose|j: int| 0 <= j < b.len() && #[trigger] b[j]@.path == p;
            if j != i {
                assert(b[j] == a[j]);
                assert(a[j]@.path == p);
            }
        }
        if entries_of(a).contains_key(p) {
            let j = choose|j: int| 0 <= j < a.len() && #[trigger] a[j]@.path == p;
            if j != i {
                assert(b[j] == a[j]);
            }
            assert(b[j]@.path == p);
        }
        if p == a[i]@.path {
            assert(b[i]@.path == p);
        }
    }
    assert forall|p: Seq<char>| #[trigger] entries_of(b).contains_key(p) implies entries_of(b)[p]
        == entries_of(a).insert(a[i]@.path, b[i]@.tags)[p] by {
        let j = choose|j: int| 0 <= j < b.len() && #[trigger] b[j]@.path == p;
        lemma_entry(b, j);
        if j != i {
            assert(b[j] == a[j]);
            lemma_entry(a, j);
        }
    }
    assert(entries_of(b) =~= entries_of(a).insert(a[i]@.path, b[i]@.tags));
}

impl View for DB {
    type V = DbView;

    closed spec fn view(&self) -> DbView {
        DbView { location: self.file@, entries: entries_of(self.db@) }
    }
}

impl DB {
    /// At most one file per path, and each file well formed.
    pub closed spec fn wf(&self) -> bool {
        &&& unique_paths(self.db@)
        &&& forall|i: int| 0 <= i < self.db@.len() ==> (#[trigger] self.db@[i]).wf()
    }

    /// An empty database bound to the location `file`.
    pub fn init(file: String) -> (r: Self)
        ensures
            r.wf(),
            r@.location == file@,
            r@.entries == Map::<Seq<char>, Set<Seq<TagValue>>>::empty(),
    {
        let r = DB { file: file, db: Vec::new() };
        assert(r@.entries =~= Map::<Seq<char>, Set<Seq<TagValue>>>::empty());
        r
    }

    /// Where this database is stored.
    pub fn location(&self) -> (r: &String)
        ensures
            r@ == self@.location,
    {
        &self.file
    }

    /// The files of this database, one per path.
    pub fn files(&self) -> (r: &Vec<TaggedFile>)
        ensures
            entries_of(r@) == self@.entries,
            self.wf() ==> unique_paths(r@),
    {
        &self.db
    }

    /// The position of the file at `path`, if there is one.
    fn find(&self, path: &String) -> (r: Option<usize>)
        requires
            self.wf(),
        ensures
            r is Some <==> self@.entries.contains_key(path@),
            r is Some ==> r->0 < self.db@.len() && self.db@[r->0 as int]@.path == path@,
    {
        let mut i: usize = 0;
        while i < self.db.len()
            invariant
                i <= self.db@.len(),
                forall|j: int| 0 <= j < i ==> #[trigger] self.db@[j]@.path != path@,
            decreases self.db@.len() - i,
        {
            if self.db[i].get_path() == *path {
                assert(self@.entries.contains_key(self.db@[i as int]@.path));
                return Some(i);
            }
            i = i + 1;
        }
        None
    }

    /// The paths whose files have a tag satisfying `query`, each once.
    pub fn match_query(&self, query: &Query) -> (r: Vec<String>)
        requires
            self.wf(),
        ensures
            path_set(r@) == matching_paths(self@.entries, *query),
            forall|a: int, b: int| 0 <= a < b < r@.len() ==> r@[a]@ != r@[b]@,
    {
        let mut r: Vec<String> = Vec::new();
        let ghost mut src: Seq<int> = Seq::empty();
        let mut i: usize = 0;
        while i < self.db.len()
            invariant
                self.wf(),
                i <= self.db@.len(),
                src.len() == r@.len(),
                forall|k: int|
                    0 <= k < r@.len() ==> 0 <= #[trigger] src[k] < i && self.db@[src[k]]@.path
                        == r@[k]@ && some_tag_holds(self.db@[src[k]]@.tags, *query),
                forall|j: int|
                    0 <= j < i && some_tag_holds(#[trigger] self.db@[j]@.tags, *query) ==> path_set(
                        r@,
                    ).contains(self.db@[j]@.path),
                forall|a: int, b: int| 0 <= a < b < r@.len() ==> r@[a]@ != r@[b]@,
            decreases self.db@.len() - i,
        {
            if self.db[i].match_query(query) {
                let ghost prev = r@;
                let ghost prev_src = src;
                let p = self.db[i].get_path();
                r.push(p);
                proof {
                    src = src.push(i as int);
                    assert forall|k: int| 0 <= k < prev.len() implies #[trigger] r@[k] == prev[k]
                        && src[k] == prev_src[k] by {}
                    assert forall|j: int|
                        0 <= j < i + 1 && some_tag_holds(
                            #[trigger] self.db@[j]@.tags,
                            *query,
                        ) implies path_set(r@).contains(self.db@[j]@.path) by {
                        if j < i {
                            let k = choose|k: int| 0 <= k < prev.len() && #[trigger] prev[k]@ == self.db@[j]@.path;
                            assert(r@[k] == prev[k]);
                        } else {
                            assert(r@[prev.len() as int]@ == self.db@[j]@.path);
                        }
                    }
                    assert forall|a: int, b: int| 0 <= a < b < r@.len() implies r@[a]@ != r@[b]@ by {
                        assert(r@[a] == prev[a]);
                        if b == prev.len() {
                            assert(src[a] < i);
                        } else {
                            assert(r@[b] == prev[b]);
                        }
                    }
                }
            }
            i = i + 1;
        }
        proof {
            let e = self@.entries;
            assert forall|p: Seq<char>| path_set(r@).contains(p) <==> #[trigger] matching_paths(
                e,
                *query,
            ).contains(p) by {
                if path_set(r@).contains(p) {
                    let k = choose|k: int| 0 <= k < r@.len() && #[trigger] r@[k]@ == p;
                    lemma_entry(self.db@, src[k]);
                }
                if matching_paths(e, *query).contains(p) {
                    let j = choose|j: int| 0 <= j < self.db@.len() && #[trigger] self.db@[j]@.path == p;
                    lemma_entry(self.db@, j);
                }
            }
            assert(path_set(r@) =~= matching_paths(e, *query));
        }
        r
    }

    /// Registers `file` with no tags; a path already present keeps its tags.
    pub fn add_file(&mut self, file: String)
        requires
            old(self).wf(),
        ensures
            final(self).wf(),
            final(self)@.location == old(self)@.location,
            final(self)@.entries == with_file(old(self)@.entries, file@),
    {
        match self.find(&file) {
            Some(_) => {},
            None => {
                let ghost a = self.db@;
                let f = TaggedFile::new(file, Vec::new());
                assert(f@.tags =~= Set::<Seq<TagValue>>::empty());
                self.db.push(f);
                let ghost b = self.db@;
                proof {
                    let n = a.len() as int;
                    assert(b[n] == f);
                    assert forall|j: int| 0 <= j < n implies #[trigger] b[j] == a[j] by {}
                    assert forall|j: int, k: int| 0 <= j < k < b.len() implies b[j]@.path
                        != b[k]@.path by {
                        if k == n {
                            assert(entries_of(a).contains_key(a[j]@.path));
                        }
                    }
                    assert forall|p: Seq<char>| #[trigger] entries_of(b).contains_key(p)
                        <==> entries_of(a).insert(f@.path, f@.tags).contains_key(p) by {
                        if entries_of(b).contains_key(p) {
                            let j = choose|j: int| 0 <= j < b.len() && #[trigger] b[j]@.path == p;
                            if j < n {
                                assert(a[j]@.path == p);
                            }
                        }
                        if entries_of(a).contains_key(p) {
                            let j = choose|j: int| 0 <= j < a.len() && #[trigger] a[j]@.path == p;
                            assert(b[j]@.path == p);
                        }
                        assert(b[n]@.path == f@.path);
                    }
                    assert forall|p: Seq<char>| #[trigger] entries_of(b).contains_key(p)
                        implies entries_of(b)[p] == entries_of(a).insert(f@.path, f@.tags)[p] by {
                        let j = choose|j: int| 0 <= j < b.len() && #[trigger] b[j]@.path == p;
                        lemma_entry(b, j);
                        if j < n {
                            lemma_entry(a, j);
                        }
                    }
                    assert(entries_of(b) =~= entries_of(a).insert(f@.path, f@.tags));
                }
            },
        }
    }

    /// Deletes every file that has a tag satisfying `query`.
    pub fn remove_matching(&mut self, query: &Query)
        requires
            old(self).wf(),
        ensures
            final(self).wf(),
            final(self)@.location == old(self)@.location,
            final(self)@.entries == old(self)@.entries.restrict(
                old(self)@.entries.dom().filter(
                    |p: Seq<char>| !some_tag_holds(old(self)@.entries[p], *query),
                ),
            ),
    {
        let ghost orig = self.db@;
        let mut rest: Vec<TaggedFile> = Vec::new();
        std::mem::swap(&mut self.db, &mut rest);
        let mut kept: Vec<TaggedFile> = Vec::new();
        let ghost mut src: Seq<int> = Seq::empty();
        while rest.len() > 0
            invariant
                unique_paths(orig),
                forall|j: int| 0 <= j < orig.len() ==> (#[trigger] orig[j]).wf(),
                rest@.len() <= orig.len(),
                rest@ == orig.subrange(0, rest@.len() as int),
                src.len() == kept@.len(),
                forall|k: int|
                    0 <= k < kept@.len() ==> rest@.len() <= #[trigger] src[k] < orig.len()
                        && kept@[k] == orig[src[k]],
                forall|k: int|
                    0 <= k < kept@.len() ==> !some_tag_holds(#[trigger] kept@[k]@.tags, *query),
                forall|a: int, b: int| 0 <= a < b < src.len() ==> src[a] > src[b],
                forall|j: int|
                    rest@.len() <= j < orig.len() && !some_tag_holds(
                        #[trigger] orig[j]@.tags,
                        *query,
                    ) ==> exists|k: int| 0 <= k < src.len() && #[trigger] src[k] == j,
            decreases rest@.len(),
        {
            let f = rest.pop().unwrap();
            let ghost n = rest@.len() as int;
            assert(f == orig[n]);
            assert(rest@ =~= orig.subrange(0, n));
            if !f.match_query(query) {
                let ghost prev = kept@;
                let ghost prev_src = src;
                kept.push(f);
                proof {
                    src = src.push(n);
                    assert forall|k: int| 0 <= k < prev.len() implies #[trigger] kept@[k] == prev[k]
                        && src[k] == prev_src[k] by {}
                    assert forall|j: int|
                        n <= j < orig.len() && !some_tag_holds(
                            #[trigger] orig[j]@.tags,
                            *query,
                        ) implies exists|k: int| 0 <= k < src.len() && #[trigger] src[k] == j by {
                        if j == n {
                            assert(src[prev.len() as int] == n);
                        } else {
                            let k = choose|k: int| 0 <= k < prev_src.len() && #[trigger] prev_src[k] == j;
                            assert(src[k] == j);
                        }
                    }
                }
            }
        }
        proof {
            assert forall|a: int, b: int| 0 <= a < b < kept@.len() implies kept@[a]@.path
                != kept@[b]@.path by {
                assert(kept@[a] == orig[src[a]]);
                assert(kept@[b] == orig[src[b]]);
                assert(src[a] > src[b]);
            }
            assert forall|k: int| 0 <= k < kept@.len() implies (#[trigger] kept@[k]).wf() by {
                assert(kept@[k] == orig[src[k]]);
            }
        }
        self.db = kept;
        proof {
            let e = entries_of(orig);
            let keys = e.dom().filter(|p: Seq<char>| !some_tag_holds(e[p], *query));
            assert forall|p: Seq<char>| #[trigger] entries_of(kept@).contains_key(p) <==> e.restrict(
                keys,
            ).contains_key(p) by {
                if entries_of(kept@).contains_key(p) {
                    let k = choose|k: int| 0 <= k < kept@.len() && #[trigger] kept@[k]@.path == p;
                    lemma_entry(orig, src[k]);
                }
                if e.restrict(keys).contains_key(p) {
                    let j = choose|j: int| 0 <= j < orig.len() && #[trigger] orig[j]@.path == p;
                    lemma_entry(orig, j);
                    let k = choose|k: int| 0 <= k < src.len() && #[trigger] src[k] == j;
                    assert(kept@[k]@.path == p);
                }
            }
            assert forall|p: Seq<char>| #[trigger] entries_of(kept@).contains_key(p) implies entries_of(
                kept@,
            )[p] == e[p] by {
                let k = choose|k: int| 0 <= k < kept@.len() && #[trigger] kept@[k]@.path == p;
                lemma_entry(orig, src[k]);
                lemma_entry(kept@, k);
            }
            assert(entries_of(kept@) =~= e.restrict(keys));
        }
    }

    /// Drops, in every file, the tags that satisfy `query`; files stay, even
    /// when left with no tags.
    pub fn remove_matching_tags(&mut self, query: &Query)
        requires
            old(self).wf(),
        ensures
            final(self).wf(),
            final(self)@.location == old(self)@.location,
            final(self)@.entries == old(self)@.entries.map_values(
                |ts: Set<Seq<TagValue>>| without_matching(ts, *query),
            ),
    {
        let ghost orig = self.db@;
        let ghost f = |ts: Set<Seq<TagValue>>| without_matching(ts, *query);
        let mut i: usize = 0;
        while i < self.db.len()
            invariant
                unique_paths(orig),
                self.file == old(self).file,
                orig == old(self).db@,
                self.db@.len() == orig.len(),
                i <= orig.len(),
                forall|j: int| 0 <= j < orig.len() ==> (#[trigger] self.db@[j]).wf(),
                forall|j: int| 0 <= j < orig.len() ==> (#[trigger] self.db@[j])@.path == orig[j]@.path,
                forall|j: int|
                    0 <= j < i ==> (#[trigger] self.db@[j])@.tags == without_matching(
                        orig[j]@.tags,
                        *query,
                    ),
                forall|j: int| i <= j < orig.len() ==> #[trigger] self.db@[j] == orig[j],
            decreases orig.len() - i,
        {
            let ghost before = self.db@;
            self.db[i].remove_all_matching(query);
            assert forall|j: int| 0 <= j < orig.len() && j != i implies #[trigger] self.db@[j]
                == before[j] by {}
            i = i + 1;
        }
        proof {
            lemma_pointwise(orig, self.db@, f);
        }
    }

    /// Drops the tags of the file at `file` that satisfy `query`; nothing
    /// changes when no file is at that path.
    pub fn remove_matching_tags_for_file(&mut self, file: &String, query: &Query)
        requires
            old(self).wf(),
        ensures
            final(self).wf(),
            final(self)@.location == old(self)@.location,
            old(self)@.entries.contains_key(file@) ==> final(self)@.entries == old(
                self,
            )@.entries.insert(file@, without_matching(old(self)@.entries[file@], *query)),
            !old(self)@.entries.contains_key(file@) ==> final(self)@ == old(self)@,
    {
        match self.find(file) {
            Some(i) => {
                let ghost before = self.db@;
                proof {
                    lemma_entry(before, i as int);
                }
                self.db[i].remove_all_matching(query);
                proof {
                    assert forall|j: int| 0 <= j < before.len() && j != i implies #[trigger] self.db@[j]
                        == before[j] by {}
                    lemma_update_one(before, self.db@, i as int);
                }
            },
            None => {},
        }
    }

    /// Adds `tag` to every file that has a tag satisfying `query`.
    pub fn add_tag_matching(&mut self, query: &Query, tag: &Tag)
        requires
            old(self).wf(),
        ensures
            final(self).wf(),
            final(self)@.location == old(self)@.location,
            final(self)@.entries == old(self)@.entries.map_values(
                |ts: Set<Seq<TagValue>>|
                    if some_tag_holds(ts, *query) {
                        ts.insert(tag@)
                    } else {
                        ts
                    },
            ),
    {
        let ghost orig = self.db@;
        let ghost f = |ts: Set<Seq<TagValue>>|
            if some_tag_holds(ts, *query) {
                ts.insert(tag@)
            } else {
                ts
            };
        let mut i: usize = 0;
        while i < self.db.len()
            invariant
                unique_paths(orig),
                self.file == old(self).file,
                orig == old(self).db@,
                self.db@.len() == orig.len(),
                i <= orig.len(),
                forall|j: int| 0 <= j < orig.len() ==> (#[trigger] self.db@[j]).wf(),
                forall|j: int| 0 <= j < orig.len() ==> (#[trigger] self.db@[j])@.path == orig[j]@.path,
                forall|j: int|
                    0 <= j < i ==> (#[trigger] self.db@[j])@.tags == if some_tag_holds(
                        orig[j]@.tags,
                        *query,
                    ) {
                        orig[j]@.tags.insert(tag@)
                    } else {
                        orig[j]@.tags
                    },
                forall|j: int| i <= j < orig.len() ==> #[trigger] self.db@[j] == orig[j],
            decreases orig.len() - i,
        {
            let ghost before = self.db@;
            if self.db[i].match_query(query) {
                self.db[i].add_tag(tag.copy());
            }
            assert forall|j: int| 0 <= j < orig.len() && j != i implies #[trigger] self.db@[j]
                == before[j] by {}
            i = i + 1;
        }
        proof {
            lemma_pointwise(orig, self.db@, f);
        }
    }

    /// Adds `tag` to the file at `file`; nothing changes when no file is at
    /// that path.
    pub fn add_tag_to_file(&mut self, file: String, tag: &Tag)
        requires
            old(self).wf(),
        ensures
            final(self).wf(),
            final(self)@.location == old(self)@.location,
            old(self)@.entries.contains_key(file@) ==> final(self)@.entries == old(
                self,
            )@.entries.insert(file@, old(self)@.entries[file@].insert(tag@)),
            !old(self)@.entries.contains_key(file@) ==> final(self)@ == old(self)@,
    {
        match self.find(&file) {
            Some(i) => {
                let ghost before = self.db@;
                proof {
                    lemma_entry(before, i as int);
                }
                self.db[i].add_tag(tag.copy());
                proof {
                    assert forall|j: int| 0 <= j < before.len() && j != i implies #[trigger] self.db@[j]
                        == before[j] by {}
                    lemma_update_one(before, self.db@, i as int);
                }
            },
            None => {},
        }
    }
}

} // verus!