use vstd::prelude::*;

use crate::query::Query;
use crate::order::{lemma_lex_total, lemma_lex_transitive};
use crate::tags::{lemma_value_order, tag_lt, value_order, Tag, TagValue};

verus! {

/// A path with the set of tags attached to it.
#[derive(Debug)]
pub struct TaggedFile {
    path: String,
    tags: Vec<Tag>,
}

/// The mathematical value of a tagged file.
pub struct TaggedFileView {
    pub path: Seq<char>,
    pub tags: Set<Seq<TagValue>>,
}

/// The set of element sequences held in `v`.
pub open spec fn tag_set(v: Seq<Tag>) -> Set<Seq<TagValue>> {
    Set::new(|e: Seq<TagValue>| exists|i: int| 0 <= i < v.len() && #[trigger] v[i]@ == e)
}

/// The entries of `v` are in strictly increasing tag order, so none is held twice.
pub open spec fn sorted_tags(v: Seq<Tag>) -> bool {
    forall|i: int, j: int| 0 <= i < j < v.len() ==> tag_lt(#[trigger] v[i]@, #[trigger] v[j]@)
}

/// Some tag in `tags` satisfies `q`.
pub open spec fn some_tag_holds(tags: Set<Seq<TagValue>>, q: Query) -> bool {
    exists|t: Seq<TagValue>| tags.contains(t) && #[trigger] q.holds(t)
}

/// The tags that remain of `ts` once those satisfying `q` are dropped.
pub open spec fn without_matching(ts: Set<Seq<TagValue>>, q: Query) -> Set<Seq<TagValue>> {
    ts.filter(|t: Seq<TagValue>| !q.holds(t))
}

/// Dropping the tags that satisfy a query a second time drops nothing more.
pub proof fn lemma_without_matching_idempotent(ts: Set<Seq<TagValue>>, q: Query)
    ensures
        without_matching(without_matching(ts, q), q) == without_matching(ts, q),
{
    assert(without_matching(without_matching(ts, q), q) =~= without_matching(ts, q));
}

impl View for TaggedFile {
    type V = TaggedFileView;

    closed spec fn view(&self) -> TaggedFileView {
        TaggedFileView { path: self.path@, tags: tag_set(self.tags@) }
    }
}

impl TaggedFile {
    /// No tag is held twice.
    pub closed spec fn wf(&self) -> bool {
        sorted_tags(self.tags@)
    }

    /// A file at `p` carrying each of `tags` once.
    pub fn new(p: String, tags: Vec<Tag>) -> (r: Self)
        ensures
            r.wf(),
            r@.path == p@,
            r@.tags == tag_set(tags@),
    {
        let mut f = TaggedFile { path: p, tags: Vec::new() };
        let mut tags = tags;
        let ghost all = tags@;
        assert(f@.tags =~= Set::empty());
        while tags.len() > 0
            invariant
                f.wf(),
                f@.path == p@,
                tags@.len() <= all.len(),
                tags@ == all.subrange(0, tags@.len() as int),
                f@.tags == tag_set(all.subrange(tags@.len() as int, all.len() as int)),
            decreases tags@.len(),
        {
            let t = tags.pop().unwrap();
            let ghost old_rest = all.subrange(tags@.len() + 1int, all.len() as int);
            let ghost new_rest = all.subrange(tags@.len() as int, all.len() as int);
            assert(t == all[tags@.len() as int]);
            f.add_tag(t);
            assert(tag_set(new_rest) =~= tag_set(old_rest).insert(t@)) by {
                assert(new_rest[0] == t);
                assert forall|e: Seq<TagValue>| tag_set(old_rest).contains(e) implies tag_set(
                    new_rest,
                ).contains(e) by {
                    let i = choose|i: int| 0 <= i < old_rest.len() && #[trigger] old_rest[i]@ == e;
                    assert(new_rest[i + 1] == old_rest[i]);
                }
                assert forall|e: Seq<TagValue>| tag_set(new_rest).contains(e) implies tag_set(
                    old_rest,
                ).insert(t@).contains(e) by {
                    let i = choose|i: int| 0 <= i < new_rest.len() && #[trigger] new_rest[i]@ == e;
                    if i > 0 {
                        assert(old_rest[i - 1] == new_rest[i]);
                    }
                }
            }
            assert(tags@ =~= all.subrange(0, tags@.len() as int));
        }
        assert(all.subrange(0, all.len() as int) =~= all);
        f
    }

    /// Some tag of this file satisfies `query`.
    pub fn match_query(&self, query: &Query) -> (r: bool)
        ensures
            r == some_tag_holds(self@.tags, *query),
    {
        let mut i: usize = 0;
        while i < self.tags.len()
            invariant
                i <= self.tags@.len(),
                forall|j: int| 0 <= j < i ==> !query.holds(#[trigger] self.tags@[j]@),
            decreases self.tags@.len() - i,
        {
            if self.tags[i].match_query(query) {
                assert(self@.tags.contains(self.tags@[i as int]@));
                return true;
            }
            i = i + 1;
        }
        assert forall|t: Seq<TagValue>| self@.tags.contains(t) implies !#[trigger] query.holds(t) by {
            let j = choose|j: int| 0 <= j < self.tags@.len() && #[trigger] self.tags@[j]@ == t;
        }
        false
    }

    pub fn get_path(&self) -> (r: String)
        ensures
            r@ == self@.path,
    {
        self.path.clone()
    }

    /// The tags of this file, in increasing order.
    pub fn tags(&self) -> (r: &Vec<Tag>)
        ensures
            tag_set(r@) == self@.tags,
            self.wf() ==> sorted_tags(r@),
    {
        &self.tags
    }

    /// Drops every tag that satisfies `query`.
    pub fn remove_all_matching(&mut self, query: &Query)
        requires
            old(self).wf(),
        ensures
            final(self).wf(),
            final(self)@.path == old(self)@.path,
            final(self)@.tags == without_matching(old(self)@.tags, *query),
    {
        let mut kept: Vec<Tag> = Vec::new();
        let mut i: usize = 0;
        while i < self.tags.len()
            invariant
                i <= self.tags@.len(),
                self.wf(),
                sorted_tags(kept@),
                forall|k: int| 0 <= k < kept@.len() ==> !query.holds(#[trigger] kept@[k]@),
                forall|k: int|
                    0 <= k < kept@.len() ==> tag_set(self.tags@.subrange(0, i as int)).contains(
                        #[trigger] kept@[k]@,
                    ),
                forall|j: int|
                    0 <= j < i && !query.holds(#[trigger] self.tags@[j]@) ==> tag_set(
                        kept@,
                    ).contains(self.tags@[j]@),
            decreases self.tags@.len() - i,
        {
            if !self.tags[i].match_query(query) {
                let ghost prev = kept@;
                kept.push(self.tags[i].copy());
                proof {
                    assert(kept@[prev.len() as int]@ == self.tags@[i as int]@);
                    assert forall|a: int, b: int| 0 <= a < b < kept@.len() implies tag_lt(
                        #[trigger] kept@[a]@,
                        #[trigger] kept@[b]@,
                    ) by {
                        assert(prev[a] == kept@[a]);
                        if b == prev.len() {
                            let front = self.tags@.subrange(0, i as int);
                            assert(tag_set(front).contains(prev[a]@));
                            let j = choose|j: int| 0 <= j < front.len() && #[trigger] front[j]@ == prev[a]@;
                            assert(front[j] == self.tags@[j]);
                            assert(tag_lt(self.tags@[j]@, self.tags@[i as int]@));
                        } else {
                            assert(prev[b] == kept@[b]);
                        }
                    }
                    assert forall|k: int| 0 <= k < kept@.len() implies tag_set(
                        self.tags@.subrange(0, i + 1),
                    ).contains(#[trigger] kept@[k]@) by {
                        let front = self.tags@.subrange(0, i as int);
                        let front1 = self.tags@.subrange(0, i + 1);
                        if k < prev.len() {
                            assert(prev[k] == kept@[k]);
                            assert(tag_set(front).contains(prev[k]@));
                            let j = choose|j: int| 0 <= j < front.len() && #[trigger] front[j]@ == prev[k]@;
                            assert(front1[j] == front[j]);
                        } else {
                            assert(front1[i as int] == self.tags@[i as int]);
                        }
                    }
                    assert forall|j: int|
                        0 <= j < i + 1 && !query.holds(#[trigger] self.tags@[j]@) implies tag_set(
                            kept@,
                        ).contains(self.tags@[j]@) by {
                        if j < i {
                            let k = choose|k: int| 0 <= k < prev.len() && #[trigger] prev[k]@ == self.tags@[j]@;
                            assert(kept@[k] == prev[k]);
                        } else {
                            assert(kept@[prev.len() as int]@ == self.tags@[j]@);
                        }
                    }
                }
            }
            i = i + 1;
        }
        let ghost before = self@.tags;
        let ghost all = self.tags@;
        self.tags = kept;
        assert(self@.tags =~= before.filter(|t: Seq<TagValue>| !query.holds(t))) by {
            assert forall|t: Seq<TagValue>| #[trigger] self@.tags.contains(t) implies before.contains(t) && !query.holds(t) by {
                let k = choose|k: int| 0 <= k < kept@.len() && #[trigger] kept@[k]@ == t;
                assert(all.subrange(0, all.len() as int) =~= all);
            }
        }
    }

    /// Attaches `t` at its place in the order; a tag already present is not
    /// added again.
    pub fn add_tag(&mut self, t: Tag)
        requires
            old(self).wf(),
        ensures
            final(self).wf(),
            final(self)@.path == old(self)@.path,
            final(self)@.tags == old(self)@.tags.insert(t@),
    {
        let n = self.tags.len();
        let mut i: usize = 0;
        loop
            invariant
                n == self.tags@.len(),
                i <= n,
                self.wf(),
                forall|j: int| 0 <= j < i ==> tag_lt(#[trigger] self.tags@[j]@, t@),
            ensures
                n == self.tags@.len(),
                i <= n,
                self.wf(),
                forall|j: int| 0 <= j < i ==> tag_lt(#[trigger] self.tags@[j]@, t@),
                i < n ==> !tag_lt(self.tags@[i as int]@, t@),
            decreases n - i,
        {
            if i == n || !self.tags[i].less_than(&t) {
                break;
            }
            i = i + 1;
        }
        if i < n && self.tags[i].same_as(&t) {
            assert(self@.tags.insert(t@) =~= self@.tags) by {
                assert(self@.tags.contains(self.tags@[i as int]@));
            }
            return;
        }
        let ghost before = self.tags@;
        self.tags.insert(i, t);
        proof {
            lemma_value_order();
            let after = self.tags@;
            assert(after =~= before.insert(i as int, t));
            assert forall|a: int, b: int| 0 <= a < b < after.len() implies tag_lt(
                #[trigger] after[a]@,
                #[trigger] after[b]@,
            ) by {
                if b < i {
                    assert(after[a] == before[a] && after[b] == before[b]);
                } else if b == i {
                    assert(after[a] == before[a]);
                } else if a > i {
                    assert(after[a] == before[a - 1] && after[b] == before[b - 1]);
                } else {
                    assert(after[b] == before[b - 1]);
                    // t comes before the element it was placed in front of
                    lemma_lex_total(before[i as int]@, t@, value_order());
                    if a < i {
                        assert(after[a] == before[a]);
                        assert(tag_lt(before[a]@, t@));
                        lemma_lex_transitive(before[a]@, t@, before[i as int]@, value_order());
                        if b - 1 > i {
                            lemma_lex_transitive(
                                before[a]@,
                                before[i as int]@,
                                before[b - 1]@,
                                value_order(),
                            );
                        }
                    } else if b - 1 > i {
                        lemma_lex_transitive(t@, before[i as int]@, before[b - 1]@, value_order());
                    }
                }
            }
            assert(tag_set(after) =~= tag_set(before).insert(t@)) by {
                assert(after[i as int] == t);
                assert forall|e: Seq<TagValue>| tag_set(before).contains(e) implies #[trigger] tag_set(
                    after,
                ).contains(e) by {
                    let j = choose|j: int| 0 <= j < before.len() && #[trigger] before[j]@ == e;
                    if j < i {
                        assert(after[j] == before[j]);
                    } else {
                        assert(after[j + 1] == before[j]);
                    }
                }
                assert forall|e: Seq<TagValue>| #[trigger] tag_set(after).contains(e) implies tag_set(
                    before,
                ).insert(t@).contains(e) by {
                    let j = choose|j: int| 0 <= j < after.len() && #[trigger] after[j]@ == e;
                    if j < i {
                        assert(after[j] == before[j]);
                    } else if j > i {
                        assert(after[j] == before[j - 1]);
                    }
                }
            }
        }
    }
}

} // verus!
