use vstd::prelude::*;

use crate::order::{
    irreflexive, lemma_lex_decided_at, lemma_lex_head, lemma_lex_irreflexive, lemma_lex_rest,
    lemma_lex_total, lemma_lex_transitive, lex_at, lex_lt, total, transitive,
};
use crate::query::Query;
use crate::text::{
    after, date_shaped, date_value, decode, digit_value, find_colon, first_end, first_value,
    i32_value, is_digit, parse_i32, token_end,
};

verus! {

/// The mathematical value of one atomic tag element.
pub enum TagValue {
    Date(u32, u32, u32),
    Number(i32),
    Str(Seq<char>),
}

/// One atomic element of a tag: a date (day, month, year), a number or a word.
#[derive(Clone, Debug, Eq, PartialOrd, Ord, Hash)]
pub enum TagType {
    Date(u32, u32, u32),
    Number(i32),
    Str(String),
}

impl View for TagType {
    type V = TagValue;

    open spec fn view(&self) -> TagValue {
        match self {
            TagType::Date(d, m, y) => TagValue::Date(*d, *m, *y),
            TagType::Number(n) => TagValue::Number(*n),
            TagType::Str(s) => TagValue::Str(s@),
        }
    }
}

impl TagType {
    /// A date; the calendar is not checked.
    pub fn date(day: u32, month: u32, year: u32) -> (r: Self)
        ensures
            r@ == TagValue::Date(day, month, year),
    {
        TagType::Date(day, month, year)
    }

    /// A number.
    pub fn number(n: i32) -> (r: Self)
        ensures
            r@ == TagValue::Number(n),
    {
        TagType::Number(n)
    }

    /// A word.
    pub fn str(s: String) -> (r: Self)
        ensures
            r@ == TagValue::Str(s@),
    {
        TagType::Str(s)
    }

    /// Decodes a `DD-MM-YYYY` date at the front of `s`, followed by `:` or by
    /// the end; on success `s` loses the date and its delimiter, otherwise it
    /// is left as it was.
    pub fn date_from_str(s: &mut String) -> (r: Option<Self>)
        ensures
            r is Some <==> date_shaped(old(s)@),
            r is Some ==> r->0@ == date_value(old(s)@) && final(s)@ == after(old(s)@, 10),
            r is None ==> final(s)@ == old(s)@,
    {
        let n = s.as_str().unicode_len();
        if n < 10 {
            return None;
        }
        if n > 10 && s.as_str().get_char(10) != ':' {
            return None;
        }
        if s.as_str().get_char(2) != '-' || s.as_str().get_char(5) != '-' {
            return None;
        }
        let mut digits: Vec<u32> = Vec::new();
        let mut i: usize = 0;
        while i < 10
            invariant
                n == s@.len(),
                n >= 10,
                i <= 10,
                digits@.len() == i - (if i > 2 { 1int } else { 0 }) - (if i > 5 { 1int } else { 0 }),
                forall|j: int| 0 <= j < i && j != 2 && j != 5 ==> is_digit(#[trigger] s@[j]),
                forall|j: int|
                    0 <= j < i && j != 2 && j != 5 ==> digits@[j - (if j > 2 { 1int } else { 0 }) - (
                    if j > 5 { 1int } else { 0 })] == #[trigger] digit_value(s@[j]),
            decreases 10 - i,
        {
            if i != 2 && i != 5 {
                let v = s.as_str().get_char(i) as u32;
                if v < 48 || v > 57 {
                    return None;
                }
                digits.push(v - 48);
            }
            i = i + 1;
        }
        assert(digit_value(s@[0]) == digits@[0]);
        assert(digit_value(s@[1]) == digits@[1]);
        assert(digit_value(s@[3]) == digits@[2]);
        assert(digit_value(s@[4]) == digits@[3]);
        assert(digit_value(s@[6]) == digits@[4]);
        assert(digit_value(s@[7]) == digits@[5]);
        assert(digit_value(s@[8]) == digits@[6]);
        assert(digit_value(s@[9]) == digits@[7]);
        let day = digits[0] * 10 + digits[1];
        let month = digits[2] * 10 + digits[3];
        let year = digits[4] * 1000 + digits[5] * 100 + digits[6] * 10 + digits[7];
        let start: usize = if n > 10 {
            11
        } else {
            10
        };
        let rest = String::from_str(s.as_str().substring_char(start, n));
        *s = rest;
        Some(TagType::date(day, month, year))
    }

    /// Decodes a signed integer token at the front of `s`, ended by `:` or by
    /// the end; on success `s` loses the token and its delimiter, otherwise it
    /// is left as it was.
    pub fn number_from_str(s: &mut String) -> (r: Option<Self>)
        ensures
            r is Some <==> i32_value(old(s)@.subrange(0, token_end(old(s)@) as int)) is Some,
            r is Some ==> r->0@ == TagValue::Number(
                i32_value(old(s)@.subrange(0, token_end(old(s)@) as int))->0,
            ) && final(s)@ == after(old(s)@, token_end(old(s)@) as int),
            r is None ==> final(s)@ == old(s)@,
    {
        let n = s.as_str().unicode_len();
        let k = find_colon(s.as_str());
        proof {
            crate::text::lemma_token_end(s@);
        }
        match parse_i32(s.as_str().substring_char(0, k)) {
            Some(x) => {
                let start: usize = if k < n {
                    k + 1
                } else {
                    n
                };
                let rest = String::from_str(s.as_str().substring_char(start, n));
                *s = rest;
                Some(TagType::number(x))
            },
            None => None,
        }
    }

    /// Structural equality of two elements.
    pub fn same_as(&self, other: &TagType) -> (r: bool)
        ensures
            r == (self@ == other@),
    {
        match (self, other) {
            (TagType::Date(d1, m1, y1), TagType::Date(d2, m2, y2)) => {
                *d1 == *d2 && *m1 == *m2 && *y1 == *y2
            },
            (TagType::Number(a), TagType::Number(b)) => *a == *b,
            (TagType::Str(a), TagType::Str(b)) => *a == *b,
            _ => false,
        }
    }

    /// Whether this element precedes `other`.
    pub fn less_than(&self, other: &TagType) -> (r: bool)
        ensures
            r == value_lt(self@, other@),
    {
        match (self, other) {
            (TagType::Date(d1, m1, y1), TagType::Date(d2, m2, y2)) => {
                *d1 < *d2 || (*d1 == *d2 && *m1 < *m2) || (*d1 == *d2 && *m1 == *m2 && *y1 < *y2)
            },
            (TagType::Date(_, _, _), _) => true,
            (TagType::Number(x), TagType::Number(y)) => *x < *y,
            (TagType::Number(_), TagType::Str(_)) => true,
            (TagType::Str(x), TagType::Str(y)) => word_less(x, y),
            _ => false,
        }
    }

    /// A copy with the same value.
    pub fn copy(&self) -> (r: TagType)
        ensures
            r@ == self@,
    {
        match self {
            TagType::Date(d, m, y) => TagType::Date(*d, *m, *y),
            TagType::Number(n) => TagType::Number(*n),
            TagType::Str(s) => TagType::Str(s.clone()),
        }
    }
}

impl PartialEq for TagType {
    fn eq(&self, other: &TagType) -> (r: bool) {
        self.same_as(other)
    }
}

impl vstd::std_specs::cmp::PartialEqSpecImpl for TagType {
    open spec fn obeys_eq_spec() -> bool {
        true
    }

    open spec fn eq_spec(&self, other: &TagType) -> bool {
        self@ == other@
    }
}

/// Characters in code-point order.
pub open spec fn char_order() -> spec_fn(char, char) -> bool {
    |a: char, b: char| (a as u32) < (b as u32)
}

/// The order of elements: dates before numbers before words; dates by day,
/// then month, then year; numbers by value; words lexicographically.
pub open spec fn value_lt(a: TagValue, b: TagValue) -> bool {
    match (a, b) {
        (TagValue::Date(d1, m1, y1), TagValue::Date(d2, m2, y2)) => {
            d1 < d2 || (d1 == d2 && m1 < m2) || (d1 == d2 && m1 == m2 && y1 < y2)
        },
        (TagValue::Date(_, _, _), _) => true,
        (TagValue::Number(x), TagValue::Number(y)) => x < y,
        (TagValue::Number(_), TagValue::Str(_)) => true,
        (TagValue::Str(x), TagValue::Str(y)) => lex_lt(x, y, char_order()),
        _ => false,
    }
}

pub open spec fn value_order() -> spec_fn(TagValue, TagValue) -> bool {
    |a: TagValue, b: TagValue| value_lt(a, b)
}

/// The order of tags: lexicographic over their elements, head first.
pub open spec fn tag_lt(s: Seq<TagValue>, t: Seq<TagValue>) -> bool {
    lex_lt(s, t, value_order())
}

pub proof fn lemma_char_order()
    ensures
        irreflexive(char_order()),
        transitive(char_order()),
        total(char_order()),
{
    assert forall|a: char, b: char|
        a != b implies #[trigger] char_order()(a, b) || #[trigger] char_order()(b, a) by {
        vstd::utf8::char_u32_cast(a, a as u32);
        vstd::utf8::char_u32_cast(b, b as u32);
    }
}

pub proof fn lemma_value_order()
    ensures
        irreflexive(value_order()),
        transitive(value_order()),
        total(value_order()),
{
    lemma_char_order();
    assert forall|a: TagValue| !#[trigger] value_order()(a, a) by {
        if let TagValue::Str(x) = a {
            lemma_lex_irreflexive(x, char_order());
        }
    }
    assert forall|a: TagValue, b: TagValue, c: TagValue|
        #[trigger] value_order()(a, b) && #[trigger] value_order()(b, c) implies value_order()(
        a,
        c,
    ) by {
        if let (TagValue::Str(x), TagValue::Str(y), TagValue::Str(z)) = (a, b, c) {
            lemma_lex_transitive(x, y, z, char_order());
        }
    }
    assert forall|a: TagValue, b: TagValue|
        a != b implies #[trigger] value_order()(a, b) || #[trigger] value_order()(b, a) by {
        if let (TagValue::Str(x), TagValue::Str(y)) = (a, b) {
            lemma_lex_total(x, y, char_order());
        }
    }
}

/// Whether word `a` precedes word `b`.
fn word_less(a: &String, b: &String) -> (r: bool)
    ensures
        r == lex_lt(a@, b@, char_order()),
{
    proof {
        lemma_char_order();
    }
    let na = a.as_str().unicode_len();
    let nb = b.as_str().unicode_len();
    let mut i: usize = 0;
    while i < na && i < nb
        invariant
            na == a@.len(),
            nb == b@.len(),
            i <= na,
            i <= nb,
            forall|j: int| 0 <= j < i ==> a@[j] == b@[j],
        decreases na - i,
    {
        let ca = a.as_str().get_char(i);
        let cb = b.as_str().get_char(i);
        if ca != cb {
            proof {
                lemma_lex_decided_at(a@, b@, char_order(), i as int);
            }
            return (ca as u32) < (cb as u32);
        }
        i = i + 1;
    }
    proof {
        lemma_lex_decided_at(a@, b@, char_order(), i as int);
    }
    na < nb
}

/// A tag: a sequence of elements, built by prepending.
#[derive(Debug, Eq, PartialOrd, Ord, Hash)]
pub enum Tag {
    Nil,
    Cons(TagType, Box<Tag>),
}

/// The elements of a tag, head first.
pub open spec fn tag_seq(t: &Tag) -> Seq<TagValue>
    decreases t,
{
    match t {
        Tag::Nil => Seq::empty(),
        Tag::Cons(h, rest) => seq![h@] + tag_seq(rest),
    }
}

impl View for Tag {
    type V = Seq<TagValue>;

    open spec fn view(&self) -> Seq<TagValue> {
        tag_seq(self)
    }
}

/// `t` is a prefix of `s` (anchored at the head).
pub open spec fn seq_begins_with(s: Seq<TagValue>, t: Seq<TagValue>) -> bool {
    t.len() <= s.len() && s.subrange(0, t.len() as int) == t
}

/// `t` is a suffix of `s` (anchored at the end of the chain).
pub open spec fn seq_ends_in(s: Seq<TagValue>, t: Seq<TagValue>) -> bool {
    t.len() <= s.len() && s.subrange(s.len() - t.len(), s.len() as int) == t
}

/// `t` occurs in `s` as a contiguous run.
pub open spec fn seq_contains(s: Seq<TagValue>, t: Seq<TagValue>) -> bool {
    exists|i: int|
        0 <= i && i + t.len() <= s.len() && #[trigger] s.subrange(i, i + t.len()) == t
}

/// The empty tag is contained in, begins and ends every tag.
pub proof fn lemma_empty_tag_matches_all(t: Tag)
    ensures
        seq_contains(t@, Tag::Nil@),
        seq_begins_with(t@, Tag::Nil@),
        seq_ends_in(t@, Tag::Nil@),
{
    let e = Tag::Nil@;
    assert(t@.subrange(0int, 0int + e.len()) =~= e);
    assert(t@.subrange(t@.len() - e.len(), t@.len() as int) =~= e);
}

/// Every tag contains, begins with and ends in itself.
pub proof fn lemma_tag_matches_itself(t: Tag)
    ensures
        seq_contains(t@, t@),
        seq_begins_with(t@, t@),
        seq_ends_in(t@, t@),
{
    assert(t@.subrange(0int, 0int + t@.len()) =~= t@);
}

impl Tag {
    /// The empty tag.
    pub fn new() -> (r: Self)
        ensures
            r@ == Seq::<TagValue>::empty(),
    {
        Tag::Nil
    }

    /// Prepends `t`: the result's head is `t`, its tail is `self`.
    pub fn append(self, t: TagType) -> (r: Self)
        ensures
            r@ == seq![t@] + self@,
    {
        Tag::Cons(t, Box::new(self))
    }

    /// Structural equality of two tags.
    pub fn same_as(&self, other: &Tag) -> (r: bool)
        ensures
            r == (self@ == other@),
        decreases self,
    {
        match (self, other) {
            (Tag::Nil, Tag::Nil) => true,
            (Tag::Cons(a, b), Tag::Cons(c, d)) => {
                let h = a.same_as(c);
                let r = h && b.same_as(d);
                proof {
                    if !h {
                        assert(self@[0] != other@[0]);
                    } else if !r {
                        assert(self@.subrange(1, self@.len() as int) =~= b@);
                        assert(other@.subrange(1, other@.len() as int) =~= d@);
                    } else {
                        assert(self@ =~= other@);
                    }
                }
                r
            },
            (Tag::Nil, Tag::Cons(_, _)) => {
                assert(other@.len() > 0);
                false
            },
            (Tag::Cons(_, _), Tag::Nil) => {
                assert(self@.len() > 0);
                false
            },
        }
    }

    /// Decodes the colon-separated tokens of `s` into a tag whose head is the
    /// first token; `s` is consumed entirely.
    pub fn from_str(s: &mut String) -> (r: Option<Self>)
        ensures
            r is Some,
            r->0@ == decode(old(s)@),
            final(s)@ == Seq::<char>::empty(),
    {
        let mut tags: Vec<TagType> = Vec::new();
        let ghost whole = s@;
        loop
            invariant_except_break
                tags@.map_values(|t: TagType| t@) + decode(s@) == decode(whole),
            ensures
                tags@.map_values(|t: TagType| t@) == decode(whole),
                s@ == Seq::<char>::empty(),
            decreases s@.len(),
        {
            let ghost cur = s@;
            proof {
                crate::text::lemma_token_end(cur);
            }
            if let Some(t) = TagType::date_from_str(s) {
                tags.push(t);
            } else if let Some(t) = TagType::number_from_str(s) {
                tags.push(t);
            } else {
                let n = s.as_str().unicode_len();
                let k = find_colon(s.as_str());
                let word = String::from_str(s.as_str().substring_char(0, k));
                let start: usize = if k < n {
                    k + 1
                } else {
                    n
                };
                let rest = String::from_str(s.as_str().substring_char(start, n));
                *s = rest;
                tags.push(TagType::Str(word));
            }
            let ghost k = first_end(cur);
            assert(s@ == after(cur, k));
            assert(tags@.last()@ == first_value(cur));
            if s.as_str().unicode_len() == 0 {
                assert(decode(cur) == seq![first_value(cur)]);
                assert(tags@.map_values(|t: TagType| t@) =~= decode(whole));
                break;
            }
            assert(decode(cur) == seq![first_value(cur)] + decode(s@));
            assert(tags@.map_values(|t: TagType| t@) + decode(s@) =~= decode(whole));
        }
        let ghost all = tags@.map_values(|t: TagType| t@);
        let mut t = Tag::new();
        while tags.len() > 0
            invariant
                all == decode(whole),
                tags@.len() <= all.len(),
                forall|i: int| 0 <= i < tags@.len() ==> #[trigger] tags@[i]@ == all[i],
                t@ == all.subrange(tags@.len() as int, all.len() as int),
            decreases tags@.len(),
        {
            let e = tags.pop().unwrap();
            t = t.append(e);
            assert(t@ =~= all.subrange(tags@.len() as int, all.len() as int));
        }
        assert(t@ =~= all);
        Some(t)
    }

    /// Evaluates `query` against this tag.
    pub fn match_query(&self, query: &Query) -> (r: bool)
        ensures
            r == query.holds(self@),
        decreases query,
    {
        match query {
            Query::Or(p, q) => self.match_query(p) || self.match_query(q),
            Query::And(p, q) => self.match_query(p) && self.match_query(q),
            Query::Eq(t) => t.same_as(self),
            Query::Contains(t) => self.contains(t),
            Query::BeginsWith(t) => self.begins_with(t),
            Query::EndsIn(t) => self.ends_in(t),
        }
    }

    /// `t` occurs in this tag as a contiguous run of elements.
    pub fn contains(&self, t: &Tag) -> (r: bool)
        ensures
            r == seq_contains(self@, t@),
        decreases self,
    {
        match (self, t) {
            (_, Tag::Nil) => {
                assert(self@.subrange(0int, 0int + t@.len()) =~= t@);
                true
            },
            (Tag::Cons(a, b), Tag::Cons(c, d)) => {
                let front = a.same_as(c) && b.begins_with(d);
                let r = front || b.contains(t);
                proof {
                    let s = self@;
                    let u = t@;
                    assert(s =~= seq![a@] + b@);
                    assert(u =~= seq![c@] + d@);
                    if front {
                        assert(s.subrange(0int, 0int + u.len()) =~= u);
                    } else if r {
                        let i = choose|i: int|
                            0 <= i && i + u.len() <= b@.len() && #[trigger] b@.subrange(
                                i,
                                i + u.len(),
                            ) == u;
                        assert(s.subrange(i + 1, i + 1 + u.len()) =~= b@.subrange(i, i + u.len()));
                    } else {
                        assert forall|i: int|
                            0 <= i && i + u.len() <= s.len() implies #[trigger] s.subrange(
                                i,
                                i + u.len(),
                            ) != u by {
                            if i == 0 {
                                if s.subrange(0, u.len() as int) == u {
                                    assert(s[0] == u[0]);
                                    assert(b@.subrange(0, d@.len() as int) =~= d@) by {
                                        assert forall|k: int| 0 <= k < d@.len() implies b@[k]
                                            == d@[k] by {
                                            assert(s.subrange(0, u.len() as int)[k + 1] == u[k
                                                + 1]);
                                        }
                                    }
                                }
                            } else {
                                if s.subrange(i, i + u.len()) == u {
                                    assert(b@.subrange(i - 1, i - 1 + u.len()) =~= u) by {
                                        assert forall|k: int| 0 <= k < u.len() implies b@[i - 1
                                            + k] == u[k] by {
                                            assert(s.subrange(i, i + u.len())[k] == u[k]);
                                        }
                                    }
                                }
                            }
                        }
                    }
                }
                r
            },
            (Tag::Nil, Tag::Cons(_, _)) => {
                assert(t@.len() > 0);
                false
            },
        }
    }

    /// This tag starts (at its head) with the elements of `t`.
    pub fn begins_with(&self, t: &Tag) -> (r: bool)
        ensures
            r == seq_begins_with(self@, t@),
        decreases self,
    {
        match (self, t) {
            (_, Tag::Nil) => {
                assert(self@.subrange(0, 0) =~= t@);
                true
            },
            (Tag::Cons(a, b), Tag::Cons(c, d)) => {
                let h = a.same_as(c);
                let r = h && b.begins_with(d);
                proof {
                    let s = self@;
                    let u = t@;
                    assert(s =~= seq![a@] + b@);
                    assert(u =~= seq![c@] + d@);
                    if r {
                        assert(s.subrange(0, u.len() as int) =~= u);
                    } else if h && u.len() <= s.len() && s.subrange(0, u.len() as int) == u {
                        assert(b@.subrange(0, d@.len() as int) =~= d@) by {
                            assert forall|k: int| 0 <= k < d@.len() implies b@[k] == d@[k] by {
                                assert(s.subrange(0, u.len() as int)[k + 1] == u[k + 1]);
                            }
                        }
                    } else if !h && u.len() <= s.len() && s.subrange(0, u.len() as int) == u {
                        assert(s.subrange(0, u.len() as int)[0] == u[0]);
                    }
                }
                r
            },
            (Tag::Nil, Tag::Cons(_, _)) => {
                assert(t@.len() > 0);
                false
            },
        }
    }

    /// This tag ends (at the far end of its chain) with the elements of `t`.
    pub fn ends_in(&self, t: &Tag) -> (r: bool)
        ensures
            r == seq_ends_in(self@, t@),
        decreases self,
    {
        match (self, t) {
            (_, Tag::Nil) => {
                assert(self@.subrange(self@.len() as int, self@.len() as int) =~= t@);
                true
            },
            (Tag::Cons(a, b), Tag::Cons(_, _)) => {
                let whole = self.same_as(t);
                let r = whole || b.ends_in(t);
                proof {
                    let s = self@;
                    let u = t@;
                    assert(s =~= seq![a@] + b@);
                    if whole {
                        assert(s.subrange(0, s.len() as int) =~= s);
                    } else if u.len() < s.len() {
                        assert(s.subrange(s.len() - u.len(), s.len() as int) =~= b@.subrange(
                            b@.len() - u.len(),
                            b@.len() as int,
                        ));
                    } else if u.len() == s.len() {
                        assert(s.subrange(0, s.len() as int) =~= s);
                    }
                }
                r
            },
            (Tag::Nil, Tag::Cons(_, _)) => {
                assert(t@.len() > 0);
                false
            },
        }
    }

    /// Whether this tag precedes `other`.
    pub fn less_than(&self, other: &Tag) -> (r: bool)
        ensures
            r == tag_lt(self@, other@),
        decreases self,
    {
        proof {
            lemma_value_order();
        }
        match (self, other) {
            (_, Tag::Nil) => {
                proof {
                    lemma_lex_decided_at(self@, other@, value_order(), 0);
                }
                false
            },
            (Tag::Nil, Tag::Cons(_, _)) => {
                assert(lex_at(self@, other@, value_order(), 0));
                true
            },
            (Tag::Cons(a, b), Tag::Cons(c, d)) => {
                assert(self@.drop_first() =~= b@);
                assert(other@.drop_first() =~= d@);
                if a.same_as(c) {
                    proof {
                        lemma_lex_rest(self@, other@, value_order());
                    }
                    b.less_than(d)
                } else {
                    proof {
                        lemma_lex_head(self@, other@, value_order());
                    }
                    a.less_than(c)
                }
            },
        }
    }

    /// A copy with the same elements.
    pub fn copy(&self) -> (r: Tag)
        ensures
            r@ == self@,
        decreases self,
    {
        match self {
            Tag::Nil => Tag::Nil,
            Tag::Cons(h, rest) => Tag::Cons(h.copy(), Box::new(rest.copy())),
        }
    }
}

impl Clone for Tag {
    fn clone(&self) -> (r: Tag) {
        self.copy()
    }
}

impl PartialEq for Tag {
    fn eq(&self, other: &Tag) -> (r: bool) {
        self.same_as(other)
    }
}

impl vstd::std_specs::cmp::PartialEqSpecImpl for Tag {
    open spec fn obeys_eq_spec() -> bool {
        true
    }

    open spec fn eq_spec(&self, other: &Tag) -> bool {
        self@ == other@
    }
}

} // verus!
