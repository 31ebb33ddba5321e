//! One named block of attributes in the machine format. Attribute names
//! are unique within a record (last write wins) and serialize in natural
//! order of their names, each as `name\t=\tvalue`.
#![allow(unused_imports)]

use vstd::prelude::*;
use vstd::multiset::Multiset;
use vstd::string::StrSliceExecFns;
use crate::elumatec::variant::{coerce_spec, render_spec, Variant, VariantView};
use crate::natural::{lemma_nat_cmp_antisym, nat_cmp, nat_le};
use crate::text::{
    chars_string, find_char, split_char, split_chars, str_chars, trim_chars, trim_seq,
};

verus! {

/// A named record of attributes.
pub struct Tag {
    name: String,
    attrs: Vec<(String, Variant)>,
}

/// Mathematical shape of a `Tag`: its name and its attribute pairs in
/// insertion order.
pub struct TagView {
    pub name: Seq<char>,
    pub attrs: Seq<(Seq<char>, VariantView)>,
}

/// The pairs of an attribute vector, as sequences and value views.
pub open spec fn attrs_view(s: Seq<(String, Variant)>) -> Seq<(Seq<char>, VariantView)> {
    s.map_values(|p: (String, Variant)| (p.0@, p.1@))
}

impl View for Tag {
    type V = TagView;

    closed spec fn view(&self) -> TagView {
        TagView { name: self.name@, attrs: attrs_view(self.attrs@) }
    }
}

/// First index holding `key`, or -1.
pub open spec fn key_index(attrs: Seq<(Seq<char>, VariantView)>, key: Seq<char>) -> int
    decreases attrs.len(),
{
    if attrs.len() == 0 {
        -1
    } else if attrs[0].0 == key {
        0
    } else {
        let r = key_index(attrs.drop_first(), key);
        if r < 0 {
            -1
        } else {
            1 + r
        }
    }
}

pub proof fn lemma_key_index(attrs: Seq<(Seq<char>, VariantView)>, key: Seq<char>)
    ensures
        key_index(attrs, key) == -1 ==> forall|j: int| 0 <= j < attrs.len() ==> attrs[j].0 != key,
        key_index(attrs, key) >= 0 ==> key_index(attrs, key) < attrs.len() && attrs[key_index(
            attrs,
            key,
        )].0 == key && forall|j: int| 0 <= j < key_index(attrs, key) ==> attrs[j].0 != key,
    decreases attrs.len(),
{
    if attrs.len() == 0 {
    } else if attrs[0].0 == key {
    } else {
        lemma_key_index(attrs.drop_first(), key);
        let d = attrs.drop_first();
        let r = key_index(d, key);
        if r < 0 {
            assert forall|j: int| 0 <= j < attrs.len() implies attrs[j].0 != key by {
                if j > 0 {
                    assert(d[j - 1] == attrs[j]);
                }
            }
        } else {
            assert(d[r] == attrs[r + 1]);
            assert forall|j: int| 0 <= j < key_index(attrs, key) implies attrs[j].0 != key by {
                if j > 0 {
                    assert(d[j - 1] == attrs[j]);
                }
            }
        }
    }
}

/// The value stored under `key`, if any.
pub open spec fn lookup(attrs: Seq<(Seq<char>, VariantView)>, key: Seq<char>) -> Option<
    VariantView,
> {
    let i = key_index(attrs, key);
    if i < 0 {
        Option::None
    } else {
        Option::Some(attrs[i].1)
    }
}

/// `attrs` with `key` bound to `val`: overwritten in place when present,
/// appended otherwise.
pub open spec fn upsert(
    attrs: Seq<(Seq<char>, VariantView)>,
    key: Seq<char>,
    val: VariantView,
) -> Seq<(Seq<char>, VariantView)> {
    let i = key_index(attrs, key);
    if i < 0 {
        attrs.push((key, val))
    } else {
        attrs.update(i, (key, val))
    }
}

/// Attribute names are unique.
pub open spec fn attrs_wf(attrs: Seq<(Seq<char>, VariantView)>) -> bool {
    forall|p: int, q: int| 0 <= p < q < attrs.len() ==> attrs[p].0 != attrs[q].0
}

impl Tag {
    /// Well-formed: no attribute name occurs twice.
    pub open spec fn wf(&self) -> bool {
        attrs_wf(self@.attrs)
    }

    /// An empty record with the given name.
    pub fn new(tag_name: &str) -> (r: Tag)
        ensures
            r@.name == tag_name@,
            r@.attrs == Seq::<(Seq<char>, VariantView)>::empty(),
            r.wf(),
    {
        let r = Tag { name: tag_name.to_owned(), attrs: Vec::new() };
        proof {
            assert(attrs_view(r.attrs@) =~= Seq::<(Seq<char>, VariantView)>::empty());
        }
        r
    }

    /// The record's name.
    pub fn name(&self) -> (r: &str)
        ensures
            r@ == self@.name,
    {
        self.name.as_str()
    }

    /// True exactly when no attribute is set.
    pub fn is_empty(&self) -> (r: bool)
        ensures
            r == (self@.attrs.len() == 0),
    {
        self.attrs.len() == 0
    }

    /// The value under `attr`, by copy, if set.
    pub fn get(&self, attr: &str) -> (r: Option<Variant>)
        ensures
            match r {
                Some(v) => lookup(self@.attrs, attr@) == Option::Some(v@),
                None => lookup(self@.attrs, attr@) is None,
            },
    {
        let n = self.attrs.len();
        let mut i: usize = 0;
        proof {
            lemma_key_index(self@.attrs, attr@);
        }
        while i < n
            invariant
                0 <= i <= n,
                n == self.attrs@.len(),
                forall|j: int| 0 <= j < i ==> attrs_view(self.attrs@)[j].0 != attr@,
                key_index(self@.attrs, attr@) >= 0 ==> key_index(self@.attrs, attr@)
                    < self.attrs@.len() && attrs_view(self.attrs@)[key_index(self@.attrs, attr@)].0
                    == attr@ && forall|j: int|
                    0 <= j < key_index(self@.attrs, attr@) ==> attrs_view(self.attrs@)[j].0
                        != attr@,
                key_index(self@.attrs, attr@) == -1 ==> forall|j: int|
                    0 <= j < self.attrs@.len() ==> attrs_view(self.attrs@)[j].0 != attr@,
            decreases n - i,
        {
            let found = crate::text::str_eq(self.attrs[i].0.as_str(), attr);
            proof {
                assert(attrs_view(self.attrs@)[i as int] == (
                    self.attrs@[i as int].0@,
                    self.attrs@[i as int].1@,
                ));
            }
            if found {
                let v = self.attrs[i].1.duplicate();
                proof {
                    let k = key_index(self@.attrs, attr@);
                    assert(attrs_view(self.attrs@)[i as int].0 == attr@);
                    assert(k >= 0);
                    if k < i {
                        assert(attrs_view(self.attrs@)[k].0 == attr@);
                    }
                    if k > i {
                        assert(attrs_view(self.attrs@)[i as int].0 != attr@);
                    }
                    assert(k == i);
                }
                return Some(v);
            }
            i += 1;
        }
        None
    }

    /// Bind `attr` to `value`: overwrite any earlier value under the
    /// same name, append otherwise.
    pub fn set(&mut self, attr: &str, value: Variant)
        requires
            old(self).wf(),
        ensures
            final(self)@.name == old(self)@.name,
            final(self)@.attrs == upsert(old(self)@.attrs, attr@, value@),
            final(self).wf(),
    {
        let ghost old_attrs = self@.attrs;
        let n = self.attrs.len();
        let mut i: usize = 0;
        proof {
            lemma_key_index(self@.attrs, attr@);
        }
        while i < n
            invariant
                0 <= i <= n,
                n == self.attrs@.len(),
                old_attrs == attrs_view(self.attrs@),
                old_attrs == old(self)@.attrs,
                self@.name == old(self)@.name,
                attrs_wf(old_attrs),
                forall|j: int| 0 <= j < i ==> attrs_view(self.attrs@)[j].0 != attr@,
                key_index(old_attrs, attr@) >= 0 ==> key_index(old_attrs, attr@)
                    < self.attrs@.len() && attrs_view(self.attrs@)[key_index(old_attrs, attr@)].0
                    == attr@ && forall|j: int|
                    0 <= j < key_index(old_attrs, attr@) ==> attrs_view(self.attrs@)[j].0 != attr@,
                key_index(old_attrs, attr@) == -1 ==> forall|j: int|
                    0 <= j < self.attrs@.len() ==> attrs_view(self.attrs@)[j].0 != attr@,
            decreases n - i,
        {
            let found = crate::text::str_eq(self.attrs[i].0.as_str(), attr);
            proof {
                assert(attrs_view(self.attrs@)[i as int] == (
                    self.attrs@[i as int].0@,
                    self.attrs@[i as int].1@,
                ));
            }
            if found {
                proof {
                    let k = key_index(old_attrs, attr@);
                    assert(attrs_view(self.attrs@)[i as int].0 == attr@);
                    assert(k >= 0);
                    if k < i {
                        assert(attrs_view(self.attrs@)[k].0 == attr@);
                    }
                    if k > i {
                        assert(attrs_view(self.attrs@)[i as int].0 != attr@);
                    }
                    assert(k == i);
                }
                self.attrs.set(i, (attr.to_owned(), value));
                proof {
                    assert(attrs_view(self.attrs@) =~= upsert(old_attrs, attr@, value@));
                    assert forall|p: int, q: int|
                        0 <= p < q < attrs_view(self.attrs@).len() implies attrs_view(
                        self.attrs@,
                    )[p].0 != attrs_view(self.attrs@)[q].0 by {
                        if p != i && q != i {
                            assert(attrs_view(self.attrs@)[p].0 == old_attrs[p].0);
                            assert(attrs_view(self.attrs@)[q].0 == old_attrs[q].0);
                        } else if p == i {
                            assert(attrs_view(self.attrs@)[q].0 == old_attrs[q].0);
                            assert(old_attrs[q].0 != attr@);
                        } else {
                            assert(attrs_view(self.attrs@)[p].0 == old_attrs[p].0);
                            assert(old_attrs[p].0 != attr@);
                        }
                    }
                }
                return ;
            }
            i += 1;
        }
        proof {
            let k = key_index(old_attrs, attr@);
            assert(k == -1) by {
                if k >= 0 {
                    assert(attrs_view(self.attrs@)[k].0 == attr@);
                }
            }
        }
        self.attrs.push((attr.to_owned(), value));
        proof {
            assert(attrs_view(self.attrs@) =~= upsert(old_attrs, attr@, value@));
            assert forall|p: int, q: int|
                0 <= p < q < attrs_view(self.attrs@).len() implies attrs_view(self.attrs@)[p].0
                != attrs_view(self.attrs@)[q].0 by {
                if q == attrs_view(self.attrs@).len() - 1 {
                    assert(attrs_view(self.attrs@)[p].0 == old_attrs[p].0);
                }
            }
        }
    }

    /// Read one `name = value` line (its comment part removed first) and
    /// bind the attribute it names. `None` — with this record unchanged —
    /// when the line holds no assignment or more or fewer than one `=`.
    pub fn update_attributes(&mut self, line: &str) -> (r: Option<(String, Variant)>)
        requires
            old(self).wf(),
        ensures
            final(self)@.name == old(self)@.name,
            final(self).wf(),
            match parse_assign(line@) {
                Option::Some(kv) => {
                    &&& r matches Some(p) && p.0@ == kv.0 && p.1@ == kv.1
                    &&& final(self)@.attrs == upsert(old(self)@.attrs, kv.0, kv.1)
                },
                Option::None => r is None && final(self)@ == old(self)@,
            },
    {
        let chars = str_chars(line);
        self.update_attributes_chars(&chars)
    }

    /// As `update_attributes`, on a character vector.
    pub fn update_attributes_chars(&mut self, line: &Vec<char>) -> (r: Option<(String, Variant)>)
        requires
            old(self).wf(),
        ensures
            final(self)@.name == old(self)@.name,
            final(self).wf(),
            match parse_assign(line@) {
                Option::Some(kv) => {
                    &&& r matches Some(p) && p.0@ == kv.0 && p.1@ == kv.1
                    &&& final(self)@.attrs == upsert(old(self)@.attrs, kv.0, kv.1)
                },
                Option::None => r is None && final(self)@ == old(self)@,
            },
    {
        let stripped = strip_comment_chars(line);
        let left = trim_chars(&stripped);
        if left.len() == 0 {
            return None;
        }
        let parts = split_chars(&left, '=');
        if parts.len() != 2 {
            proof {
                assert(parts.deep_view().len() == parts@.len());
            }
            return None;
        }
        proof {
            assert(parts.deep_view()[0] == parts@[0]@);
            assert(parts.deep_view()[1] == parts@[1]@);
        }
        let key_chars = trim_chars(&parts[0]);
        let key = chars_string(&key_chars);
        let value = Variant::from_chars(&parts[1]);
        let dup = value.duplicate();
        self.set(key.as_str(), value);
        Some((key, dup))
    }
}

/// The text before any `//` comment marker.
pub open spec fn find_comment(s: Seq<char>) -> int
    decreases s.len(),
{
    if s.len() < 2 {
        -1
    } else if s[0] == '/' && s[1] == '/' {
        0
    } else {
        let r = find_comment(s.drop_first());
        if r < 0 {
            -1
        } else {
            1 + r
        }
    }
}

pub open spec fn strip_comment(s: Seq<char>) -> Seq<char> {
    let i = find_comment(s);
    if i < 0 {
        s
    } else {
        s.take(i)
    }
}

proof fn lemma_find_comment(s: Seq<char>)
    ensures
        find_comment(s) == -1 ==> forall|j: int|
            0 <= j < s.len() - 1 ==> !(#[trigger] s[j] == '/' && s[j + 1] == '/'),
        find_comment(s) >= 0 ==> {
            let i = find_comment(s);
            &&& i + 1 < s.len()
            &&& s[i] == '/'
            &&& s[i + 1] == '/'
            &&& forall|j: int| 0 <= j < i ==> !(#[trigger] s[j] == '/' && s[j + 1] == '/')
        },
    decreases s.len(),
{
    if s.len() < 2 {
    } else if s[0] == '/' && s[1] == '/' {
    } else {
        lemma_find_comment(s.drop_first());
        let d = s.drop_first();
        assert(forall|j: int| 0 <= j < d.len() ==> d[j] == s[j + 1]);
        let r = find_comment(d);
        if r < 0 {
            assert forall|j: int| 0 <= j < s.len() - 1 implies !(#[trigger] s[j] == '/' && s[j + 1]
                == '/') by {
                if j > 0 {
                    assert(d[j - 1] == s[j]);
                    assert(d[j] == s[j + 1]);
                    assert(!(d[j - 1] == '/' && d[j] == '/'));
                }
            }
        } else {
            assert(d[r] == s[r + 1]);
            assert(d[r + 1] == s[r + 2]);
            assert forall|j: int| 0 <= j < find_comment(s) implies !(#[trigger] s[j] == '/' && s[j
                + 1] == '/') by {
                if j > 0 {
                    assert(d[j - 1] == s[j]);
                    assert(d[j] == s[j + 1]);
                    assert(!(d[j - 1] == '/' && d[j] == '/'));
                }
            }
        }
    }
}

/// Copy of the text before the first `//`, whole when there is none.
pub fn strip_comment_chars(v: &Vec<char>) -> (r: Vec<char>)
    ensures
        r@ == strip_comment(v@),
{
    let n = v.len();
    let mut end: usize = n;
    let mut i: usize = 0;
    let mut found = false;
    while i < n && i + 1 < n && !found
        invariant
            0 <= i <= n,
            n == v.len(),
            !found ==> forall|j: int| 0 <= j < i ==> !(#[trigger] v@[j] == '/' && v@[j + 1] == '/'),
            found ==> i + 1 < n && v@[i as int] == '/' && v@[i + 1] == '/' && forall|j: int|
                0 <= j < i ==> !(#[trigger] v@[j] == '/' && v@[j + 1] == '/'),
        decreases n - i - (if found {
            1int
        } else {
            0int
        }),
    {
        if v[i] == '/' && v[i + 1] == '/' {
            found = true;
        } else {
            i += 1;
        }
    }
    proof {
        lemma_find_comment(v@);
    }
    if found {
        end = i;
        proof {
            assert(find_comment(v@) == i) by {
                let f = find_comment(v@);
                if f < 0 {
                } else if f < i {
                } else if f > i {
                }
            }
        }
    } else {
        proof {
            assert(find_comment(v@) == -1) by {
                let f = find_comment(v@);
                if f >= 0 {
                }
            }
        }
    }
    let mut r: Vec<char> = Vec::new();
    let mut k: usize = 0;
    while k < end
        invariant
            0 <= k <= end <= n,
            n == v.len(),
            r@ == v@.subrange(0, k as int),
        decreases end - k,
    {
        let c = v[k];
        r.push(c);
        assert(v@.subrange(0, k + 1 as int) =~= v@.subrange(0, k as int).push(c));
        k += 1;
    }
    proof {
        if found {
            assert(r@ =~= v@.take(i as int));
        } else {
            assert(r@ =~= v@);
        }
    }
    r
}

/// What reading an assignment line yields: the comment part is cut, the
/// rest trimmed; nothing when that is empty; else the line must split on
/// `=` into exactly two parts, the trimmed left part naming the
/// attribute and the right part coercing to its value.
pub open spec fn parse_assign(line: Seq<char>) -> Option<(Seq<char>, VariantView)> {
    let left = trim_seq(strip_comment(line));
    if left.len() == 0 {
        Option::None
    } else {
        let parts = split_char(left, '=');
        if parts.len() != 2 {
            Option::None
        } else {
            Option::Some((trim_seq(parts[0]), coerce_spec(parts[1])))
        }
    }
}

/// `x` placed into `s` after every pair whose name compares at or
/// before `x`'s: stable insertion.
pub open spec fn insert_sorted(
    x: (Seq<char>, VariantView),
    s: Seq<(Seq<char>, VariantView)>,
) -> Seq<(Seq<char>, VariantView)>
    decreases s.len(),
{
    if s.len() == 0 {
        seq![x]
    } else if nat_cmp(s[0].0, x.0) <= 0 {
        seq![s[0]] + insert_sorted(x, s.drop_first())
    } else {
        seq![x] + s
    }
}

/// The pairs of `s` arranged by natural order of their names, pairs
/// with indistinguishable names keeping their order: stable insertion
/// sort.
pub open spec fn sort_attrs(s: Seq<(Seq<char>, VariantView)>) -> Seq<(Seq<char>, VariantView)>
    decreases s.len(),
{
    if s.len() == 0 {
        Seq::<(Seq<char>, VariantView)>::empty()
    } else {
        insert_sorted(s.last(), sort_attrs(s.drop_last()))
    }
}

/// Each name stands natural-order at or before the next.
pub open spec fn sorted_le(s: Seq<(Seq<char>, VariantView)>) -> bool {
    forall|i: int| 0 <= i < s.len() - 1 ==> nat_le(#[trigger] s[i].0, s[i + 1].0)
}

/// Where `p` is the first place whose name compares after `x`'s,
/// inserting lands exactly there.
proof fn lemma_insert_at(
    x: (Seq<char>, VariantView),
    s: Seq<(Seq<char>, VariantView)>,
    p: int,
)
    requires
        0 <= p <= s.len(),
        forall|q: int| 0 <= q < p ==> nat_cmp(#[trigger] s[q].0, x.0) <= 0,
        p < s.len() ==> nat_cmp(s[p].0, x.0) > 0,
    ensures
        insert_sorted(x, s) == s.take(p) + seq![x] + s.skip(p),
    decreases s.len(),
{
    if s.len() == 0 {
        assert(insert_sorted(x, s) =~= s.take(p) + seq![x] + s.skip(p));
    } else if p == 0 {
        assert(nat_cmp(s[0].0, x.0) > 0);
        assert(s.take(0) =~= Seq::<(Seq<char>, VariantView)>::empty());
        assert(s.skip(0) =~= s);
        assert(insert_sorted(x, s) =~= s.take(0) + seq![x] + s.skip(0));
    } else {
        let d = s.drop_first();
        assert(forall|j: int| 0 <= j < d.len() ==> d[j] == s[j + 1]);
        assert(nat_cmp(s[0].0, x.0) <= 0);
        lemma_insert_at(x, d, p - 1);
        assert(d.take(p - 1) =~= s.take(p).drop_first());
        assert(d.skip(p - 1) =~= s.skip(p));
        assert(seq![s[0]] + (d.take(p - 1) + seq![x] + d.skip(p - 1)) =~= s.take(p) + seq![x]
            + s.skip(p));
    }
}

/// Inserting adds exactly the inserted pair to the contents.
proof fn lemma_insert_sorted_multiset(x: (Seq<char>, VariantView), s: Seq<(Seq<char>, VariantView)>)
    ensures
        insert_sorted(x, s).len() == s.len() + 1,
        insert_sorted(x, s).to_multiset() == s.to_multiset().insert(x),
    decreases s.len(),
{
    broadcast use vstd::seq_lib::group_to_multiset_ensures;

    if s.len() == 0 {
        assert(insert_sorted(x, s) =~= Seq::<(Seq<char>, VariantView)>::empty().push(x));
    } else if nat_cmp(s[0].0, x.0) <= 0 {
        let d = s.drop_first();
        lemma_insert_sorted_multiset(x, d);
        vstd::seq_lib::lemma_multiset_commutative(seq![s[0]], insert_sorted(x, d));
        vstd::seq_lib::lemma_multiset_commutative(seq![s[0]], d);
        assert(s =~= seq![s[0]] + d);
        assert(seq![s[0]].to_multiset().add(d.to_multiset().insert(x)) =~= (seq![s[0]]
            + d).to_multiset().insert(x));
    } else {
        vstd::seq_lib::lemma_multiset_commutative(seq![x], s);
        assert(seq![x].to_multiset() =~= Multiset::<(Seq<char>, VariantView)>::empty().insert(x))
            by {
            assert(seq![x] =~= Seq::<(Seq<char>, VariantView)>::empty().push(x));
        }
        assert(seq![x].to_multiset().add(s.to_multiset()) =~= s.to_multiset().insert(x));
    }
}

/// Inserting into an ordered sequence keeps it ordered.
proof fn lemma_insert_sorted_sorted(x: (Seq<char>, VariantView), s: Seq<(Seq<char>, VariantView)>)
    requires
        sorted_le(s),
    ensures
        sorted_le(insert_sorted(x, s)),
        insert_sorted(x, s).len() == s.len() + 1,
        insert_sorted(x, s)[0] == if s.len() > 0 && nat_cmp(s[0].0, x.0) <= 0 {
            s[0]
        } else {
            x
        },
    decreases s.len(),
{
    lemma_insert_sorted_multiset(x, s);
    if s.len() == 0 {
    } else if nat_cmp(s[0].0, x.0) <= 0 {
        let d = s.drop_first();
        assert(forall|j: int| 0 <= j < d.len() ==> d[j] == s[j + 1]);
        assert(sorted_le(d)) by {
            assert forall|i: int| 0 <= i < d.len() - 1 implies nat_le(#[trigger] d[i].0, d[i + 1].0)
                by {
                assert(d[i] == s[i + 1]);
                assert(d[i + 1] == s[i + 2]);
                assert(nat_le(s[i + 1].0, s[i + 2].0));
            }
        }
        lemma_insert_sorted_sorted(x, d);
        let t = insert_sorted(x, s);
        let td = insert_sorted(x, d);
        assert(t =~= seq![s[0]] + td);
        assert forall|i: int| 0 <= i < t.len() - 1 implies nat_le(#[trigger] t[i].0, t[i + 1].0) by {
            if i == 0 {
                if d.len() > 0 && nat_cmp(d[0].0, x.0) <= 0 {
                    assert(td[0] == d[0]);
                    assert(nat_le(s[0].0, s[1].0));
                } else {
                    assert(td[0] == x);
                    assert(nat_le(s[0].0, x.0));
                }
            } else {
                assert(t[i] == td[i - 1]);
                assert(t[i + 1] == td[i]);
                assert(nat_le(td[i - 1].0, td[i].0));
            }
        }
    } else {
        let t = insert_sorted(x, s);
        assert(t =~= seq![x] + s);
        lemma_nat_cmp_antisym(s[0].0, x.0);
        assert forall|i: int| 0 <= i < t.len() - 1 implies nat_le(#[trigger] t[i].0, t[i + 1].0) by {
            if i == 0 {
                assert(nat_cmp(x.0, s[0].0) < 0);
            } else {
                assert(t[i] == s[i - 1]);
                assert(t[i + 1] == s[i]);
                assert(nat_le(s[i - 1].0, s[i].0));
            }
        }
    }
}

/// An adjacently ordered sequence is ordered throughout.
proof fn lemma_sorted_le_global(s: Seq<(Seq<char>, VariantView)>, i: int, j: int)
    requires
        sorted_le(s),
        0 <= i <= j < s.len(),
    ensures
        nat_le(s[i].0, s[j].0),
    decreases j - i,
{
    if i == j {
        crate::natural::lemma_nat_cmp_refl(s[i].0);
    } else {
        lemma_sorted_le_global(s, i, j - 1);
        assert(nat_le(s[j - 1].0, s[j].0));
        crate::natural::lemma_nat_le_trans(s[i].0, s[j - 1].0, s[j].0);
    }
}

/// The ordering law of serialization: sorting the attribute pairs for
/// rendering keeps exactly the record's pairs and arranges them so that
/// every name stands natural-order at or before every later one.
pub proof fn lemma_serialization_order(attrs: Seq<(Seq<char>, VariantView)>)
    ensures
        sort_attrs(attrs).len() == attrs.len(),
        sort_attrs(attrs).to_multiset() == attrs.to_multiset(),
        sorted_le(sort_attrs(attrs)),
        forall|i: int, j: int|
            0 <= i <= j < attrs.len() ==> nat_le(
                #[trigger] sort_attrs(attrs)[i].0,
                #[trigger] sort_attrs(attrs)[j].0,
            ),
    decreases attrs.len(),
{
    assert forall|i: int, j: int|
        0 <= i <= j < attrs.len() implies nat_le(
        #[trigger] sort_attrs(attrs)[i].0,
        #[trigger] sort_attrs(attrs)[j].0,
    ) by {
        lemma_serialization_order_inner(attrs);
        lemma_sorted_le_global(sort_attrs(attrs), i, j);
    }
    lemma_serialization_order_inner(attrs);
}

proof fn lemma_serialization_order_inner(attrs: Seq<(Seq<char>, VariantView)>)
    ensures
        sort_attrs(attrs).len() == attrs.len(),
        sort_attrs(attrs).to_multiset() == attrs.to_multiset(),
        sorted_le(sort_attrs(attrs)),
    decreases attrs.len(),
{
    broadcast use vstd::seq_lib::group_to_multiset_ensures;

    if attrs.len() == 0 {
    } else {
        let d = attrs.drop_last();
        lemma_serialization_order_inner(d);
        lemma_insert_sorted_multiset(attrs.last(), sort_attrs(d));
        lemma_insert_sorted_sorted(attrs.last(), sort_attrs(d));
        assert(attrs =~= d.push(attrs.last()));
        assert(d.push(attrs.last()).to_multiset() =~= d.to_multiset().insert(attrs.last()));
    }
}

/// One serialized attribute line: `name\t=\tvalue\n`.
pub open spec fn attr_line(key: Seq<char>, v: VariantView) -> Seq<char> {
    key + seq!['\t', '=', '\t'] + render_spec(v) + seq!['\n']
}

/// The serialized attribute lines, in the order given.
pub open spec fn attr_lines(s: Seq<(Seq<char>, VariantView)>) -> Seq<char>
    decreases s.len(),
{
    if s.len() == 0 {
        Seq::<char>::empty()
    } else {
        attr_line(s[0].0, s[0].1) + attr_lines(s.drop_first())
    }
}

proof fn lemma_attr_lines_snoc(s: Seq<(Seq<char>, VariantView)>, x: (Seq<char>, VariantView))
    ensures
        attr_lines(s.push(x)) == attr_lines(s) + attr_line(x.0, x.1),
    decreases s.len(),
{
    let u = s.push(x);
    assert(u.len() == s.len() + 1);
    assert(attr_lines(u) == attr_line(u[0].0, u[0].1) + attr_lines(u.drop_first()));
    if s.len() == 0 {
        assert(u[0] == x);
        assert(u.drop_first() =~= Seq::<(Seq<char>, VariantView)>::empty());
        assert(attr_lines(u.drop_first()) == Seq::<char>::empty());
        assert(attr_lines(s) == Seq::<char>::empty());
        assert(attr_lines(u) =~= attr_lines(s) + attr_line(x.0, x.1));
    } else {
        assert(u.drop_first() =~= s.drop_first().push(x));
        lemma_attr_lines_snoc(s.drop_first(), x);
        assert(u[0] == s[0]);
        assert(attr_lines(u) == attr_line(s[0].0, s[0].1) + (attr_lines(s.drop_first())
            + attr_line(x.0, x.1)));
        assert(attr_lines(s) == attr_line(s[0].0, s[0].1) + attr_lines(s.drop_first()));
        assert(attr_lines(u) =~= attr_lines(s) + attr_line(x.0, x.1));
    }
}

/// The full serialized text of a record: `:name`, each attribute in
/// natural order of its name, and a closing blank line.
pub open spec fn tag_text(t: TagView) -> Seq<char> {
    seq![':'] + t.name + seq!['\n'] + attr_lines(sort_attrs(t.attrs)) + seq!['\n']
}

/// The first place in `sorted` whose name compares after `key`.
fn find_insert_pos(sorted: &Vec<(String, Variant)>, key: &Vec<char>) -> (p: usize)
    ensures
        0 <= p <= sorted@.len(),
        forall|q: int| 0 <= q < p ==> nat_cmp(#[trigger] attrs_view(sorted@)[q].0, key@) <= 0,
        p < sorted@.len() ==> nat_cmp(attrs_view(sorted@)[p as int].0, key@) > 0,
{
    let m = sorted.len();
    let mut p: usize = 0;
    while p < m
        invariant
            0 <= p <= m,
            m == sorted@.len(),
            forall|q: int| 0 <= q < p ==> nat_cmp(#[trigger] attrs_view(sorted@)[q].0, key@) <= 0,
        decreases m - p,
    {
        let here = str_chars(sorted[p].0.as_str());
        proof {
            assert(attrs_view(sorted@)[p as int] == (sorted@[p as int].0@, sorted@[p as int].1@));
        }
        let c = crate::natural::nat_compare(&here, key);
        if c > 0 {
            return p;
        }
        p += 1;
    }
    p
}

impl Tag {
    /// Serialize this record; does not change it. Attributes are laid
    /// out in natural order of their names.
    pub fn to_string(&self) -> (r: String)
        ensures
            r@ == tag_text(self@),
    {
        // arrange the pairs by natural order of their names
        let ghost view_attrs = attrs_view(self.attrs@);
        let mut sorted: Vec<(String, Variant)> = Vec::new();
        let n = self.attrs.len();
        let mut idx: usize = 0;
        proof {
            assert(view_attrs.take(0) =~= Seq::<(Seq<char>, VariantView)>::empty());
        }
        while idx < n
            invariant
                0 <= idx <= n,
                n == self.attrs@.len(),
                view_attrs == attrs_view(self.attrs@),
                attrs_view(sorted@) == sort_attrs(view_attrs.take(idx as int)),
            decreases n - idx,
        {
            let key_chars = str_chars(self.attrs[idx].0.as_str());
            let p = find_insert_pos(&sorted, &key_chars);
            let pair = (
                self.attrs[idx].0.clone(),
                self.attrs[idx].1.duplicate(),
            );
            let ghost old_sorted = attrs_view(sorted@);
            let ghost x = (self.attrs@[idx as int].0@, self.attrs@[idx as int].1@);
            sorted.insert(p, pair);
            proof {
                lemma_insert_at(x, old_sorted, p as int);
                assert(attrs_view(sorted@) =~= old_sorted.take(p as int) + seq![x]
                    + old_sorted.skip(p as int));
                assert(view_attrs.take(idx + 1).drop_last() =~= view_attrs.take(idx as int));
                assert(view_attrs.take(idx + 1).last() == view_attrs[idx as int]);
                assert(view_attrs[idx as int] == x);
                assert(attrs_view(sorted@) == sort_attrs(view_attrs.take(idx + 1)));
            }
            idx += 1;
        }
        proof {
            assert(view_attrs.take(n as int) =~= view_attrs);
        }
        // lay the text out
        let mut out: Vec<char> = Vec::new();
        out.push(':');
        let name_chars = str_chars(self.name.as_str());
        crate::text::push_all(&mut out, &name_chars);
        out.push('\n');
        let ghost head = seq![':'] + self@.name + seq!['\n'];
        proof {
            assert(out@ =~= head);
        }
        let ghost sorted_view = attrs_view(sorted@);
        let total = sorted.len();
        let mut k: usize = 0;
        proof {
            assert(sorted_view.take(0) =~= Seq::<(Seq<char>, VariantView)>::empty());
            assert(out@ =~= head + attr_lines(sorted_view.take(0)));
        }
        while k < total
            invariant
                0 <= k <= total,
                total == sorted.len(),
                sorted_view == attrs_view(sorted@),
                out@ == head + attr_lines(sorted_view.take(k as int)),
            decreases total - k,
        {
            let key_chars = str_chars(sorted[k].0.as_str());
            crate::text::push_all(&mut out, &key_chars);
            out.push('\t');
            out.push('=');
            out.push('\t');
            let value_text = sorted[k].1.to_string();
            let value_chars = str_chars(value_text.as_str());
            crate::text::push_all(&mut out, &value_chars);
            out.push('\n');
            proof {
                let x = sorted_view[k as int];
                assert(x == (sorted@[k as int].0@, sorted@[k as int].1@));
                assert(sorted_view.take(k + 1) =~= sorted_view.take(k as int).push(x));
                lemma_attr_lines_snoc(sorted_view.take(k as int), x);
                assert(out@ =~= head + attr_lines(sorted_view.take(k as int)) + attr_line(
                    x.0,
                    x.1,
                ));
                assert(out@ =~= head + attr_lines(sorted_view.take(k + 1)));
            }
            k += 1;
        }
        out.push('\n');
        proof {
            assert(sorted_view.take(total as int) =~= sorted_view);
            assert(out@ =~= tag_text(self@));
        }
        chars_string(&out)
    }

    /// A copy equal to this record.
    pub fn duplicate(&self) -> (r: Tag)
        ensures
            r@ == self@,
    {
        let name = self.name.clone();
        let n = self.attrs.len();
        let mut attrs: Vec<(String, Variant)> = Vec::new();
        while attrs.len() < n
            invariant
                attrs@.len() <= n,
                n == self.attrs@.len(),
                attrs_view(attrs@) == attrs_view(self.attrs@).take(attrs@.len() as int),
            decreases n - attrs.len(),
        {
            let i = attrs.len();
            let pair = (self.attrs[i].0.clone(), self.attrs[i].1.duplicate());
            attrs.push(pair);
            proof {
                assert(attrs_view(attrs@) =~= attrs_view(self.attrs@).take(i + 1));
            }
        }
        let r = Tag { name, attrs };
        proof {
            assert(attrs_view(self.attrs@).take(n as int) =~= attrs_view(self.attrs@));
            assert(r@ =~= self@);
        }
        r
    }
}

impl Variant {
    /// A copy equal to this value.
    pub fn duplicate(&self) -> (r: Variant)
        ensures
            r@ == self@,
    {
        match self {
            Variant::Int(n) => Variant::Int(*n),
            Variant::Float(b) => Variant::Float(*b),
            Variant::String(s) => Variant::String(s.clone()),
            Variant::Null => Variant::Null,
        }
    }
}

} // verus!
